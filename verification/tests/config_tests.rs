use matching_engine::config::{
    password_from_str, AccountEntry, AssetBalances, ConfigError, ExchangeConfig, TickerSymbol,
    TraderId,
};

fn entry(name: &str, pw: &str) -> AccountEntry {
    AccountEntry { trader_id: name.to_string(), password: pw.to_string() }
}

fn sample_config() -> ExchangeConfig {
    ExchangeConfig::new(
        vec!["AD".to_string(), "TS".to_string(), "TT".to_string()],
        vec![entry("Price_Enforcer", "penf"), entry("zev", "0000"), entry("trader1", "0001")],
        10000,
        100,
    )
    .ok()
    .unwrap()
}

#[test]
fn config_keeps_given_order() {
    let cfg = sample_config();
    assert_eq!(TickerSymbol::count(&cfg), 3);
    assert_eq!(TraderId::count(&cfg), 3);
    assert_eq!(TickerSymbol(1).name(&cfg), "TS");
    assert_eq!(TraderId(2).name(&cfg), "trader1");
    assert_eq!(TickerSymbol(2).as_bytes(&cfg), "TT".as_bytes());
    assert_eq!(TraderId(1).as_bytes(&cfg), "zev".as_bytes());
    assert_eq!(cfg.price_enforcer_id, TraderId(0));
    assert_eq!(cfg.trader_passwords[1], ['0', '0', '0', '0']);
    assert_eq!(cfg.start_cents_balance, 10000);
    assert_eq!(cfg.start_asset_balance, 100);
}

#[test]
fn config_all_lists_every_index() {
    let cfg = sample_config();
    let syms = TickerSymbol::all(&cfg);
    assert_eq!(syms, vec![TickerSymbol(0), TickerSymbol(1), TickerSymbol(2)]);
    let ids = TraderId::all(&cfg);
    assert_eq!(ids, vec![TraderId(0), TraderId(1), TraderId(2)]);
}

#[test]
fn config_from_str_finds_names() {
    let cfg = sample_config();
    assert_eq!(TickerSymbol::from_str(&cfg, "TT"), Ok(TickerSymbol(2)));
    assert_eq!(TickerSymbol::from_str(&cfg, "XX"), Err("Invalid ticker symbol"));
    assert_eq!(TraderId::from_str(&cfg, "zev"), Ok(TraderId(1)));
    assert_eq!(TraderId::from_str(&cfg, "nobody"), Err("Invalid trader ID"));
}

#[test]
fn config_is_price_enforcer() {
    let cfg = sample_config();
    assert!(TraderId(0).is_price_enforcer(&cfg));
    assert!(!TraderId(1).is_price_enforcer(&cfg));
}

#[test]
fn config_refuses_missing_price_enforcer() {
    let r = ExchangeConfig::new(vec!["AD".to_string()], vec![entry("zev", "0000")], 100, 1);
    assert_eq!(r.err(), Some(ConfigError::MissingPriceEnforcer));
}

#[test]
fn config_refuses_bad_password_length() {
    let r = ExchangeConfig::new(
        vec!["AD".to_string()],
        vec![entry("Price_Enforcer", "penf"), entry("zev", "00000"), entry("bob", "1")],
        100,
        1,
    );
    assert_eq!(r.err(), Some(ConfigError::PasswordLength(1)));
}

#[test]
fn config_first_duplicate_name_wins() {
    let cfg = ExchangeConfig::new(
        vec!["AD".to_string(), "AD".to_string()],
        vec![entry("zev", "0000"), entry("Price_Enforcer", "penf"), entry("Price_Enforcer", "pen2")],
        5,
        0,
    )
    .ok()
    .unwrap();
    assert_eq!(cfg.price_enforcer_id, TraderId(1));
    assert_eq!(TickerSymbol::from_str(&cfg, "AD"), Ok(TickerSymbol(0)));
}

#[test]
fn password_from_str_needs_four_chars() {
    assert_eq!(password_from_str("0042"), Some(['0', '0', '4', '2']));
    assert_eq!(password_from_str("004"), None);
    assert_eq!(password_from_str("00422"), None);
}

#[test]
fn asset_balances_new_and_set() {
    let cfg = sample_config();
    let mut b = AssetBalances::new(&cfg);
    assert_eq!(b.len(), 3);
    assert_eq!(*b.index_ref(&TickerSymbol(1)), 0);
    b.set(&TickerSymbol(1), 7);
    assert_eq!(*b.index_ref(&TickerSymbol(1)), 7);
    assert_eq!(*b.get(1), 7);
    assert_eq!(*b.index_ref(&TickerSymbol(0)), 0);
    let f = AssetBalances::filled(2, -3);
    assert_eq!(*f.get(0), -3);
    assert_eq!(*f.get(1), -3);
}
