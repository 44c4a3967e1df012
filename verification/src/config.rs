//! Exchange configuration: ticker symbols, trader ids, passwords and the
//! starting balances of every account.
use vstd::prelude::*;

verus! {

/// A four-character trader password.
pub type Password = [char; 4];

/// The name of the one account that trades without balance limits.
pub open spec fn price_enforcer_name() -> Seq<char> {
    seq!['P', 'r', 'i', 'c', 'e', '_', 'E', 'n', 'f', 'o', 'r', 'c', 'e', 'r']
}

/// Index of a ticker symbol in the configuration.
#[derive(Debug, Clone, Copy, PartialEq, Eq, Structural, Hash)]
pub struct TickerSymbol(pub u16);

/// Index of a trader in the configuration.
#[derive(Debug, Clone, Copy, PartialEq, Eq, Structural, Hash)]
pub struct TraderId(pub u16);

/// Why a configuration was refused.
#[derive(Debug, Clone, Copy, PartialEq, Eq, Structural)]
pub enum ConfigError {
    /// The password of the account at this index is not exactly four characters long.
    PasswordLength(usize),
    /// No account is named `Price_Enforcer`.
    MissingPriceEnforcer,
    /// More symbols than a `u16` index can name.
    TooManyTickers,
    /// More accounts than a `u16` index can name.
    TooManyTraders,
}

/// The immutable settings of one exchange run.
pub struct ExchangeConfig {
    pub ticker_names: Vec<String>,
    pub trader_names: Vec<String>,
    pub trader_passwords: Vec<Password>,
    pub start_cents_balance: u64,
    pub start_asset_balance: i64,
    pub price_enforcer_id: TraderId,
}

/// The characters of `s`, as a password, when there are exactly four of them.
pub open spec fn spec_password(s: Seq<char>) -> Option<Password> {
    if s.len() == 4 {
        Some([s[0], s[1], s[2], s[3]])
    } else {
        None
    }
}

/// The first index below `n` at which `p` holds, if there is one.
pub open spec fn first_where(n: int, p: spec_fn(int) -> bool) -> Option<int> {
    if exists|i: int| 0 <= i < n && #[trigger] p(i) {
        Some(choose|i: int| 0 <= i < n && #[trigger] p(i) && forall|j: int| 0 <= j < i ==> !#[trigger] p(j))
    } else {
        None
    }
}

/// `first_where` is the index found by a search from the start.
pub proof fn lemma_first_where_found(n: int, p: spec_fn(int) -> bool, i: int)
    requires
        0 <= i < n,
        p(i),
        forall|j: int| 0 <= j < i ==> !#[trigger] p(j),
    ensures
        first_where(n, p) == Some(i),
{
    let k = choose|k: int| 0 <= k < n && #[trigger] p(k) && forall|j: int| 0 <= j < k ==> !#[trigger] p(j);
    assert(0 <= k < n && p(k) && forall|j: int| 0 <= j < k ==> !#[trigger] p(j));
    if k < i {
        assert(!p(k));
    } else if k > i {
        assert(!p(i));
    }
}

/// What `first_where` promises of the index it returns.
pub proof fn lemma_first_where_some(n: int, p: spec_fn(int) -> bool)
    requires
        first_where(n, p) is Some,
    ensures
        0 <= first_where(n, p)->0 < n,
        p(first_where(n, p)->0),
        forall|j: int| 0 <= j < first_where(n, p)->0 ==> !#[trigger] p(j),
{
    let i = choose|i: int| 0 <= i < n && #[trigger] p(i);
    lemma_least_witness(n, p, i);
}

/// A predicate that holds somewhere below `n` holds at a least index.
proof fn lemma_least_witness(n: int, p: spec_fn(int) -> bool, i: int)
    requires
        0 <= i < n,
        p(i),
    ensures
        exists|k: int| 0 <= k < n && #[trigger] p(k) && forall|j: int| 0 <= j < k ==> !#[trigger] p(j),
    decreases i,
{
    if exists|j: int| 0 <= j < i && #[trigger] p(j) {
        let j = choose|j: int| 0 <= j < i && #[trigger] p(j);
        lemma_least_witness(n, p, j);
    } else {
        assert(0 <= i < n && p(i) && forall|j: int| 0 <= j < i ==> !#[trigger] p(j));
    }
}

/// `first_where` is `None` when `p` holds nowhere below `n`.
pub proof fn lemma_first_where_none(n: int, p: spec_fn(int) -> bool)
    requires
        forall|j: int| 0 <= j < n ==> !#[trigger] p(j),
    ensures
        first_where(n, p) is None,
{
}

/// Index of the first name in `names` equal to `target`, if any.
pub open spec fn first_position(names: Seq<Seq<char>>, target: Seq<char>) -> Option<int> {
    first_where(names.len() as int, name_is(names, target))
}

/// The predicate "the name at index `i` is `target`".
pub open spec fn name_is(names: Seq<Seq<char>>, target: Seq<char>) -> spec_fn(int) -> bool {
    |i: int| names[i] == target
}

/// Views of a vector of strings.
pub open spec fn names_view(v: Seq<String>) -> Seq<Seq<char>> {
    v.map_values(|s: String| s@)
}

impl ExchangeConfig {
    /// The configuration is usable: every index fits in a `u16`, every trader has a
    /// password and the price enforcer is the first account with that name.
    pub open spec fn wf(&self) -> bool {
        &&& self.ticker_names@.len() <= 65536
        &&& self.trader_names@.len() <= 65536
        &&& self.trader_passwords@.len() == self.trader_names@.len()
        &&& first_position(names_view(self.trader_names@), price_enforcer_name()) == Some(
            self.price_enforcer_id.0 as int,
        )
    }

    /// Number of configured symbols.
    pub open spec fn num_tickers(&self) -> nat {
        self.ticker_names@.len()
    }

    /// Number of configured traders.
    pub open spec fn num_traders(&self) -> nat {
        self.trader_names@.len()
    }
}


/// One account entry of the configuration file.
pub struct AccountEntry {
    pub trader_id: String,
    pub password: String,
}

/// The four characters of a password string, or `None` when it does not hold
/// exactly four characters.
pub fn password_from_str(s: &str) -> (r: Option<Password>)
    ensures
        r == spec_password(s@),
{
    let chars = chars_of(s);
    if chars.len() == 4 {
        Some([chars[0], chars[1], chars[2], chars[3]])
    } else {
        None
    }
}


/// The characters of a string, in order.
pub fn chars_of(s: &str) -> (r: Vec<char>)
    ensures
        r@ == s@,
{
    let mut chars: Vec<char> = Vec::new();
    for c in it: s.chars()
        invariant
            chars@ == it.seq().take(it.index() as int),
            it.seq() == s@,
    {
        chars.push(c);
    }
    assert(chars@ == s@);
    chars
}

/// Whether two character sequences are equal.
pub fn same_chars(a: &Vec<char>, b: &Vec<char>) -> (r: bool)
    ensures
        r == (a@ == b@),
{
    if a.len() != b.len() {
        return false;
    }
    let mut i: usize = 0;
    while i < a.len()
        invariant
            i <= a@.len(),
            a@.len() == b@.len(),
            forall|j: int| 0 <= j < i ==> a@[j] == b@[j],
        decreases a@.len() - i,
    {
        if a[i] != b[i] {
            return false;
        }
        i = i + 1;
    }
    assert(a@ =~= b@);
    true
}

/// Index of the first name in `names` spelled as `target`.
pub fn find_first_chars(names: &Vec<String>, target: &Vec<char>) -> (r: Option<usize>)
    ensures
        match r {
            Some(i) => first_position(names_view(names@), target@) == Some(i as int),
            None => first_position(names_view(names@), target@) is None,
        },
{
    let ghost nv = names_view(names@);
    let ghost p = name_is(nv, target@);
    let mut i: usize = 0;
    while i < names.len()
        invariant
            i <= names.len(),
            nv == names_view(names@),
            p == name_is(nv, target@),
            forall|j: int| 0 <= j < i ==> !#[trigger] p(j),
        decreases names.len() - i,
    {
        let name = chars_of(names[i].as_str());
        if same_chars(&name, target) {
            proof {
                lemma_first_where_found(nv.len() as int, p, i as int);
            }
            return Some(i);
        }
        i = i + 1;
    }
    proof {
        lemma_first_where_none(nv.len() as int, p);
    }
    None
}

/// Views of the names in a list of account entries.
pub open spec fn entry_names(v: Seq<AccountEntry>) -> Seq<Seq<char>> {
    v.map_values(|a: AccountEntry| a.trader_id@)
}

/// Index of the first account entry whose password is not four characters long.
pub open spec fn first_bad_password(v: Seq<AccountEntry>) -> Option<int> {
    first_where(v.len() as int, bad_password(v))
}

/// The predicate "the password at index `i` is not four characters long".
pub open spec fn bad_password(v: Seq<AccountEntry>) -> spec_fn(int) -> bool {
    |i: int| spec_password(v[i].password@) is None
}

/// The error that `ExchangeConfig::new` reports for these settings, if any.
pub open spec fn config_error(num_tickers: nat, accounts: Seq<AccountEntry>) -> Option<ConfigError> {
    if num_tickers > 65536 {
        Some(ConfigError::TooManyTickers)
    } else if accounts.len() > 65536 {
        Some(ConfigError::TooManyTraders)
    } else if first_bad_password(accounts) is Some {
        Some(ConfigError::PasswordLength(first_bad_password(accounts)->0 as usize))
    } else if first_position(entry_names(accounts), price_enforcer_name()) is None {
        Some(ConfigError::MissingPriceEnforcer)
    } else {
        None
    }
}

/// Index of the first entry in `names` equal to `target`, searching from the start.
fn find_first(names: &Vec<String>, target: &String) -> (r: Option<usize>)
    ensures
        match r {
            Some(i) => first_position(names_view(names@), target@) == Some(i as int),
            None => first_position(names_view(names@), target@) is None,
        },
{
    let ghost nv = names_view(names@);
    let ghost p = name_is(nv, target@);
    let mut i: usize = 0;
    while i < names.len()
        invariant
            i <= names.len(),
            nv == names_view(names@),
            p == name_is(nv, target@),
            forall|j: int| 0 <= j < i ==> !#[trigger] p(j),
        decreases names.len() - i,
    {
        if names[i] == *target {
            proof {
                lemma_first_where_found(nv.len() as int, p, i as int);
            }
            return Some(i);
        }
        i = i + 1;
    }
    proof {
        lemma_first_where_none(nv.len() as int, p);
    }
    None
}

impl ExchangeConfig {
    /// Builds the configuration from the settings read at start-up.
    ///
    /// The symbols and accounts keep the order in which they are given; the price
    /// enforcer is the first account named `Price_Enforcer`.
    pub fn new(
        ticker_names: Vec<String>,
        accounts: Vec<AccountEntry>,
        start_cents_balance: u64,
        start_asset_balance: i64,
    ) -> (r: Result<ExchangeConfig, ConfigError>)
        ensures
            match r {
                Err(e) => config_error(ticker_names@.len(), accounts@) == Some(e),
                Ok(cfg) => {
                    &&& config_error(ticker_names@.len(), accounts@) is None
                    &&& cfg.wf()
                    &&& cfg.ticker_names@ == ticker_names@
                    &&& names_view(cfg.trader_names@) == entry_names(accounts@)
                    &&& forall|i: int|
                        0 <= i < accounts@.len() ==> Some(#[trigger] cfg.trader_passwords@[i])
                            == spec_password(accounts@[i].password@)
                    &&& cfg.start_cents_balance == start_cents_balance
                    &&& cfg.start_asset_balance == start_asset_balance
                    &&& Some(cfg.price_enforcer_id.0 as int) == first_position(
                        entry_names(accounts@),
                        price_enforcer_name(),
                    )
                },
            },
    {
        if ticker_names.len() > 65536 {
            return Err(ConfigError::TooManyTickers);
        }
        if accounts.len() > 65536 {
            return Err(ConfigError::TooManyTraders);
        }
        let ghost bad = bad_password(accounts@);
        let mut trader_names: Vec<String> = Vec::new();
        let mut trader_passwords: Vec<Password> = Vec::new();
        let mut i: usize = 0;
        while i < accounts.len()
            invariant
                i <= accounts@.len(),
                accounts@.len() <= 65536,
                ticker_names@.len() <= 65536,
                bad == bad_password(accounts@),
                trader_names@.len() == i,
                trader_passwords@.len() == i,
                forall|j: int| 0 <= j < i ==> (#[trigger] trader_names@[j])@ == accounts@[j].trader_id@,
                forall|j: int|
                    0 <= j < i ==> Some(#[trigger] trader_passwords@[j]) == spec_password(
                        accounts@[j].password@,
                    ),
            decreases accounts.len() - i,
        {
            match password_from_str(accounts[i].password.as_str()) {
                Some(pw) => {
                    trader_passwords.push(pw);
                },
                None => {
                    proof {
                        assert forall|j: int| 0 <= j < i implies !#[trigger] bad(j) by {
                            assert(Some(trader_passwords@[j]) == spec_password(
                                accounts@[j].password@,
                            ));
                        }
                        lemma_first_where_found(accounts@.len() as int, bad, i as int);
                        assert(first_bad_password(accounts@) == Some(i as int));
                        assert(config_error(ticker_names@.len(), accounts@) == Some(
                            ConfigError::PasswordLength(i),
                        ));
                    }
                    return Err(ConfigError::PasswordLength(i));
                },
            }
            trader_names.push(accounts[i].trader_id.clone());
            i = i + 1;
        }
        proof {
            assert forall|j: int| 0 <= j < accounts@.len() implies !#[trigger] bad(j) by {
                assert(Some(trader_passwords@[j]) == spec_password(accounts@[j].password@));
            }
            lemma_first_where_none(accounts@.len() as int, bad);
        }
        assert(names_view(trader_names@) =~= entry_names(accounts@));
        let pe_name = "Price_Enforcer".to_string();
        proof {
            reveal_strlit("Price_Enforcer");
            assert(pe_name@ =~= price_enforcer_name());
        }
        let found = find_first(&trader_names, &pe_name);
        proof {
            if found is Some {
                lemma_first_where_some(
                    trader_names@.len() as int,
                    name_is(entry_names(accounts@), price_enforcer_name()),
                );
            }
            assert(first_bad_password(accounts@) is None);
        }
        match found {
            Some(pos) => {
                Ok(
                    ExchangeConfig {
                        ticker_names,
                        trader_names,
                        trader_passwords,
                        start_cents_balance,
                        start_asset_balance,
                        price_enforcer_id: TraderId(pos as u16),
                    },
                )
            },
            None => Err(ConfigError::MissingPriceEnforcer),
        }
    }
}

impl TickerSymbol {
    /// The symbol's name as configured.
    pub fn name<'a>(&self, cfg: &'a ExchangeConfig) -> (r: &'a str)
        requires
            (self.0 as int) < cfg.num_tickers(),
        ensures
            r@ == cfg.ticker_names@[self.0 as int]@,
    {
        cfg.ticker_names[self.0 as usize].as_str()
    }

    /// The UTF-8 bytes of the symbol's name.
    pub fn as_bytes<'a>(&self, cfg: &'a ExchangeConfig) -> (r: &'a [u8])
        requires
            (self.0 as int) < cfg.num_tickers(),
        ensures
            r@ == vstd::utf8::encode_utf8(cfg.ticker_names@[self.0 as int]@),
    {
        self.name(cfg).as_bytes()
    }

    /// Number of configured symbols.
    pub fn count(cfg: &ExchangeConfig) -> (r: usize)
        ensures
            r == cfg.num_tickers(),
    {
        cfg.ticker_names.len()
    }

    /// Every configured symbol, in configuration order.
    pub fn all(cfg: &ExchangeConfig) -> (r: Vec<TickerSymbol>)
        requires
            cfg.wf(),
        ensures
            r@.len() == cfg.num_tickers(),
            forall|i: int| 0 <= i < r@.len() ==> (#[trigger] r@[i]).0 == i,
    {
        let n = Self::count(cfg);
        let mut r: Vec<TickerSymbol> = Vec::new();
        let mut i: usize = 0;
        while i < n
            invariant
                i <= n,
                n == cfg.num_tickers(),
                n <= 65536,
                r@.len() == i,
                forall|j: int| 0 <= j < i ==> (#[trigger] r@[j]).0 == j,
            decreases n - i,
        {
            r.push(TickerSymbol(i as u16));
            i = i + 1;
        }
        r
    }

    /// The symbol with this name: the first configured one when names repeat.
    pub fn from_str(cfg: &ExchangeConfig, s: &str) -> (r: Result<TickerSymbol, &'static str>)
        requires
            cfg.wf(),
        ensures
            match r {
                Ok(t) => first_position(names_view(cfg.ticker_names@), s@) == Some(t.0 as int),
                Err(e) => {
                    &&& first_position(names_view(cfg.ticker_names@), s@) is None
                    &&& e@ == "Invalid ticker symbol"@
                },
            },
    {
        let target = s.to_string();
        match find_first(&cfg.ticker_names, &target) {
            Some(i) => {
                proof {
                    lemma_first_where_some(
                        cfg.ticker_names@.len() as int,
                        name_is(names_view(cfg.ticker_names@), s@),
                    );
                }
                Ok(TickerSymbol(i as u16))
            },
            None => Err("Invalid ticker symbol"),
        }
    }
}

impl TraderId {
    /// The trader's name as configured.
    pub fn name<'a>(&self, cfg: &'a ExchangeConfig) -> (r: &'a str)
        requires
            (self.0 as int) < cfg.num_traders(),
        ensures
            r@ == cfg.trader_names@[self.0 as int]@,
    {
        cfg.trader_names[self.0 as usize].as_str()
    }

    /// The UTF-8 bytes of the trader's name.
    pub fn as_bytes<'a>(&self, cfg: &'a ExchangeConfig) -> (r: &'a [u8])
        requires
            (self.0 as int) < cfg.num_traders(),
        ensures
            r@ == vstd::utf8::encode_utf8(cfg.trader_names@[self.0 as int]@),
    {
        self.name(cfg).as_bytes()
    }

    /// Whether this is the account that trades without balance limits.
    pub fn is_price_enforcer(&self, cfg: &ExchangeConfig) -> (r: bool)
        ensures
            r == (*self == cfg.price_enforcer_id),
    {
        *self == cfg.price_enforcer_id
    }

    /// Number of configured traders.
    pub fn count(cfg: &ExchangeConfig) -> (r: usize)
        ensures
            r == cfg.num_traders(),
    {
        cfg.trader_names.len()
    }

    /// Every configured trader, in configuration order.
    pub fn all(cfg: &ExchangeConfig) -> (r: Vec<TraderId>)
        requires
            cfg.wf(),
        ensures
            r@.len() == cfg.num_traders(),
            forall|i: int| 0 <= i < r@.len() ==> (#[trigger] r@[i]).0 == i,
    {
        let n = Self::count(cfg);
        let mut r: Vec<TraderId> = Vec::new();
        let mut i: usize = 0;
        while i < n
            invariant
                i <= n,
                n == cfg.num_traders(),
                n <= 65536,
                r@.len() == i,
                forall|j: int| 0 <= j < i ==> (#[trigger] r@[j]).0 == j,
            decreases n - i,
        {
            r.push(TraderId(i as u16));
            i = i + 1;
        }
        r
    }

    /// The trader with this name: the first configured one when names repeat.
    pub fn from_str(cfg: &ExchangeConfig, s: &str) -> (r: Result<TraderId, &'static str>)
        requires
            cfg.wf(),
        ensures
            match r {
                Ok(t) => first_position(names_view(cfg.trader_names@), s@) == Some(t.0 as int),
                Err(e) => {
                    &&& first_position(names_view(cfg.trader_names@), s@) is None
                    &&& e@ == "Invalid trader ID"@
                },
            },
    {
        let target = s.to_string();
        match find_first(&cfg.trader_names, &target) {
            Some(i) => {
                proof {
                    lemma_first_where_some(
                        cfg.trader_names@.len() as int,
                        name_is(names_view(cfg.trader_names@), s@),
                    );
                }
                Ok(TraderId(i as u16))
            },
            None => Err("Invalid trader ID"),
        }
    }
}

/// One balance per configured symbol, indexed by the symbol.
pub struct AssetBalances {
    balances: Vec<i64>,
}

impl View for AssetBalances {
    type V = Seq<i64>;

    closed spec fn view(&self) -> Seq<i64> {
        self.balances@
    }
}

impl AssetBalances {
    /// A zero balance for every configured symbol.
    pub fn new(cfg: &ExchangeConfig) -> (r: AssetBalances)
        ensures
            r@.len() == cfg.num_tickers(),
            forall|i: int| 0 <= i < r@.len() ==> #[trigger] r@[i] == 0,
    {
        Self::filled(TickerSymbol::count(cfg), 0)
    }

    /// The same balance `value` for each of `n` symbols.
    pub fn filled(n: usize, value: i64) -> (r: AssetBalances)
        ensures
            r@.len() == n,
            forall|i: int| 0 <= i < r@.len() ==> #[trigger] r@[i] == value,
    {
        let mut balances: Vec<i64> = Vec::new();
        let mut i: usize = 0;
        while i < n
            invariant
                i <= n,
                balances@.len() == i,
                forall|j: int| 0 <= j < i ==> #[trigger] balances@[j] == value,
            decreases n - i,
        {
            balances.push(value);
            i = i + 1;
        }
        AssetBalances { balances }
    }

    /// Number of symbols held.
    pub fn len(&self) -> (r: usize)
        ensures
            r == self@.len(),
    {
        self.balances.len()
    }

    /// The balance held in `symbol`.
    pub fn index_ref(&self, symbol: &TickerSymbol) -> (r: &i64)
        requires
            (symbol.0 as int) < self@.len(),
        ensures
            *r == self@[symbol.0 as int],
    {
        &self.balances[symbol.0 as usize]
    }

    /// The balance at position `i`.
    pub fn get(&self, i: usize) -> (r: &i64)
        requires
            i < self@.len(),
        ensures
            *r == self@[i as int],
    {
        &self.balances[i]
    }

    /// Replaces the balance held in `symbol`.
    pub fn set(&mut self, symbol: &TickerSymbol, value: i64)
        requires
            (symbol.0 as int) < old(self)@.len(),
        ensures
            final(self)@ == old(self)@.update(symbol.0 as int, value),
    {
        self.balances.set(symbol.0 as usize, value);
    }
}

} // verus!
