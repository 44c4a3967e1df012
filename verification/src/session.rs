//! One trader's connection: checking the credentials it opens with, limiting how
//! fast it may send orders, and deciding what each message it sends is answered.
use vstd::prelude::*;

use crate::config::{
    chars_of, find_first_chars, first_position, first_where, lemma_first_where_found,
    lemma_first_where_none, lemma_first_where_some, names_view, spec_password, ExchangeConfig,
    Password, TraderId,
};
use crate::exchange::{
    accounts_view, add_order, cancel_order, cancel_outcome, enforcer_headroom, free_shares_nonneg,
    has_headroom, order_outcome, GlobalAccountState,
};
use crate::game::GlobalState;
use crate::messages::{
    CancelError, CancelErrorMessage, IncomingMessage, Notification, OrderCancelResponse,
    OrderPlaceError, OrderPlaceErrorMessage, OrderPlaceResponse,
};

verus! {

/// Why the credentials a connection opened with were refused.
#[derive(Debug, Clone, Copy, PartialEq, Eq, Structural)]
pub enum AuthError {
    /// No credentials were sent.
    MissingCredentials,
    /// The credentials are not of the form `<trader>|<password>`.
    InvalidFormat,
    /// No trader has that name.
    InvalidTraderId,
    /// The password does not have four characters; it has this many.
    PasswordLength(usize),
    /// The password is not the trader's.
    InvalidCredentials,
}

/// The predicate "the character at index `i` is a bar".
pub open spec fn is_bar(s: Seq<char>) -> spec_fn(int) -> bool {
    |i: int| s[i] == '|'
}

/// The two parts of a `<trader>|<password>` string: the text before and after its
/// only bar, or `None` when it has no bar or more than one.
pub open spec fn split_credentials(s: Seq<char>) -> Option<(Seq<char>, Seq<char>)> {
    match first_where(s.len() as int, is_bar(s)) {
        None => None,
        Some(i) => if exists|j: int| i < j < s.len() && #[trigger] s[j] == '|' {
            None
        } else {
            Some((s.take(i), s.skip(i + 1)))
        },
    }
}

/// The outcome of opening a connection with credentials `protocol`.
pub open spec fn auth_outcome(cfg: &ExchangeConfig, passwords: Seq<Password>, protocol: Option<Seq<char>>) -> Result<TraderId, AuthError> {
    match protocol {
        None => Err(AuthError::MissingCredentials),
        Some(s) => match split_credentials(s) {
            None => Err(AuthError::InvalidFormat),
            Some((name, pw)) => match first_position(names_view(cfg.trader_names@), name) {
                None => Err(AuthError::InvalidTraderId),
                Some(t) => if pw.len() != 4 {
                    Err(AuthError::PasswordLength(pw.len() as usize))
                } else if spec_password(pw) != Some(passwords[t]) {
                    Err(AuthError::InvalidCredentials)
                } else {
                    Ok(TraderId(t as u16))
                },
            },
        },
    }
}

/// The stored password of every account.
pub open spec fn stored_passwords(accounts: &GlobalAccountState) -> Seq<Password> {
    accounts_view(accounts.accounts@).map_values(|a: crate::accounts::AccountView| a.password)
}

/// Checks the credentials a trading connection opens with, given as
/// `<trader>|<password>`, and names the trader they belong to.
#[verifier::spinoff_prover]
pub fn authenticate(cfg: &ExchangeConfig, accounts: &GlobalAccountState, protocol: Option<&str>) -> (r: Result<TraderId, AuthError>)
    requires
        cfg.wf(),
        accounts.accounts@.len() == cfg.num_traders(),
    ensures
        r == auth_outcome(cfg, stored_passwords(accounts), match protocol {
            Some(p) => Some(p@),
            None => None,
        }),
{
    let text = match protocol {
        None => return Err(AuthError::MissingCredentials),
        Some(p) => p,
    };
    let chars = chars_of(text);
    let ghost s = chars@;
    // Find the first bar, and whether another follows it.
    let mut i: usize = 0;
    while i < chars.len() && chars[i] != '|'
        invariant
            i <= s.len(),
            s == chars@,
            forall|j: int| 0 <= j < i ==> !#[trigger] is_bar(s)(j),
        decreases s.len() - i,
    {
        i = i + 1;
    }
    if i == chars.len() {
        proof {
            lemma_first_where_none(s.len() as int, is_bar(s));
        }
        return Err(AuthError::InvalidFormat);
    }
    proof {
        lemma_first_where_found(s.len() as int, is_bar(s), i as int);
    }
    let mut k: usize = i + 1;
    while k < chars.len()
        invariant
            i < k <= s.len(),
            s == chars@,
            first_where(s.len() as int, is_bar(s)) == Some(i as int),
            protocol == Some(text),
            s == text@,
            forall|j: int| i < j < k ==> #[trigger] s[j] != '|',
        decreases s.len() - k,
    {
        if chars[k] == '|' {
            assert(s[k as int] == '|');
            return Err(AuthError::InvalidFormat);
        }
        k = k + 1;
    }
    let mut name: Vec<char> = Vec::new();
    let mut j: usize = 0;
    while j < i
        invariant
            j <= i < s.len(),
            s == chars@,
            name@ == s.take(j as int),
        decreases i - j,
    {
        name.push(chars[j]);
        assert(s.take(j + 1) =~= s.take(j as int).push(s[j as int]));
        j = j + 1;
    }
    let mut pw: Vec<char> = Vec::new();
    let mut j: usize = i + 1;
    while j < chars.len()
        invariant
            i < j <= s.len(),
            s == chars@,
            pw@ == s.subrange(i + 1, j as int),
        decreases s.len() - j,
    {
        pw.push(chars[j]);
        assert(s.subrange(i + 1, j + 1) =~= s.subrange(i + 1, j as int).push(s[j as int]));
        j = j + 1;
    }
    assert(pw@ =~= s.skip(i + 1));
    let t = match find_first_chars(&cfg.trader_names, &name) {
        None => return Err(AuthError::InvalidTraderId),
        Some(t) => t,
    };
    proof {
        lemma_first_where_some(cfg.trader_names@.len() as int, crate::config::name_is(names_view(cfg.trader_names@), name@));
    }
    let stored = accounts.accounts[t].password;
    assert(stored_passwords(accounts)[t as int] == stored);
    if pw.len() != 4 {
        return Err(AuthError::PasswordLength(pw.len()));
    }
    if pw[0] != stored[0] || pw[1] != stored[1] || pw[2] != stored[2] || pw[3] != stored[3] {
        proof {
            if spec_password(pw@) == Some(stored) {
                assert(pw@[0] == stored[0] && pw@[1] == stored[1] && pw@[2] == stored[2] && pw@[3] == stored[3]);
            }
        }
        return Err(AuthError::InvalidCredentials);
    }
    proof {
        assert(spec_password(pw@) == Some([pw@[0], pw@[1], pw@[2], pw@[3]]));
        assert([pw@[0], pw@[1], pw@[2], pw@[3]] =~= stored);
    }
    Ok(TraderId(t as u16))
}


/// Most order and cancel requests a connection may have admitted in one window.
pub const RATE_LIMIT: usize = 10;

/// Length of the sliding window of the rate limit, in milliseconds.
pub const RATE_WINDOW_MS: u64 = 1000;

/// The admission times among `stamps` that are still inside the window ending at
/// `now`, in order.
pub open spec fn recent(stamps: Seq<u64>, now: u64) -> Seq<u64>
    decreases stamps.len(),
{
    if stamps.len() == 0 {
        Seq::empty()
    } else {
        let init = recent(stamps.drop_last(), now);
        if now < stamps.last() + RATE_WINDOW_MS {
            init.push(stamps.last())
        } else {
            init
        }
    }
}

/// Keeping the recent admission times keeps no more than there were.
pub proof fn lemma_recent_len(stamps: Seq<u64>, now: u64)
    ensures
        recent(stamps, now).len() <= stamps.len(),
    decreases stamps.len(),
{
    if stamps.len() > 0 {
        lemma_recent_len(stamps.drop_last(), now);
    }
}

/// The times at which one connection's requests were admitted, within the last
/// window.
pub struct RateLimiter {
    stamps: Vec<u64>,
}

impl View for RateLimiter {
    type V = Seq<u64>;

    closed spec fn view(&self) -> Seq<u64> {
        self.stamps@
    }
}

impl RateLimiter {
    /// A limiter that has admitted nothing yet.
    pub fn new() -> (r: RateLimiter)
        ensures
            r@ == Seq::<u64>::empty(),
    {
        RateLimiter { stamps: Vec::new() }
    }

    /// Admits a request made at `now` (in milliseconds) if fewer than `RATE_LIMIT`
    /// requests were admitted within the window before it, and records it.
    pub fn try_acquire(&mut self, now: u64) -> (r: bool)
        ensures
            r == (recent(old(self)@, now).len() < RATE_LIMIT),
            final(self)@ == if r {
                recent(old(self)@, now).push(now)
            } else {
                recent(old(self)@, now)
            },
            old(self)@.len() <= RATE_LIMIT ==> final(self)@.len() <= RATE_LIMIT,
    {
        let ghost old_stamps = self.stamps@;
        let mut kept: Vec<u64> = Vec::new();
        let mut i: usize = 0;
        assert(old_stamps.take(0) =~= Seq::<u64>::empty());
        while i < self.stamps.len()
            invariant
                i <= old_stamps.len(),
                old_stamps == self.stamps@,
                kept@ == recent(old_stamps.take(i as int), now),
            decreases old_stamps.len() - i,
        {
            let t = self.stamps[i];
            assert(old_stamps.take(i + 1).drop_last() =~= old_stamps.take(i as int));
            assert(old_stamps.take(i + 1).last() == t);
            if (now as u128) < (t as u128) + (RATE_WINDOW_MS as u128) {
                kept.push(t);
            }
            i = i + 1;
        }
        assert(old_stamps.take(i as int) =~= old_stamps);
        proof {
            lemma_recent_len(old_stamps, now);
        }
        let admitted = kept.len() < RATE_LIMIT;
        if admitted {
            kept.push(now);
        }
        self.stamps = kept;
        admitted
    }
}

/// The limiter's admission times and its answers after requests made at `times`,
/// one `try_acquire` each, starting from a new limiter.
pub open spec fn limiter_run(times: Seq<u64>) -> (Seq<u64>, Seq<bool>)
    decreases times.len(),
{
    if times.len() == 0 {
        (Seq::empty(), Seq::empty())
    } else {
        let prev = limiter_run(times.drop_last());
        let now = times.last();
        let kept = recent(prev.0, now);
        let ok = kept.len() < RATE_LIMIT;
        (if ok { kept.push(now) } else { kept }, prev.1.push(ok))
    }
}

/// The times of the admitted requests among the first `k` that are still inside the
/// window ending at `t`, in order.
pub open spec fn window(times: Seq<u64>, admitted: Seq<bool>, k: int, t: u64) -> Seq<u64>
    decreases k,
{
    if k <= 0 {
        Seq::empty()
    } else {
        let w = window(times, admitted, k - 1, t);
        if admitted[k - 1] && t < times[k - 1] + RATE_WINDOW_MS {
            w.push(times[k - 1])
        } else {
            w
        }
    }
}

/// The request times never go back.
pub open spec fn nondecreasing(times: Seq<u64>) -> bool {
    forall|i: int, j: int| 0 <= i <= j < times.len() ==> times[i] <= times[j]
}

/// Narrowing the window twice is narrowing it to the later end.
proof fn lemma_recent_twice(s: Seq<u64>, t1: u64, t2: u64)
    requires
        t1 <= t2,
    ensures
        recent(recent(s, t1), t2) == recent(s, t2),
    decreases s.len(),
{
    if s.len() > 0 {
        lemma_recent_twice(s.drop_last(), t1, t2);
        let r1 = recent(s.drop_last(), t1);
        if t1 < s.last() + RATE_WINDOW_MS {
            assert(r1.push(s.last()).drop_last() =~= r1);
        }
    }
}

/// The window of the first `k` requests depends only on those requests.
proof fn lemma_window_prefix(times: Seq<u64>, adm: Seq<bool>, times2: Seq<u64>, adm2: Seq<bool>, k: int, t: u64)
    requires
        0 <= k <= times.len(),
        k <= times2.len(),
        k <= adm.len(),
        k <= adm2.len(),
        forall|j: int| 0 <= j < k ==> times[j] == times2[j] && adm[j] == adm2[j],
    ensures
        window(times, adm, k, t) == window(times2, adm2, k, t),
    decreases k,
{
    if k > 0 {
        lemma_window_prefix(times, adm, times2, adm2, k - 1, t);
    }
}

/// What a run of the limiter keeps and admits: it keeps exactly the admitted times
/// inside the current window, and never more than `RATE_LIMIT` of them.
#[verifier::spinoff_prover]
proof fn lemma_limiter_run(times: Seq<u64>)
    requires
        nondecreasing(times),
    ensures
        limiter_run(times).1.len() == times.len(),
        limiter_run(times).0.len() <= RATE_LIMIT,
        forall|t: u64| (times.len() == 0 || t >= times.last()) ==> #[trigger] recent(limiter_run(times).0, t)
            == window(times, limiter_run(times).1, times.len() as int, t),
        forall|k: int| 0 <= k < times.len() ==> #[trigger] window(times, limiter_run(times).1, k + 1, times[k]).len() <= RATE_LIMIT,
    decreases times.len(),
{
    if times.len() > 0 {
        let init = times.drop_last();
        let x = times.last();
        let n = init.len() as int;
        assert(nondecreasing(init)) by {
            assert forall|i: int, j: int| 0 <= i <= j < init.len() implies init[i] <= init[j] by {
                assert(init[i] == times[i] && init[j] == times[j]);
            }
        }
        lemma_limiter_run(init);
        let (st, adm) = limiter_run(init);
        let kept = recent(st, x);
        let ok = kept.len() < RATE_LIMIT;
        let st2 = if ok { kept.push(x) } else { kept };
        let adm2 = adm.push(ok);
        assert(limiter_run(times) == (st2, adm2));
        if n > 0 {
            assert(x >= init.last());
        }
        assert(kept == window(init, adm, n, x));
        lemma_recent_len(st, x);
        assert forall|j: int| 0 <= j < n implies init[j] == times[j] && adm[j] == adm2[j] by {}
        // The kept times are the window of the earlier requests at any later time.
        assert forall|t: u64| t >= x implies #[trigger] recent(st2, t) == window(times, adm2, n + 1, t) by {
            lemma_recent_twice(st, x, t);
            lemma_window_prefix(init, adm, times, adm2, n, t);
            if n > 0 {
                assert(t >= init.last());
            }
            assert(recent(st, t) == window(init, adm, n, t));
            if ok {
                assert(kept.push(x).drop_last() =~= kept);
            }
        }
        // Windows ending at earlier requests are as before.
        assert forall|k: int| 0 <= k < times.len() implies #[trigger] window(times, adm2, k + 1, times[k]).len() <= RATE_LIMIT by {
            if k < n {
                lemma_window_prefix(init, adm, times, adm2, k + 1, times[k]);
                assert(init[k] == times[k]);
            } else {
                lemma_window_prefix(init, adm, times, adm2, n, x);
                assert(window(times, adm2, n + 1, x).len() == kept.len() + if ok { 1int } else { 0int });
            }
        }
    }
}

/// A connection's requests made at nondecreasing `times`, each checked by
/// `try_acquire` from a new limiter, have at most `RATE_LIMIT` admitted in any
/// window of `RATE_WINDOW_MS` that ends at one of them.
pub proof fn law_rate_limit(times: Seq<u64>)
    requires
        nondecreasing(times),
    ensures
        forall|k: int| 0 <= k < times.len() ==> #[trigger] window(times, limiter_run(times).1, k + 1, times[k]).len() <= RATE_LIMIT,
{
    lemma_limiter_run(times);
}

/// How long a connection may stay silent before it is dropped, in milliseconds.
pub const CLIENT_TIMEOUT_MS: u64 = 10_000;

/// Whether a connection last heard from at `last_seen` (in milliseconds) has timed
/// out at `now`.
pub fn client_timed_out(last_seen: u64, now: u64) -> (r: bool)
    ensures
        r == (now > last_seen + CLIENT_TIMEOUT_MS),
{
    now > last_seen && now - last_seen > CLIENT_TIMEOUT_MS
}

/// What to do with a new trading connection for a trader.
#[derive(Debug, Clone, Copy, PartialEq, Eq, Structural)]
pub enum ConnectDecision {
    /// The trader had no connection: this one becomes its connection.
    Register,
    /// The trader is connected already, but this connection is the monitoring
    /// service's: serve it and keep the trader's connection.
    KeepExisting,
    /// The trader is connected already: close this one.
    Reject,
}

/// Decides about a new connection for a trader who `already_connected` or not,
/// coming from the monitoring service or not.
pub fn connect_decision(already_connected: bool, from_monitor: bool) -> (r: ConnectDecision)
    ensures
        r == if !already_connected {
            ConnectDecision::Register
        } else if from_monitor {
            ConnectDecision::KeepExisting
        } else {
            ConnectDecision::Reject
        },
{
    if !already_connected {
        ConnectDecision::Register
    } else if from_monitor {
        ConnectDecision::KeepExisting
    } else {
        ConnectDecision::Reject
    }
}


/// Why a trader's message was refused before it reached the exchange.
#[derive(Debug, Clone, Copy, PartialEq, Eq, Structural)]
pub enum SessionError {
    GameNotStarted,
    InvalidPassword,
    TraderMismatch,
}

impl SessionError {
    /// The text sent to the trader.
    pub fn details(&self) -> (r: &'static str)
        ensures
            r@ == self.spec_details(),
    {
        match self {
            SessionError::GameNotStarted => "Game has not started yet.",
            SessionError::InvalidPassword => "invalid password for provided trader id.",
            SessionError::TraderMismatch => "TraderId does not match authenticated connection.",
        }
    }

    /// The text sent, as characters.
    pub open spec fn spec_details(&self) -> Seq<char> {
        match self {
            SessionError::GameNotStarted => "Game has not started yet."@,
            SessionError::InvalidPassword => "invalid password for provided trader id."@,
            SessionError::TraderMismatch => "TraderId does not match authenticated connection."@,
        }
    }
}

/// The answer to a trader's message.
#[derive(Debug, Clone, Copy, PartialEq, Eq, Structural)]
pub enum Reply {
    /// The message was refused.
    Error(SessionError),
    /// The answer to an order request.
    Order(OrderPlaceResponse),
    /// The answer to a cancel request.
    Cancel(OrderCancelResponse),
    /// The trader's account, to be sent back.
    AccountInfo(TraderId),
    /// Every book, to be sent back.
    GameState,
}

/// One trader's trading connection.
pub struct Session {
    /// The trader the connection authenticated as.
    pub trader: TraderId,
    pub limiter: RateLimiter,
}

impl Session {
    /// A new connection for `trader`, with nothing admitted yet.
    pub fn new(trader: TraderId) -> (r: Session)
        ensures
            r.trader == trader,
            r.limiter@ == Seq::<u64>::empty(),
    {
        Session { trader, limiter: RateLimiter::new() }
    }
}

/// Every trader and symbol a message names is configured.
pub open spec fn message_ids_ok(cfg: &ExchangeConfig, msg: IncomingMessage) -> bool {
    match msg {
        IncomingMessage::OrderRequest(r) => (r.trader_id.0 as int) < cfg.num_traders() && (r.symbol.0 as int) < cfg.num_tickers(),
        IncomingMessage::CancelRequest(r) => (r.trader_id.0 as int) < cfg.num_traders() && (r.symbol.0 as int) < cfg.num_tickers(),
        IncomingMessage::AccountInfoRequest(r) => (r.trader_id.0 as int) < cfg.num_traders(),
        IncomingMessage::GameStateRequest => true,
    }
}

/// Two passwords are the same.
pub open spec fn same_password(a: Password, b: Password) -> bool {
    a[0] == b[0] && a[1] == b[1] && a[2] == b[2] && a[3] == b[3]
}

/// The checks a request for trader `t` with password `pw` passes on a connection
/// of `trader`: the password must be `t`'s, and `t` the connection's trader.
pub open spec fn request_check(passwords: Seq<Password>, trader: TraderId, t: TraderId, pw: Password) -> Option<SessionError> {
    if !same_password(passwords[t.0 as int], pw) {
        Some(SessionError::InvalidPassword)
    } else if t != trader {
        Some(SessionError::TraderMismatch)
    } else {
        None
    }
}

/// Why a message is refused before it reaches the exchange, if it is.
pub open spec fn message_check(state: &GlobalState, trader: TraderId, msg: IncomingMessage) -> Option<SessionError> {
    let pws = stored_passwords(&state.global_account_state);
    if !state.game_started {
        Some(SessionError::GameNotStarted)
    } else {
        match msg {
            IncomingMessage::OrderRequest(r) => request_check(pws, trader, r.trader_id, r.password),
            IncomingMessage::CancelRequest(r) => request_check(pws, trader, r.trader_id, r.password),
            IncomingMessage::AccountInfoRequest(r) => request_check(pws, trader, r.trader_id, r.password),
            IncomingMessage::GameStateRequest => None,
        }
    }
}

/// Checks a request for trader `t` with password `pw` on a connection of `trader`.
fn check_request(accounts: &GlobalAccountState, trader: TraderId, t: TraderId, pw: &Password) -> (r: Option<SessionError>)
    requires
        (t.0 as int) < accounts.accounts@.len(),
    ensures
        r == request_check(stored_passwords(accounts), trader, t, *pw),
{
    let stored = accounts.accounts[t.0 as usize].password;
    assert(stored_passwords(accounts)[t.0 as int] == stored);
    if stored[0] != pw[0] || stored[1] != pw[1] || stored[2] != pw[2] || stored[3] != pw[3] {
        return Some(SessionError::InvalidPassword);
    }
    if t != trader {
        return Some(SessionError::TraderMismatch);
    }
    None
}

/// Answers one message from a trader's connection: refuses it when the game has not
/// started, when its password is not its trader's or its trader is not the
/// connection's, and (except for the price enforcer) order and cancel requests
/// beyond the rate limit; otherwise places or cancels the order, or names what to
/// send back. Returns the answer and the messages to send to others.
#[verifier::spinoff_prover]
pub fn handle_message(
    state: &mut GlobalState,
    session: &mut Session,
    msg: IncomingMessage,
    now_ms: u64,
    time: u64,
) -> (r: (Reply, Vec<Notification>))
    requires
        old(state).wf(),
        has_headroom(&old(state).config, &old(state).global_account_state),
        enforcer_headroom(&old(state).config, &old(state).global_account_state),
        old(state).order_counter < usize::MAX,
        message_ids_ok(&old(state).config, msg),
    ensures
        final(state).wf(),
        free_shares_nonneg(&old(state).config, &old(state).global_account_state)
            ==> free_shares_nonneg(&final(state).config, &final(state).global_account_state),
        old(state).orders_consistent() ==> final(state).orders_consistent(),
        final(state).config == old(state).config,
        final(state).game_started == old(state).game_started,
        final(session).trader == old(session).trader,
        ({
            let st0 = *old(state);
            let st1 = *final(state);
            let trader = old(session).trader;
            let limited = trader != st0.config.price_enforcer_id
                && recent(old(session).limiter@, now_ms).len() >= RATE_LIMIT;
            let unchanged = st1 == st0 && r.1@ == Seq::<Notification>::empty();
            match message_check(&st0, trader, msg) {
                Some(e) => r.0 == Reply::Error(e) && unchanged && final(session).limiter@ == old(session).limiter@,
                None => match msg {
                    IncomingMessage::GameStateRequest => r.0 == Reply::GameState && unchanged
                        && final(session).limiter@ == old(session).limiter@,
                    IncomingMessage::AccountInfoRequest(a) => r.0 == Reply::AccountInfo(a.trader_id) && unchanged
                        && final(session).limiter@ == old(session).limiter@,
                    IncomingMessage::OrderRequest(req) => {
                        &&& final(session).limiter@ == if trader == st0.config.price_enforcer_id {
                            old(session).limiter@
                        } else if limited {
                            recent(old(session).limiter@, now_ms)
                        } else {
                            recent(old(session).limiter@, now_ms).push(now_ms)
                        }
                        &&& if limited {
                            &&& r.0 == Reply::Order(OrderPlaceResponse::OrderPlaceErrorMessage(OrderPlaceErrorMessage {
                                side: req.order_type,
                                price: req.price,
                                symbol: req.symbol,
                                error_details: OrderPlaceError::RateLimited,
                            }))
                            &&& unchanged
                        } else {
                            match r.0 {
                                Reply::Order(resp) => order_outcome(
                                    &st0.config,
                                    &st0.global_orderbook_state,
                                    &st0.global_account_state,
                                    &st1.global_orderbook_state,
                                    &st1.global_account_state,
                                    st0.order_counter,
                                    st1.order_counter,
                                    req,
                                    time,
                                    resp,
                                    r.1@,
                                ),
                                _ => false,
                            }
                        }
                    },
                    IncomingMessage::CancelRequest(req) => {
                        &&& final(session).limiter@ == if trader == st0.config.price_enforcer_id {
                            old(session).limiter@
                        } else if limited {
                            recent(old(session).limiter@, now_ms)
                        } else {
                            recent(old(session).limiter@, now_ms).push(now_ms)
                        }
                        &&& st1.order_counter == st0.order_counter
                        &&& if limited {
                            &&& r.0 == Reply::Cancel(OrderCancelResponse::CancelErrorMessage(CancelErrorMessage {
                                order_id: req.order_id,
                                side: req.side,
                                price: req.price,
                                symbol: req.symbol,
                                error_details: CancelError::RateLimited,
                            }))
                            &&& unchanged
                        } else {
                            match r.0 {
                                Reply::Cancel(resp) => cancel_outcome(
                                    &st0.config,
                                    &st0.global_orderbook_state,
                                    &st0.global_account_state,
                                    &st1.global_orderbook_state,
                                    &st1.global_account_state,
                                    req,
                                    resp,
                                    r.1@,
                                ),
                                _ => false,
                            }
                        }
                    },
                },
            }
        }),
{
    if !state.game_started {
        return (Reply::Error(SessionError::GameNotStarted), Vec::new());
    }
    let ghost st0 = *state;
    proof {
        assert(state.global_account_state.accounts@.len() == state.config.num_traders());
    }
    let is_bot = session.trader == state.config.price_enforcer_id;
    match msg {
        IncomingMessage::GameStateRequest => (Reply::GameState, Vec::new()),
        IncomingMessage::AccountInfoRequest(a) => {
            match check_request(&state.global_account_state, session.trader, a.trader_id, &a.password) {
                Some(e) => (Reply::Error(e), Vec::new()),
                None => (Reply::AccountInfo(a.trader_id), Vec::new()),
            }
        },
        IncomingMessage::OrderRequest(req) => {
            match check_request(&state.global_account_state, session.trader, req.trader_id, &req.password) {
                Some(e) => return (Reply::Error(e), Vec::new()),
                None => {},
            }
            if !is_bot && !session.limiter.try_acquire(now_ms) {
                return (
                    Reply::Order(OrderPlaceResponse::OrderPlaceErrorMessage(OrderPlaceErrorMessage {
                        side: req.order_type,
                        price: req.price,
                        symbol: req.symbol,
                        error_details: OrderPlaceError::RateLimited,
                    })),
                    Vec::new(),
                );
            }
            let (resp, notices) = add_order(
                req,
                &mut state.global_orderbook_state,
                &mut state.global_account_state,
                &state.config,
                &mut state.order_counter,
                time,
            );
            proof {
                if st0.orders_consistent() {
                    crate::active::law_order_keeps_active(
                        &st0.config,
                        &st0.global_orderbook_state,
                        &st0.global_account_state,
                        &state.global_orderbook_state,
                        &state.global_account_state,
                        st0.order_counter,
                        state.order_counter,
                        req,
                        time,
                        resp,
                        notices@,
                    );
                }
            }
            (Reply::Order(resp), notices)
        },
        IncomingMessage::CancelRequest(req) => {
            match check_request(&state.global_account_state, session.trader, req.trader_id, &req.password) {
                Some(e) => return (Reply::Error(e), Vec::new()),
                None => {},
            }
            if !is_bot && !session.limiter.try_acquire(now_ms) {
                return (
                    Reply::Cancel(OrderCancelResponse::CancelErrorMessage(CancelErrorMessage {
                        order_id: req.order_id,
                        side: req.side,
                        price: req.price,
                        symbol: req.symbol,
                        error_details: CancelError::RateLimited,
                    })),
                    Vec::new(),
                );
            }
            let (resp, notices) = cancel_order(
                req,
                &mut state.global_orderbook_state,
                &mut state.global_account_state,
                &state.config,
            );
            proof {
                if st0.orders_consistent() {
                    crate::active::law_cancel_keeps_active(
                        &st0.config,
                        &st0.global_orderbook_state,
                        &st0.global_account_state,
                        &state.global_orderbook_state,
                        &state.global_account_state,
                        st0.order_counter,
                        req,
                        resp,
                        notices@,
                    );
                }
            }
            (Reply::Cancel(resp), notices)
        },
    }
}

} // verus!
