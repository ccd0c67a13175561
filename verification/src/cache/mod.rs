use vstd::prelude::*;

use crate::datasource::market_clock::MarketSession;
use crate::text::{chars_of, string_of};

verus! {

/// Polls at the start of a trading session that decide whether the market is
/// actually open.
pub const PROBE_COUNT: u32 = 3;
/// Seconds between probes.
pub const PROBE_INTERVAL: u64 = 2;
/// Consecutive polls without a price change after which the market is taken
/// to be closed (a holiday).
pub const STREAK_THRESHOLD: u32 = 5;
/// Seconds between polls while the market is taken to be closed.
pub const IDLE_INTERVAL: u64 = 30;

/// Adaptive polling: tells a holiday from a trading day by whether prices move.
#[derive(Clone, Copy, Debug, PartialEq, Eq, Structural)]
pub enum PollingState {
    /// Start of a session: `remaining` probes left before giving up.
    Probing { remaining: u32 },
    /// The market is open; polls in a row that saw no price change.
    Normal { unchanged_streak: u32 },
    /// The market is taken to be closed; polling is throttled.
    Idle,
}

impl PollingState {
    /// The counters stay in their ranges.
    pub open spec fn wf(self) -> bool {
        match self {
            PollingState::Probing { remaining } => 1 <= remaining <= PROBE_COUNT,
            PollingState::Normal { unchanged_streak } => unchanged_streak < STREAK_THRESHOLD,
            PollingState::Idle => true,
        }
    }

    /// The state after a poll that saw (`changed`) or did not see a price
    /// change, and the seconds until the next poll.
    pub open spec fn step(self, changed: bool, session: MarketSession) -> (PollingState, u64) {
        if changed {
            (PollingState::Normal { unchanged_streak: 0 }, session.interval_spec())
        } else {
            match self {
                PollingState::Probing { remaining } => if remaining <= 1 {
                    (PollingState::Idle, IDLE_INTERVAL)
                } else {
                    (PollingState::Probing { remaining: (remaining - 1) as u32 }, PROBE_INTERVAL)
                },
                PollingState::Normal { unchanged_streak } => if unchanged_streak + 1 >= STREAK_THRESHOLD {
                    (PollingState::Idle, IDLE_INTERVAL)
                } else {
                    (PollingState::Normal { unchanged_streak: (unchanged_streak + 1) as u32 }, session.interval_spec())
                },
                PollingState::Idle => (PollingState::Idle, IDLE_INTERVAL),
            }
        }
    }

    /// Quiet polls still needed before the state turns idle.
    pub open spec fn quiet_budget(self) -> nat {
        match self {
            PollingState::Probing { remaining } => remaining as nat,
            PollingState::Normal { unchanged_streak } => (STREAK_THRESHOLD - unchanged_streak) as nat,
            PollingState::Idle => 0,
        }
    }

    /// A new machine starts by probing.
    pub fn new() -> (r: PollingState)
        ensures
            r == (PollingState::Probing { remaining: PROBE_COUNT }),
            r.wf(),
    {
        PollingState::Probing { remaining: PROBE_COUNT }
    }

    /// Starts probing again: a trading session has begun.
    pub fn on_session_enter(&mut self)
        ensures
            *final(self) == (PollingState::Probing { remaining: PROBE_COUNT }),
    {
        *self = PollingState::Probing { remaining: PROBE_COUNT };
    }

    /// Takes in the result of a poll; returns the seconds until the next one.
    pub fn update(&mut self, prices_changed: bool, session: MarketSession) -> (r: u64)
        requires
            old(self).wf(),
        ensures
            (*final(self), r) == old(self).step(prices_changed, session),
            final(self).wf(),
    {
        if prices_changed {
            *self = PollingState::Normal { unchanged_streak: 0 };
            return session.recommended_interval();
        }
        match *self {
            PollingState::Probing { remaining } => {
                let left = remaining - 1;
                if left == 0 {
                    *self = PollingState::Idle;
                    IDLE_INTERVAL
                } else {
                    *self = PollingState::Probing { remaining: left };
                    PROBE_INTERVAL
                }
            },
            PollingState::Normal { unchanged_streak } => {
                let streak = unchanged_streak + 1;
                if streak >= STREAK_THRESHOLD {
                    *self = PollingState::Idle;
                    IDLE_INTERVAL
                } else {
                    *self = PollingState::Normal { unchanged_streak: streak };
                    session.recommended_interval()
                }
            },
            PollingState::Idle => IDLE_INTERVAL,
        }
    }
}

/// The state after a run of polls, `changes[i]` telling whether poll `i` saw
/// a price change.
pub open spec fn run(s: PollingState, changes: Seq<bool>, session: MarketSession) -> PollingState
    decreases changes.len(),
{
    if changes.len() == 0 {
        s
    } else {
        run(s.step(changes[0], session).0, changes.drop_first(), session)
    }
}

pub open spec fn all_quiet(changes: Seq<bool>) -> bool {
    forall|i: int| 0 <= i < changes.len() ==> !changes[i]
}

/// Every poll keeps the counters in range, and the next interval is the probe
/// interval, the idle interval, or the session's own.
pub proof fn lemma_step_wf(s: PollingState, changed: bool, session: MarketSession)
    requires
        s.wf(),
    ensures
        s.step(changed, session).0.wf(),
        s.step(changed, session).1 == PROBE_INTERVAL || s.step(changed, session).1 == IDLE_INTERVAL
            || s.step(changed, session).1 == session.interval_spec(),
{
}

/// The next interval follows the next state: the session's own interval
/// while the market is taken to be open, the probe interval while probing,
/// the idle interval once idle. A quiet poll in normal polling that stays
/// below the streak threshold keeps the session's pace and counts one more
/// quiet poll (`k` being the streak before it).
pub proof fn lemma_interval_follows_state(s: PollingState, changed: bool, session: MarketSession, k: u32)
    ensures
        s.step(changed, session).0 is Normal ==> s.step(changed, session).1 == session.interval_spec(),
        s.step(changed, session).0 is Probing ==> s.step(changed, session).1 == 2,
        s.step(changed, session).0 is Idle ==> s.step(changed, session).1 == 30,
        (s == PollingState::Normal { unchanged_streak: k } && k + 1 < 5 && !changed) ==> s.step(changed, session) == (
            PollingState::Normal { unchanged_streak: (k + 1) as u32 },
            session.interval_spec(),
        ),
{
}

/// A price change, in any state, means the market is open: normal polling at
/// the session's interval, with the streak cleared.
pub proof fn lemma_change_resumes_normal(s: PollingState, session: MarketSession)
    ensures
        s.step(true, session) == (PollingState::Normal { unchanged_streak: 0 }, session.interval_spec()),
{
}

/// Without price changes the machine turns idle after exactly its quiet budget
/// of polls (the probe count at a session start, the streak threshold in
/// normal polling), and stays idle.
pub proof fn lemma_quiet_polls_go_idle(s: PollingState, changes: Seq<bool>, session: MarketSession)
    requires
        s.wf(),
        all_quiet(changes),
    ensures
        changes.len() >= s.quiet_budget() ==> run(s, changes, session) == PollingState::Idle,
        changes.len() < s.quiet_budget() ==> run(s, changes, session) != PollingState::Idle,
        run(s, changes, session).wf(),
    decreases changes.len(),
{
    if changes.len() > 0 {
        let next = s.step(false, session).0;
        assert(changes[0] == false);
        let rest = changes.drop_first();
        assert(all_quiet(rest)) by {
            assert forall|i: int| 0 <= i < rest.len() implies !rest[i] by {
                assert(rest[i] == changes[i + 1]);
            }
        }
        lemma_quiet_polls_go_idle(next, rest, session);
        if !(s is Idle) {
            assert(next.quiet_budget() + 1 == s.quiet_budget());
        }
    }
}

/// The polling loop's decisions.
pub struct Scheduler;

/// Entering a trading session from the pause before it: the opening or the
/// end of the lunch break.
pub open spec fn trading_enter(last: MarketSession, now: MarketSession) -> bool {
    ||| (last is PreOpen && now is MorningTrade)
    ||| (last is LunchBreak && now is AfternoonTrade)
}

/// The codes of the A-share entries (market `CN`), in order.
pub open spec fn cn_codes_spec(codes: Seq<(Seq<char>, Seq<char>)>) -> Seq<Seq<char>>
    decreases codes.len(),
{
    if codes.len() == 0 {
        Seq::empty()
    } else {
        let r = cn_codes_spec(codes.drop_last());
        if codes.last().1 == "CN"@ { r.push(codes.last().0) } else { r }
    }
}

pub open spec fn pair_views(v: Seq<(String, String)>) -> Seq<(Seq<char>, Seq<char>)> {
    v.map_values(|p: (String, String)| (p.0@, p.1@))
}

/// Every code has a cached A-share quote.
pub open spec fn covered(codes: Seq<Seq<char>>, cached: Seq<(Seq<char>, Seq<char>)>) -> bool {
    forall|i: int| 0 <= i < codes.len() ==> #[trigger] has_cn_quote(cached, codes[i])
}

/// Some cached quote is the A-share quote of `code`.
pub open spec fn has_cn_quote(cached: Seq<(Seq<char>, Seq<char>)>, code: Seq<char>) -> bool {
    exists|j: int| 0 <= j < cached.len() && #[trigger] cached[j] == (code, "CN"@)
}

/// A poll's outcome by its quotes: `lookups[i]` is `None` when quote `i` was
/// not in the snapshot before the poll, else whether its price stayed equal.
pub open spec fn changed_spec(lookups: Seq<Option<bool>>, snapshot_len: int) -> bool {
    (exists|i: int| 0 <= i < lookups.len() && lookups[i] != Some(true)) || snapshot_len != lookups.len()
}

impl Scheduler {
    /// A trading session has just begun: probing starts again.
    pub fn is_trading_enter(last: MarketSession, now: MarketSession) -> (r: bool)
        ensures
            r == trading_enter(last, now),
    {
        match (last, now) {
            (MarketSession::PreOpen, MarketSession::MorningTrade) => true,
            (MarketSession::LunchBreak, MarketSession::AfternoonTrade) => true,
            _ => false,
        }
    }

    /// What a tick does with the session it finds: on entering a trading
    /// session the machine probes again. Returns whether the session changed
    /// (and is to be announced).
    pub fn on_tick(last: MarketSession, now: MarketSession, state: &mut PollingState) -> (r: bool)
        requires
            old(state).wf(),
        ensures
            r == (last != now),
            trading_enter(last, now) ==> *final(state) == (PollingState::Probing { remaining: PROBE_COUNT }),
            !trading_enter(last, now) ==> *final(state) == *old(state),
            final(state).wf(),
    {
        if last != now {
            if Scheduler::is_trading_enter(last, now) {
                state.on_session_enter();
            }
            true
        } else {
            false
        }
    }

    /// Seconds until the next tick. A poll without quote data (`None`: empty
    /// watchlist, failure, served from cache) leaves the machine alone and
    /// follows the session; one with data (`Some(changed)`) drives the machine.
    pub fn next_interval(state: &mut PollingState, outcome: Option<bool>, session: MarketSession) -> (r: u64)
        requires
            old(state).wf(),
        ensures
            final(state).wf(),
            outcome is None ==> r == session.interval_spec() && *final(state) == *old(state),
            outcome matches Some(c) ==> (*final(state), r) == old(state).step(c, session),
    {
        match outcome {
            Some(c) => state.update(c, session),
            None => session.recommended_interval(),
        }
    }

    /// The codes of the A-share stocks among (code, market) pairs, in order.
    pub fn cn_codes(codes: &Vec<(String, String)>) -> (r: Vec<String>)
        ensures
            r@.map_values(|s: String| s@) == cn_codes_spec(pair_views(codes@)),
    {
        let cn = string_of(&chars_of("CN"));
        let mut out: Vec<String> = Vec::new();
        let mut i: usize = 0;
        while i < codes.len()
            invariant
                0 <= i <= codes@.len(),
                cn@ == "CN"@,
                out@.map_values(|s: String| s@) == cn_codes_spec(pair_views(codes@.take(i as int))),
            decreases codes@.len() - i,
        {
            proof {
                assert(pair_views(codes@.take(i + 1)).drop_last() =~= pair_views(codes@.take(i as int)));
                assert(pair_views(codes@.take(i + 1)).last() == (codes@[i as int].0@, codes@[i as int].1@));
            }
            if codes[i].1 == cn {
                out.push(codes[i].0.clone());
            }
            i = i + 1;
            proof {
                assert(out@.map_values(|s: String| s@) =~= cn_codes_spec(pair_views(codes@.take(i as int))));
            }
        }
        proof {
            assert(codes@.take(codes@.len() as int) =~= codes@);
        }
        out
    }

    /// Whether every code has a cached A-share quote; `cached` holds the
    /// (code, market) of the cached quotes.
    pub fn all_cached(codes: &Vec<String>, cached: &Vec<(String, String)>) -> (r: bool)
        ensures
            r == covered(codes@.map_values(|s: String| s@), pair_views(cached@)),
    {
        let cn = string_of(&chars_of("CN"));
        let ghost cs = codes@.map_values(|s: String| s@);
        let ghost pv = pair_views(cached@);
        let mut i: usize = 0;
        while i < codes.len()
            invariant
                0 <= i <= codes@.len(),
                cn@ == "CN"@,
                cs == codes@.map_values(|s: String| s@),
                pv == pair_views(cached@),
                covered(cs.take(i as int), pv),
            decreases codes@.len() - i,
        {
            let mut found = false;
            let mut j: usize = 0;
            while j < cached.len()
                invariant
                    0 <= j <= cached@.len(),
                    0 <= i < codes@.len(),
                    cn@ == "CN"@,
                    pv == pair_views(cached@),
                    cs == codes@.map_values(|s: String| s@),
                    found ==> has_cn_quote(pv, cs[i as int]),
                    !found ==> forall|k: int| 0 <= k < j ==> #[trigger] pv[k] != (cs[i as int], "CN"@),
                decreases cached@.len() - j,
            {
                if cached[j].0 == codes[i] && cached[j].1 == cn {
                    assert(pv[j as int] == (cs[i as int], "CN"@));
                    found = true;
                }
                j = j + 1;
            }
            if !found {
                proof {
                    assert(!has_cn_quote(pv, cs[i as int]));
                    assert(!covered(cs, pv));
                }
                return false;
            }
            proof {
                assert forall|a: int| 0 <= a < cs.take(i + 1).len() implies #[trigger] has_cn_quote(pv, cs.take(i + 1)[a]) by {
                    if a < i {
                        assert(cs.take(i + 1)[a] == cs.take(i as int)[a]);
                    }
                }
            }
            i = i + 1;
        }
        proof {
            assert(cs.take(codes@.len() as int) =~= cs);
        }
        true
    }

    /// After the close, an unforced poll is answered from the cache when it
    /// holds quotes and covers every A-share code of the watchlist.
    pub fn serve_from_cache(session: MarketSession, force: bool, cached_count: usize, all_covered: bool) -> (r: bool)
        ensures
            r == (session is Closed && !force && cached_count > 0 && all_covered),
    {
        match session {
            MarketSession::Closed => !force && cached_count > 0 && all_covered,
            _ => false,
        }
    }

    /// Whether a poll changed any price: some quote is new or moved, or the
    /// snapshot held a different number of quotes (stocks were removed).
    pub fn any_price_changed(lookups: &Vec<Option<bool>>, snapshot_len: usize) -> (r: bool)
        ensures
            r == changed_spec(lookups@, snapshot_len as int),
    {
        let mut i: usize = 0;
        while i < lookups.len()
            invariant
                0 <= i <= lookups@.len(),
                forall|k: int| 0 <= k < i ==> lookups@[k] == Some(true),
            decreases lookups@.len() - i,
        {
            match lookups[i] {
                Some(true) => {},
                _ => {
                    assert(lookups@[i as int] != Some(true));
                    return true;
                },
            }
            i = i + 1;
        }
        snapshot_len != lookups.len()
    }
}

/// The cache key of a quote: `MARKET:CODE`.
pub open spec fn quote_key_spec(market: Seq<char>, code: Seq<char>) -> Seq<char> {
    market + ":"@ + code
}

/// The cache key of a quote: `MARKET:CODE`.
pub fn quote_key(market: &str, code: &str) -> (r: String)
    ensures
        r@ == quote_key_spec(market@, code@),
{
    let mut out = chars_of(market);
    out.push(':');
    let c = chars_of(code);
    let ghost base = out@;
    let mut i: usize = 0;
    while i < c.len()
        invariant
            0 <= i <= c@.len(),
            out@ == base + c@.take(i as int),
        decreases c@.len() - i,
    {
        out.push(c[i]);
        i = i + 1;
        proof {
            assert(out@ =~= base + c@.take(i as int));
        }
    }
    proof {
        reveal_strlit(":");
        assert(c@.take(c@.len() as int) =~= c@);
        assert(out@ =~= quote_key_spec(market@, code@));
    }
    string_of(&out)
}

} // verus!
