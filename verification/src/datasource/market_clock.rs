use vstd::prelude::*;

verus! {

/// A-share trading session (China Standard Time).
#[derive(Clone, Copy, Debug, PartialEq, Eq, Structural)]
pub enum MarketSession {
    /// Before 9:30 on a weekday.
    PreOpen,
    /// 9:30 to 11:30.
    MorningTrade,
    /// 11:30 to 13:00.
    LunchBreak,
    /// 13:00 to 15:00.
    AfternoonTrade,
    /// After 15:00, or a weekend.
    Closed,
}

/// 9:30, 11:30, 13:00 and 15:00 as seconds since midnight.
pub const MORNING_START: u32 = 34200;
pub const MORNING_END: u32 = 41400;
pub const AFTERNOON_START: u32 = 46800;
pub const AFTERNOON_END: u32 = 54000;

/// The session at `seconds` past midnight on weekday `weekday`
/// (Monday is 0, Sunday 6).
pub open spec fn session_spec(weekday: u32, seconds: u32) -> MarketSession {
    if weekday >= 5 {
        MarketSession::Closed
    } else if seconds < MORNING_START {
        MarketSession::PreOpen
    } else if seconds < MORNING_END {
        MarketSession::MorningTrade
    } else if seconds < AFTERNOON_START {
        MarketSession::LunchBreak
    } else if seconds < AFTERNOON_END {
        MarketSession::AfternoonTrade
    } else {
        MarketSession::Closed
    }
}

/// China Standard Time is UTC+8, in seconds.
pub const CST_OFFSET: i64 = 28800;

/// The day number of Unix time `ts` in China Standard Time (day 0 is
/// 1970-01-01, a Thursday).
pub open spec fn cst_day(ts: int) -> int {
    (ts + CST_OFFSET) / 86400
}

/// Seconds past midnight, China Standard Time, at Unix time `ts`.
pub open spec fn cst_seconds(ts: int) -> int {
    (ts + CST_OFFSET) % 86400
}

/// The weekday (Monday 0) in China Standard Time at Unix time `ts`.
pub open spec fn cst_weekday(ts: int) -> int {
    (cst_day(ts) + 3) % 7
}

/// The session at Unix time `ts`.
pub open spec fn session_at_spec(ts: int) -> MarketSession {
    session_spec(cst_weekday(ts) as u32, cst_seconds(ts) as u32)
}

impl MarketSession {
    /// Orders are being matched.
    pub open spec fn trading(self) -> bool {
        self is MorningTrade || self is AfternoonTrade
    }

    pub open spec fn interval_spec(self) -> u64 {
        match self {
            MarketSession::MorningTrade | MarketSession::AfternoonTrade => 2,
            MarketSession::PreOpen => 5,
            MarketSession::LunchBreak => 10,
            MarketSession::Closed => 30,
        }
    }

    /// The session at a given moment of the week.
    pub fn at(weekday: u32, seconds: u32) -> (r: MarketSession)
        ensures
            r == session_spec(weekday, seconds),
    {
        if weekday >= 5 {
            MarketSession::Closed
        } else if seconds < MORNING_START {
            MarketSession::PreOpen
        } else if seconds < MORNING_END {
            MarketSession::MorningTrade
        } else if seconds < AFTERNOON_START {
            MarketSession::LunchBreak
        } else if seconds < AFTERNOON_END {
            MarketSession::AfternoonTrade
        } else {
            MarketSession::Closed
        }
    }

    /// The session at Unix time `ts` (seconds since 1970-01-01 00:00 UTC),
    /// read in China Standard Time.
    pub fn at_timestamp(ts: i128) -> (r: MarketSession)
        requires
            -0x1_0000_0000_0000_0000 <= ts <= 0x1_0000_0000_0000_0000,
        ensures
            r == session_at_spec(ts as int),
    {
        let t: i128 = ts + CST_OFFSET as i128;
        if t >= 0 {
            let u: u128 = t as u128;
            let d: u128 = u / 86400;
            let secs: u32 = (u % 86400) as u32;
            let wd: u32 = ((d + 3) % 7) as u32;
            MarketSession::at(wd, secs)
        } else {
            let n: u128 = (0 - t) as u128;
            let d: u128 = n / 86400;
            let rem: u128 = n % 86400;
            if rem == 0 {
                let k: u128 = d % 7;
                let wd: u32 = ((10 - k) % 7) as u32;
                proof {
                    assert(t == 86400 * (-(d as int)));
                    assert((t as int) / 86400 == -(d as int));
                    assert((t as int) % 86400 == 0);
                    assert(d as int == 7 * (d as int / 7) + k as int);
                    assert((-(d as int) + 3) % 7 == (10 - k as int) % 7);
                }
                MarketSession::at(wd, 0)
            } else {
                let k: u128 = (d + 1) % 7;
                let wd: u32 = ((10 - k) % 7) as u32;
                let secs: u32 = (86400 - rem) as u32;
                proof {
                    assert(t == 86400 * (-(d as int) - 1) + (86400 - rem as int));
                    assert((t as int) / 86400 == -(d as int) - 1);
                    assert((t as int) % 86400 == 86400 - rem as int);
                    assert(d as int + 1 == 7 * ((d as int + 1) / 7) + k as int);
                    assert((-(d as int) - 1 + 3) % 7 == (10 - k as int) % 7);
                }
                MarketSession::at(wd, secs)
            }
        }
    }

    /// The session now, in China Standard Time: the session at what the
    /// clock reads.
    pub fn current() -> (r: MarketSession)
        ensures
            exists|ts: int| r == #[trigger] session_at_spec(ts),
    {
        let (ts, _) = crate::clock::unix_time();
        MarketSession::at_timestamp(ts)
    }

    /// Polling interval, in seconds, that suits this session.
    pub fn recommended_interval(&self) -> (r: u64)
        ensures
            r == self.interval_spec(),
    {
        match self {
            MarketSession::MorningTrade | MarketSession::AfternoonTrade => 2,
            MarketSession::PreOpen => 5,
            MarketSession::LunchBreak => 10,
            MarketSession::Closed => 30,
        }
    }

    /// The session's name as the UI shows it.
    pub fn name(&self) -> (r: &'static str)
        ensures
            r@ == match self {
                MarketSession::PreOpen => "盘前"@,
                MarketSession::MorningTrade => "早盘"@,
                MarketSession::LunchBreak => "午休"@,
                MarketSession::AfternoonTrade => "午盘"@,
                MarketSession::Closed => "休市"@,
            },
    {
        match self {
            MarketSession::PreOpen => "盘前",
            MarketSession::MorningTrade => "早盘",
            MarketSession::LunchBreak => "午休",
            MarketSession::AfternoonTrade => "午盘",
            MarketSession::Closed => "休市",
        }
    }

    /// Whether orders are being matched in this session.
    pub fn is_trading(&self) -> (r: bool)
        ensures
            r == self.trading(),
    {
        match self {
            MarketSession::MorningTrade | MarketSession::AfternoonTrade => true,
            _ => false,
        }
    }
}

/// Trading sessions poll fastest; every other session polls more slowly.
pub proof fn lemma_trading_polls_fastest(a: MarketSession, b: MarketSession)
    requires
        a.trading(),
    ensures
        a.interval_spec() <= b.interval_spec(),
        !b.trading() ==> a.interval_spec() < b.interval_spec(),
{
}

/// The trading day by the clock: on a weekday (Monday 0 to Friday 4) the
/// market is before the open until 9:30, trades until 11:30, breaks for lunch
/// until 13:00, trades until 15:00 and is closed after; it polls every 2
/// seconds while trading, 5 before the open, 10 at lunch and 30 when closed.
pub proof fn lemma_trading_day(weekday: u32, h: u32, m: u32, sec: u32)
    requires
        weekday < 5,
        h < 24,
        m < 60,
        sec < 60,
    ensures
        ({
            let t = h * 3600 + m * 60 + sec;
            let s = session_spec(weekday, t as u32);
            &&& (h < 9 || (h == 9 && m < 30)) ==> s == MarketSession::PreOpen
            &&& ((h == 9 && m >= 30) || h == 10 || (h == 11 && m < 30)) ==> s == MarketSession::MorningTrade
            &&& ((h == 11 && m >= 30) || h == 12) ==> s == MarketSession::LunchBreak
            &&& (h == 13 || h == 14) ==> s == MarketSession::AfternoonTrade
            &&& h >= 15 ==> s == MarketSession::Closed
        }),
        MarketSession::MorningTrade.interval_spec() == 2,
        MarketSession::AfternoonTrade.interval_spec() == 2,
        MarketSession::PreOpen.interval_spec() == 5,
        MarketSession::LunchBreak.interval_spec() == 10,
        MarketSession::Closed.interval_spec() == 30,
{
}

/// Weekends are closed all day.
pub proof fn lemma_weekend_closed(weekday: u32, seconds: u32)
    requires
        5 <= weekday < 7,
    ensures
        session_spec(weekday, seconds) == MarketSession::Closed,
{
}

} // verus!
