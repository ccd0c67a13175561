use quant_desktop::cache::{quote_key, PollingState, Scheduler, IDLE_INTERVAL, PROBE_INTERVAL};
use quant_desktop::datasource::market_clock::MarketSession;

#[test]
fn quiet_probes_switch_to_idle() {
    let mut s = PollingState::new();
    assert_eq!(s.update(false, MarketSession::MorningTrade), PROBE_INTERVAL);
    assert_eq!(s.update(false, MarketSession::MorningTrade), PROBE_INTERVAL);
    assert_eq!(s.update(false, MarketSession::MorningTrade), IDLE_INTERVAL);
    assert_eq!(s, PollingState::Idle);
}

#[test]
fn a_probe_that_sees_a_change_goes_normal() {
    let mut s = PollingState::new();
    assert_eq!(s.update(true, MarketSession::AfternoonTrade), 2);
    assert_eq!(s, PollingState::Normal { unchanged_streak: 0 });
}

#[test]
fn five_quiet_polls_in_normal_go_idle() {
    let mut s = PollingState::Normal { unchanged_streak: 0 };
    for _ in 0..4 {
        assert_eq!(s.update(false, MarketSession::MorningTrade), 2);
    }
    assert_eq!(s, PollingState::Normal { unchanged_streak: 4 });
    assert_eq!(s.update(false, MarketSession::MorningTrade), IDLE_INTERVAL);
    assert_eq!(s, PollingState::Idle);
}

#[test]
fn idle_resumes_on_change() {
    let mut s = PollingState::Idle;
    assert_eq!(s.update(false, MarketSession::MorningTrade), IDLE_INTERVAL);
    assert_eq!(s.update(true, MarketSession::LunchBreak), 10);
    assert_eq!(s, PollingState::Normal { unchanged_streak: 0 });
}

#[test]
fn trading_entry_restarts_probing() {
    let mut s = PollingState::Idle;
    assert!(Scheduler::on_tick(MarketSession::PreOpen, MarketSession::MorningTrade, &mut s));
    assert_eq!(s, PollingState::Probing { remaining: 3 });
    let mut t = PollingState::Idle;
    assert!(Scheduler::on_tick(MarketSession::AfternoonTrade, MarketSession::Closed, &mut t));
    assert_eq!(t, PollingState::Idle);
    assert!(!Scheduler::on_tick(MarketSession::Closed, MarketSession::Closed, &mut t));
    assert!(Scheduler::is_trading_enter(MarketSession::LunchBreak, MarketSession::AfternoonTrade));
    assert!(!Scheduler::is_trading_enter(MarketSession::Closed, MarketSession::MorningTrade));
}

#[test]
fn no_data_follows_the_session() {
    let mut s = PollingState::Probing { remaining: 2 };
    assert_eq!(Scheduler::next_interval(&mut s, None, MarketSession::Closed), 30);
    assert_eq!(s, PollingState::Probing { remaining: 2 });
    assert_eq!(Scheduler::next_interval(&mut s, Some(false), MarketSession::MorningTrade), PROBE_INTERVAL);
    assert_eq!(s, PollingState::Probing { remaining: 1 });
}

#[test]
fn cn_codes_and_cache_coverage() {
    let codes = vec![
        ("600519".to_string(), "CN".to_string()),
        ("00700".to_string(), "HK".to_string()),
        ("000001".to_string(), "CN".to_string()),
    ];
    let cn = Scheduler::cn_codes(&codes);
    assert_eq!(cn, vec!["600519".to_string(), "000001".to_string()]);
    let cached = vec![("000001".to_string(), "CN".to_string()), ("600519".to_string(), "CN".to_string())];
    assert!(Scheduler::all_cached(&cn, &cached));
    let partial = vec![("600519".to_string(), "CN".to_string()), ("000001".to_string(), "HK".to_string())];
    assert!(!Scheduler::all_cached(&cn, &partial));
    assert!(Scheduler::serve_from_cache(MarketSession::Closed, false, 2, true));
    assert!(!Scheduler::serve_from_cache(MarketSession::Closed, true, 2, true));
    assert!(!Scheduler::serve_from_cache(MarketSession::Closed, false, 0, true));
    assert!(!Scheduler::serve_from_cache(MarketSession::MorningTrade, false, 2, true));
}

#[test]
fn price_change_detection() {
    assert!(!Scheduler::any_price_changed(&vec![Some(true), Some(true)], 2));
    assert!(Scheduler::any_price_changed(&vec![Some(true), Some(false)], 2));
    assert!(Scheduler::any_price_changed(&vec![Some(true), None], 1));
    assert!(Scheduler::any_price_changed(&vec![Some(true)], 2));
}

#[test]
fn quote_keys_join_market_and_code() {
    assert_eq!(quote_key("CN", "600519"), "CN:600519");
}
