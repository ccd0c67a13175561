use quant_desktop::datasource::headers::{pick_user_agent, USER_AGENTS};
use quant_desktop::datasource::market_clock::MarketSession;
use quant_desktop::datasource::sources::{minute_span, normalize_volume};
use quant_desktop::domain::{release_url, UpdateInfo};
use quant_desktop::updater::proxy::{detect_proxy_url, startup_proxy, system_proxy_url};

#[test]
fn sessions_by_time_of_day() {
    assert_eq!(MarketSession::at(0, 9 * 3600 + 29 * 60 + 59), MarketSession::PreOpen);
    assert_eq!(MarketSession::at(0, 9 * 3600 + 30 * 60), MarketSession::MorningTrade);
    assert_eq!(MarketSession::at(2, 11 * 3600 + 30 * 60), MarketSession::LunchBreak);
    assert_eq!(MarketSession::at(3, 13 * 3600), MarketSession::AfternoonTrade);
    assert_eq!(MarketSession::at(4, 15 * 3600), MarketSession::Closed);
    assert_eq!(MarketSession::at(5, 10 * 3600), MarketSession::Closed);
    assert_eq!(MarketSession::at(6, 14 * 3600), MarketSession::Closed);
}

#[test]
fn session_intervals_and_names() {
    assert_eq!(MarketSession::MorningTrade.recommended_interval(), 2);
    assert_eq!(MarketSession::AfternoonTrade.recommended_interval(), 2);
    assert_eq!(MarketSession::PreOpen.recommended_interval(), 5);
    assert_eq!(MarketSession::LunchBreak.recommended_interval(), 10);
    assert_eq!(MarketSession::Closed.recommended_interval(), 30);
    assert_eq!(MarketSession::PreOpen.name(), "盘前");
    assert_eq!(MarketSession::MorningTrade.name(), "早盘");
    assert_eq!(MarketSession::LunchBreak.name(), "午休");
    assert_eq!(MarketSession::AfternoonTrade.name(), "午盘");
    assert_eq!(MarketSession::Closed.name(), "休市");
    assert!(MarketSession::MorningTrade.is_trading());
    assert!(!MarketSession::LunchBreak.is_trading());
    let _ = MarketSession::current();
}

#[test]
fn user_agents_rotate() {
    assert_eq!(pick_user_agent(0), USER_AGENTS[0]);
    assert_eq!(pick_user_agent(6), USER_AGENTS[6]);
    assert_eq!(pick_user_agent(7), USER_AGENTS[0]);
    assert_eq!(pick_user_agent(usize::MAX), USER_AGENTS[usize::MAX % 7]);
    assert!(pick_user_agent(4).contains("Firefox"));
}

#[test]
fn system_proxy_takes_the_first_set_variable() {
    assert_eq!(system_proxy_url(vec![None, Some("http://a:1".to_string()), Some("http://b:2".to_string()), None]), Some("http://a:1".to_string()));
    assert_eq!(system_proxy_url(vec![Some(String::new()), Some("http://b:2".to_string()), None, None]), None);
    assert_eq!(system_proxy_url(vec![None, None, None, None]), None);
}

#[test]
fn detect_proxy_prefers_configured_then_first_open_port() {
    assert_eq!(detect_proxy_url(Some("http://p:3128".to_string()), |_p: u16| true), Some("http://p:3128".to_string()));
    assert_eq!(detect_proxy_url(None, |p: u16| p == 1080 || p == 8080), Some("http://127.0.0.1:1080 (V2Ray/SOCKS5)".to_string()));
    assert_eq!(detect_proxy_url(Some(String::new()), |p: u16| p == 7890), Some("http://127.0.0.1:7890 (Clash)".to_string()));
    assert_eq!(detect_proxy_url(None, |_p: u16| false), None);
}

#[test]
fn release_urls_drop_one_leading_v() {
    assert_eq!(release_url("1.2.3"), "https://github.com/Leaderxin/quant-desktop/releases/tag/v1.2.3");
    assert_eq!(release_url("v1.2.3"), "https://github.com/Leaderxin/quant-desktop/releases/tag/v1.2.3");
    let info = UpdateInfo::found("1.0.0".to_string(), "v1.1.0".to_string(), "2025-01-01".to_string(), "notes".to_string());
    assert_eq!(info.release_url, "https://github.com/Leaderxin/quant-desktop/releases/tag/v1.1.0");
    assert_eq!(info.download_size, None);
}

#[test]
fn startup_proxy_probes_ports_in_order_unless_one_is_set() {
    let none: Vec<Option<String>> = vec![None, None, None, None];
    assert_eq!(startup_proxy(&none, |p| p == 10808 || p == 8080), Some("http://127.0.0.1:10808".to_string()));
    assert_eq!(startup_proxy(&none, |_| false), None);
    let set = vec![None, Some(String::new()), None, None];
    assert_eq!(startup_proxy(&set, |_| true), None);
}

#[test]
fn lots_and_minute_periods() {
    assert_eq!(normalize_volume(581842), 58184200);
    assert_eq!(normalize_volume(u64::MAX / 100 + 1), u64::MAX);
    assert_eq!(minute_span("5m"), Some(5));
    assert_eq!(minute_span("m60"), Some(60));
    assert_eq!(minute_span("daily"), None);
    assert_eq!(minute_span("weekly"), None);
}

#[test]
fn sessions_follow_china_standard_time() {
    // 1970-01-01 08:00 CST, a Thursday.
    assert_eq!(MarketSession::at_timestamp(0), MarketSession::PreOpen);
    // 2024-06-18 09:30 CST (01:30 UTC), a Tuesday.
    assert_eq!(MarketSession::at_timestamp(1718674200), MarketSession::MorningTrade);
    assert_eq!(MarketSession::at_timestamp(1718674199), MarketSession::PreOpen);
    // 2024-06-22 10:20 CST, a Saturday.
    assert_eq!(MarketSession::at_timestamp(1719022800), MarketSession::Closed);
    // Before 1970: Friday and Saturday 1969-12-26/27, 10:00 CST.
    assert_eq!(MarketSession::at_timestamp(-511200), MarketSession::MorningTrade);
    assert_eq!(MarketSession::at_timestamp(-424800), MarketSession::Closed);
    assert_eq!(MarketSession::at_timestamp(-86400), MarketSession::PreOpen);
}
