use quant_desktop::datasource::bars::{index_symbol, json_array_text, sina_has_period, tencent_kline_url, tencent_period};
use quant_desktop::datasource::quotes::{parse_breadth, split_quote_line, tencent_index_fields, tencent_quote_fields};
use quant_desktop::text::{parse_i32, parse_i64, parse_u32};
use quant_desktop::window::{
    close_settings, i32_text, main_window_position, main_window_size, settled_settings, ticker_position, was_maximized, ticker_moved_position,
};

#[test]
fn parse_quote_line_preserves_exchange_prefix() {
    let mut fields: Vec<&str> = vec!["51", "石化机械", "000852", "6.06", "5.51", "5.82", "581842"];
    for _ in 0..25 {
        fields.push("0");
    }
    fields.push("9.98");
    fields.push("6.06");
    fields.push("5.68");
    fields.push("0");
    fields.push("0");
    fields.push("34829");
    fields.push("1.84");
    let line = format!("v_sz000852=\"{}\"", fields.join("~"));

    let (code, parts) = tencent_quote_fields(&line).unwrap();
    assert_eq!(code, "sz000852");
    assert_eq!(parts[1], "石化机械");
    assert_eq!(parts[3].parse::<f64>().unwrap(), 6.06);
    assert_eq!(parts.len(), 39);
}

#[test]
fn short_or_malformed_quote_lines_are_refused() {
    assert!(tencent_quote_fields("v_sh600519=\"1~2~3\"").is_none());
    assert!(tencent_quote_fields("x_sh600519=\"1~2~3\"").is_none());
    assert!(tencent_quote_fields("v_sh600519 no equals").is_none());
    assert!(tencent_quote_fields("v_sh600519=\"unterminated").is_none());
    let (sym, f) = tencent_index_fields("v_sh000001=\"1~上证指数~000001~3300.12~-5.1~-0.15~123~456\";").unwrap();
    assert_eq!(sym, "sh000001");
    assert_eq!(f.len(), 8);
    assert_eq!(f[1], "上证指数");
    let (sym, f) = split_quote_line("var hq_str_sh000001=\"上证指数,1,2\";", "var hq_str_", ',', 3).unwrap();
    assert_eq!(sym, "sh000001");
    assert_eq!(f, vec!["上证指数".to_string(), "1".to_string(), "2".to_string()]);
}

#[test]
fn parses_breadth_distribution() {
    let buckets = vec![
        vec![("-1".to_string(), 1173u32)],
        vec![("-2".to_string(), 690)],
        vec![("0".to_string(), 143)],
        vec![("1".to_string(), 1364)],
        vec![("2".to_string(), 736)],
    ];
    assert_eq!(parse_breadth(Some(buckets)), Some((2100, 1863, 143)));
}

#[test]
fn breadth_empty_returns_none() {
    assert_eq!(parse_breadth(Some(vec![])), None);
    assert_eq!(parse_breadth(None), None);
}

#[test]
fn breadth_skips_bad_keys_and_saturates() {
    let buckets = vec![
        vec![("x".to_string(), 5u32), ("3".to_string(), u32::MAX)],
        vec![("+4".to_string(), 7)],
    ];
    assert_eq!(parse_breadth(Some(buckets)), Some((u32::MAX, 0, 0)));
}

#[test]
fn breadth_of_items_without_entries_is_zero() {
    assert_eq!(parse_breadth(Some(vec![vec![], vec![]])), Some((0, 0, 0)));
}

#[test]
fn integer_parsing_follows_from_str() {
    assert_eq!(parse_i32("-2147483648"), Some(i32::MIN));
    assert_eq!(parse_i32("2147483648"), None);
    assert_eq!(parse_i32("+12"), Some(12));
    assert_eq!(parse_i32("-"), None);
    assert_eq!(parse_i32(""), None);
    assert_eq!(parse_i32(" 1"), None);
    assert_eq!(parse_u32("4294967295"), Some(u32::MAX));
    assert_eq!(parse_u32("-0"), None);
    assert_eq!(parse_u32("+7"), Some(7));
    assert_eq!(parse_i64("-9223372036854775808"), Some(i64::MIN));
    assert_eq!(parse_i64("9223372036854775808"), None);
    assert_eq!(parse_i64("00042"), Some(42));
    assert_eq!(parse_i64("99999999999999999999999"), None);
    for s in ["0", "-17", "123456", "+5", "x", "1.5"] {
        assert_eq!(parse_i64(s), s.parse::<i64>().ok(), "{}", s);
        assert_eq!(parse_i32(s), s.parse::<i32>().ok(), "{}", s);
        assert_eq!(parse_u32(s), s.parse::<u32>().ok(), "{}", s);
    }
}

#[test]
fn ticker_restores_a_visible_position_and_falls_back_to_the_corner() {
    let s = |v: &str| Some(v.to_string());
    assert_eq!(ticker_position(s("100"), s("200"), 1920, 1080, 230, 38), (100, 200));
    assert_eq!(ticker_position(s("-229"), s("0"), 1920, 1080, 230, 38), (-229, 0));
    assert_eq!(ticker_position(s("-230"), s("0"), 1920, 1080, 230, 38), (1680, 982));
    assert_eq!(ticker_position(s("1920"), s("0"), 1920, 1080, 230, 38), (1680, 982));
    assert_eq!(ticker_position(None, s("0"), 1920, 1080, 230, 38), (1680, 982));
    assert_eq!(ticker_position(s("abc"), s("0"), 1920, 1080, 230, 38), (1680, 982));
    assert_eq!(ticker_position(None, None, i32::MIN + 5, 0, 230, 38), (i32::MIN, -98));
}

#[test]
fn main_window_geometry_is_checked_against_the_monitor() {
    let s = |v: &str| Some(v.to_string());
    assert_eq!(main_window_size(s("1388"), s("1009"), 1920, 1080), Some((1388, 1009)));
    assert_eq!(main_window_size(s("399"), s("1009"), 1920, 1080), None);
    assert_eq!(main_window_size(s("1921"), s("1009"), 1920, 1080), None);
    assert_eq!(main_window_size(s("800"), None, 1920, 1080), None);
    assert_eq!(main_window_position(s("-49"), s("10"), 1920, 1080), Some((0, 10)));
    assert_eq!(main_window_position(s("-50"), s("10"), 1920, 1080), None);
    assert_eq!(main_window_position(s("1719"), s("979"), 1920, 1080), Some((1719, 979)));
    assert_eq!(main_window_position(s("1720"), s("979"), 1920, 1080), None);
    assert!(was_maximized(s("1")));
    assert!(!was_maximized(s("true")));
    assert!(!was_maximized(None));
}

#[test]
fn geometry_settings_to_save() {
    assert_eq!(i32_text(-42), "-42");
    assert_eq!(i32_text(i32::MIN), "-2147483648");
    let close = close_settings(true, false, false, Some((-3, 40)), Some((1200, 800)));
    let as_pairs: Vec<(String, String)> = close.into_iter().map(|(k, v)| (k.to_string(), v)).collect();
    assert_eq!(
        as_pairs,
        vec![
            ("window_maximized".to_string(), "0".to_string()),
            ("window_x".to_string(), "-3".to_string()),
            ("window_y".to_string(), "40".to_string()),
            ("window_width".to_string(), "1200".to_string()),
            ("window_height".to_string(), "800".to_string()),
        ]
    );
    let maxed = close_settings(true, false, true, Some((0, 0)), None);
    assert_eq!(maxed.len(), 1);
    assert_eq!(maxed[0].1, "1");
    assert!(close_settings(false, false, false, Some((0, 0)), Some((1, 1))).is_empty());
    assert!(close_settings(true, true, false, Some((0, 0)), Some((1, 1))).is_empty());
    let settled = settled_settings(Some((5, 6)), Some((0, 600)));
    assert_eq!(settled.len(), 2);
    assert_eq!(settled[0], ("window_x", "5".to_string()));
}

#[test]
fn moved_ticker_is_remembered_only_when_findable() {
    // Fully on screen: kept as it is.
    assert_eq!(ticker_moved_position(100, 200, 230, 38, 1920, 1080), Some((100, 200)));
    // Partly off the left and top edges: raised to 0.
    assert_eq!(ticker_moved_position(-100, -10, 230, 38, 1920, 1080), Some((0, 0)));
    // Hanging off the bottom-right corner: pulled back onto the monitor.
    assert_eq!(ticker_moved_position(1800, 1050, 230, 38, 1920, 1080), Some((1690, 1042)));
    // Only 40 pixels visible horizontally: not remembered.
    assert_eq!(ticker_moved_position(1880, 100, 230, 38, 1920, 1080), None);
    // Only 10 pixels visible vertically: not remembered.
    assert_eq!(ticker_moved_position(100, -28, 230, 38, 1920, 1080), None);
}

#[test]
fn remembered_ticker_position_is_restored() {
    for (x, y, tw, th, mw, mh) in [(1800, 1050, 230, 38, 1920, 1080), (0, 500, 230, 38, 100, 1080), (-60, -5, 230, 38, 1920, 1080)] {
        let (sx, sy) = ticker_moved_position(x, y, tw, th, mw, mh).unwrap();
        let restored = ticker_position(Some(i32_text(sx)), Some(i32_text(sy)), mw, mh, tw, th);
        assert_eq!(restored, (sx, sy));
    }
    assert_eq!(ticker_moved_position(0, 500, 230, 38, 100, 1080), Some((-130, 500)));
}

#[test]
fn saved_main_geometry_comes_back() {
    let saved = settled_settings(Some((-3, 40)), Some((1200, 800)));
    let get = |k: &str| saved.iter().find(|(key, _)| *key == k).map(|(_, v)| v.clone());
    assert_eq!(main_window_position(get("window_x"), get("window_y"), 1920, 1080), Some((0, 40)));
    assert_eq!(main_window_size(get("window_width"), get("window_height"), 1920, 1080), Some((1200, 800)));
    // The same geometry no longer fits a smaller monitor.
    assert_eq!(main_window_size(get("window_width"), get("window_height"), 1024, 768), None);
}

#[test]
fn chart_requests_and_replies() {
    assert_eq!(index_symbol("s_sh000001"), Some("sh000001".to_string()));
    assert_eq!(index_symbol("600519"), None);
    assert_eq!(tencent_period("weekly"), "week");
    assert_eq!(tencent_period("monthly"), "month");
    assert_eq!(tencent_period("daily"), "day");
    assert_eq!(
        tencent_kline_url("sh600519", "5m", Some("2026-06-18".to_string()), None),
        "http://ifzq.gtimg.cn/appstock/app/kline/mkline?param=sh600519,m5,,20260618,320"
    );
    assert_eq!(
        tencent_kline_url("sz000001", "weekly", None, Some(100)),
        "http://web.ifzq.gtimg.cn/appstock/app/fqkline/get?param=sz000001,week,,,100,qfq"
    );
    assert_eq!(
        tencent_kline_url("sz000001", "daily", Some("2026-06-18".to_string()), None),
        "http://web.ifzq.gtimg.cn/appstock/app/fqkline/get?param=sz000001,day,,2026-06-18,200,qfq"
    );
    assert!(sina_has_period("daily"));
    assert!(!sina_has_period("weekly"));
    assert_eq!(json_array_text(" [{\"day\":\"x\"}] /*cb*/ "), Some("[{\"day\":\"x\"}]".to_string()));
    assert_eq!(json_array_text("null"), None);
    assert_eq!(json_array_text("x]"), None);
}
