use quant_desktop::datasource::sources::{code_to_secid, code_to_sina, code_to_tencent, SourceRegistry};
use quant_desktop::datasource::{DEFAULT_INDEX_CODES, INDEX_CODES, INDEX_POOL_NAMES};
use quant_desktop::db::keys;
use quant_desktop::db::{default_settings, DEFAULT_INDEX_CODES_JSON, DEFAULT_WATCHLIST_COLUMNS_JSON};

#[test]
fn default_index_codes_match_datasource() {
    let parsed: Vec<String> = serde_json::from_str(DEFAULT_INDEX_CODES_JSON).expect("默认指数列表应是合法 JSON 数组");
    let expected: Vec<String> = DEFAULT_INDEX_CODES.iter().map(|s| s.to_string()).collect();
    assert_eq!(parsed, expected);

    for code in &parsed {
        assert!(INDEX_CODES.split(',').any(|c| c == code), "默认勾选的 {} 必须存在于指数候选池中", code);
    }
}

#[test]
fn default_settings_keys_are_pinned() {
    let keys: Vec<&str> = default_settings().iter().map(|(k, _)| *k).collect();
    assert_eq!(
        keys,
        vec![
            "active_datasource",
            "theme",
            "ticker_visible",
            "auto_launch",
            "index_codes",
            "market_overview_visible",
            "sector_top_n",
            "ticker_transparent",
            "ticker_items_per_page",
            "watchlist_columns",
            "watchlist_default_sort",
            "color_scheme",
        ]
    );
}

#[test]
fn default_settings_have_no_duplicate_keys() {
    let mut seen = std::collections::HashSet::new();
    for (k, _) in default_settings() {
        assert!(seen.insert(k), "默认设置里 {} 出现了两次，后者会覆盖前者", k);
    }
}

#[test]
fn migration_marker_is_not_a_default() {
    assert!(
        !default_settings().iter().any(|(k, _)| *k == keys::GROUPS_MIGRATED),
        "把 {} 写进默认值会让分组迁移永不执行",
        keys::GROUPS_MIGRATED
    );
}

#[test]
fn boolean_defaults_use_the_0_1_wire_format() {
    for key in [keys::MARKET_OVERVIEW_VISIBLE, keys::TICKER_VISIBLE, keys::TICKER_TRANSPARENT] {
        let v = default_settings()
            .iter()
            .find(|(k, _)| *k == key)
            .map(|(_, v)| *v)
            .unwrap_or_else(|| panic!("{} 不在默认值表里", key));
        assert!(v == "0" || v == "1", "{} 的默认值 {:?} 应为 \"0\" 或 \"1\"", key, v);
    }
}

#[test]
fn numeric_defaults_parse() {
    for key in [keys::SECTOR_TOP_N, keys::TICKER_ITEMS_PER_PAGE] {
        let v = default_settings()
            .iter()
            .find(|(k, _)| *k == key)
            .map(|(_, v)| *v)
            .unwrap_or_else(|| panic!("{} 不在默认值表里", key));
        assert!(v.parse::<u32>().is_ok(), "{} 的默认值 {:?} 应是正整数", key, v);
    }
}

#[test]
fn default_watchlist_columns_exclude_ticker_toggle() {
    let parsed: Vec<String> = serde_json::from_str(DEFAULT_WATCHLIST_COLUMNS_JSON).expect("默认列应是合法 JSON 数组");
    assert!(!parsed.iter().any(|c| c == "ticker_enabled"), "行情条播报开关已收归设置页，不应再是表格列");
    assert!(parsed.contains(&"code".to_string()));
    assert!(parsed.contains(&"name".to_string()));
}

#[test]
fn symbols_per_source() {
    assert_eq!(code_to_sina("600519", "CN"), "sh600519");
    assert_eq!(code_to_sina("510050", "CN"), "sh510050");
    assert_eq!(code_to_sina("000001", "CN"), "sz000001");
    assert_eq!(code_to_sina("AAPL", "US"), "AAPL");
    assert_eq!(code_to_tencent("sz000852", "CN"), "sz000852");
    assert_eq!(code_to_tencent("900901", "CN"), "sh900901");
    assert_eq!(code_to_tencent("300750", "CN"), "sz300750");
    assert_eq!(code_to_secid("600519", "CN"), "1.600519");
    assert_eq!(code_to_secid("000001", "CN"), "0.000001");
    assert_eq!(code_to_secid("00700", "HK"), "00700.00700");
    assert_eq!(code_to_secid("sh600519", "CN"), "1.600519");
    assert_eq!(code_to_secid("sz000001", "CN"), "0.000001");
    assert_eq!(code_to_secid("sz600000", "CN"), "0.600000");
}

#[test]
fn registry_activates_the_first_source_and_refuses_unknown_names() {
    let mut reg = SourceRegistry::new();
    assert_eq!(reg.active_name(), "");
    reg.register("sina");
    reg.register("tencent");
    reg.register("sina");
    assert_eq!(reg.active_name(), "sina");
    assert_eq!(reg.list(), vec!["sina".to_string(), "tencent".to_string()]);
    assert!(reg.set_active("tencent").is_ok());
    assert_eq!(reg.active_name(), "tencent");
    assert_eq!(reg.set_active("yahoo"), Err("Data source 'yahoo' is not registered".to_string()));
    assert_eq!(reg.active_name(), "tencent");
    assert!(reg.is_registered("sina"));
    assert!(!reg.is_registered("yahoo"));
}

#[test]
fn index_pool_names_cover_the_index_codes() {
    let pool: Vec<&str> = INDEX_POOL_NAMES.iter().map(|(c, _)| *c).collect();
    assert_eq!(pool, DEFAULT_INDEX_CODES.to_vec());
    assert_eq!(INDEX_POOL_NAMES[0], ("s_sh000001", "上证指数"));
    assert!(INDEX_POOL_NAMES.iter().all(|(_, n)| !n.is_empty()));
}

#[test]
fn registration_appends_new_names_once() {
    let mut r = SourceRegistry::new();
    r.register("tencent");
    r.register("sina");
    r.register("tencent");
    assert_eq!(r.list(), vec!["tencent".to_string(), "sina".to_string()]);
    assert_eq!(r.active_name(), "tencent");
    assert_eq!(r.active_position(), Some(0));
}
