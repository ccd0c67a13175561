use quant_desktop::commands::ticker_profit::{choose_anchor, profit_visible, WidthAnchor, PROFIT_VISIBLE_KEY};
use quant_desktop::commands::ticker_profit_geometry::Bounds;
use quant_desktop::db::store::migrate::upgrade_code;
use quant_desktop::db::{Database, DbError, WatchItem};
use quant_desktop::domain::AppError;

fn item(id: i64, code: &str, market: &str) -> WatchItem {
    WatchItem {
        id,
        code: code.to_string(),
        market: market.to_string(),
        name: code.to_string(),
        added_at: String::new(),
        ticker_enabled: true,
        ticker_order: 0,
    }
}

#[test]
fn bare_codes_get_their_exchange() {
    assert_eq!(upgrade_code("600519"), Some("sh600519".to_string()));
    assert_eq!(upgrade_code("510050"), Some("sh510050".to_string()));
    assert_eq!(upgrade_code("900901"), Some("sh900901".to_string()));
    assert_eq!(upgrade_code("000852"), Some("sz000852".to_string()));
    assert_eq!(upgrade_code("sh600519"), None);
    assert_eq!(upgrade_code("sz000001"), None);
    assert_eq!(upgrade_code("12345"), None);
    assert_eq!(upgrade_code("60051a"), None);
}

#[test]
fn legacy_codes_are_upgraded_in_place() {
    let mut db = Database::from_rows(
        vec![item(1, "600519", "CN"), item(2, "sz000001", "CN"), item(3, "00700", "HK"), item(4, "000852", "CN")],
        vec![],
        vec![],
        vec![],
        4,
        0,
    )
    .unwrap();
    assert!(matches!(db.migrate_watchlist_codes(), Ok(true)));
    let codes: Vec<String> = db.get_watchlist().into_iter().map(|w| w.code).collect();
    assert_eq!(codes, vec!["sh600519", "sz000001", "00700", "sz000852"]);
    assert!(matches!(db.migrate_watchlist_codes(), Ok(false)), "a second pass changes nothing");
}

#[test]
fn an_upgrade_onto_an_existing_symbol_stops() {
    let mut db = Database::from_rows(
        vec![item(1, "000001", "CN"), item(2, "600519", "CN"), item(3, "sh600519", "CN")],
        vec![],
        vec![],
        vec![],
        3,
        0,
    )
    .unwrap();
    assert!(matches!(db.migrate_watchlist_codes(), Err(DbError::ConstraintViolation)));
    let codes: Vec<String> = db.get_watchlist().into_iter().map(|w| w.code).collect();
    assert_eq!(codes, vec!["sz000001", "600519", "sh600519"]);
}

#[test]
fn error_messages() {
    assert_eq!(AppError::network("sina", "超时").message(), "网络请求失败 (sina): 超时");
    assert_eq!(AppError::parse("tencent", "bad").message(), "数据解析失败 (tencent): bad");
    assert_eq!(
        AppError::Database(DbError::InvalidParameterName("x".to_string())).message(),
        "数据库错误: Invalid parameter name: x"
    );
    assert_eq!(AppError::NotFound("sh1".to_string()).message(), "未找到: sh1");
    assert_eq!(DbError::QueryReturnedNoRows.message(), "Query returned no rows");
}

#[test]
fn profit_column_defaults_to_visible() {
    let mut db = Database::new();
    assert!(profit_visible(&db));
    db.set_setting(PROFIT_VISIBLE_KEY, "0");
    assert!(!profit_visible(&db));
    db.set_setting(PROFIT_VISIBLE_KEY, "1");
    assert!(profit_visible(&db));
}

#[test]
fn remembered_anchor_wins_while_the_window_stays_put() {
    let area = Bounds { x: 0, y: 0, width: 1000, height: 800 };
    let current = Bounds { x: 100, y: 10, width: 200, height: 50 };
    let remembered = WidthAnchor { x: 100, width: 200, area, right: true };
    assert!(choose_anchor(Some(remembered), current, area, false));
    let moved = Bounds { x: 120, ..current };
    assert!(!choose_anchor(Some(remembered), moved, area, false));
    assert!(choose_anchor(Some(remembered), moved, area, true));
    let other_area = Bounds { x: -1920, ..area };
    assert!(!choose_anchor(Some(WidthAnchor { area: other_area, ..remembered }), current, area, true));
    assert!(!choose_anchor(None, current, area, false));
    assert!(choose_anchor(None, Bounds { x: 700, ..current }, area, false));
}
