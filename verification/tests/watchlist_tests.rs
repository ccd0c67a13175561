use quant_desktop::db::keys;
use quant_desktop::db::store::reorder::MoveMode;
use quant_desktop::db::{Database, DbError, GroupRow, Membership, WatchItem, DEFAULT_GROUP_NAME, GROUP_NAME_MAX_LEN};

/// A store as a fresh install opens it: default group created, defaults written.
fn fresh() -> Database {
    let mut db = Database::new();
    db.migrate_watch_groups(None).unwrap();
    db.init_defaults();
    db
}

/// A store written by an old version: two stocks with a global order
/// (平安银行 before 贵州茅台), no groups yet.
fn legacy() -> Database {
    let items = vec![
        WatchItem {
            id: 1,
            code: "sh600519".to_string(),
            market: "CN".to_string(),
            name: "贵州茅台".to_string(),
            added_at: "2026-01-01T00:00:00".to_string(),
            ticker_enabled: true,
            ticker_order: 0,
        },
        WatchItem {
            id: 2,
            code: "sz000001".to_string(),
            market: "CN".to_string(),
            name: "平安银行".to_string(),
            added_at: "2026-01-01T00:00:00".to_string(),
            ticker_enabled: true,
            ticker_order: 0,
        },
    ];
    let mut db = Database::from_rows(items, vec![], vec![], vec![], 2, 0).unwrap();
    db.migrate_watch_groups(Some(vec![(1, 1), (0, 2)])).unwrap();
    db.init_defaults();
    db
}

/// The store as the next start finds it: rows written out and read back.
fn reopen(db: &Database) -> Database {
    let (last_watch, last_group) = db.last_ids();
    let mut again = Database::from_rows(
        db.get_watchlist(),
        db.group_rows_vec(),
        db.memberships_vec(),
        db.get_all_settings(),
        last_watch,
        last_group,
    )
    .unwrap();
    again.migrate_watch_groups(None).unwrap();
    again.init_defaults();
    again
}

fn group_names_of(db: &Database, watch_id: i64) -> Vec<String> {
    let snap = db.get_watchlist_snapshot();
    let mut names: Vec<String> = snap
        .groups
        .iter()
        .filter(|g| g.watch_ids.contains(&watch_id))
        .map(|g| g.name.clone())
        .collect();
    names.sort();
    names
}

fn watch_id_of(db: &Database, code: &str) -> i64 {
    db.get_watchlist()
        .into_iter()
        .find(|w| w.code == code)
        .unwrap_or_else(|| panic!("watchlist should contain {}", code))
        .id
}

#[test]
fn fresh_db_add_watch_defaults_ticker_enabled() {
    let mut db = fresh();
    let gid = db.get_watchlist_snapshot().default_group_id;
    db.add_watch("sh600519", "CN", "贵州茅台", gid).unwrap();

    let items = db.get_watchlist();
    assert_eq!(items.len(), 1);
    assert!(items[0].ticker_enabled, "全新安装下新增自选应默认开启行情条播报");
    assert_eq!(group_names_of(&db, items[0].id), vec![DEFAULT_GROUP_NAME.to_string()], "新增自选应落在默认分组");
}

#[test]
fn legacy_db_migrates_into_default_group_preserving_order() {
    let db = legacy();
    let snap = db.get_watchlist_snapshot();
    assert_eq!(snap.items.len(), 2, "迁移不应丢失历史自选");
    assert_eq!(snap.groups.len(), 1);
    let g = &snap.groups[0];
    assert_eq!(g.name, DEFAULT_GROUP_NAME);
    assert_eq!(g.watch_ids.len(), 2, "历史自选应全部落进默认分组");

    let pingan = watch_id_of(&db, "sz000001");
    let maotai = watch_id_of(&db, "sh600519");
    assert_eq!(g.watch_ids, vec![pingan, maotai], "组内顺序应沿用历史的全局 sort_order");
    assert!(snap.items.iter().all(|i| i.ticker_enabled));
}

#[test]
fn legacy_db_seeds_ticker_order_from_sort_order() {
    let db = legacy();
    let pingan = db.get_watchlist().into_iter().find(|w| w.code == "sz000001").unwrap();
    let maotai = db.get_watchlist().into_iter().find(|w| w.code == "sh600519").unwrap();
    assert_eq!(pingan.ticker_order, 0);
    assert_eq!(maotai.ticker_order, 1, "行情条播报顺序应从遗留的全局 sort_order 回填，否则老用户轮播次序会被打乱");
}

#[test]
fn migrations_are_idempotent() {
    let first = legacy();
    let db = reopen(&first);
    let snap = db.get_watchlist_snapshot();
    assert_eq!(snap.groups.len(), 1, "重复启动不应追加默认分组");
    assert_eq!(snap.groups[0].watch_ids.len(), 2);
    assert_eq!(db.get_watchlist().len(), 2);
}

#[test]
fn emptied_memberships_are_not_reseeded_on_restart() {
    let mut first = fresh();
    let gid = first.get_watchlist_snapshot().default_group_id;
    first.add_watch("sh600519", "CN", "贵州茅台", gid).unwrap();
    let wid = watch_id_of(&first, "sh600519");
    assert!(first.remove_watch_from_group(gid, wid));
    assert!(first.get_watchlist().is_empty());

    let db = reopen(&first);
    let snap = db.get_watchlist_snapshot();
    assert!(snap.items.is_empty(), "重启不应把已清空的自选灌回来");
    assert!(snap.groups[0].watch_ids.is_empty());
    assert_eq!(snap.groups[0].id, gid);
}

#[test]
fn set_ticker_enabled_persists_across_reopen() {
    let mut first = fresh();
    let gid = first.get_watchlist_snapshot().default_group_id;
    first.add_watch("sh600519", "CN", "贵州茅台", gid).unwrap();
    let id = watch_id_of(&first, "sh600519");
    first.set_watch_ticker_enabled(id, false).unwrap();
    assert!(!first.get_watchlist()[0].ticker_enabled);

    let mut db = reopen(&first);
    let items = db.get_watchlist();
    assert_eq!(items[0].id, id);
    assert!(!items[0].ticker_enabled, "关闭状态应持久化，不应被迁移重置为开启");

    db.set_watch_ticker_enabled(id, true).unwrap();
    assert!(db.get_watchlist()[0].ticker_enabled);

    let db = reopen(&db);
    let items = db.get_watchlist();
    assert_eq!(items[0].id, id);
    assert!(items[0].ticker_enabled, "重新开启后的状态应持久化");
}

#[test]
fn enabling_ticker_appends_to_queue_tail() {
    let mut db = fresh();
    let gid = db.get_watchlist_snapshot().default_group_id;
    for (code, name) in [("sh600519", "贵州茅台"), ("sz000001", "平安银行")] {
        db.add_watch(code, "CN", name, gid).unwrap();
    }
    let first = watch_id_of(&db, "sh600519");
    let second = watch_id_of(&db, "sz000001");

    db.set_watch_ticker_enabled(first, false).unwrap();
    db.set_watch_ticker_enabled(first, true).unwrap();

    let first_order = db.get_watchlist().into_iter().find(|w| w.id == first).unwrap().ticker_order;
    let second_order = db.get_watchlist().into_iter().find(|w| w.id == second).unwrap().ticker_order;
    assert!(
        first_order > second_order,
        "重新开启播报应排到队尾（{} 应大于 {}），而不是插回队首",
        first_order,
        second_order
    );
}

#[test]
fn bulk_ticker_enable_assigns_sequential_order() {
    let mut db = fresh();
    let gid = db.get_watchlist_snapshot().default_group_id;
    for code in ["sh600519", "sz000001", "sz300750"] {
        db.add_watch(code, "CN", code, gid).unwrap();
    }
    let ids = vec![watch_id_of(&db, "sz300750"), watch_id_of(&db, "sh600519"), watch_id_of(&db, "sz000001")];
    db.set_ticker_enabled_bulk(&ids, false).unwrap();
    db.set_ticker_enabled_bulk(&ids, true).unwrap();

    let items = db.get_watchlist();
    let order = |code: &str| items.iter().find(|w| w.code == code).unwrap().ticker_order;
    assert!(order("sz300750") < order("sh600519") && order("sh600519") < order("sz000001"), "批量开启应按传入顺序依次追加");
}

#[test]
fn same_stock_can_belong_to_multiple_groups() {
    let mut db = fresh();
    let g1 = db.get_watchlist_snapshot().default_group_id;
    let g2 = db.add_watch_group("科技").unwrap().id;
    db.add_watch("sz300750", "CN", "宁德时代", g1).unwrap();
    let wid = watch_id_of(&db, "sz300750");
    db.set_watch_groups(wid, &[g1, g2]).unwrap();

    assert_eq!(group_names_of(&db, wid), vec!["科技".to_string(), DEFAULT_GROUP_NAME.to_string()]);
    assert_eq!(db.get_watchlist().len(), 1, "多归属不应产生重复池行");
}

#[test]
fn adding_to_another_group_does_not_move_it() {
    let mut db = fresh();
    let g1 = db.get_watchlist_snapshot().default_group_id;
    let g2 = db.add_watch_group("科技").unwrap().id;
    db.add_watch("sz300750", "CN", "宁德时代", g1).unwrap();
    db.add_watch("sz300750", "CN", "宁德时代", g2).unwrap();

    let wid = watch_id_of(&db, "sz300750");
    assert_eq!(group_names_of(&db, wid).len(), 2);
}

#[test]
fn adding_twice_to_same_group_keeps_position() {
    let mut db = fresh();
    let gid = db.get_watchlist_snapshot().default_group_id;
    for code in ["sh600519", "sz000001"] {
        db.add_watch(code, "CN", code, gid).unwrap();
    }
    let id = watch_id_of(&db, "sh600519");
    db.move_group_member_down(gid, id);
    let before = db.get_watchlist_snapshot().groups[0].watch_ids.clone();

    db.add_watch("sh600519", "CN", "贵州茅台", gid).unwrap();
    let after = db.get_watchlist_snapshot().groups[0].watch_ids.clone();
    assert_eq!(after, before, "重复加入同一分组不应把它挪到队尾");
}

#[test]
fn removing_from_one_group_keeps_it_in_others() {
    let mut db = fresh();
    let g1 = db.get_watchlist_snapshot().default_group_id;
    let g2 = db.add_watch_group("科技").unwrap().id;
    db.add_watch("sz300750", "CN", "宁德时代", g1).unwrap();
    let wid = watch_id_of(&db, "sz300750");
    db.set_watch_groups(wid, &[g1, g2]).unwrap();

    let deleted = db.remove_watch_from_group(g2, wid);
    assert!(!deleted, "还有其它分组时不应删除股票本体");
    assert_eq!(group_names_of(&db, wid), vec![DEFAULT_GROUP_NAME.to_string()]);
    assert_eq!(db.get_watchlist().len(), 1);
}

#[test]
fn removing_from_last_group_deletes_the_stock() {
    let mut db = fresh();
    let gid = db.get_watchlist_snapshot().default_group_id;
    db.add_watch("sz300750", "CN", "宁德时代", gid).unwrap();
    let wid = watch_id_of(&db, "sz300750");

    let deleted = db.remove_watch_from_group(gid, wid);
    assert!(deleted, "移出最后一个分组时应当连股票本体一起删掉");
    assert!(db.get_watchlist().is_empty(), "不应留下不属于任何分组的孤儿行");
}

#[test]
fn set_watch_groups_rejects_empty_selection() {
    let mut db = fresh();
    let gid = db.get_watchlist_snapshot().default_group_id;
    db.add_watch("sz300750", "CN", "宁德时代", gid).unwrap();
    let wid = watch_id_of(&db, "sz300750");

    assert!(db.set_watch_groups(wid, &[]).is_err(), "清空全部分组应被拒绝，而不是静默删除股票");
    assert_eq!(db.get_watchlist().len(), 1);
}

#[test]
fn set_watch_groups_removes_membership_not_in_list() {
    let mut db = fresh();
    let g1 = db.get_watchlist_snapshot().default_group_id;
    let g2 = db.add_watch_group("科技").unwrap().id;
    db.add_watch("sz300750", "CN", "宁德时代", g1).unwrap();
    let wid = watch_id_of(&db, "sz300750");
    db.set_watch_groups(wid, &[g1, g2]).unwrap();

    db.set_watch_groups(wid, &[g2]).unwrap();
    assert_eq!(group_names_of(&db, wid), vec!["科技".to_string()]);
}

#[test]
fn delete_group_moves_only_orphans_to_default() {
    let mut db = fresh();
    let g1 = db.get_watchlist_snapshot().default_group_id;
    let g2 = db.add_watch_group("科技").unwrap().id;
    db.add_watch("sh600519", "CN", "贵州茅台", g2).unwrap();
    db.add_watch("sz300750", "CN", "宁德时代", g1).unwrap();
    let both = watch_id_of(&db, "sz300750");
    db.set_watch_groups(both, &[g1, g2]).unwrap();

    let rescued = db.delete_watch_group(g2).unwrap();
    assert_eq!(rescued, 1, "只有仅在该分组的那只应被救回");
    assert_eq!(
        group_names_of(&db, watch_id_of(&db, "sh600519")),
        vec![DEFAULT_GROUP_NAME.to_string()],
        "孤儿应并入默认分组"
    );
    assert_eq!(group_names_of(&db, both), vec![DEFAULT_GROUP_NAME.to_string()], "本来就在默认分组的股票不应被重复塞进去");
    assert_eq!(db.get_watchlist().len(), 2, "删分组不应删掉自选");
}

#[test]
fn cannot_delete_the_last_group() {
    let mut db = fresh();
    let gid = db.get_watchlist_snapshot().default_group_id;
    assert!(db.delete_watch_group(gid).is_err());
    assert_eq!(db.get_watchlist_snapshot().groups.len(), 1);
}

#[test]
fn group_name_is_validated() {
    let mut db = fresh();
    assert!(db.add_watch_group("  ").is_err(), "空名应被拒绝");
    assert!(db.add_watch_group(&"长".repeat(GROUP_NAME_MAX_LEN + 1)).is_err(), "超长名应被拒绝");
    let g = db.add_watch_group(" 科技 ").unwrap();
    assert_eq!(g.name, "科技", "名称应去除首尾空白");

    assert!(db.add_watch_group("银行").is_ok(), "同名不同分组是允许的");
    assert!(db.rename_watch_group(g.id, "银行").is_err(), "重命名撞上已有分组名应被拒绝");
    assert!(db.rename_watch_group(g.id, "银行 ").is_err());
    assert!(db.rename_watch_group(g.id, "科技2").is_ok(), "重命名成自己以外的名字应成功");
}

#[test]
fn group_member_reorder_is_scoped_to_the_group() {
    let mut db = fresh();
    let g1 = db.get_watchlist_snapshot().default_group_id;
    let g2 = db.add_watch_group("科技").unwrap().id;
    db.add_watch("sh600519", "CN", "贵州茅台", g1).unwrap();
    db.add_watch("sz000001", "CN", "平安银行", g1).unwrap();
    db.add_watch("sz300750", "CN", "宁德时代", g2).unwrap();
    let third = watch_id_of(&db, "sz300750");

    let g1_before = db.get_watchlist_snapshot().groups[0].watch_ids.clone();
    db.move_group_member_top(g1, third);
    let snap = db.get_watchlist_snapshot();
    assert_eq!(snap.groups[0].watch_ids, g1_before, "操作别组的股票不应改动本组顺序");
    assert_eq!(snap.groups.iter().find(|g| g.id == g2).unwrap().watch_ids, vec![third], "该股票本就不在 g1，操作应是 no-op");
}

#[test]
fn group_member_move_up_down_and_top() {
    let mut db = fresh();
    let gid = db.get_watchlist_snapshot().default_group_id;
    for code in ["a", "b", "c"] {
        db.add_watch(code, "CN", code, gid).unwrap();
    }
    let (a, b, c) = (watch_id_of(&db, "a"), watch_id_of(&db, "b"), watch_id_of(&db, "c"));
    let order = |db: &Database| db.get_watchlist_snapshot().groups[0].watch_ids.clone();
    assert_eq!(order(&db), vec![a, b, c]);

    db.move_group_member_up(gid, a);
    assert_eq!(order(&db), vec![a, b, c], "队首上移应是 no-op");

    db.move_group_member_up(gid, b);
    assert_eq!(order(&db), vec![b, a, c]);

    db.move_group_member_down(gid, c);
    assert_eq!(order(&db), vec![b, a, c], "队尾下移应是 no-op");

    db.move_group_member_top(gid, c);
    assert_eq!(order(&db), vec![c, b, a]);

    db.reorder_group_members(gid, &[a, b, c]);
    assert_eq!(order(&db), vec![a, b, c]);
}

#[test]
fn groups_can_be_reordered() {
    let mut db = fresh();
    let g1 = db.get_watchlist_snapshot().default_group_id;
    let g2 = db.add_watch_group("科技").unwrap().id;
    let g3 = db.add_watch_group("银行").unwrap().id;

    db.reorder_watch_groups(&[g3, g1, g2]);
    let ids: Vec<i64> = db.get_watchlist_snapshot().groups.iter().map(|g| g.id).collect();
    assert_eq!(ids, vec![g3, g1, g2]);
    assert_eq!(db.get_watchlist_snapshot().default_group_id, g3, "默认分组 = 展示顺序最靠前的那个，排序后应随之改变");
}

#[test]
fn add_watch_falls_back_to_default_when_group_is_missing() {
    let mut db = fresh();
    let gid = db.get_watchlist_snapshot().default_group_id;
    db.add_watch("sh600519", "CN", "贵州茅台", 9999).unwrap();

    let wid = watch_id_of(&db, "sh600519");
    assert_eq!(group_names_of(&db, wid), vec![DEFAULT_GROUP_NAME.to_string()], "分组不存在时应落到默认分组，而不是留下隐形股票");
    let snap = db.get_watchlist_snapshot();
    assert_eq!(snap.groups[0].id, gid);
}

#[test]
fn set_watch_groups_drops_unknown_group_ids() {
    let mut db = fresh();
    let g1 = db.get_watchlist_snapshot().default_group_id;
    let g2 = db.add_watch_group("科技").unwrap().id;
    db.add_watch("sz300750", "CN", "宁德时代", g2).unwrap();
    let wid = watch_id_of(&db, "sz300750");
    assert_eq!(group_names_of(&db, wid), vec!["科技".to_string()]);

    db.set_watch_groups(wid, &[g1, 9999]).unwrap();
    assert_eq!(group_names_of(&db, wid), vec![DEFAULT_GROUP_NAME.to_string()], "陈旧 id 应被剔除，剩下的有效分组照常生效");
}

#[test]
fn set_watch_groups_rejects_all_unknown_ids() {
    let mut db = fresh();
    let gid = db.get_watchlist_snapshot().default_group_id;
    db.add_watch("sz300750", "CN", "宁德时代", gid).unwrap();
    let wid = watch_id_of(&db, "sz300750");

    assert!(db.set_watch_groups(wid, &[9999, 8888]).is_err(), "剔除后一个不剩应按空集合拒绝，而不是把股票变成隐形行");
    assert_eq!(group_names_of(&db, wid), vec![DEFAULT_GROUP_NAME.to_string()]);
}

#[test]
fn remove_watch_from_foreign_group_is_noop() {
    let mut db = fresh();
    let g1 = db.get_watchlist_snapshot().default_group_id;
    let g2 = db.add_watch_group("科技").unwrap().id;
    db.add_watch("sz300750", "CN", "宁德时代", g1).unwrap();
    let wid = watch_id_of(&db, "sz300750");

    let deleted = db.remove_watch_from_group(g2, wid);
    assert!(!deleted, "不在该分组时不应触发孤儿删除");
    assert_eq!(db.get_watchlist().len(), 1);
    assert_eq!(group_names_of(&db, wid), vec![DEFAULT_GROUP_NAME.to_string()]);
}

#[test]
fn delete_group_without_orphans_rescues_nothing() {
    let mut db = fresh();
    let g1 = db.get_watchlist_snapshot().default_group_id;
    let g2 = db.add_watch_group("科技").unwrap().id;
    db.add_watch("sz300750", "CN", "宁德时代", g1).unwrap();
    let wid = watch_id_of(&db, "sz300750");
    db.set_watch_groups(wid, &[g1, g2]).unwrap();

    let rescued = db.delete_watch_group(g2).unwrap();
    assert_eq!(rescued, 0, "股票还在默认分组里，不该被当成孤儿再塞一次");
    assert_eq!(group_names_of(&db, wid), vec![DEFAULT_GROUP_NAME.to_string()]);
}

#[test]
fn rename_group_to_its_own_name_is_allowed() {
    let mut db = fresh();
    let g = db.add_watch_group("科技").unwrap();
    assert!(db.rename_watch_group(g.id, "科技").is_ok(), "重命名成自己当前的名字应允许（否则前端失焦提交会莫名报错）");
    assert_eq!(db.get_watchlist_snapshot().groups[1].name, "科技");
}

#[test]
fn bulk_disable_clears_the_flag_without_reordering() {
    let mut db = fresh();
    let gid = db.get_watchlist_snapshot().default_group_id;
    for code in ["sh600519", "sz000001", "sz300750"] {
        db.add_watch(code, "CN", code, gid).unwrap();
    }
    let items_before = db.get_watchlist();
    let ids: Vec<i64> = items_before.iter().map(|i| i.id).collect();

    db.set_ticker_enabled_bulk(&ids, false).unwrap();
    let after = db.get_watchlist();
    assert!(after.iter().all(|i| !i.ticker_enabled), "全部应关闭播报");
    for before in &items_before {
        let now = after.iter().find(|i| i.id == before.id).unwrap();
        assert_eq!(now.ticker_order, before.ticker_order);
    }
}

#[test]
fn reorder_ticker_writes_sequential_positions() {
    let mut db = fresh();
    let gid = db.get_watchlist_snapshot().default_group_id;
    for code in ["a", "b", "c"] {
        db.add_watch(code, "CN", code, gid).unwrap();
    }
    let (a, b, c) = (watch_id_of(&db, "a"), watch_id_of(&db, "b"), watch_id_of(&db, "c"));

    db.reorder_ticker(&[c, a, b]);
    let items = db.get_watchlist();
    let order = |id: i64| items.iter().find(|i| i.id == id).unwrap().ticker_order;
    assert_eq!((order(c), order(a), order(b)), (0, 1, 2));
}

#[test]
fn remove_watch_clears_all_memberships() {
    let mut db = fresh();
    let g1 = db.get_watchlist_snapshot().default_group_id;
    let g2 = db.add_watch_group("科技").unwrap().id;
    db.add_watch("sz300750", "CN", "宁德时代", g1).unwrap();
    let wid = watch_id_of(&db, "sz300750");
    db.set_watch_groups(wid, &[g1, g2]).unwrap();

    db.remove_watch("sz300750", "CN");
    let snap = db.get_watchlist_snapshot();
    assert!(snap.items.is_empty());
    assert!(snap.groups.iter().all(|g| g.watch_ids.is_empty()), "彻底删除应清掉全部关联，不留悬空 watch_id");
}

// ── further cases ──

#[test]
fn empty_selection_message_names_the_alternative() {
    let mut db = fresh();
    let gid = db.get_watchlist_snapshot().default_group_id;
    db.add_watch("sz300750", "CN", "宁德时代", gid).unwrap();
    let wid = watch_id_of(&db, "sz300750");
    match db.set_watch_groups(wid, &[]) {
        Err(DbError::InvalidParameterName(m)) => assert_eq!(m, "至少要属于一个分组，如需删除请用「删除自选」"),
        other => panic!("unexpected {:?}", other),
    }
}

#[test]
fn last_group_message() {
    let mut db = fresh();
    let gid = db.get_watchlist_snapshot().default_group_id;
    match db.delete_watch_group(gid) {
        Err(DbError::InvalidParameterName(m)) => assert_eq!(m, "至少需要保留一个分组"),
        other => panic!("unexpected {:?}", other),
    }
}

#[test]
fn group_name_messages() {
    let mut db = fresh();
    match db.add_watch_group(" \t ") {
        Err(DbError::InvalidParameterName(m)) => assert_eq!(m, "分组名不能为空"),
        other => panic!("unexpected {:?}", other),
    }
    match db.add_watch_group(&"长".repeat(21)) {
        Err(DbError::InvalidParameterName(m)) => assert_eq!(m, "分组名不能超过 20 个字符"),
        other => panic!("unexpected {:?}", other),
    }
    assert_eq!(db.add_watch_group(&"长".repeat(20)).unwrap().name, "长".repeat(20));
    let g = db.add_watch_group("科技").unwrap();
    db.add_watch_group("银行").unwrap();
    match db.rename_watch_group(g.id, " 银行") {
        Err(DbError::InvalidParameterName(m)) => assert_eq!(m, "已存在名为「银行」的分组"),
        other => panic!("unexpected {:?}", other),
    }
}

#[test]
fn new_groups_go_last_with_fresh_ids() {
    let mut db = fresh();
    let a = db.add_watch_group_at("甲", "2026-02-01T09:00:00").unwrap();
    let b = db.add_watch_group_at("乙", "2026-02-01T09:00:01").unwrap();
    assert_eq!(a.sort_order, 1);
    assert_eq!(b.sort_order, 2);
    assert_eq!(b.id, a.id + 1);
    assert_eq!(b.created_at, "2026-02-01T09:00:01");
    db.delete_watch_group(b.id).unwrap();
    let c = db.add_watch_group("丙").unwrap();
    assert_eq!(c.id, b.id + 1, "ids are never handed out twice");
}

#[test]
fn new_stock_is_queued_last_on_the_ticker() {
    let mut db = fresh();
    let gid = db.get_watchlist_snapshot().default_group_id;
    db.add_watch_at("sh600519", "CN", "贵州茅台", gid, "2026-03-01T10:00:00").unwrap();
    db.reorder_ticker(&[watch_id_of(&db, "sh600519")]);
    db.set_ticker_enabled_bulk(&[watch_id_of(&db, "sh600519")], true).unwrap();
    db.add_watch_at("sz000001", "CN", "平安银行", gid, "2026-03-01T10:00:01").unwrap();
    let items = db.get_watchlist();
    assert_eq!(items[0].ticker_order, 1);
    assert_eq!(items[1].ticker_order, 2);
    assert_eq!(items[1].added_at, "2026-03-01T10:00:01");
}

#[test]
fn move_member_top_rewrites_positions() {
    let mut db = fresh();
    let gid = db.get_watchlist_snapshot().default_group_id;
    for code in ["a", "b", "c", "d"] {
        db.add_watch(code, "CN", code, gid).unwrap();
    }
    let d = watch_id_of(&db, "d");
    db.move_group_member(gid, d, MoveMode::Top);
    let ids = db.group_member_ids(gid);
    assert_eq!(ids[0], d);
    assert_eq!(ids.len(), 4);
}

#[test]
fn delete_group_without_the_group_keeps_others() {
    let mut db = fresh();
    db.add_watch_group("科技").unwrap();
    let before = db.get_watch_groups().len();
    assert_eq!(db.delete_watch_group(12345).unwrap(), 0);
    assert_eq!(db.get_watch_groups().len(), before);
}

#[test]
fn from_rows_refuses_repeated_stocks() {
    let item = |id: i64| WatchItem {
        id,
        code: "sh600519".to_string(),
        market: "CN".to_string(),
        name: "贵州茅台".to_string(),
        added_at: String::new(),
        ticker_enabled: true,
        ticker_order: 0,
    };
    assert!(matches!(Database::from_rows(vec![item(1), item(2)], vec![], vec![], vec![], 2, 0), Err(DbError::ConstraintViolation)));
    assert!(matches!(Database::from_rows(vec![item(3)], vec![], vec![], vec![], 2, 0), Err(DbError::ConstraintViolation)));
    assert!(Database::from_rows(vec![item(2)], vec![], vec![], vec![], 2, 0).is_ok());
}

#[test]
fn settings_round_trip_and_defaults_keep_user_values() {
    let mut db = Database::new();
    db.set_setting(keys::THEME, "dark");
    db.init_defaults();
    assert_eq!(db.get_setting(keys::THEME), Some("dark".to_string()));
    assert_eq!(db.get_setting(keys::COLOR_SCHEME), Some("cn".to_string()));
    assert_eq!(db.get_setting(keys::GROUPS_MIGRATED), None);
    db.set_setting(keys::THEME, "light");
    assert_eq!(db.get_setting(keys::THEME), Some("light".to_string()));
    assert_eq!(db.get_all_settings().len(), 12);
}

#[test]
fn negative_positions_continue_from_the_largest() {
    let item = WatchItem {
        id: 1,
        code: "sh600519".to_string(),
        market: "CN".to_string(),
        name: "贵州茅台".to_string(),
        added_at: String::new(),
        ticker_enabled: false,
        ticker_order: -5,
    };
    let group = GroupRow { id: 1, name: DEFAULT_GROUP_NAME.to_string(), sort_order: -5, created_at: String::new() };
    let member = Membership { group_id: 1, watch_id: 1, sort_order: -7 };
    let mut db = Database::from_rows(vec![item], vec![group], vec![member], vec![], 1, 1).unwrap();
    // Re-enabling the ticker queues behind the largest position, -5.
    db.set_watch_ticker_enabled(1, true).unwrap();
    assert_eq!(db.get_watchlist()[0].ticker_order, -4);
    // A new group goes one past the largest group position.
    let g = db.add_watch_group("新分组").unwrap();
    assert_eq!(g.sort_order, -4);
    // A new stock joins the group after its largest member position and
    // queues on the ticker after the largest ticker position.
    db.add_watch("sz000001", "CN", "平安银行", 1).unwrap();
    let new_item = db.get_watchlist().into_iter().find(|w| w.code == "sz000001").unwrap();
    assert_eq!(new_item.ticker_order, -3);
    let m = db.memberships_vec().into_iter().find(|m| m.watch_id == new_item.id).unwrap();
    assert_eq!(m.sort_order, -6);
}

#[test]
fn a_second_start_leaves_the_store_as_it_was() {
    let mut db = Database::new();
    db.start(None).unwrap();
    db.add_watch("sh600519", "CN", "贵州茅台", db.default_group_id().unwrap()).unwrap();
    let extra = db.add_watch_group("关注").unwrap();
    db.set_watch_groups(watch_id_of(&db, "sh600519"), &[extra.id]).unwrap();
    db.set_setting(keys::THEME, "dark");
    db.set_watch_ticker_enabled(watch_id_of(&db, "sh600519"), false).unwrap();
    let rows = |db: &Database| {
        let items: Vec<_> = db
            .get_watchlist()
            .into_iter()
            .map(|w| (w.id, w.code, w.market, w.name, w.added_at, w.ticker_enabled, w.ticker_order))
            .collect();
        let groups: Vec<_> = db.group_rows_vec().into_iter().map(|g| (g.id, g.name, g.sort_order, g.created_at)).collect();
        let members: Vec<_> = db.memberships_vec().into_iter().map(|m| (m.group_id, m.watch_id, m.sort_order)).collect();
        (items, groups, members)
    };
    let before = rows(&db);
    let settings = db.get_all_settings();
    assert_eq!(db.start(None).unwrap(), false);
    assert_eq!(rows(&db), before);
    for (k, v) in settings {
        assert_eq!(db.get_setting(&k), Some(v));
    }
}

#[test]
fn a_start_upgrades_bare_codes() {
    let item = WatchItem {
        id: 1,
        code: "600519".to_string(),
        market: "CN".to_string(),
        name: "贵州茅台".to_string(),
        added_at: String::new(),
        ticker_enabled: true,
        ticker_order: 0,
    };
    let mut db = Database::from_rows(vec![item], vec![], vec![], vec![], 1, 0).unwrap();
    assert_eq!(db.start(None).unwrap(), true);
    assert_eq!(db.get_watchlist()[0].code, "sh600519");
    assert_eq!(db.start(None).unwrap(), false);
}
