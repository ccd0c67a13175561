use vstd::prelude::*;

pub mod groups;
pub mod reorder;
pub mod ticker;
pub mod listing;
pub mod load;
pub mod migrate;

use crate::db::keys;
use crate::db::order::{key_lt, lemma_is_sorted_keys, lists_sorted, sort_keys, sorted_keys, strictly_sorted};
use crate::clock::local_now_text;
use crate::text::{chars_of, string_of};

verus! {

/// Name of the first group; legacy watchlists migrate into it.
pub const DEFAULT_GROUP_NAME: &'static str = "自选股";

/// Longest group name, in characters.
pub const GROUP_NAME_MAX_LEN: usize = 20;

/// Index codes shown by default (a JSON array; order is display order).
pub const DEFAULT_INDEX_CODES_JSON: &'static str =
    "[\"s_sh000001\",\"s_sz399001\",\"s_sz399006\",\"s_sh000688\",\"s_sh000698\",\"s_sh000905\",\"s_sh000680\"]";

/// Watchlist columns shown by default (a JSON array; order is column order).
pub const DEFAULT_WATCHLIST_COLUMNS_JSON: &'static str =
    "[\"code\",\"name\",\"price\",\"change_pct\",\"change\",\"volume\",\"turnover\",\"turnover_rate\"]";

/// The settings written on first start, as (key, value).
pub open spec fn default_settings_spec() -> Seq<(Seq<char>, Seq<char>)> {
    seq![
        (keys::ACTIVE_DATASOURCE@, "tencent"@),
        (keys::THEME@, "light"@),
        (keys::TICKER_VISIBLE@, "1"@),
        (keys::AUTO_LAUNCH@, "false"@),
        (keys::INDEX_CODES@, DEFAULT_INDEX_CODES_JSON@),
        (keys::MARKET_OVERVIEW_VISIBLE@, "1"@),
        (keys::SECTOR_TOP_N@, "5"@),
        (keys::TICKER_TRANSPARENT@, "0"@),
        (keys::TICKER_ITEMS_PER_PAGE@, "2"@),
        (keys::WATCHLIST_COLUMNS@, DEFAULT_WATCHLIST_COLUMNS_JSON@),
        (keys::WATCHLIST_DEFAULT_SORT@, ""@),
        (keys::COLOR_SCHEME@, "cn"@),
    ]
}

/// The value the first entry for `key` in `table` gives it.
pub open spec fn lookup_first(table: Seq<(Seq<char>, Seq<char>)>, key: Seq<char>) -> Option<Seq<char>>
    decreases table.len(),
{
    if table.len() == 0 {
        None
    } else {
        match lookup_first(table.drop_last(), key) {
            Some(v) => Some(v),
            None => if table.last().0 == key { Some(table.last().1) } else { None },
        }
    }
}

/// `new` reads as `old` with the missing defaults filled in: a key that was
/// set keeps its value; an unset key reads its default, if it has one.
pub open spec fn defaults_filled(old: Seq<(String, String)>, new: Seq<(String, String)>) -> bool {
    forall|k: Seq<char>| #[trigger] setting_of(new, k) == match setting_of(old, k) {
        Some(v) => Some(v),
        None => lookup_first(default_settings_spec(), k),
    }
}

/// Every key that has a default is set in `s`.
pub open spec fn has_all_defaults(s: Seq<(String, String)>) -> bool {
    forall|k: Seq<char>| #[trigger] lookup_first(default_settings_spec(), k) is Some ==> setting_of(s, k) is Some
}

/// Filling in the defaults leaves every default key set.
pub proof fn lemma_filled_has_all_defaults(old: Seq<(String, String)>, new: Seq<(String, String)>)
    requires
        defaults_filled(old, new),
    ensures
        has_all_defaults(new),
{
    assert forall|k: Seq<char>| #[trigger] lookup_first(default_settings_spec(), k) is Some implies setting_of(new, k) is Some by {
        assert(setting_of(new, k) == match setting_of(old, k) {
            Some(v) => Some(v),
            None => lookup_first(default_settings_spec(), k),
        });
    }
}

/// Filling in the defaults of settings that hold them all already changes
/// no reading: defaults never overwrite what is set.
pub proof fn lemma_defaults_settled(old: Seq<(String, String)>, new: Seq<(String, String)>)
    requires
        has_all_defaults(old),
        defaults_filled(old, new),
    ensures
        forall|k: Seq<char>| #[trigger] setting_of(new, k) == setting_of(old, k),
{
    assert forall|k: Seq<char>| #[trigger] setting_of(new, k) == setting_of(old, k) by {
        assert(setting_of(new, k) == match setting_of(old, k) {
            Some(v) => Some(v),
            None => lookup_first(default_settings_spec(), k),
        });
        if setting_of(old, k) is None && lookup_first(default_settings_spec(), k) is Some {
            assert(setting_of(old, k) is Some);
        }
    }
}

/// The settings written on first start, as (key, value), in this order.
pub fn default_settings() -> (r: Vec<(&'static str, &'static str)>)
    ensures
        r@.len() == default_settings_spec().len(),
        forall|i: int| 0 <= i < r@.len() ==> (#[trigger] r@[i]).0@ == default_settings_spec()[i].0
            && r@[i].1@ == default_settings_spec()[i].1,
{
    let mut v: Vec<(&'static str, &'static str)> = Vec::new();
    v.push((keys::ACTIVE_DATASOURCE, "tencent"));
    v.push((keys::THEME, "light"));
    v.push((keys::TICKER_VISIBLE, "1"));
    v.push((keys::AUTO_LAUNCH, "false"));
    v.push((keys::INDEX_CODES, DEFAULT_INDEX_CODES_JSON));
    v.push((keys::MARKET_OVERVIEW_VISIBLE, "1"));
    v.push((keys::SECTOR_TOP_N, "5"));
    v.push((keys::TICKER_TRANSPARENT, "0"));
    v.push((keys::TICKER_ITEMS_PER_PAGE, "2"));
    v.push((keys::WATCHLIST_COLUMNS, DEFAULT_WATCHLIST_COLUMNS_JSON));
    v.push((keys::WATCHLIST_DEFAULT_SORT, ""));
    v.push((keys::COLOR_SCHEME, "cn"));
    v
}

/// A stock in the global watch pool.
#[derive(Debug, Clone)]
pub struct WatchItem {
    pub id: i64,
    pub code: String,
    pub market: String,
    pub name: String,
    pub added_at: String,
    /// Whether the ticker window shows this stock.
    pub ticker_enabled: bool,
    /// Position in the ticker rotation (independent of groups).
    pub ticker_order: i32,
}

/// A watch group with its members' ids in group order.
#[derive(Debug, Clone)]
pub struct WatchGroup {
    pub id: i64,
    pub name: String,
    pub sort_order: i32,
    pub created_at: String,
    pub watch_ids: Vec<i64>,
}

/// Pool, groups (with ordered members) and the default group, in one value.
#[derive(Debug, Clone)]
pub struct WatchlistSnapshot {
    pub items: Vec<WatchItem>,
    pub groups: Vec<WatchGroup>,
    pub default_group_id: i64,
}

/// A stored group row.
#[derive(Debug, Clone)]
pub struct GroupRow {
    pub id: i64,
    pub name: String,
    pub sort_order: i32,
    pub created_at: String,
}

/// A stored (group, stock) membership with the stock's position in the group.
#[derive(Debug, Clone, Copy)]
pub struct Membership {
    pub group_id: i64,
    pub watch_id: i64,
    pub sort_order: i32,
}

/// Why a watchlist operation was refused.
#[derive(Debug)]
pub enum DbError {
    /// A request the rules refuse, with the message shown to the user.
    InvalidParameterName(String),
    /// A lookup that needed a row found none (no group at all).
    QueryReturnedNoRows,
    /// A position would not fit in an `i32`.
    IntegralValueOutOfRange,
    /// No id is left to assign.
    Full,
    /// A rewrite would give two stocks the same (code, market).
    ConstraintViolation,
}

impl DbError {
    /// The error as the user sees it.
    pub open spec fn message_spec(self) -> Seq<char> {
        match self {
            DbError::InvalidParameterName(s) => "Invalid parameter name: "@ + s@,
            DbError::QueryReturnedNoRows => "Query returned no rows"@,
            DbError::IntegralValueOutOfRange => "Integer value out of range"@,
            DbError::Full => "database or disk is full"@,
            DbError::ConstraintViolation => "UNIQUE constraint failed"@,
        }
    }

    /// The error as the user sees it.
    pub fn message(&self) -> (r: String)
        ensures
            r@ == self.message_spec(),
    {
        match self {
            DbError::InvalidParameterName(s) => {
                let mut m = chars_of("Invalid parameter name: ");
                crate::text::append_chars(&mut m, s.as_str());
                string_of(&m)
            },
            DbError::QueryReturnedNoRows => string_of(&chars_of("Query returned no rows")),
            DbError::IntegralValueOutOfRange => string_of(&chars_of("Integer value out of range")),
            DbError::Full => string_of(&chars_of("database or disk is full")),
            DbError::ConstraintViolation => string_of(&chars_of("UNIQUE constraint failed")),
        }
    }
}

/// The watchlist store: stock pool, groups, memberships and settings.
pub struct Database {
    items: Vec<WatchItem>,
    groups: Vec<GroupRow>,
    members: Vec<Membership>,
    settings: Vec<(String, String)>,
    last_watch_id: i64,
    last_group_id: i64,
}

pub fn clone_item(i: &WatchItem) -> (r: WatchItem)
    ensures
        r == *i,
{
    WatchItem {
        id: i.id,
        code: i.code.clone(),
        market: i.market.clone(),
        name: i.name.clone(),
        added_at: i.added_at.clone(),
        ticker_enabled: i.ticker_enabled,
        ticker_order: i.ticker_order,
    }
}

pub fn clone_group_row(g: &GroupRow) -> (r: GroupRow)
    ensures
        r == *g,
{
    GroupRow { id: g.id, name: g.name.clone(), sort_order: g.sort_order, created_at: g.created_at.clone() }
}

// ── Abstract views ──

/// The value stored under `key`, if any.
pub open spec fn setting_of(s: Seq<(String, String)>, key: Seq<char>) -> Option<Seq<char>> {
    if exists|i: int| 0 <= i < s.len() && (#[trigger] s[i]).0@ == key {
        Some(s[choose|i: int| 0 <= i < s.len() && (#[trigger] s[i]).0@ == key].1@)
    } else {
        None
    }
}

pub open spec fn keys_unique(s: Seq<(String, String)>) -> bool {
    forall|i: int, j: int| 0 <= i < s.len() && 0 <= j < s.len() && i != j ==> (#[trigger] s[i]).0@ != (#[trigger] s[j]).0@
}

pub open spec fn items_wf(items: Seq<WatchItem>, last_id: int) -> bool {
    &&& forall|i: int, j: int| 0 <= i < j < items.len() ==> (#[trigger] items[i]).id < (#[trigger] items[j]).id
    &&& forall|i: int| 0 <= i < items.len() ==> (#[trigger] items[i]).id <= last_id
    &&& forall|i: int, j: int|
        0 <= i < items.len() && 0 <= j < items.len() && i != j ==> !((#[trigger] items[i]).code@ == (#[trigger] items[j]).code@
            && items[i].market@ == items[j].market@)
}

pub open spec fn groups_wf(groups: Seq<GroupRow>, last_id: int) -> bool {
    &&& forall|i: int, j: int|
        0 <= i < groups.len() && 0 <= j < groups.len() && i != j ==> (#[trigger] groups[i]).id != (#[trigger] groups[j]).id
    &&& forall|i: int| 0 <= i < groups.len() ==> (#[trigger] groups[i]).id <= last_id
}

pub open spec fn members_wf(ms: Seq<Membership>) -> bool {
    forall|i: int, j: int|
        0 <= i < ms.len() && 0 <= j < ms.len() && i != j ==> !((#[trigger] ms[i]).group_id == (#[trigger] ms[j]).group_id
            && ms[i].watch_id == ms[j].watch_id)
}

/// With unique keys, the setting stored at `i` is the one its key reads.
pub proof fn lemma_setting_at(s: Seq<(String, String)>, i: int)
    requires
        keys_unique(s),
        0 <= i < s.len(),
    ensures
        setting_of(s, s[i].0@) == Some(s[i].1@),
{
    let c = choose|j: int| 0 <= j < s.len() && (#[trigger] s[j]).0@ == s[i].0@;
    assert(c == i);
}

/// Removing the entry of `key` (if any) and appending one for `key` leaves
/// every other key's value as it was.
proof fn lemma_setting_other(
    old_s: Seq<(String, String)>,
    new_s: Seq<(String, String)>,
    removed: int,
    key: Seq<char>,
    k2: Seq<char>,
)
    requires
        keys_unique(old_s),
        keys_unique(new_s),
        k2 != key,
        new_s.len() >= 1,
        new_s.last().0@ == key,
        (removed == -1 && new_s.drop_last() == old_s) || (0 <= removed < old_s.len()
            && old_s[removed].0@ == key && new_s.drop_last() == old_s.remove(removed)),
    ensures
        setting_of(new_s, k2) == setting_of(old_s, k2),
{
    let before = new_s.drop_last();
    if removed == -1 {
        assert(before.len() == old_s.len());
    } else {
        assert(before =~= old_s.remove(removed));
        assert(before.len() == old_s.len() - 1);
        assert(forall|t: int| 0 <= t < removed ==> before[t] == old_s[t]);
        assert(forall|t: int| removed <= t < before.len() ==> before[t] == old_s[t + 1]);
    }
    if exists|j: int| 0 <= j < old_s.len() && (#[trigger] old_s[j]).0@ == k2 {
        let j = choose|j: int| 0 <= j < old_s.len() && (#[trigger] old_s[j]).0@ == k2;
        lemma_setting_at(old_s, j);
        assert(j != removed);
        let i = if removed >= 0 && j > removed { j - 1 } else { j };
        assert(new_s[i] == before[i]);
        assert(before[i] == old_s[j]);
        lemma_setting_at(new_s, i);
    } else {
        if exists|i: int| 0 <= i < new_s.len() && (#[trigger] new_s[i]).0@ == k2 {
            let i = choose|i: int| 0 <= i < new_s.len() && (#[trigger] new_s[i]).0@ == k2;
            assert(i != new_s.len() - 1);
            assert(new_s[i] == before[i]);
            let j = if removed >= 0 && i >= removed { i + 1 } else { i };
            assert(before[i] == old_s[j]);
            assert(old_s[j].0@ == k2);
        }
    }
}

/// (position, id) of every group row.
pub open spec fn group_key_set(rows: Seq<GroupRow>) -> Set<(i32, i64)> {
    Set::new(|k: (i32, i64)| exists|i: int| 0 <= i < rows.len() && (#[trigger] rows[i]).sort_order == k.0 && rows[i].id == k.1)
}

/// (position, stock id) of every member of group `gid`.
pub open spec fn member_key_set(ms: Seq<Membership>, gid: i64) -> Set<(i32, i64)> {
    Set::new(|k: (i32, i64)| exists|i: int| 0 <= i < ms.len() && (#[trigger] ms[i]).group_id == gid && ms[i].sort_order == k.0 && ms[i].watch_id == k.1)
}

pub open spec fn ids_of(keys: Seq<(i32, i64)>) -> Seq<i64> {
    keys.map_values(|k: (i32, i64)| k.1)
}

/// Largest ticker position in the pool, -1 when it is empty.
pub open spec fn max_ticker(items: Seq<WatchItem>) -> int
    decreases items.len(),
{
    if items.len() == 0 {
        -1
    } else if items.len() == 1 {
        items.last().ticker_order as int
    } else {
        let m = max_ticker(items.drop_last());
        if items.last().ticker_order > m { items.last().ticker_order as int } else { m }
    }
}

/// Largest position inside group `gid`, none when it has no members.
pub open spec fn member_max(ms: Seq<Membership>, gid: i64) -> Option<int>
    decreases ms.len(),
{
    if ms.len() == 0 {
        None
    } else {
        let m = member_max(ms.drop_last(), gid);
        if ms.last().group_id != gid {
            m
        } else {
            match m {
                Some(x) => if ms.last().sort_order > x { Some(ms.last().sort_order as int) } else { Some(x) },
                None => Some(ms.last().sort_order as int),
            }
        }
    }
}

/// Largest position inside group `gid`, -1 when it has no members.
pub open spec fn max_member_sort(ms: Seq<Membership>, gid: i64) -> int {
    match member_max(ms, gid) {
        Some(x) => x,
        None => -1,
    }
}

/// Largest group position, -1 when there are no groups.
pub open spec fn max_group_sort(rows: Seq<GroupRow>) -> int
    decreases rows.len(),
{
    if rows.len() == 0 {
        -1
    } else if rows.len() == 1 {
        rows.last().sort_order as int
    } else {
        let m = max_group_sort(rows.drop_last());
        if rows.last().sort_order > m { rows.last().sort_order as int } else { m }
    }
}

/// `m` is one of the memberships a delete with these filters removes.
pub open spec fn member_hit(m: Membership, gid: Option<i64>, wid: Option<i64>) -> bool {
    (gid is None || m.group_id == gid->0) && (wid is None || m.watch_id == wid->0)
}

/// The memberships of `ms` that satisfy `keep`, order kept.
pub open spec fn filter_members(ms: Seq<Membership>, keep: spec_fn(Membership) -> bool) -> Seq<Membership>
    decreases ms.len(),
{
    if ms.len() == 0 {
        ms
    } else {
        let r = filter_members(ms.drop_last(), keep);
        if keep(ms.last()) { r.push(ms.last()) } else { r }
    }
}

/// `ms` without the memberships the filters select, order kept.
pub open spec fn without_members(ms: Seq<Membership>, gid: Option<i64>, wid: Option<i64>) -> Seq<Membership> {
    filter_members(ms, |m: Membership| !member_hit(m, gid, wid))
}

/// Filtering keeps exactly the memberships `keep` accepts, and keeps them
/// free of repeats.
pub proof fn lemma_filter_members(ms: Seq<Membership>, keep: spec_fn(Membership) -> bool)
    ensures
        forall|m: Membership| #[trigger] filter_members(ms, keep).contains(m) <==> (ms.contains(m) && keep(m)),
        members_wf(ms) ==> members_wf(filter_members(ms, keep)),
    decreases ms.len(),
{
    if ms.len() > 0 {
        let d = ms.drop_last();
        lemma_filter_members(d, keep);
        let r = filter_members(d, keep);
        assert forall|m: Membership| #[trigger] filter_members(ms, keep).contains(m) <==> (ms.contains(m) && keep(m)) by {
            if ms.contains(m) {
                let i = choose|i: int| 0 <= i < ms.len() && ms[i] == m;
                if i < ms.len() - 1 {
                    assert(d[i] == m);
                }
            }
            if d.contains(m) {
                let i = choose|i: int| 0 <= i < d.len() && d[i] == m;
                assert(ms[i] == m);
            }
            if keep(ms.last()) {
                assert(r.push(ms.last())[r.len() as int] == ms.last());
                if r.push(ms.last()).contains(m) {
                    let i = choose|i: int| 0 <= i < r.len() + 1 && r.push(ms.last())[i] == m;
                    if i < r.len() {
                        assert(r[i] == m);
                    }
                }
                if r.contains(m) {
                    let i = choose|i: int| 0 <= i < r.len() && r[i] == m;
                    assert(r.push(ms.last())[i] == m);
                }
            }
        }
        if members_wf(ms) {
            assert(members_wf(d)) by {
                assert forall|a: int, b: int| 0 <= a < d.len() && 0 <= b < d.len() && a != b
                    implies !((#[trigger] d[a]).group_id == (#[trigger] d[b]).group_id && d[a].watch_id == d[b].watch_id) by {
                    assert(d[a] == ms[a] && d[b] == ms[b]);
                }
            }
            if keep(ms.last()) {
                let p = r.push(ms.last());
                assert forall|a: int, b: int| 0 <= a < p.len() && 0 <= b < p.len() && a != b
                    implies !((#[trigger] p[a]).group_id == (#[trigger] p[b]).group_id && p[a].watch_id == p[b].watch_id) by {
                    let n = r.len() as int;
                    if a == n || b == n {
                        let o = if a == n { b } else { a };
                        assert(p[o] == r[o]);
                        assert(r.contains(r[o]));
                        assert(d.contains(r[o]));
                        let k = choose|k: int| 0 <= k < d.len() && d[k] == r[o];
                        assert(ms[k] == d[k]);
                        assert(ms[ms.len() - 1] == ms.last());
                    } else {
                        assert(p[a] == r[a] && p[b] == r[b]);
                    }
                }
            }
        }
    }
}

/// Dropping memberships keeps exactly those not hit, free of repeats.
pub proof fn lemma_without_members(ms: Seq<Membership>, gid: Option<i64>, wid: Option<i64>)
    ensures
        forall|m: Membership| #[trigger] without_members(ms, gid, wid).contains(m) <==> (ms.contains(m) && !member_hit(m, gid, wid)),
        members_wf(ms) ==> members_wf(without_members(ms, gid, wid)),
{
    let keep = |m: Membership| !member_hit(m, gid, wid);
    lemma_filter_members(ms, keep);
    assert(without_members(ms, gid, wid) == filter_members(ms, keep));
    assert forall|m: Membership| #[trigger] without_members(ms, gid, wid).contains(m) <==> (ms.contains(m) && !member_hit(m, gid, wid)) by {
        assert(keep(m) == !member_hit(m, gid, wid));
        assert(filter_members(ms, keep).contains(m) <==> (ms.contains(m) && keep(m)));
    }
}

/// Stock `wid` is a member of group `gid`.
pub open spec fn member_in(ms: Seq<Membership>, gid: i64, wid: i64) -> bool {
    exists|i: int| 0 <= i < ms.len() && (#[trigger] ms[i]).group_id == gid && ms[i].watch_id == wid
}

pub fn has_member(ms: &Vec<Membership>, gid: i64, wid: i64) -> (r: bool)
    ensures
        r == member_in(ms@, gid, wid),
{
    let mut i: usize = 0;
    while i < ms.len()
        invariant
            0 <= i <= ms@.len(),
            forall|t: int| 0 <= t < i ==> !((#[trigger] ms@[t]).group_id == gid && ms@[t].watch_id == wid),
        decreases ms@.len() - i,
    {
        if ms[i].group_id == gid && ms[i].watch_id == wid {
            assert(ms@[i as int].group_id == gid);
            return true;
        }
        i = i + 1;
    }
    false
}

pub fn max_sort_of(ms: &Vec<Membership>, gid: i64) -> (r: i64)
    ensures
        r == max_member_sort(ms@, gid),
        i32::MIN <= r <= i32::MAX,
{
    let mut m: i64 = -1;
    let mut found = false;
    let mut i: usize = 0;
    while i < ms.len()
        invariant
            0 <= i <= ms@.len(),
            found ==> member_max(ms@.take(i as int), gid) == Some(m as int),
            !found ==> member_max(ms@.take(i as int), gid) is None && m == -1,
            i32::MIN <= m <= i32::MAX,
        decreases ms@.len() - i,
    {
        proof {
            assert(ms@.take(i + 1).drop_last() =~= ms@.take(i as int));
        }
        if ms[i].group_id == gid && (!found || ms[i].sort_order as i64 > m) {
            m = ms[i].sort_order as i64;
            found = true;
        }
        i = i + 1;
    }
    proof {
        assert(ms@.take(ms@.len() as int) =~= ms@);
    }
    m
}

/// Some membership of stock `wid` remains.
pub open spec fn watched(ms: Seq<Membership>, wid: i64) -> bool {
    exists|i: int| 0 <= i < ms.len() && (#[trigger] ms[i]).watch_id == wid
}

pub fn watched_in(ms: &Vec<Membership>, wid: i64) -> (r: bool)
    ensures
        r == watched(ms@, wid),
{
    let mut i: usize = 0;
    while i < ms.len()
        invariant
            0 <= i <= ms@.len(),
            forall|t: int| 0 <= t < i ==> (#[trigger] ms@[t]).watch_id != wid,
        decreases ms@.len() - i,
    {
        if ms[i].watch_id == wid {
            assert(ms@[i as int].watch_id == wid);
            return true;
        }
        i = i + 1;
    }
    false
}

/// `ms` without the memberships the filters select.
pub fn drop_members(ms: &Vec<Membership>, gid: Option<i64>, wid: Option<i64>) -> (r: Vec<Membership>)
    ensures
        r@ == without_members(ms@, gid, wid),
{
    let mut out: Vec<Membership> = Vec::new();
    let mut i: usize = 0;
    while i < ms.len()
        invariant
            0 <= i <= ms@.len(),
            out@ == without_members(ms@.take(i as int), gid, wid),
        decreases ms@.len() - i,
    {
        let m = ms[i];
        proof {
            assert(ms@.take(i + 1).drop_last() =~= ms@.take(i as int));
        }
        let hit = (gid.is_none() || m.group_id == gid.unwrap()) && (wid.is_none() || m.watch_id == wid.unwrap());
        if !hit {
            out.push(m);
        }
        i = i + 1;
    }
    proof {
        assert(ms@.take(ms@.len() as int) =~= ms@);
    }
    out
}

/// Index of the stock with id `id`.
pub open spec fn item_index_of(items: Seq<WatchItem>, id: i64) -> Option<int> {
    if exists|i: int| 0 <= i < items.len() && (#[trigger] items[i]).id == id {
        Some(choose|i: int| 0 <= i < items.len() && (#[trigger] items[i]).id == id)
    } else {
        None
    }
}

/// `items` without the stock with id `id` (unchanged when there is none).
pub open spec fn items_without(items: Seq<WatchItem>, id: i64) -> Seq<WatchItem> {
    match item_index_of(items, id) {
        Some(i) => items.remove(i),
        None => items,
    }
}

/// Rewriting names, positions or ticker fields, which keeps every id in
/// place, keeps the watchlist whole.
pub proof fn lemma_placed_same_ids(a: Database, b: Database)
    requires
        a.placed(),
        b.group_rows().len() == a.group_rows().len(),
        forall|i: int| 0 <= i < a.group_rows().len() ==> (#[trigger] b.group_rows()[i]).id == a.group_rows()[i].id,
        b.memberships().len() == a.memberships().len(),
        forall|i: int| 0 <= i < a.memberships().len() ==> (#[trigger] b.memberships()[i]).group_id == a.memberships()[i].group_id
            && b.memberships()[i].watch_id == a.memberships()[i].watch_id,
        b.items().len() == a.items().len(),
        forall|i: int| 0 <= i < a.items().len() ==> (#[trigger] b.items()[i]).id == a.items()[i].id,
    ensures
        b.placed(),
{
    assert forall|i: int| 0 <= i < b.memberships().len() implies b.has_group((#[trigger] b.memberships()[i]).group_id) by {
        assert(a.has_group(a.memberships()[i].group_id));
        let j = choose|j: int| 0 <= j < a.group_rows().len() && (#[trigger] a.group_rows()[j]).id == a.memberships()[i].group_id;
        assert(b.group_rows()[j].id == b.memberships()[i].group_id);
    }
    assert forall|i: int| 0 <= i < b.items().len() implies watched(b.memberships(), (#[trigger] b.items()[i]).id) by {
        assert(watched(a.memberships(), a.items()[i].id));
        let j = choose|j: int| 0 <= j < a.memberships().len() && (#[trigger] a.memberships()[j]).watch_id == a.items()[i].id;
        assert(b.memberships()[j].watch_id == b.items()[i].id);
    }
}

impl Database {
    pub closed spec fn items(self) -> Seq<WatchItem> {
        self.items@
    }

    pub closed spec fn group_rows(self) -> Seq<GroupRow> {
        self.groups@
    }

    pub closed spec fn memberships(self) -> Seq<Membership> {
        self.members@
    }

    pub closed spec fn settings(self) -> Seq<(String, String)> {
        self.settings@
    }

    /// Largest stock id ever handed out.
    pub closed spec fn last_watch_id(self) -> int {
        self.last_watch_id as int
    }

    /// Largest group id ever handed out.
    pub closed spec fn last_group_id(self) -> int {
        self.last_group_id as int
    }

    /// The store's own invariant: ids and (code, market) unique, stocks in id
    /// order, memberships and setting keys unique.
    pub open spec fn wf(self) -> bool {
        &&& 0 <= self.last_watch_id()
        &&& 0 <= self.last_group_id()
        &&& items_wf(self.items(), self.last_watch_id())
        &&& groups_wf(self.group_rows(), self.last_group_id())
        &&& members_wf(self.memberships())
        &&& keys_unique(self.settings())
    }

    /// The watchlist is whole: there is a group, every membership names an
    /// existing group, and every stock of the pool is in some group.
    pub open spec fn placed(self) -> bool {
        &&& self.group_rows().len() >= 1
        &&& forall|i: int| 0 <= i < self.memberships().len() ==> self.has_group((#[trigger] self.memberships()[i]).group_id)
        &&& forall|i: int| 0 <= i < self.items().len() ==> watched(self.memberships(), (#[trigger] self.items()[i]).id)
    }

    /// Group ids in display order: by position, then id.
    pub open spec fn group_order(self) -> Seq<i64> {
        ids_of(sorted_keys(group_key_set(self.group_rows())))
    }

    /// The members of group `gid` in group order: by position, then stock id.
    pub open spec fn member_order(self, gid: i64) -> Seq<i64> {
        ids_of(sorted_keys(member_key_set(self.memberships(), gid)))
    }

    /// The default group: first in display order.
    pub open spec fn default_group(self) -> Option<i64> {
        if self.group_order().len() > 0 { Some(self.group_order()[0]) } else { None }
    }

    pub open spec fn has_group(self, gid: i64) -> bool {
        exists|i: int| 0 <= i < self.group_rows().len() && (#[trigger] self.group_rows()[i]).id == gid
    }

    pub open spec fn is_member(self, gid: i64, wid: i64) -> bool {
        member_in(self.memberships(), gid, wid)
    }

    /// Index in the pool of the stock with this code and market.
    pub open spec fn item_with(self, code: Seq<char>, market: Seq<char>) -> Option<int> {
        if exists|i: int| 0 <= i < self.items().len() && (#[trigger] self.items()[i]).code@ == code && self.items()[i].market@ == market {
            Some(choose|i: int| 0 <= i < self.items().len() && (#[trigger] self.items()[i]).code@ == code && self.items()[i].market@ == market)
        } else {
            None
        }
    }

    /// The group a request for `gid` lands in: `gid` itself when it exists,
    /// else the default group.
    pub open spec fn target_group(self, gid: i64) -> Option<i64> {
        if self.has_group(gid) { Some(gid) } else { self.default_group() }
    }

    /// An empty store.
    pub fn new() -> (r: Database)
        ensures
            r.wf(),
            r.items().len() == 0,
            r.group_rows().len() == 0,
            r.memberships().len() == 0,
            r.settings().len() == 0,
            r.last_watch_id() == 0,
            r.last_group_id() == 0,
    {
        Database {
            items: Vec::new(),
            groups: Vec::new(),
            members: Vec::new(),
            settings: Vec::new(),
            last_watch_id: 0,
            last_group_id: 0,
        }
    }

    fn group_keys(&self) -> (r: Vec<(i32, i64)>)
        ensures
            forall|x: (i32, i64)| r@.contains(x) <==> group_key_set(self.group_rows()).contains(x),
    {
        let mut out: Vec<(i32, i64)> = Vec::new();
        let mut i: usize = 0;
        while i < self.groups.len()
            invariant
                0 <= i <= self.groups@.len(),
                out@.len() == i,
                forall|t: int| 0 <= t < i ==> #[trigger] out@[t] == (self.groups@[t].sort_order, self.groups@[t].id),
            decreases self.groups@.len() - i,
        {
            out.push((self.groups[i].sort_order, self.groups[i].id));
            i = i + 1;
        }
        proof {
            assert forall|x: (i32, i64)| out@.contains(x) <==> group_key_set(self.groups@).contains(x) by {
                if out@.contains(x) {
                    let t = choose|t: int| 0 <= t < out@.len() && out@[t] == x;
                    assert(self.groups@[t].sort_order == x.0 && self.groups@[t].id == x.1);
                }
                if group_key_set(self.groups@).contains(x) {
                    let t = choose|t: int| 0 <= t < self.groups@.len() && (#[trigger] self.groups@[t]).sort_order == x.0 && self.groups@[t].id == x.1;
                    assert(out@[t] == x);
                }
            }
        }
        out
    }

    pub(crate) fn sorted_group_keys(&self) -> (r: Vec<(i32, i64)>)
        ensures
            r@ == sorted_keys(group_key_set(self.group_rows())),
            lists_sorted(r@, group_key_set(self.group_rows())),
            ids_of(r@) == self.group_order(),
    {
        let keys = self.group_keys();
        let sorted = sort_keys(&keys);
        proof {
            assert(lists_sorted(sorted@, group_key_set(self.groups@)));
            lemma_is_sorted_keys(sorted@, group_key_set(self.groups@));
        }
        sorted
    }

    /// The default group's id: first in display order.
    pub fn default_group_id(&self) -> (r: Option<i64>)
        ensures
            r == self.default_group(),
            r matches Some(g) ==> self.has_group(g),
            r is None ==> self.group_rows().len() == 0,
    {
        let sorted = self.sorted_group_keys();
        proof {
            if sorted@.len() > 0 {
                assert(sorted@.contains(sorted@[0]));
                assert(group_key_set(self.group_rows()).contains(sorted@[0]));
            } else if self.group_rows().len() > 0 {
                let x = (self.group_rows()[0].sort_order, self.group_rows()[0].id);
                assert(group_key_set(self.group_rows()).contains(x));
                assert(sorted@.contains(x));
            }
        }
        if sorted.len() > 0 {
            Some(sorted[0].1)
        } else {
            None
        }
    }

    fn member_keys(&self, gid: i64) -> (r: Vec<(i32, i64)>)
        ensures
            forall|x: (i32, i64)| r@.contains(x) <==> member_key_set(self.memberships(), gid).contains(x),
    {
        let mut out: Vec<(i32, i64)> = Vec::new();
        let mut i: usize = 0;
        while i < self.members.len()
            invariant
                0 <= i <= self.members@.len(),
                forall|x: (i32, i64)| out@.contains(x) <==> member_key_set(self.members@.take(i as int), gid).contains(x),
            decreases self.members@.len() - i,
        {
            let m = self.members[i];
            let ghost prev = out@;
            if m.group_id == gid {
                out.push((m.sort_order, m.watch_id));
            }
            proof {
                let pre = self.members@.take(i as int);
                let cur = self.members@.take(i + 1);
                assert forall|x: (i32, i64)| out@.contains(x) <==> member_key_set(cur, gid).contains(x) by {
                    if out@.contains(x) {
                        let t = choose|t: int| 0 <= t < out@.len() && out@[t] == x;
                        if t < prev.len() {
                            assert(prev.contains(x));
                            let u = choose|u: int| 0 <= u < pre.len() && (#[trigger] pre[u]).group_id == gid && pre[u].sort_order == x.0 && pre[u].watch_id == x.1;
                            assert(cur[u] == pre[u]);
                        } else {
                            assert(cur[i as int] == m);
                        }
                    }
                    if member_key_set(cur, gid).contains(x) {
                        let u = choose|u: int| 0 <= u < cur.len() && (#[trigger] cur[u]).group_id == gid && cur[u].sort_order == x.0 && cur[u].watch_id == x.1;
                        if u < i {
                            assert(pre[u] == cur[u]);
                            assert(member_key_set(pre, gid).contains(x));
                            assert(prev.contains(x));
                            let t = choose|t: int| 0 <= t < prev.len() && prev[t] == x;
                            assert(out@[t] == x);
                        } else {
                            assert(out@[out@.len() - 1] == x);
                        }
                    }
                }
            }
            i = i + 1;
        }
        proof {
            assert(self.members@.take(self.members@.len() as int) =~= self.members@);
        }
        out
    }

    /// Member ids of group `gid` in group order.
    pub fn group_member_ids(&self, gid: i64) -> (r: Vec<i64>)
        ensures
            r@ == self.member_order(gid),
            lists_sorted(sorted_keys(member_key_set(self.memberships(), gid)), member_key_set(self.memberships(), gid)),
            members_wf(self.memberships()) ==> reorder::no_dups(r@),
            members_wf(self.memberships()) ==> forall|w: i64| #[trigger] r@.contains(w) <==> member_in(self.memberships(), gid, w),
    {
        let keys = self.member_keys(gid);
        let sorted = sort_keys(&keys);
        proof {
            assert(lists_sorted(sorted@, member_key_set(self.members@, gid)));
            lemma_is_sorted_keys(sorted@, member_key_set(self.members@, gid));
            if members_wf(self.members@) {
                reorder::lemma_order_ids(self.members@, gid, sorted@);
            }
        }
        let mut out: Vec<i64> = Vec::new();
        let mut i: usize = 0;
        while i < sorted.len()
            invariant
                0 <= i <= sorted@.len(),
                out@ == ids_of(sorted@.take(i as int)),
            decreases sorted@.len() - i,
        {
            out.push(sorted[i].1);
            i = i + 1;
            proof {
                assert(out@ =~= ids_of(sorted@.take(i as int)));
            }
        }
        proof {
            assert(sorted@.take(sorted@.len() as int) =~= sorted@);
        }
        out
    }

    fn group_exists(&self, gid: i64) -> (r: bool)
        ensures
            r == self.has_group(gid),
    {
        let mut i: usize = 0;
        while i < self.groups.len()
            invariant
                0 <= i <= self.groups@.len(),
                forall|t: int| 0 <= t < i ==> (#[trigger] self.groups@[t]).id != gid,
            decreases self.groups@.len() - i,
        {
            if self.groups[i].id == gid {
                assert(self.group_rows()[i as int].id == gid);
                return true;
            }
            i = i + 1;
        }
        false
    }

    fn member_exists(&self, gid: i64, wid: i64) -> (r: bool)
        ensures
            r == self.is_member(gid, wid),
    {
        has_member(&self.members, gid, wid)
    }

    pub(crate) fn max_ticker_exec(&self) -> (r: i64)
        ensures
            r == max_ticker(self.items()),
            i32::MIN <= r <= i32::MAX,
    {
        let mut m: i64 = -1;
        let mut i: usize = 0;
        while i < self.items.len()
            invariant
                0 <= i <= self.items@.len(),
                m == max_ticker(self.items@.take(i as int)),
                i32::MIN <= m <= i32::MAX,
            decreases self.items@.len() - i,
        {
            proof {
                assert(self.items@.take(i + 1).drop_last() =~= self.items@.take(i as int));
            }
            if i == 0 || self.items[i].ticker_order as i64 > m {
                m = self.items[i].ticker_order as i64;
            }
            i = i + 1;
        }
        proof {
            assert(self.items@.take(self.items@.len() as int) =~= self.items@);
        }
        m
    }

    fn max_member_sort_exec(&self, gid: i64) -> (r: i64)
        ensures
            r == max_member_sort(self.memberships(), gid),
    {
        max_sort_of(&self.members, gid)
    }

    fn max_group_sort_exec(&self) -> (r: i64)
        ensures
            r == max_group_sort(self.group_rows()),
            i32::MIN <= r <= i32::MAX,
    {
        let mut m: i64 = -1;
        let mut i: usize = 0;
        while i < self.groups.len()
            invariant
                0 <= i <= self.groups@.len(),
                m == max_group_sort(self.groups@.take(i as int)),
                i32::MIN <= m <= i32::MAX,
            decreases self.groups@.len() - i,
        {
            proof {
                assert(self.groups@.take(i + 1).drop_last() =~= self.groups@.take(i as int));
            }
            if i == 0 || self.groups[i].sort_order as i64 > m {
                m = self.groups[i].sort_order as i64;
            }
            i = i + 1;
        }
        proof {
            assert(self.groups@.take(self.groups@.len() as int) =~= self.groups@);
        }
        m
    }

    fn item_index(&self, code: &String, market: &String) -> (r: Option<usize>)
        requires
            self.wf(),
        ensures
            r matches Some(i) ==> self.item_with(code@, market@) == Some(i as int),
            r is None ==> self.item_with(code@, market@) is None,
    {
        let mut i: usize = 0;
        while i < self.items.len()
            invariant
                self.wf(),
                0 <= i <= self.items@.len(),
                forall|t: int| 0 <= t < i ==> !((#[trigger] self.items@[t]).code@ == code@ && self.items@[t].market@ == market@),
            decreases self.items@.len() - i,
        {
            if self.items[i].code == *code && self.items[i].market == *market {
                proof {
                    assert(self.items()[i as int].code@ == code@);
                    let c = choose|t: int| 0 <= t < self.items@.len() && (#[trigger] self.items@[t]).code@ == code@ && self.items@[t].market@ == market@;
                    if c != i {
                        assert(!(self.items@[c].code@ == self.items@[i as int].code@ && self.items@[c].market@ == self.items@[i as int].market@));
                    }
                    assert(c == i);
                }
                return Some(i);
            }
            i = i + 1;
        }
        None
    }

    /// The store's contents other than stocks and memberships are those of `other`.
    pub open spec fn same_groups_settings(self, other: Database) -> bool {
        &&& self.group_rows() == other.group_rows()
        &&& self.settings() == other.settings()
        &&& self.last_group_id() == other.last_group_id()
    }

    /// Nothing changed.
    pub open spec fn unchanged(self, other: Database) -> bool {
        &&& self.same_groups_settings(other)
        &&& self.items() == other.items()
        &&& self.memberships() == other.memberships()
        &&& self.last_watch_id() == other.last_watch_id()
    }

    /// Id of the stock that `add_watch(code, market, ..)` files.
    pub open spec fn add_target_id(self, code: Seq<char>, market: Seq<char>) -> int {
        match self.item_with(code, market) {
            Some(i) => self.items()[i].id as int,
            None => self.last_watch_id() + 1,
        }
    }

    // ── Watch pool ──

    pub open spec fn watch_added(self, new: Database, code: Seq<char>, market: Seq<char>, name: Seq<char>, group_id: i64, now: Seq<char>, r: Result<(), DbError>) -> bool {
        &&& new.same_groups_settings(self)
        &&& r is Err ==> new.unchanged(self)
        &&& self.target_group(group_id) is None ==> (r matches Err(DbError::QueryReturnedNoRows))
        &&& self.target_group(group_id) matches Some(gid) ==> {
            let t_over = max_ticker(self.items()) >= i32::MAX;
            let fresh = self.item_with(code, market) is None;
            let full = fresh && self.last_watch_id() == i64::MAX;
            let s_over = max_member_sort(self.memberships(), gid) >= i32::MAX;
            let wid = self.add_target_id(code, market);
            &&& t_over ==> (r matches Err(DbError::IntegralValueOutOfRange))
            &&& (!t_over && full) ==> (r matches Err(DbError::Full))
            &&& (!t_over && !full && s_over) ==> (r matches Err(DbError::IntegralValueOutOfRange))
            &&& (!t_over && !full && !s_over) ==> {
                &&& r is Ok
                &&& !fresh ==> new.items() == self.items()
                    && new.last_watch_id() == self.last_watch_id()
                &&& fresh ==> {
                    &&& new.last_watch_id() == wid
                    &&& new.items().len() == self.items().len() + 1
                    &&& new.items().drop_last() == self.items()
                    &&& new.items().last().id == wid
                    &&& new.items().last().code@ == code
                    &&& new.items().last().market@ == market
                    &&& new.items().last().name@ == name
                    &&& new.items().last().added_at@ == now
                    &&& new.items().last().ticker_enabled
                    &&& new.items().last().ticker_order == max_ticker(self.items()) + 1
                }
                &&& self.is_member(gid, wid as i64) ==> new.memberships() == self.memberships()
                &&& !self.is_member(gid, wid as i64) ==> new.memberships() == self.memberships().push(
                    Membership { group_id: gid, watch_id: wid as i64, sort_order: (max_member_sort(self.memberships(), gid) + 1) as i32 },
                )
            }
        }
    }

    /// `add_watch_at` at the current local time.
    pub fn add_watch(&mut self, code: &str, market: &str, name: &str, group_id: i64) -> (r: Result<(), DbError>)
        requires
            old(self).wf(),
        ensures
            final(self).wf(),
            old(self).placed() ==> final(self).placed(),
            exists|now: Seq<char>| old(self).watch_added(*final(self), code@, market@, name@, group_id, now, r),
    {
        let now = local_now_text();
        self.add_watch_at(code, market, name, group_id, now.as_str())
    }

    /// Puts the stock into the pool (reusing it when (code, market) is already
    /// there) and into group `group_id`, or the default group when that group
    /// does not exist. Already in that group: its position is kept. A new
    /// stock is shown by the ticker, at the end of its rotation.
    pub fn add_watch_at(&mut self, code: &str, market: &str, name: &str, group_id: i64, now: &str) -> (r: Result<(), DbError>)
        requires
            old(self).wf(),
        ensures
            final(self).wf(),
            old(self).placed() ==> final(self).placed(),
            old(self).watch_added(*final(self), code@, market@, name@, group_id, now@, r),
    {
        let gid = if self.group_exists(group_id) {
            group_id
        } else {
            match self.default_group_id() {
                Some(g) => g,
                None => return Err(DbError::QueryReturnedNoRows),
            }
        };
        assert(old(self).has_group(gid));
        let mt = self.max_ticker_exec();
        if mt >= 0x7fff_ffffi64 {
            return Err(DbError::IntegralValueOutOfRange);
        }
        let code_s = code.to_owned();
        let market_s = market.to_owned();
        let existing = self.item_index(&code_s, &market_s);
        if existing.is_none() && self.last_watch_id == 0x7fff_ffff_ffff_ffffi64 {
            return Err(DbError::Full);
        }
        let ms = self.max_member_sort_exec(gid);
        if ms >= 0x7fff_ffffi64 {
            return Err(DbError::IntegralValueOutOfRange);
        }
        let wid = match existing {
            Some(i) => self.items[i].id,
            None => {
                let id = self.last_watch_id + 1;
                let item = WatchItem {
                    id,
                    code: code_s,
                    market: market_s,
                    name: name.to_owned(),
                    added_at: now.to_owned(),
                    ticker_enabled: true,
                    ticker_order: (mt + 1) as i32,
                };
                proof {
                    assert(forall|t: int| 0 <= t < self.items@.len() ==> (#[trigger] self.items@[t]).id <= self.last_watch_id);
                }
                self.items.push(item);
                self.last_watch_id = id;
                proof {
                    assert(self.items@.drop_last() =~= old(self).items@);
                }
                id
            },
        };
        proof {
            assert(wid == old(self).add_target_id(code@, market@));
            assert(items_wf(self.items@, self.last_watch_id as int)) by {
                if existing.is_none() {
                    let n = self.items@.len() - 1;
                    assert forall|a: int, b: int| 0 <= a < self.items@.len() && 0 <= b < self.items@.len() && a != b
                        implies !((#[trigger] self.items@[a]).code@ == (#[trigger] self.items@[b]).code@ && self.items@[a].market@ == self.items@[b].market@) by {
                        if a == n {
                            assert(old(self).items()[b] == self.items@[b]);
                        } else if b == n {
                            assert(old(self).items()[a] == self.items@[a]);
                        } else {
                            assert(old(self).items()[a] == self.items@[a]);
                            assert(old(self).items()[b] == self.items@[b]);
                        }
                    }
                }
            }
        }
        let ghost before = self.members@;
        let is_mem = self.member_exists(gid, wid);
        if !is_mem {
            proof {
                assert forall|b: int| 0 <= b < before.len() implies !((#[trigger] before[b]).group_id == gid && before[b].watch_id == wid) by {
                    assert(self.memberships()[b] == before[b]);
                }
            }
            self.members.push(Membership { group_id: gid, watch_id: wid, sort_order: (ms + 1) as i32 });
            proof {
                assert forall|a: int, b: int| 0 <= a < self.members@.len() && 0 <= b < self.members@.len() && a != b
                    implies !((#[trigger] self.members@[a]).group_id == (#[trigger] self.members@[b]).group_id && self.members@[a].watch_id == self.members@[b].watch_id) by {
                    let n = before.len() as int;
                    if a == n {
                        assert(before[b] == self.members@[b]);
                    } else if b == n {
                        assert(before[a] == self.members@[a]);
                    } else {
                        assert(before[a] == self.members@[a]);
                        assert(before[b] == self.members@[b]);
                    }
                }
            }
        }
        proof {
            if old(self).placed() {
                let ms0 = old(self).memberships();
                let ms1 = self.memberships();
                assert(self.group_rows() == old(self).group_rows());
                assert(ms1.len() >= ms0.len());
                assert(forall|k: int| 0 <= k < ms0.len() ==> ms1[k] == ms0[k]);
                if is_mem {
                    assert(ms1 == before);
                    assert(member_in(before, gid, wid));
                } else {
                    assert(ms1[ms1.len() - 1].group_id == gid && ms1[ms1.len() - 1].watch_id == wid);
                }
                assert(member_in(ms1, gid, wid));
                assert forall|k: int| 0 <= k < ms1.len() implies self.has_group((#[trigger] ms1[k]).group_id) by {
                    if k < ms0.len() {
                        assert(old(self).has_group(ms0[k].group_id));
                    }
                }
                assert forall|k: int| 0 <= k < self.items().len() implies watched(ms1, (#[trigger] self.items()[k]).id) by {
                    if k < old(self).items().len() {
                        assert(self.items()[k] == old(self).items()[k]);
                        assert(watched(ms0, old(self).items()[k].id));
                        let j = choose|j: int| 0 <= j < ms0.len() && (#[trigger] ms0[j]).watch_id == old(self).items()[k].id;
                        assert(ms1[j] == ms0[j]);
                    } else {
                        assert(self.items()[k].id == wid);
                        let j = choose|j: int| 0 <= j < ms1.len() && (#[trigger] ms1[j]).group_id == gid && ms1[j].watch_id == wid;
                    }
                }
            }
        }
        Ok(())
    }

    fn remove_members(&mut self, gid: Option<i64>, wid: Option<i64>)
        requires
            old(self).wf(),
        ensures
            final(self).wf(),
            final(self).memberships() == without_members(old(self).memberships(), gid, wid),
            final(self).items() == old(self).items(),
            final(self).same_groups_settings(*old(self)),
            final(self).last_watch_id() == old(self).last_watch_id(),
    {
        let out = drop_members(&self.members, gid, wid);
        proof {
            lemma_without_members(self.members@, gid, wid);
        }
        self.members = out;
    }

    pub(crate) fn item_index_by_id(&self, id: i64) -> (r: Option<usize>)
        requires
            self.wf(),
        ensures
            r matches Some(i) ==> item_index_of(self.items(), id) == Some(i as int),
            r is None ==> item_index_of(self.items(), id) is None,
    {
        let mut i: usize = 0;
        while i < self.items.len()
            invariant
                self.wf(),
                0 <= i <= self.items@.len(),
                forall|t: int| 0 <= t < i ==> (#[trigger] self.items@[t]).id != id,
            decreases self.items@.len() - i,
        {
            if self.items[i].id == id {
                proof {
                    assert(self.items()[i as int].id == id);
                    let c = choose|t: int| 0 <= t < self.items@.len() && (#[trigger] self.items@[t]).id == id;
                    if c < i {
                        assert(self.items@[c].id < self.items@[i as int].id);
                    } else if c > i {
                        assert(self.items@[i as int].id < self.items@[c].id);
                    }
                }
                return Some(i);
            }
            i = i + 1;
        }
        None
    }

    fn remove_item_at(&mut self, i: usize)
        requires
            old(self).wf(),
            i < old(self).items().len(),
        ensures
            final(self).wf(),
            final(self).items() == old(self).items().remove(i as int),
            final(self).memberships() == old(self).memberships(),
            final(self).same_groups_settings(*old(self)),
            final(self).last_watch_id() == old(self).last_watch_id(),
    {
        let ghost before = self.items@;
        self.items.remove(i);
        proof {
            assert forall|a: int, b: int| 0 <= a < b < self.items@.len() implies (#[trigger] self.items@[a]).id < (#[trigger] self.items@[b]).id by {
                let a2 = if a < i { a } else { a + 1 };
                let b2 = if b < i { b } else { b + 1 };
                assert(self.items@[a] == before[a2] && self.items@[b] == before[b2]);
            }
            assert forall|a: int| 0 <= a < self.items@.len() implies (#[trigger] self.items@[a]).id <= self.last_watch_id by {
                let a2 = if a < i { a } else { a + 1 };
                assert(self.items@[a] == before[a2]);
            }
            assert forall|a: int, b: int| 0 <= a < self.items@.len() && 0 <= b < self.items@.len() && a != b
                implies !((#[trigger] self.items@[a]).code@ == (#[trigger] self.items@[b]).code@ && self.items@[a].market@ == self.items@[b].market@) by {
                let a2 = if a < i { a } else { a + 1 };
                let b2 = if b < i { b } else { b + 1 };
                assert(self.items@[a] == before[a2] && self.items@[b] == before[b2]);
            }
        }
    }

    /// Deletes the stock with this code and market from the pool, together
    /// with all of its group memberships.
    pub fn remove_watch(&mut self, code: &str, market: &str)
        requires
            old(self).wf(),
        ensures
            final(self).wf(),
            old(self).placed() ==> final(self).placed(),
            final(self).same_groups_settings(*old(self)),
            final(self).last_watch_id() == old(self).last_watch_id(),
            old(self).item_with(code@, market@) matches Some(i) ==> {
                &&& final(self).items() == old(self).items().remove(i)
                &&& final(self).memberships() == without_members(old(self).memberships(), None, Some(old(self).items()[i].id))
            },
            old(self).item_with(code@, market@) is None ==> final(self).unchanged(*old(self)),
    {
        let code_s = code.to_owned();
        let market_s = market.to_owned();
        match self.item_index(&code_s, &market_s) {
            Some(i) => {
                let id = self.items[i].id;
                self.remove_members(None, Some(id));
                self.remove_item_at(i);
                proof {
                    if old(self).placed() {
                        let ms0 = old(self).memberships();
                        let ms1 = self.memberships();
                        let items0 = old(self).items();
                        let items1 = self.items();
                        lemma_without_members(ms0, None, Some(id));
                        assert(ms1 == without_members(ms0, None, Some(id)));
                        assert(self.group_rows() == old(self).group_rows());
                        assert forall|k: int| 0 <= k < ms1.len() implies self.has_group((#[trigger] ms1[k]).group_id) by {
                            assert(without_members(ms0, None, Some(id)).contains(ms1[k]));
                            let j = choose|j: int| 0 <= j < ms0.len() && ms0[j] == ms1[k];
                            assert(old(self).has_group(ms0[j].group_id));
                        }
                        assert forall|k: int| 0 <= k < items1.len() implies watched(ms1, (#[trigger] items1[k]).id) by {
                            let k0 = if k < i { k } else { k + 1 };
                            assert(items1[k] == items0[k0]);
                            assert(watched(ms0, items0[k0].id));
                            let j = choose|j: int| 0 <= j < ms0.len() && (#[trigger] ms0[j]).watch_id == items0[k0].id;
                            if k0 < i {
                                assert(items0[k0].id < items0[i as int].id);
                            } else {
                                assert(items0[i as int].id < items0[k0].id);
                            }
                            assert(ms0.contains(ms0[j]));
                            assert(without_members(ms0, None, Some(id)).contains(ms0[j]));
                            let t = choose|t: int| 0 <= t < ms1.len() && ms1[t] == ms0[j];
                            assert(ms1[t].watch_id == items1[k].id);
                        }
                    }
                }
            },
            None => {},
        }
    }

    fn is_watched(&self, wid: i64) -> (r: bool)
        ensures
            r == watched(self.memberships(), wid),
    {
        watched_in(&self.members, wid)
    }

    /// Takes stock `watch_id` out of group `group_id`. When that leaves it in
    /// no group at all it is deleted from the pool as well, and `true` is
    /// returned.
    pub fn remove_watch_from_group(&mut self, group_id: i64, watch_id: i64) -> (r: bool)
        requires
            old(self).wf(),
        ensures
            final(self).wf(),
            old(self).placed() ==> final(self).placed(),
            final(self).same_groups_settings(*old(self)),
            final(self).last_watch_id() == old(self).last_watch_id(),
            final(self).memberships() == without_members(old(self).memberships(), Some(group_id), Some(watch_id)),
            r == !watched(final(self).memberships(), watch_id),
            r ==> final(self).items() == items_without(old(self).items(), watch_id),
            !r ==> final(self).items() == old(self).items(),
    {
        self.remove_members(Some(group_id), Some(watch_id));
        let remaining = self.is_watched(watch_id);
        let ghost mid = self.items@;
        let mut gone: Option<usize> = None;
        if !remaining {
            match self.item_index_by_id(watch_id) {
                Some(i) => {
                    self.remove_item_at(i);
                    gone = Some(i);
                },
                None => {},
            }
        }
        proof {
            if old(self).placed() {
                let ms0 = old(self).memberships();
                let ms1 = self.memberships();
                let items0 = old(self).items();
                let items1 = self.items();
                lemma_without_members(ms0, Some(group_id), Some(watch_id));
                assert(ms1 == without_members(ms0, Some(group_id), Some(watch_id)));
                assert(self.group_rows() == old(self).group_rows());
                assert forall|k: int| 0 <= k < ms1.len() implies self.has_group((#[trigger] ms1[k]).group_id) by {
                    assert(without_members(ms0, Some(group_id), Some(watch_id)).contains(ms1[k]));
                    let j = choose|j: int| 0 <= j < ms0.len() && ms0[j] == ms1[k];
                    assert(old(self).has_group(ms0[j].group_id));
                }
                assert forall|k: int| 0 <= k < items1.len() implies watched(ms1, (#[trigger] items1[k]).id) by {
                    let k0 = match gone {
                        Some(i) => if k < i { k } else { k + 1 },
                        None => k,
                    };
                    assert(items1[k] == items0[k0]);
                    if items0[k0].id == watch_id {
                        if !remaining {
                            match gone {
                                Some(i) => {
                                    if k0 < i {
                                        assert(items0[k0].id < items0[i as int].id);
                                    } else {
                                        assert(items0[i as int].id < items0[k0].id);
                                    }
                                },
                                None => {
                                    assert(item_index_of(items0, watch_id) is Some);
                                },
                            }
                        }
                    } else {
                        assert(watched(ms0, items0[k0].id));
                        let j = choose|j: int| 0 <= j < ms0.len() && (#[trigger] ms0[j]).watch_id == items0[k0].id;
                        assert(ms0.contains(ms0[j]));
                        assert(without_members(ms0, Some(group_id), Some(watch_id)).contains(ms0[j]));
                        let t = choose|t: int| 0 <= t < ms1.len() && ms1[t] == ms0[j];
                        assert(ms1[t].watch_id == items1[k].id);
                    }
                }
            }
        }
        !remaining
    }

    // ── Settings ──

    fn setting_index(&self, key: &String) -> (r: Option<usize>)
        ensures
            r matches Some(i) ==> i < self.settings@.len() && self.settings@[i as int].0@ == key@,
            r is None ==> forall|i: int| 0 <= i < self.settings@.len() ==> (#[trigger] self.settings@[i]).0@ != key@,
    {
        let mut i: usize = 0;
        while i < self.settings.len()
            invariant
                0 <= i <= self.settings@.len(),
                forall|j: int| 0 <= j < i ==> (#[trigger] self.settings@[j]).0@ != key@,
            decreases self.settings@.len() - i,
        {
            if self.settings[i].0 == *key {
                return Some(i);
            }
            i = i + 1;
        }
        None
    }

    /// The value stored under `key`.
    pub fn get_setting(&self, key: &str) -> (r: Option<String>)
        requires
            self.wf(),
        ensures
            r matches Some(v) ==> setting_of(self.settings(), key@) == Some(v@),
            r is None ==> setting_of(self.settings(), key@) is None,
    {
        let k = key.to_owned();
        match self.setting_index(&k) {
            Some(i) => {
                proof {
                    assert(setting_of(self.settings@, key@) == Some(self.settings@[i as int].1@));
                }
                Some(self.settings[i].1.clone())
            },
            None => None,
        }
    }

    /// Stores `value` under `key`, replacing an earlier value; the pair
    /// moves to the end of the listing order.
    pub fn set_setting(&mut self, key: &str, value: &str)
        requires
            old(self).wf(),
        ensures
            final(self).wf(),
            old(self).placed() ==> final(self).placed(),
            final(self).items() == old(self).items(),
            final(self).group_rows() == old(self).group_rows(),
            final(self).memberships() == old(self).memberships(),
            final(self).last_watch_id() == old(self).last_watch_id(),
            final(self).last_group_id() == old(self).last_group_id(),
            setting_of(final(self).settings(), key@) == Some(value@),
            forall|k: Seq<char>| k != key@ ==> setting_of(final(self).settings(), k) == setting_of(old(self).settings(), k),
            final(self).settings().len() >= 1,
            final(self).settings().last().0@ == key@,
            final(self).settings().last().1@ == value@,
            (exists|i: int| 0 <= i < old(self).settings().len() && (#[trigger] old(self).settings()[i]).0@ == key@)
                ==> final(self).settings().drop_last() == old(self).settings().remove(
                    choose|i: int| 0 <= i < old(self).settings().len() && (#[trigger] old(self).settings()[i]).0@ == key@,
                ),
            (forall|i: int| 0 <= i < old(self).settings().len() ==> (#[trigger] old(self).settings()[i]).0@ != key@)
                ==> final(self).settings().drop_last() == old(self).settings(),
    {
        let k = key.to_owned();
        let v = value.to_owned();
        let ghost old_s = self.settings@;
        let ghost mut removed: int = -1;
        match self.setting_index(&k) {
            Some(i) => {
                proof {
                    let c = choose|j: int| 0 <= j < self.settings@.len() && (#[trigger] self.settings@[j]).0@ == key@;
                    assert(c == i);
                    removed = i as int;
                }
                self.settings.remove(i);
            },
            None => {},
        }
        let ghost before = self.settings@;
        self.settings.push((k, v));
        proof {
            assert(self.settings@.drop_last() =~= before);
            let n = (self.settings@.len() - 1) as int;
            lemma_setting_at(self.settings@, n);
            assert forall|k2: Seq<char>| k2 != key@ implies setting_of(self.settings@, k2) == setting_of(old_s, k2) by {
                lemma_setting_other(old_s, self.settings@, removed, key@, k2);
            }
        }
    }

    /// Writes each default setting whose key holds no value yet; values the
    /// user changed are kept.
    pub fn init_defaults(&mut self)
        requires
            old(self).wf(),
        ensures
            final(self).wf(),
            old(self).placed() ==> final(self).placed(),
            final(self).items() == old(self).items(),
            final(self).group_rows() == old(self).group_rows(),
            final(self).memberships() == old(self).memberships(),
            final(self).last_watch_id() == old(self).last_watch_id(),
            final(self).last_group_id() == old(self).last_group_id(),
            defaults_filled(old(self).settings(), final(self).settings()),
    {
        let defs = default_settings();
        let ghost table = default_settings_spec();
        let ghost old_s = self.settings@;
        let mut i: usize = 0;
        proof {
            assert(table.take(0) =~= Seq::<(Seq<char>, Seq<char>)>::empty());
        }
        while i < defs.len()
            invariant
                self.wf(),
                defs@.len() == table.len(),
                forall|t: int| 0 <= t < defs@.len() ==> (#[trigger] defs@[t]).0@ == table[t].0 && defs@[t].1@ == table[t].1,
                table == default_settings_spec(),
                0 <= i <= defs@.len(),
                self.items@ == old(self).items@,
                self.groups@ == old(self).groups@,
                self.members@ == old(self).members@,
                self.last_watch_id == old(self).last_watch_id,
                self.last_group_id == old(self).last_group_id,
                forall|k: Seq<char>| #[trigger] setting_of(self.settings@, k) == match setting_of(old_s, k) {
                    Some(v) => Some(v),
                    None => lookup_first(table.take(i as int), k),
                },
            decreases defs@.len() - i,
        {
            let (k, v) = defs[i];
            proof {
                assert(table.take(i + 1).drop_last() =~= table.take(i as int));
                assert(table.take(i + 1).last() == table[i as int]);
            }
            if self.get_setting(k).is_none() {
                self.set_setting(k, v);
            }
            i = i + 1;
        }
        proof {
            assert(table.take(defs@.len() as int) =~= table);
        }
    }

    /// All stored settings, in listing order.
    pub fn get_all_settings(&self) -> (r: Vec<(String, String)>)
        ensures
            r@.len() == self.settings().len(),
            forall|i: int| 0 <= i < r@.len() ==> (#[trigger] r@[i]).0@ == self.settings()[i].0@ && r@[i].1@ == self.settings()[i].1@,
    {
        let mut out: Vec<(String, String)> = Vec::new();
        let mut i: usize = 0;
        while i < self.settings.len()
            invariant
                0 <= i <= self.settings@.len(),
                out@.len() == i,
                forall|j: int| 0 <= j < i ==> (#[trigger] out@[j]).0@ == self.settings@[j].0@ && out@[j].1@ == self.settings@[j].1@,
            decreases self.settings@.len() - i,
        {
            out.push((self.settings[i].0.clone(), self.settings[i].1.clone()));
            i = i + 1;
        }
        out
    }
}

} // verus!
