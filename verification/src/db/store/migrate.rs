use vstd::prelude::*;

use super::groups::{append_members, lemma_append_members};
use super::reorder::{last_index, lemma_last_index_step};
use super::ticker::with_ticker;
use super::{
    defaults_filled, has_all_defaults, has_member, lemma_filled_has_all_defaults, ids_of, item_index_of, lemma_defaults_settled, max_sort_of,
    members_wf, setting_of, watched, Database, DbError,
    GroupRow, Membership, WatchItem, DEFAULT_GROUP_NAME,
};
use crate::db::keys;
use crate::datasource::sources::{has_prefix, shanghai};
use crate::db::order::{lemma_is_sorted_keys, lists_sorted, sort_keys, sorted_keys};
use crate::text::{all_digits, append_chars, chars_of, string_of};
use super::{clone_item, items_wf};

verus! {

/// The stock ids of legacy (position, id) rows, by position, then id.
pub open spec fn legacy_order(rows: Seq<(i32, i64)>) -> Seq<i64> {
    ids_of(sorted_keys(Set::new(|x: (i32, i64)| rows.contains(x))))
}

/// The pool with each stock of the legacy rows given its legacy position as
/// ticker position (the last row of a stock counts).
pub open spec fn legacy_ticker(items: Seq<WatchItem>, rows: Seq<(i32, i64)>) -> Seq<WatchItem> {
    items.map_values(
        |it: WatchItem|
            match last_index(rows.map_values(|p: (i32, i64)| p.1), it.id) {
                Some(k) => with_ticker(it, it.ticker_enabled, rows[k].0),
                None => it,
            },
    )
}

/// What a first start after an upgrade does to the memberships: every stock,
/// in legacy order when legacy positions exist (else in id order), joins the
/// default group at positions 0, 1, 2, ...
pub open spec fn seeded_members(db: Database, g: i64, legacy: Option<Seq<(i32, i64)>>) -> Seq<Membership> {
    append_members(
        db.memberships(),
        g,
        match legacy {
            Some(rows) => legacy_order(rows),
            None => db.items().map_values(|it: WatchItem| it.id),
        },
        0,
    )
}

/// The full symbol of a bare six-digit A-share code: `sh` in front when it
/// starts with 6, 5 or 9, else `sz`. `None` for a code that carries its
/// exchange already or is not six digits.
pub open spec fn upgraded_code(code: Seq<char>) -> Option<Seq<char>> {
    if has_prefix(code, "sh"@) || has_prefix(code, "sz"@) {
        None
    } else if code.len() == 6 && all_digits(code) {
        Some((if shanghai(code) { "sh"@ } else { "sz"@ }) + code)
    } else {
        None
    }
}

/// The full symbol of a bare six-digit A-share code (see `upgraded_code`).
pub fn upgrade_code(code: &str) -> (r: Option<String>)
    ensures
        r matches Some(s) ==> upgraded_code(code@) == Some(s@),
        r is None ==> upgraded_code(code@) is None,
{
    let c = chars_of(code);
    proof {
        reveal_strlit("sh");
        reveal_strlit("sz");
    }
    if c.len() >= 2 && c[0] == 's' && (c[1] == 'h' || c[1] == 'z') {
        proof {
            if c@[1] == 'h' {
                assert(code@.subrange(0, 2) =~= "sh"@);
            } else {
                assert(code@.subrange(0, 2) =~= "sz"@);
            }
        }
        return None;
    }
    proof {
        if has_prefix(code@, "sh"@) || has_prefix(code@, "sz"@) {
            assert(code@.subrange(0, 2)[0] == code@[0]);
            assert(code@.subrange(0, 2)[1] == code@[1]);
        }
    }
    if c.len() != 6 {
        return None;
    }
    let mut i: usize = 0;
    while i < 6
        invariant
            c@ == code@,
            c@.len() == 6,
            0 <= i <= 6,
            forall|k: int| 0 <= k < i ==> crate::text::is_digit(#[trigger] c@[k]),
        decreases 6 - i,
    {
        if !('0' <= c[i] && c[i] <= '9') {
            proof {
                assert(!crate::text::is_digit(code@[i as int]));
            }
            return None;
        }
        i = i + 1;
    }
    let mut out = if c[0] == '6' || c[0] == '5' || c[0] == '9' { chars_of("sh") } else { chars_of("sz") };
    append_chars(&mut out, code);
    Some(string_of(&out))
}

/// Stock codes of the pool after the legacy code upgrade has looked at the
/// first `k` stocks: each A-share stock with a bare code gets its full
/// symbol, unless another stock of its market already has that symbol; the
/// upgrade stops there (`failed`), keeping what it rewrote so far.
/// (codes, something rewritten, failed)
pub open spec fn code_pass(codes: Seq<Seq<char>>, markets: Seq<Seq<char>>, k: nat) -> (Seq<Seq<char>>, bool, bool)
    decreases k,
{
    if k == 0 {
        (codes, false, false)
    } else {
        let (cs, changed, failed) = code_pass(codes, markets, (k - 1) as nat);
        let i = k - 1;
        if failed || markets[i] != "CN"@ {
            (cs, changed, failed)
        } else {
            match upgraded_code(cs[i]) {
                None => (cs, changed, failed),
                Some(full) => if exists|j: int| 0 <= j < cs.len() && j != i && cs[j] == full && markets[j] == markets[i] {
                    (cs, changed, true)
                } else {
                    (cs.update(i, full), true, false)
                },
            }
        }
    }
}

pub open spec fn codes_of(items: Seq<WatchItem>) -> Seq<Seq<char>> {
    items.map_values(|it: WatchItem| it.code@)
}

pub open spec fn markets_of(items: Seq<WatchItem>) -> Seq<Seq<char>> {
    items.map_values(|it: WatchItem| it.market@)
}

/// A stock as plain values: id, code, market, name, added time, ticker
/// switch and ticker position.
pub open spec fn item_view(i: WatchItem) -> (i64, Seq<char>, Seq<char>, Seq<char>, Seq<char>, bool, i32) {
    (i.id, i.code@, i.market@, i.name@, i.added_at@, i.ticker_enabled, i.ticker_order)
}

pub open spec fn items_view(items: Seq<WatchItem>) -> Seq<(i64, Seq<char>, Seq<char>, Seq<char>, Seq<char>, bool, i32)> {
    items.map_values(|i: WatchItem| item_view(i))
}

impl Database {
    /// What the code upgrade (`migrate_watchlist_codes`) does: the codes
    /// become those of `code_pass`, and nothing else changes.
    pub open spec fn codes_migrated(self, new: Database, r: Result<bool, DbError>) -> bool {
        &&& new.memberships() == self.memberships()
        &&& new.same_groups_settings(self)
        &&& new.last_watch_id() == self.last_watch_id()
        &&& new.items().len() == self.items().len()
        &&& forall|i: int| 0 <= i < self.items().len() ==> {
            let a = #[trigger] self.items()[i];
            let b = new.items()[i];
            &&& b.id == a.id && b.market == a.market && b.name == a.name && b.added_at == a.added_at
            &&& b.ticker_enabled == a.ticker_enabled && b.ticker_order == a.ticker_order
        }
        &&& ({
            let (cs, changed, failed) = code_pass(codes_of(self.items()), markets_of(self.items()), self.items().len());
            &&& codes_of(new.items()) == cs
            &&& failed ==> (r matches Err(DbError::ConstraintViolation))
            &&& !failed ==> r == Ok::<bool, DbError>(changed)
        })
    }

    /// A store as an earlier start left it: the group seeding is marked done,
    /// every default setting is set, every A-share code carries its
    /// exchange, and there is a group.
    pub open spec fn settled(self) -> bool {
        &&& setting_of(self.settings(), keys::GROUPS_MIGRATED@) is Some
        &&& has_all_defaults(self.settings())
        &&& forall|i: int| 0 <= i < self.items().len() && (#[trigger] self.items()[i]).market@ == "CN"@
            ==> upgraded_code(self.items()[i].code@) is None
        &&& self.group_rows().len() > 0
    }

    /// What a start does, step by step: the code upgrade takes the store to
    /// `m1` (with result `r1`), the group seeding takes `m1` to `m2` (with
    /// `r2`), and the defaults are filled in; the first failure ends it.
    pub open spec fn start_steps(
        self,
        m1: Database,
        r1: Result<bool, DbError>,
        m2: Database,
        r2: Result<(), DbError>,
        new: Database,
        legacy: Option<Seq<(i32, i64)>>,
        r: Result<bool, DbError>,
    ) -> bool {
        &&& self.codes_migrated(m1, r1)
        &&& match r1 {
            Err(e) => r == Err::<bool, DbError>(e) && new.unchanged(m1),
            Ok(changed) => {
                &&& m1.groups_migrated(m2, legacy, r2)
                &&& match r2 {
                    Err(e) => r == Err::<bool, DbError>(e) && new.unchanged(m2),
                    Ok(_) => {
                        &&& r == Ok::<bool, DbError>(changed)
                        &&& defaults_filled(m2.settings(), new.settings())
                        &&& new.items() == m2.items()
                        &&& new.group_rows() == m2.group_rows()
                        &&& new.memberships() == m2.memberships()
                        &&& new.last_watch_id() == m2.last_watch_id()
                        &&& new.last_group_id() == m2.last_group_id()
                    },
                }
            },
        }
    }

    /// Gives every A-share stock stored with a bare code its full symbol
    /// (`600519` becomes `sh600519`), in pool order. Returns whether any code
    /// was rewritten (cached quotes keyed by the old codes are then stale).
    /// A symbol another stock already has is refused, and the upgrade stops
    /// there with what it rewrote so far.
    #[verifier::loop_isolation(false)]
    pub fn migrate_watchlist_codes(&mut self) -> (r: Result<bool, DbError>)
        requires
            old(self).wf(),
        ensures
            final(self).wf(),
            final(self).memberships() == old(self).memberships(),
            final(self).same_groups_settings(*old(self)),
            final(self).last_watch_id() == old(self).last_watch_id(),
            final(self).items().len() == old(self).items().len(),
            forall|i: int| 0 <= i < old(self).items().len() ==> {
                let a = #[trigger] old(self).items()[i];
                let b = final(self).items()[i];
                &&& b.id == a.id && b.market == a.market && b.name == a.name && b.added_at == a.added_at
                &&& b.ticker_enabled == a.ticker_enabled && b.ticker_order == a.ticker_order
            },
            ({
                let (cs, changed, failed) = code_pass(codes_of(old(self).items()), markets_of(old(self).items()), old(self).items().len());
                &&& codes_of(final(self).items()) == cs
                &&& failed ==> (r matches Err(DbError::ConstraintViolation))
                &&& !failed ==> r == Ok::<bool, DbError>(changed)
            }),
            old(self).placed() ==> final(self).placed(),
    {
        let ghost codes0 = codes_of(self.items@);
        let ghost markets0 = markets_of(self.items@);
        let ghost items0 = self.items@;
        let mut changed = false;
        let mut i: usize = 0;
        while i < self.items.len()
            invariant
                0 <= i <= self.items@.len(),
                self.wf(),
                items0 == old(self).items@,
                codes0 == codes_of(items0),
                markets0 == markets_of(items0),
                self.items@.len() == items0.len(),
                forall|t: int| 0 <= t < items0.len() ==> {
                    let a = #[trigger] items0[t];
                    let b = self.items@[t];
                    &&& b.id == a.id && b.market == a.market && b.name == a.name && b.added_at == a.added_at
                    &&& b.ticker_enabled == a.ticker_enabled && b.ticker_order == a.ticker_order
                },
                code_pass(codes0, markets0, i as nat) == (codes_of(self.items@), changed, false),
                self.members@ == old(self).members@,
                self.groups@ == old(self).groups@,
                self.settings@ == old(self).settings@,
                self.last_watch_id == old(self).last_watch_id,
                self.last_group_id == old(self).last_group_id,
            decreases items0.len() - i,
        {
            let ghost cs = codes_of(self.items@);
            proof {
                assert(markets0[i as int] == self.items@[i as int].market@);
                assert(cs[i as int] == self.items@[i as int].code@);
            }
            let cn = string_of(&chars_of("CN"));
            if self.items[i].market == cn {
                match upgrade_code(self.items[i].code.as_str()) {
                    Some(full) => {
                        proof {
                            assert(markets_of(self.items@) =~= markets0);
                            assert(markets0[i as int] == "CN"@);
                        }
                        let mut j: usize = 0;
                        while j < self.items.len()
                            invariant
                                0 <= j <= self.items@.len(),
                                i < self.items@.len(),
                                cs == codes_of(self.items@),
                                markets0 == markets_of(self.items@),
                                markets0[i as int] == "CN"@,
                                upgraded_code(cs[i as int]) == Some(full@),
                                code_pass(codes0, markets0, i as nat) == (cs, changed, false),
                                forall|t: int| 0 <= t < j ==> !(t != i && cs[t] == full@ && self.items@[t].market@ == self.items@[i as int].market@),
                            decreases self.items@.len() - j,
                        {
                            if j != i && self.items[j].code == full && self.items[j].market == self.items[i].market {
                                proof {
                                    assert(cs[j as int] == full@);
                                    assert(markets0[j as int] == self.items@[j as int].market@);
                                    assert(code_pass(codes0, markets0, (i + 1) as nat).2);
                                    lemma_failed_stays(codes0, markets0, (i + 1) as nat, items0.len());
                                    if old(self).placed() {
                                        super::lemma_placed_same_ids(*old(self), *self);
                                    }
                                }
                                return Err(DbError::ConstraintViolation);
                            }
                            j = j + 1;
                        }
                        proof {
                            assert forall|t: int| 0 <= t < cs.len() && t != i && cs[t] == full@ implies markets0[t] != markets0[i as int] by {
                                assert(markets0[t] == self.items@[t].market@);
                            }
                        }
                        let ghost before = self.items@;
                        let it = clone_item(&self.items[i]);
                        self.items.set(i, WatchItem {
                            id: it.id,
                            code: full,
                            market: it.market,
                            name: it.name,
                            added_at: it.added_at,
                            ticker_enabled: it.ticker_enabled,
                            ticker_order: it.ticker_order,
                        });
                        changed = true;
                        proof {
                            assert(codes_of(self.items@) =~= cs.update(i as int, self.items@[i as int].code@));
                            assert(items_wf(self.items@, self.last_watch_id as int)) by {
                                assert forall|a: int, b: int| 0 <= a < b < self.items@.len() implies (#[trigger] self.items@[a]).id < (#[trigger] self.items@[b]).id by {
                                    assert(before[a].id < before[b].id);
                                }
                                assert forall|a: int, b: int| 0 <= a < self.items@.len() && 0 <= b < self.items@.len() && a != b
                                    implies !((#[trigger] self.items@[a]).code@ == (#[trigger] self.items@[b]).code@ && self.items@[a].market@ == self.items@[b].market@) by {
                                    if a == i {
                                        assert(cs[b] == before[b].code@);
                                    } else if b == i {
                                        assert(cs[a] == before[a].code@);
                                    } else {
                                        assert(!(before[a].code@ == before[b].code@ && before[a].market@ == before[b].market@));
                                    }
                                }
                            }
                        }
                    },
                    None => {},
                }
            }
            i = i + 1;
        }
        proof {
            if old(self).placed() {
                super::lemma_placed_same_ids(*old(self), *self);
            }
        }
        Ok(changed)
    }
}

/// The seeding of groups runs once: a second run finds it marked done and
/// leaves the groups, stocks and memberships as the first run left them.
pub proof fn lemma_seeding_runs_once(
    a: Database,
    b: Database,
    c: Database,
    first: Option<Seq<(i32, i64)>>,
    second: Option<Seq<(i32, i64)>>,
    r2: Result<(), DbError>,
)
    requires
        a.groups_migrated(b, first, Ok(())),
        b.groups_migrated(c, second, r2),
    ensures
        r2 is Ok,
        c.group_rows() == b.group_rows(),
        c.items() == b.items(),
        c.memberships() == b.memberships(),
        forall|k: Seq<char>| #[trigger] setting_of(c.settings(), k) == setting_of(b.settings(), k),
{
    assert forall|k: Seq<char>| #[trigger] setting_of(c.settings(), k) == setting_of(b.settings(), k) by {
        if k == keys::GROUPS_MIGRATED@ {
        }
    }
}

/// A pass that did not stop leaves every A-share code it went over with its
/// exchange, and the codes' count as it was.
proof fn lemma_pass_upgrades(codes: Seq<Seq<char>>, markets: Seq<Seq<char>>, k: nat)
    requires
        k <= codes.len(),
        codes.len() == markets.len(),
        !code_pass(codes, markets, k).2,
    ensures
        code_pass(codes, markets, k).0.len() == codes.len(),
        forall|i: int| 0 <= i < k && markets[i] == "CN"@ ==> #[trigger] upgraded_code(code_pass(codes, markets, k).0[i]) is None,
    decreases k,
{
    if k > 0 {
        let (cs, changed, failed) = code_pass(codes, markets, (k - 1) as nat);
        if failed {
            lemma_failed_stays(codes, markets, (k - 1) as nat, k);
        } else {
            lemma_pass_upgrades(codes, markets, (k - 1) as nat);
            let i = k - 1;
            if markets[i] == "CN"@ {
                match upgraded_code(cs[i]) {
                    None => {},
                    Some(full) => {
                        if !(exists|j: int| 0 <= j < cs.len() && j != i && cs[j] == full && markets[j] == markets[i]) {
                            reveal_strlit("sh");
                            reveal_strlit("sz");
                            let p: Seq<char> = if shanghai(cs[i]) { "sh"@ } else { "sz"@ };
                            assert(full == p + cs[i]);
                            assert(full.subrange(0, 2) =~= p);
                            assert(upgraded_code(full) is None);
                            let ncs = cs.update(i, full);
                            assert forall|t: int| 0 <= t < k && markets[t] == "CN"@ implies #[trigger] upgraded_code(ncs[t]) is None by {
                                if t < i {
                                    assert(ncs[t] == cs[t]);
                                }
                            }
                        }
                    },
                }
            }
        }
    }
}

/// Codes that are upgraded already stay as they are, and no change is
/// reported: a second run of the code upgrade does nothing.
pub proof fn lemma_codes_settled(codes: Seq<Seq<char>>, markets: Seq<Seq<char>>, k: nat)
    requires
        k <= codes.len(),
        k <= markets.len(),
        forall|i: int| 0 <= i < codes.len() && i < markets.len() && markets[i] == "CN"@ ==> #[trigger] upgraded_code(codes[i]) is None,
    ensures
        code_pass(codes, markets, k) == (codes, false, false),
    decreases k,
{
    if k > 0 {
        lemma_codes_settled(codes, markets, (k - 1) as nat);
        if markets[k - 1] == "CN"@ {
            assert(upgraded_code(codes[k - 1]) is None);
        }
    }
}

/// Once the upgrade has stopped, it stays stopped with the same codes.
proof fn lemma_failed_stays(codes: Seq<Seq<char>>, markets: Seq<Seq<char>>, k: nat, n: nat)
    requires
        k <= n,
        code_pass(codes, markets, k).2,
    ensures
        code_pass(codes, markets, n) == code_pass(codes, markets, k),
    decreases n - k,
{
    if k < n {
        lemma_failed_stays(codes, markets, k, (n - 1) as nat);
    }
}

impl Database {
    /// Creates the default group (`DEFAULT_GROUP_NAME`, position 0, created at
    /// `now`) when there is no group at all.
    pub fn ensure_default_group_at(&mut self, now: &str) -> (r: Result<(), DbError>)
        requires
            old(self).wf(),
        ensures
            final(self).wf(),
            final(self).items() == old(self).items(),
            final(self).memberships() == old(self).memberships(),
            final(self).settings() == old(self).settings(),
            final(self).last_watch_id() == old(self).last_watch_id(),
            old(self).group_rows().len() > 0 ==> r is Ok && final(self).unchanged(*old(self)),
            (old(self).group_rows().len() == 0 && old(self).last_group_id() == i64::MAX) ==> (r matches Err(
                DbError::Full,
            )) && final(self).unchanged(*old(self)),
            (old(self).group_rows().len() == 0 && old(self).last_group_id() < i64::MAX) ==> {
                &&& r is Ok
                &&& final(self).last_group_id() == old(self).last_group_id() + 1
                &&& final(self).group_rows().len() == 1
                &&& final(self).group_rows()[0].id == final(self).last_group_id()
                &&& final(self).group_rows()[0].name@ == DEFAULT_GROUP_NAME@
                &&& final(self).group_rows()[0].sort_order == 0
                &&& final(self).group_rows()[0].created_at@ == now@
            },
            final(self).group_rows().len() >= 1 || r is Err,
    {
        if self.groups.len() > 0 {
            return Ok(());
        }
        if self.last_group_id == 0x7fff_ffff_ffff_ffffi64 {
            return Err(DbError::Full);
        }
        let id = self.last_group_id + 1;
        self.groups.push(GroupRow { id, name: DEFAULT_GROUP_NAME.to_owned(), sort_order: 0, created_at: now.to_owned() });
        self.last_group_id = id;
        Ok(())
    }

    /// Gives the stocks of the legacy rows their legacy position as ticker
    /// position.
    fn apply_legacy_ticker(&mut self, rows: &Vec<(i32, i64)>)
        requires
            old(self).wf(),
        ensures
            final(self).wf(),
            final(self).items() == legacy_ticker(old(self).items(), rows@),
            final(self).memberships() == old(self).memberships(),
            final(self).same_groups_settings(*old(self)),
            final(self).last_watch_id() == old(self).last_watch_id(),
    {
        let ghost items0 = self.items@;
        let ghost ids = rows@.map_values(|p: (i32, i64)| p.1);
        let mut k: usize = 0;
        proof {
            assert(ids.take(0) =~= Seq::<i64>::empty());
            assert forall|t: int| 0 <= t < items0.len() implies self.items@[t] == legacy_ticker(items0, rows@.take(0))[t] by {}
            assert(self.items@ =~= legacy_ticker(items0, rows@.take(0)));
        }
        while k < rows.len()
            invariant
                0 <= k <= rows@.len(),
                self.wf(),
                items0 == old(self).items@,
                ids == rows@.map_values(|p: (i32, i64)| p.1),
                self.items@ == legacy_ticker(items0, rows@.take(k as int)),
                self.members@ == old(self).members@,
                self.groups@ == old(self).groups@,
                self.settings@ == old(self).settings@,
                self.last_watch_id == old(self).last_watch_id,
                self.last_group_id == old(self).last_group_id,
            decreases rows@.len() - k,
        {
            let (pos, id) = rows[k];
            let ghost before = self.items@;
            proof {
                assert(rows@.take(k + 1).map_values(|p: (i32, i64)| p.1) =~= ids.take(k + 1));
                assert(rows@.take(k as int).map_values(|p: (i32, i64)| p.1) =~= ids.take(k as int));
            }
            match self.item_index_by_id(id) {
                Some(i) => {
                    let en = self.items[i].ticker_enabled;
                    self.set_ticker_at(i, en, pos);
                    proof {
                        assert forall|t: int| 0 <= t < items0.len()
                            implies self.items@[t] == legacy_ticker(items0, rows@.take(k + 1))[t] by {
                            lemma_last_index_step(ids, k as int, items0[t].id);
                            assert(rows@.take(k + 1)[k as int] == rows@[k as int]);
                            if t != i as int {
                                assert(before[t].id != before[i as int].id) by {
                                    if t < i { assert(before[t].id < before[i as int].id); } else { assert(before[i as int].id < before[t].id); }
                                }
                            }
                            match last_index(ids.take(k as int), items0[t].id) {
                                Some(q) => {
                                    crate::db::store::reorder::lemma_last_index_bounds(ids.take(k as int), items0[t].id);
                                    assert(rows@.take(k + 1)[q] == rows@.take(k as int)[q]);
                                },
                                None => {},
                            }
                        }
                        assert(self.items@ =~= legacy_ticker(items0, rows@.take(k + 1)));
                    }
                },
                None => {
                    proof {
                        assert forall|t: int| 0 <= t < items0.len()
                            implies self.items@[t] == legacy_ticker(items0, rows@.take(k + 1))[t] by {
                            lemma_last_index_step(ids, k as int, items0[t].id);
                            if items0[t].id == id {
                                assert(before[t].id == id);
                                assert(item_index_of(before, id) is Some);
                            }
                            match last_index(ids.take(k as int), items0[t].id) {
                                Some(q) => {
                                    crate::db::store::reorder::lemma_last_index_bounds(ids.take(k as int), items0[t].id);
                                    assert(rows@.take(k + 1)[q] == rows@.take(k as int)[q]);
                                },
                                None => {},
                            }
                        }
                        assert(self.items@ =~= legacy_ticker(items0, rows@.take(k + 1)));
                    }
                },
            }
            k = k + 1;
        }
        proof {
            assert(rows@.take(rows@.len() as int) =~= rows@);
        }
    }

    /// What the one-time seeding of groups does (see `migrate_watch_groups_at`),
    /// `legacy` holding the (position, id) rows of the old global order when
    /// there are any.
    pub open spec fn groups_migrated(self, new: Database, legacy: Option<Seq<(i32, i64)>>, r: Result<(), DbError>) -> bool {
        &&& r is Err ==> new.unchanged(self)
        &&& (self.group_rows().len() == 0 && self.last_group_id() == i64::MAX) ==> (r matches Err(DbError::Full))
        &&& (self.group_rows().len() > 0 || self.last_group_id() < i64::MAX) ==> r is Ok
        &&& r is Ok ==> {
            &&& new.group_rows().len() >= 1
            &&& self.group_rows().len() > 0 ==> new.group_rows() == self.group_rows()
            &&& self.group_rows().len() == 0 ==> new.group_rows().len() == 1
        }
        &&& r is Ok ==> setting_of(new.settings(), keys::GROUPS_MIGRATED@) is Some
        &&& forall|k: Seq<char>| k != keys::GROUPS_MIGRATED@ ==> #[trigger] setting_of(new.settings(), k) == setting_of(self.settings(), k)
        &&& r is Ok && setting_of(self.settings(), keys::GROUPS_MIGRATED@) is Some ==> {
            &&& new.items() == self.items()
            &&& new.memberships() == self.memberships()
            &&& setting_of(new.settings(), keys::GROUPS_MIGRATED@) == setting_of(self.settings(), keys::GROUPS_MIGRATED@)
        }
        &&& r is Ok && setting_of(self.settings(), keys::GROUPS_MIGRATED@) is None ==> {
            &&& new.default_group() matches Some(g) && new.memberships() == seeded_members(self, g, legacy)
            &&& new.items() == match legacy {
                Some(rows) => legacy_ticker(self.items(), rows),
                None => self.items(),
            }
            &&& setting_of(new.settings(), keys::GROUPS_MIGRATED@) == Some("1"@)
            &&& ((legacy is None || forall|i: int| 0 <= i < self.items().len() ==>
                #[trigger] legacy_order(legacy->0).contains(self.items()[i].id))
                && forall|i: int| 0 <= i < self.memberships().len() ==> self.has_group(
                (#[trigger] self.memberships()[i]).group_id)) ==> new.placed()
        }
    }

    /// `migrate_watch_groups_at` at the current local time.
    pub fn migrate_watch_groups(&mut self, legacy: Option<Vec<(i32, i64)>>) -> (r: Result<(), DbError>)
        requires
            old(self).wf(),
        ensures
            final(self).wf(),
            old(self).groups_migrated(*final(self), match legacy {
                Some(rows) => Some(rows@),
                None => None,
            }, r),
    {
        let now = crate::clock::local_now_text();
        self.migrate_watch_groups_at(now.as_str(), legacy)
    }

    /// The one-time seeding of groups after an upgrade. A store without
    /// groups first gets the default group. Then, unless the seeding is marked
    /// done, every stock joins the default group (in legacy order when
    /// `legacy` holds the (position, id) rows of the old global order, else in
    /// id order), legacy positions become ticker positions, and the seeding
    /// is marked done.
    pub fn migrate_watch_groups_at(&mut self, now: &str, legacy: Option<Vec<(i32, i64)>>) -> (r: Result<(), DbError>)
        requires
            old(self).wf(),
        ensures
            final(self).wf(),
            old(self).groups_migrated(*final(self), match legacy {
                Some(rows) => Some(rows@),
                None => None,
            }, r),
            (r is Ok && old(self).group_rows().len() == 0) ==> {
                &&& final(self).group_rows()[0].id == old(self).last_group_id() + 1
                &&& final(self).group_rows()[0].name@ == DEFAULT_GROUP_NAME@
                &&& final(self).group_rows()[0].sort_order == 0
                &&& final(self).group_rows()[0].created_at@ == now@
            },
    {
        self.ensure_default_group_at(now)?;
        if self.get_setting(keys::GROUPS_MIGRATED).is_some() {
            return Ok(());
        }
        let g = match self.default_group_id() {
            Some(g) => g,
            None => return Err(DbError::QueryReturnedNoRows),
        };
        let ghost mid = *self;
        let order: Vec<i64> = match &legacy {
            Some(rows) => {
                let sorted = sort_keys(rows);
                let ghost set = Set::new(|x: (i32, i64)| rows@.contains(x));
                proof {
                    assert(lists_sorted(sorted@, set));
                    lemma_is_sorted_keys(sorted@, set);
                }
                let mut out: Vec<i64> = Vec::new();
                let mut i: usize = 0;
                while i < sorted.len()
                    invariant
                        0 <= i <= sorted@.len(),
                        out@ == ids_of(sorted@.take(i as int)),
                    decreases sorted@.len() - i,
                {
                    out.push(sorted[i].1);
                    i = i + 1;
                    proof {
                        assert(out@ =~= ids_of(sorted@.take(i as int)));
                    }
                }
                proof {
                    assert(sorted@.take(sorted@.len() as int) =~= sorted@);
                }
                out
            },
            None => {
                let mut out: Vec<i64> = Vec::new();
                let mut i: usize = 0;
                while i < self.items.len()
                    invariant
                        0 <= i <= self.items@.len(),
                        out@ == self.items@.take(i as int).map_values(|it: WatchItem| it.id),
                    decreases self.items@.len() - i,
                {
                    out.push(self.items[i].id);
                    i = i + 1;
                    proof {
                        assert(out@ =~= self.items@.take(i as int).map_values(|it: WatchItem| it.id));
                    }
                }
                proof {
                    assert(self.items@.take(self.items@.len() as int) =~= self.items@);
                }
                out
            },
        };
        let mut ms: Vec<Membership> = Vec::new();
        let mut t: usize = 0;
        while t < self.members.len()
            invariant
                0 <= t <= self.members@.len(),
                ms@ == self.members@.take(t as int),
            decreases self.members@.len() - t,
        {
            ms.push(self.members[t]);
            t = t + 1;
            proof {
                assert(ms@ =~= self.members@.take(t as int));
            }
        }
        proof {
            assert(self.members@.take(self.members@.len() as int) =~= self.members@);
        }
        let ghost base = ms@;
        let mut k: usize = 0;
        while k < order.len()
            invariant
                0 <= k <= order@.len(),
                base == mid.memberships(),
                members_wf(base),
                members_wf(ms@),
                ms@ == append_members(base, g, order@.take(k as int), 0),
            decreases order@.len() - k,
        {
            let w = order[k];
            proof {
                assert(order@.take(k + 1).drop_last() =~= order@.take(k as int));
                assert(order@.take(k + 1).last() == w);
            }
            if !has_member(&ms, g, w) {
                let ghost before = ms@;
                ms.push(Membership { group_id: g, watch_id: w, sort_order: k as i32 });
                proof {
                    assert forall|a: int, b: int| 0 <= a < ms@.len() && 0 <= b < ms@.len() && a != b
                        implies !((#[trigger] ms@[a]).group_id == (#[trigger] ms@[b]).group_id && ms@[a].watch_id == ms@[b].watch_id) by {
                        let n = before.len() as int;
                        if a == n {
                            assert(ms@[b] == before[b]);
                        } else if b == n {
                            assert(ms@[a] == before[a]);
                        } else {
                            assert(ms@[a] == before[a] && ms@[b] == before[b]);
                        }
                    }
                }
            }
            k = k + 1;
        }
        proof {
            assert(order@.take(order@.len() as int) =~= order@);
        }
        self.members = ms;
        match &legacy {
            Some(rows) => self.apply_legacy_ticker(rows),
            None => {},
        }
        self.set_setting(keys::GROUPS_MIGRATED, "1");
        proof {
            reveal_strlit("1");
            assert(self.default_group() == mid.default_group());
            let ord = order@;
            lemma_append_members(mid.memberships(), g, ord, 0);
            let msf = self.memberships();
            if (legacy is None || forall|i: int| 0 <= i < old(self).items().len() ==>
                #[trigger] legacy_order(legacy->0@).contains(old(self).items()[i].id))
                && forall|i: int| 0 <= i < old(self).memberships().len() ==> old(self).has_group(
                (#[trigger] old(self).memberships()[i]).group_id) {
                assert(self.group_rows() == mid.group_rows());
                assert(mid.memberships() == old(self).memberships());
                assert forall|i: int| 0 <= i < msf.len() implies self.has_group((#[trigger] msf[i]).group_id) by {
                    if i < mid.memberships().len() {
                        assert(msf[i] == mid.memberships()[i]);
                        assert(old(self).has_group(old(self).memberships()[i].group_id));
                        let j = choose|j: int| 0 <= j < old(self).group_rows().len() && (#[trigger] old(self).group_rows()[j]).id == msf[i].group_id;
                        assert(mid.group_rows()[j] == old(self).group_rows()[j]);
                    } else {
                        assert(msf[i].group_id == g);
                    }
                }
                assert forall|i: int| 0 <= i < self.items().len() implies watched(msf, (#[trigger] self.items()[i]).id) by {
                    let x = old(self).items()[i].id;
                    assert(self.items()[i].id == x);
                    if legacy is None {
                        assert(ord[i] == x);
                        assert(ord.contains(x));
                    } else {
                        assert(legacy_order(legacy->0@).contains(x));
                    }
                    assert(ord.contains(x));
                    let q = choose|q: int| 0 <= q < msf.len() && (#[trigger] msf[q]).group_id == g && msf[q].watch_id == x;
                }
                assert(self.placed());
            }
        }
        Ok(())
    }
}


/// The legacy (position, id) rows as values.
pub open spec fn legacy_rows(legacy: Option<Vec<(i32, i64)>>) -> Option<Seq<(i32, i64)>> {
    match legacy {
        Some(rows) => Some(rows@),
        None => None,
    }
}

impl Database {
    /// The start of the application on a loaded store: the code upgrade,
    /// then the one-time group seeding (`legacy` as for
    /// `migrate_watch_groups`), then the default settings; the first failure
    /// ends it. Returns whether the code upgrade rewrote a code. A store that
    /// an earlier start settled comes out as it went in, its settings reading
    /// as they did.
    pub fn start(&mut self, legacy: Option<Vec<(i32, i64)>>) -> (r: Result<bool, DbError>)
        requires
            old(self).wf(),
        ensures
            final(self).wf(),
            exists|m1: Database, r1: Result<bool, DbError>, m2: Database, r2: Result<(), DbError>|
                #[trigger] old(self).start_steps(m1, r1, m2, r2, *final(self), legacy_rows(legacy), r),
            r is Ok ==> final(self).settled(),
            old(self).settled() ==> {
                &&& r == Ok::<bool, DbError>(false)
                &&& items_view(final(self).items()) == items_view(old(self).items())
                &&& final(self).group_rows() == old(self).group_rows()
                &&& final(self).memberships() == old(self).memberships()
                &&& forall|k: Seq<char>| #[trigger] setting_of(final(self).settings(), k) == setting_of(old(self).settings(), k)
            },
    {
        let ghost lv = legacy_rows(legacy);
        let ghost s0 = *self;
        let r1 = self.migrate_watchlist_codes();
        let ghost m1 = *self;
        proof {
            assert(s0.codes_migrated(m1, r1));
            if r1 is Ok {
                lemma_pass_upgrades(codes_of(s0.items()), markets_of(s0.items()), s0.items().len());
                assert forall|i: int| 0 <= i < m1.items().len() && (#[trigger] m1.items()[i]).market@ == "CN"@
                    implies upgraded_code(m1.items()[i].code@) is None by {
                    assert(m1.items()[i].market == s0.items()[i].market);
                    assert(markets_of(s0.items())[i] == s0.items()[i].market@);
                    assert(codes_of(m1.items())[i] == m1.items()[i].code@);
                }
            }
            if s0.settled() {
                lemma_codes_settled(codes_of(s0.items()), markets_of(s0.items()), s0.items().len());
                assert(items_view(m1.items()) =~= items_view(s0.items())) by {
                    assert forall|i: int| 0 <= i < s0.items().len() implies items_view(m1.items())[i] == items_view(s0.items())[i] by {
                        assert(codes_of(m1.items())[i] == codes_of(s0.items())[i]);
                    }
                }
            }
        }
        let changed = match r1 {
            Ok(c) => c,
            Err(e) => {
                assert(s0.start_steps(m1, r1, m1, Ok(()), *self, lv, Err(e)));
                return Err(e);
            },
        };
        let r2 = self.migrate_watch_groups(legacy);
        let ghost m2 = *self;
        match r2 {
            Ok(()) => {},
            Err(e) => {
                assert(s0.start_steps(m1, r1, m2, r2, *self, lv, Err(e)));
                return Err(e);
            },
        }
        self.init_defaults();
        proof {
            assert(s0.start_steps(m1, r1, m2, r2, *self, lv, Ok(changed)));
            lemma_filled_has_all_defaults(m2.settings(), self.settings());
            assert(setting_of(self.settings(), keys::GROUPS_MIGRATED@) is Some) by {
                assert(setting_of(m2.settings(), keys::GROUPS_MIGRATED@) is Some);
            }
            assert forall|i: int| 0 <= i < self.items().len() && (#[trigger] self.items()[i]).market@ == "CN"@
                implies upgraded_code(self.items()[i].code@) is None by {
                assert(m2.items().len() == m1.items().len());
                if setting_of(m1.settings(), keys::GROUPS_MIGRATED@) is None {
                    match lv {
                        Some(rows) => {
                            assert(m2.items() == legacy_ticker(m1.items(), rows));
                            assert(m2.items()[i].code == m1.items()[i].code);
                            assert(m2.items()[i].market == m1.items()[i].market);
                        },
                        None => {},
                    }
                }
                assert(m2.items()[i].code == m1.items()[i].code);
                assert(m2.items()[i].market == m1.items()[i].market);
            }
            if s0.settled() {
                assert forall|k: Seq<char>| #[trigger] setting_of(m2.settings(), k) == setting_of(s0.settings(), k) by {
                    assert(setting_of(m1.settings(), k) == setting_of(s0.settings(), k));
                    if k == keys::GROUPS_MIGRATED@ {
                        assert(setting_of(m1.settings(), keys::GROUPS_MIGRATED@) is Some);
                    }
                }
                assert(has_all_defaults(m2.settings())) by {
                    assert forall|k: Seq<char>| #[trigger] super::lookup_first(super::default_settings_spec(), k) is Some
                        implies setting_of(m2.settings(), k) is Some by {
                        assert(setting_of(m2.settings(), k) == setting_of(s0.settings(), k));
                    }
                }
                lemma_defaults_settled(m2.settings(), self.settings());
            }
        }
        Ok(changed)
    }
}

} // verus!
