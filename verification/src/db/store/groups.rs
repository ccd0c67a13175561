use vstd::prelude::*;

use super::{
    drop_members, filter_members, groups_wf, has_member, lemma_filter_members, lemma_without_members, max_member_sort, max_sort_of,
    member_in, members_wf, watched, watched_in, without_members, Database, DbError, GroupRow, Membership, WatchGroup, WatchItem,
    max_group_sort, GROUP_NAME_MAX_LEN, clone_group_row,
};
use crate::db::order::key_lt;
use crate::text::{append_chars, chars_of, decimal, push_decimal, string_of, trim_chars, trim_spec};

verus! {

/// Refusal of a group selection that keeps the stock in no group.
pub const NEED_ONE_GROUP: &'static str = "至少要属于一个分组，如需删除请用「删除自选」";

/// Some row has id `gid`.
pub open spec fn row_has(rows: Seq<GroupRow>, gid: i64) -> bool {
    exists|i: int| 0 <= i < rows.len() && (#[trigger] rows[i]).id == gid
}

/// The ids of `gids` that name an existing group, in order, repeats kept.
pub open spec fn keep_alive(rows: Seq<GroupRow>, gids: Seq<i64>) -> Seq<i64>
    decreases gids.len(),
{
    if gids.len() == 0 {
        gids
    } else {
        let r = keep_alive(rows, gids.drop_last());
        if row_has(rows, gids.last()) { r.push(gids.last()) } else { r }
    }
}

/// A membership that `set_watch_groups(wid, keep)` leaves in place: one of
/// another stock, or of `wid` in a group of `keep`.
pub open spec fn kept_by(m: Membership, wid: i64, keep: Seq<i64>) -> bool {
    m.watch_id != wid || keep.contains(m.group_id)
}

/// Joins stock `wid` to each group of `gids` in turn, at the end of the group;
/// a group it is already in keeps its position. `None` when a group's next
/// position does not fit in an `i32`.
pub open spec fn join_groups(ms: Seq<Membership>, wid: i64, gids: Seq<i64>) -> Option<Seq<Membership>>
    decreases gids.len(),
{
    if gids.len() == 0 {
        Some(ms)
    } else {
        match join_groups(ms, wid, gids.drop_last()) {
            None => None,
            Some(m) => {
                let g = gids.last();
                let top = max_member_sort(m, g);
                if top >= i32::MAX {
                    None
                } else if member_in(m, g, wid) {
                    Some(m)
                } else {
                    Some(m.push(Membership { group_id: g, watch_id: wid, sort_order: (top + 1) as i32 }))
                }
            },
        }
    }
}

pub fn contains_id(ids: &Vec<i64>, id: i64) -> (r: bool)
    ensures
        r == ids@.contains(id),
{
    let mut i: usize = 0;
    while i < ids.len()
        invariant
            0 <= i <= ids@.len(),
            forall|t: int| 0 <= t < i ==> ids@[t] != id,
        decreases ids@.len() - i,
    {
        if ids[i] == id {
            assert(ids@[i as int] == id);
            return true;
        }
        i = i + 1;
    }
    false
}

impl Database {
    /// The group other than `gid` that comes first in display order.
    fn first_other_group(&self, gid: i64) -> (r: i64)
        requires
            self.wf(),
            self.group_rows().len() >= 2,
        ensures
            is_first_other(self.group_rows(), gid, r),
            r == fallback_group(self.group_rows(), gid),
    {
        let ghost rows = self.groups@;
        let mut best: usize = if self.groups[0].id != gid { 0 } else { 1 };
        proof {
            if self.groups@[0].id == gid {
                assert(self.groups@[1].id != self.groups@[0].id);
            }
        }
        let mut i: usize = 0;
        while i < self.groups.len()
            invariant
                rows == self.groups@,
                rows.len() >= 2,
                0 <= i <= rows.len(),
                0 <= best < rows.len(),
                rows[best as int].id != gid,
                forall|j: int| 0 <= j < i && (#[trigger] rows[j]).id != gid ==> !key_lt(row_key(rows[j]), row_key(rows[best as int])),
            decreases rows.len() - i,
        {
            let g = &self.groups[i];
            let b = &self.groups[best];
            if g.id != gid && (g.sort_order < b.sort_order || (g.sort_order == b.sort_order && g.id < b.id)) {
                best = i;
            }
            i = i + 1;
        }
        let r = self.groups[best].id;
        proof {
            assert(is_first_other(rows, gid, r));
            let c = fallback_group(rows, gid);
            assert(is_first_other(rows, gid, c));
            lemma_first_other_unique(rows, gid, r, c);
        }
        r
    }

    /// Index of the row of group `gid`.
    pub(crate) fn group_index(&self, gid: i64) -> (r: Option<usize>)
        requires
            self.wf(),
        ensures
            r matches Some(i) ==> row_index_of(self.group_rows(), gid) == Some(i as int),
            r is None ==> row_index_of(self.group_rows(), gid) is None,
    {
        let mut i: usize = 0;
        while i < self.groups.len()
            invariant
                self.wf(),
                0 <= i <= self.groups@.len(),
                forall|t: int| 0 <= t < i ==> (#[trigger] self.groups@[t]).id != gid,
            decreases self.groups@.len() - i,
        {
            if self.groups[i].id == gid {
                proof {
                    assert(self.group_rows()[i as int].id == gid);
                    let c = choose|t: int| 0 <= t < self.groups@.len() && (#[trigger] self.groups@[t]).id == gid;
                    if c != i {
                        assert(self.groups@[c].id != self.groups@[i as int].id);
                    }
                }
                return Some(i);
            }
            i = i + 1;
        }
        None
    }

    /// Deletes group `id` but none of its stocks: those it leaves in no group
    /// at all join the group that then comes first in display order, at its
    /// end, in pool order. Returns how many stocks that rescued. The last
    /// group is never deleted.
    pub fn delete_watch_group(&mut self, id: i64) -> (r: Result<usize, DbError>)
        requires
            old(self).wf(),
        ensures
            final(self).wf(),
            old(self).placed() ==> final(self).placed(),
            final(self).items() == old(self).items(),
            final(self).settings() == old(self).settings(),
            final(self).last_watch_id() == old(self).last_watch_id(),
            final(self).last_group_id() == old(self).last_group_id(),
            r is Err ==> final(self).unchanged(*old(self)),
            old(self).group_rows().len() <= 1 ==> (r matches Err(DbError::InvalidParameterName(msg)) && msg@ == KEEP_ONE_GROUP@),
            old(self).group_rows().len() >= 2 ==> ({
                let f = fallback_group(old(self).group_rows(), id);
                let ms = without_members(old(self).memberships(), Some(id), None);
                let orph = orphans(old(self).items(), ms);
                let start = max_member_sort(ms, f) + 1;
                let over = start > i32::MAX || (orph.len() > 0 && start + orph.len() > i32::MAX);
                &&& over ==> (r matches Err(DbError::IntegralValueOutOfRange))
                &&& !over ==> {
                    &&& r == Ok::<usize, DbError>(orph.len() as usize)
                    &&& final(self).memberships() == append_members(ms, f, orph, start)
                    &&& final(self).group_rows() == rows_without(old(self).group_rows(), id)
                }
            }),
    {
        if self.groups.len() <= 1 {
            return Err(DbError::InvalidParameterName(string_of(&chars_of(KEEP_ONE_GROUP))));
        }
        let f = self.first_other_group(id);
        let ms1 = drop_members(&self.members, Some(id), None);
        proof {
            lemma_without_members(self.members@, Some(id), None);
        }
        let mut orph: Vec<i64> = Vec::new();
        let mut i: usize = 0;
        while i < self.items.len()
            invariant
                0 <= i <= self.items@.len(),
                orph@ == orphans(self.items@.take(i as int), ms1@),
                orph@.len() <= i,
            decreases self.items@.len() - i,
        {
            proof {
                assert(self.items@.take(i + 1).drop_last() =~= self.items@.take(i as int));
            }
            let wid = self.items[i].id;
            if !watched_in(&ms1, wid) {
                orph.push(wid);
            }
            i = i + 1;
        }
        proof {
            assert(self.items@.take(self.items@.len() as int) =~= self.items@);
        }
        let top = max_sort_of(&ms1, f);
        if top >= 0x7fff_ffffi64 {
            return Err(DbError::IntegralValueOutOfRange);
        }
        let start: i64 = top + 1;
        let room: i64 = 0x7fff_ffffi64 - start;
        if orph.len() > 0 && orph.len() > room as usize {
            return Err(DbError::IntegralValueOutOfRange);
        }
        let mut ms = ms1;
        let ghost base = ms@;
        let mut k: usize = 0;
        while k < orph.len()
            invariant
                0 <= k <= orph@.len(),
                i32::MIN < start <= i32::MAX,
                orph@.len() > 0 ==> start + orph@.len() <= i32::MAX,
                members_wf(ms@),
                ms@ == append_members(base, f, orph@.take(k as int), start as int),
            decreases orph@.len() - k,
        {
            let w = orph[k];
            proof {
                assert(orph@.take(k + 1).drop_last() =~= orph@.take(k as int));
                assert(orph@.take(k + 1).last() == w);
            }
            if !has_member(&ms, f, w) {
                let ghost before = ms@;
                let pos: i64 = start + k as i64;
                ms.push(Membership { group_id: f, watch_id: w, sort_order: pos as i32 });
                proof {
                    assert forall|a: int, b: int| 0 <= a < ms@.len() && 0 <= b < ms@.len() && a != b
                        implies !((#[trigger] ms@[a]).group_id == (#[trigger] ms@[b]).group_id && ms@[a].watch_id == ms@[b].watch_id) by {
                        let n = before.len() as int;
                        if a == n {
                            assert(ms@[b] == before[b]);
                        } else if b == n {
                            assert(ms@[a] == before[a]);
                        } else {
                            assert(ms@[a] == before[a] && ms@[b] == before[b]);
                        }
                    }
                }
            }
            k = k + 1;
        }
        proof {
            assert(orph@.take(orph@.len() as int) =~= orph@);
        }
        self.members = ms;
        match self.group_index(id) {
            Some(gi) => {
                let ghost before = self.groups@;
                self.groups.remove(gi);
                proof {
                    assert forall|a: int, b: int| 0 <= a < self.groups@.len() && 0 <= b < self.groups@.len() && a != b
                        implies (#[trigger] self.groups@[a]).id != (#[trigger] self.groups@[b]).id by {
                        let a2 = if a < gi { a } else { a + 1 };
                        let b2 = if b < gi { b } else { b + 1 };
                        assert(self.groups@[a] == before[a2] && self.groups@[b] == before[b2]);
                    }
                    assert forall|a: int| 0 <= a < self.groups@.len() implies (#[trigger] self.groups@[a]).id <= self.last_group_id by {
                        let a2 = if a < gi { a } else { a + 1 };
                        assert(self.groups@[a] == before[a2]);
                    }
                }
            },
            None => {},
        }
        proof {
            if old(self).placed() {
                let rows0 = old(self).group_rows();
                let ms0 = old(self).memberships();
                let ms1 = without_members(ms0, Some(id), None);
                let msf = self.memberships();
                lemma_append_members(ms1, f, orph@, start as int);
                lemma_orphans(old(self).items(), ms1);
                assert(self.group_rows() == rows_without(rows0, id));
                assert(is_first_other(rows0, id, f));
                assert(row_has(rows0, f));
                lemma_rows_without(rows0, id, f);
                assert(self.group_rows().len() >= 1) by {
                    if let Some(i) = row_index_of(rows0, id) {
                        assert(self.group_rows().len() == rows0.len() - 1);
                    }
                }
                assert forall|k: int| 0 <= k < msf.len() implies self.has_group((#[trigger] msf[k]).group_id) by {
                    if k < ms1.len() {
                        assert(msf[k] == ms1[k]);
                        assert(without_members(ms0, Some(id), None).contains(ms1[k]));
                        let j = choose|j: int| 0 <= j < ms0.len() && ms0[j] == ms1[k];
                        assert(old(self).has_group(ms0[j].group_id));
                        assert(row_has(rows0, ms1[k].group_id));
                        lemma_rows_without(rows0, id, ms1[k].group_id);
                    } else {
                        assert(msf[k].group_id == f);
                    }
                }
                assert forall|t: int| 0 <= t < self.items().len() implies watched(msf, (#[trigger] self.items()[t]).id) by {
                    let x = self.items()[t].id;
                    assert(self.items()[t] == old(self).items()[t]);
                    if watched(ms1, x) {
                        let j = choose|j: int| 0 <= j < ms1.len() && (#[trigger] ms1[j]).watch_id == x;
                        assert(msf[j] == ms1[j]);
                    } else {
                        assert(orph@.contains(x));
                        assert(member_in(msf, f, x));
                        let i = choose|i: int| 0 <= i < msf.len() && (#[trigger] msf[i]).group_id == f && msf[i].watch_id == x;
                    }
                }
            }
        }
        Ok(orph.len())
    }

    /// Whether a group other than `gid` is called `name`.
    fn name_in_use(&self, gid: i64, name: &String) -> (r: bool)
        ensures
            r == name_taken(self.group_rows(), gid, name@),
    {
        let mut i: usize = 0;
        while i < self.groups.len()
            invariant
                0 <= i <= self.groups@.len(),
                forall|t: int| 0 <= t < i ==> !((#[trigger] self.groups@[t]).name@ == name@ && self.groups@[t].id != gid),
            decreases self.groups@.len() - i,
        {
            if self.groups[i].name == *name && self.groups[i].id != gid {
                assert(self.group_rows()[i as int].name@ == name@);
                return true;
            }
            i = i + 1;
        }
        false
    }

    pub open spec fn group_added(self, new: Database, name: Seq<char>, now: Seq<char>, r: Result<WatchGroup, DbError>) -> bool {
        &&& new.items() == self.items()
        &&& new.memberships() == self.memberships()
        &&& new.settings() == self.settings()
        &&& new.last_watch_id() == self.last_watch_id()
        &&& r is Err ==> new.unchanged(self)
        &&& name_check(name) matches Err(m) ==> (r matches Err(DbError::InvalidParameterName(s)) && s@ == m)
        &&& name_check(name) matches Ok(t) ==> {
            let top = max_group_sort(self.group_rows());
            &&& top >= i32::MAX ==> (r matches Err(DbError::IntegralValueOutOfRange))
            &&& (top < i32::MAX && self.last_group_id() == i64::MAX) ==> (r matches Err(DbError::Full))
            &&& (top < i32::MAX && self.last_group_id() < i64::MAX) ==> {
                &&& r matches Ok(g)
                &&& g.id == self.last_group_id() + 1
                &&& g.name@ == t
                &&& g.sort_order == top + 1
                &&& g.created_at@ == now
                &&& g.watch_ids@.len() == 0
                &&& new.last_group_id() == g.id
                &&& new.group_rows().drop_last() == self.group_rows()
                &&& new.group_rows().len() == self.group_rows().len() + 1
                &&& new.group_rows().last().id == g.id
                &&& new.group_rows().last().name@ == t
                &&& new.group_rows().last().sort_order == g.sort_order
                &&& new.group_rows().last().created_at@ == now
            }
        }
    }

    /// `add_watch_group_at` at the current local time.
    pub fn add_watch_group(&mut self, name: &str) -> (r: Result<WatchGroup, DbError>)
        requires
            old(self).wf(),
        ensures
            final(self).wf(),
            old(self).placed() ==> final(self).placed(),
            exists|now: Seq<char>| old(self).group_added(*final(self), name@, now, r),
    {
        let now = crate::clock::local_now_text();
        self.add_watch_group_at(name, now.as_str())
    }

    /// Creates a group named `name` (trimmed) at the end of the display order,
    /// created at `now`, and returns it.
    pub fn add_watch_group_at(&mut self, name: &str, now: &str) -> (r: Result<WatchGroup, DbError>)
        requires
            old(self).wf(),
        ensures
            final(self).wf(),
            old(self).placed() ==> final(self).placed(),
            old(self).group_added(*final(self), name@, now@, r),
    {
        let t = validate_group_name(name)?;
        let top = self.max_group_sort_exec();
        if top >= 0x7fff_ffffi64 {
            return Err(DbError::IntegralValueOutOfRange);
        }
        if self.last_group_id == 0x7fff_ffff_ffff_ffffi64 {
            return Err(DbError::Full);
        }
        let id = self.last_group_id + 1;
        let sort: i32 = (top + 1) as i32;
        proof {
            assert(forall|k: int| 0 <= k < self.groups@.len() ==> (#[trigger] self.groups@[k]).id <= self.last_group_id);
        }
        let row = GroupRow { id, name: t.clone(), sort_order: sort, created_at: now.to_owned() };
        let ghost before = self.groups@;
        self.groups.push(row);
        self.last_group_id = id;
        proof {
            assert forall|a: int, b: int| 0 <= a < self.groups@.len() && 0 <= b < self.groups@.len() && a != b
                implies (#[trigger] self.groups@[a]).id != (#[trigger] self.groups@[b]).id by {
                let n = before.len() as int;
                if a != n {
                    assert(self.groups@[a] == before[a]);
                }
                if b != n {
                    assert(self.groups@[b] == before[b]);
                }
            }
            assert(self.groups@.drop_last() =~= before);
        }
        Ok(WatchGroup { id, name: t, sort_order: sort, created_at: now.to_owned(), watch_ids: Vec::new() })
    }

    /// Renames group `id` to `name` (trimmed). A name that another group
    /// already has is refused; keeping a group's own name is not a clash.
    pub fn rename_watch_group(&mut self, id: i64, name: &str) -> (r: Result<(), DbError>)
        requires
            old(self).wf(),
        ensures
            final(self).wf(),
            old(self).placed() ==> final(self).placed(),
            final(self).items() == old(self).items(),
            final(self).memberships() == old(self).memberships(),
            final(self).settings() == old(self).settings(),
            final(self).last_watch_id() == old(self).last_watch_id(),
            final(self).last_group_id() == old(self).last_group_id(),
            r is Err ==> final(self).unchanged(*old(self)),
            name_check(name@) matches Err(m) ==> (r matches Err(DbError::InvalidParameterName(s)) && s@ == m),
            name_check(name@) matches Ok(t) ==> {
                &&& name_taken(old(self).group_rows(), id, t) ==> (r matches Err(DbError::InvalidParameterName(s))
                    && s@ == name_taken_message(t))
                &&& !name_taken(old(self).group_rows(), id, t) ==> {
                    &&& r is Ok
                    &&& final(self).group_rows().len() == old(self).group_rows().len()
                    &&& forall|i: int| 0 <= i < old(self).group_rows().len() ==> {
                        let o = #[trigger] old(self).group_rows()[i];
                        let n = final(self).group_rows()[i];
                        &&& n.id == o.id
                        &&& n.sort_order == o.sort_order
                        &&& n.created_at == o.created_at
                        &&& o.id == id ==> n.name@ == t
                        &&& o.id != id ==> n.name == o.name
                    }
                }
            },
    {
        let t = validate_group_name(name)?;
        if self.name_in_use(id, &t) {
            let mut m = chars_of("已存在名为「");
            append_chars(&mut m, t.as_str());
            append_chars(&mut m, "」的分组");
            return Err(DbError::InvalidParameterName(string_of(&m)));
        }
        match self.group_index(id) {
            Some(gi) => {
                let ghost before = self.groups@;
                let old_row = clone_group_row(&self.groups[gi]);
                self.groups.set(gi, GroupRow { id: old_row.id, name: t, sort_order: old_row.sort_order, created_at: old_row.created_at });
                proof {
                    assert forall|a: int, b: int| 0 <= a < self.groups@.len() && 0 <= b < self.groups@.len() && a != b
                        implies (#[trigger] self.groups@[a]).id != (#[trigger] self.groups@[b]).id by {
                        assert(self.groups@[a].id == before[a].id && self.groups@[b].id == before[b].id);
                    }
                    assert(forall|a: int| 0 <= a < self.groups@.len() ==> (#[trigger] self.groups@[a]).id == before[a].id);
                    assert forall|i: int| 0 <= i < before.len() && before[i].id == id implies i == gi as int by {
                        if i != gi {
                            assert(before[i].id != before[gi as int].id);
                        }
                    }
                }
            },
            None => {
                proof {
                    assert forall|i: int| 0 <= i < self.groups@.len() implies (#[trigger] self.groups@[i]).id != id by {
                        if self.groups@[i].id == id {
                            assert(row_has(self.groups@, id));
                        }
                    }
                }
            },
        }
        proof {
            if old(self).placed() {
                super::lemma_placed_same_ids(*old(self), *self);
            }
        }
        Ok(())
    }

    /// The ids of `gids` that name an existing group, in order.
    fn alive_groups(&self, gids: &[i64]) -> (r: Vec<i64>)
        ensures
            r@ == keep_alive(self.group_rows(), gids@),
    {
        let mut out: Vec<i64> = Vec::new();
        let mut i: usize = 0;
        while i < gids.len()
            invariant
                0 <= i <= gids@.len(),
                out@ == keep_alive(self.group_rows(), gids@.take(i as int)),
            decreases gids@.len() - i,
        {
            proof {
                assert(gids@.take(i + 1).drop_last() =~= gids@.take(i as int));
            }
            if self.group_exists(gids[i]) {
                out.push(gids[i]);
            }
            i = i + 1;
        }
        proof {
            assert(gids@.take(gids@.len() as int) =~= gids@);
        }
        out
    }

    /// Makes `group_ids` (those of them that exist) the groups of stock
    /// `watch_id`: it leaves the groups not listed and joins, at their end, the
    /// listed ones it is not in yet; groups it stays in keep its position. A
    /// selection with no existing group is refused, so that no stock is left
    /// in no group.
    pub fn set_watch_groups(&mut self, watch_id: i64, group_ids: &[i64]) -> (r: Result<(), DbError>)
        requires
            old(self).wf(),
        ensures
            final(self).wf(),
            old(self).placed() ==> final(self).placed(),
            final(self).items() == old(self).items(),
            final(self).same_groups_settings(*old(self)),
            final(self).last_watch_id() == old(self).last_watch_id(),
            r is Err ==> final(self).unchanged(*old(self)),
            ({
                let alive = keep_alive(old(self).group_rows(), group_ids@);
                let rest = filter_members(old(self).memberships(), |m: Membership| kept_by(m, watch_id, alive));
                &&& alive.len() == 0 ==> (r matches Err(DbError::InvalidParameterName(msg)) && msg@ == NEED_ONE_GROUP@)
                &&& alive.len() > 0 ==> match join_groups(rest, watch_id, alive) {
                    None => r matches Err(DbError::IntegralValueOutOfRange),
                    Some(ms) => r is Ok && final(self).memberships() == ms,
                }
            }),
    {
        let alive = self.alive_groups(group_ids);
        if alive.len() == 0 {
            return Err(DbError::InvalidParameterName(string_of(&chars_of(NEED_ONE_GROUP))));
        }
        let ghost keep = |m: Membership| kept_by(m, watch_id, alive@);
        let mut ms: Vec<Membership> = Vec::new();
        let mut i: usize = 0;
        while i < self.members.len()
            invariant
                0 <= i <= self.members@.len(),
                *self == *old(self),
                keep == (|m: Membership| kept_by(m, watch_id, alive@)),
                ms@ == filter_members(self.members@.take(i as int), keep),
            decreases self.members@.len() - i,
        {
            let m = self.members[i];
            proof {
                assert(self.members@.take(i + 1).drop_last() =~= self.members@.take(i as int));
            }
            if m.watch_id != watch_id || contains_id(&alive, m.group_id) {
                ms.push(m);
            }
            i = i + 1;
        }
        proof {
            assert(self.members@.take(self.members@.len() as int) =~= self.members@);
            lemma_filter_members(self.members@, keep);
        }
        let ghost rest = ms@;
        let mut j: usize = 0;
        while j < alive.len()
            invariant
                0 <= j <= alive@.len(),
                *self == *old(self),
                self.wf(),
                alive@ == keep_alive(old(self).group_rows(), group_ids@),
                keep == (|m: Membership| kept_by(m, watch_id, alive@)),
                rest == filter_members(old(self).memberships(), keep),
                members_wf(ms@),
                join_groups(rest, watch_id, alive@.take(j as int)) == Some(ms@),
            decreases alive@.len() - j,
        {
            let g = alive[j];
            proof {
                assert(alive@.take(j + 1).drop_last() =~= alive@.take(j as int));
                assert(alive@.take(j + 1).last() == g);
            }
            let top = max_sort_of(&ms, g);
            if top >= 0x7fff_ffffi64 {
                proof {
                    lemma_join_none_stays(rest, watch_id, alive@, j as int + 1);
                    assert(alive@.take(alive@.len() as int) =~= alive@);
                }
                return Err(DbError::IntegralValueOutOfRange);
            }
            if !has_member(&ms, g, watch_id) {
                let ghost before = ms@;
                ms.push(Membership { group_id: g, watch_id, sort_order: (top + 1) as i32 });
                proof {
                    assert forall|a: int, b: int| 0 <= a < ms@.len() && 0 <= b < ms@.len() && a != b
                        implies !((#[trigger] ms@[a]).group_id == (#[trigger] ms@[b]).group_id && ms@[a].watch_id == ms@[b].watch_id) by {
                        let n = before.len() as int;
                        if a == n {
                            assert(ms@[b] == before[b]);
                        } else if b == n {
                            assert(ms@[a] == before[a]);
                        } else {
                            assert(ms@[a] == before[a] && ms@[b] == before[b]);
                        }
                    }
                }
            }
            j = j + 1;
        }
        proof {
            assert(alive@.take(alive@.len() as int) =~= alive@);
        }
        self.members = ms;
        proof {
            if old(self).placed() {
                let ms0 = old(self).memberships();
                let ms1 = self.memberships();
                lemma_join_groups(rest, watch_id, alive@);
                lemma_keep_alive(old(self).group_rows(), group_ids@);
                assert(self.group_rows() == old(self).group_rows());
                assert forall|k: int| 0 <= k < ms1.len() implies self.has_group((#[trigger] ms1[k]).group_id) by {
                    if k < rest.len() {
                        assert(ms1[k] == rest[k]);
                        assert(rest.contains(rest[k]));
                        assert(filter_members(ms0, keep).contains(rest[k]));
                        let j = choose|j: int| 0 <= j < ms0.len() && ms0[j] == rest[k];
                        assert(old(self).has_group(ms0[j].group_id));
                    } else {
                        assert(alive@.contains(ms1[k].group_id));
                        assert(keep_alive(old(self).group_rows(), group_ids@).contains(ms1[k].group_id));
                        assert(row_has(old(self).group_rows(), ms1[k].group_id));
                    }
                }
                assert forall|t: int| 0 <= t < self.items().len() implies watched(ms1, (#[trigger] self.items()[t]).id) by {
                    let x = self.items()[t].id;
                    assert(self.items()[t] == old(self).items()[t]);
                    if x == watch_id {
                        assert(alive@.contains(alive@[0]));
                        assert(member_in(ms1, alive@[0], watch_id));
                        let i = choose|i: int| 0 <= i < ms1.len() && (#[trigger] ms1[i]).group_id == alive@[0] && ms1[i].watch_id == watch_id;
                    } else {
                        assert(watched(ms0, x));
                        let j = choose|j: int| 0 <= j < ms0.len() && (#[trigger] ms0[j]).watch_id == x;
                        assert(ms0.contains(ms0[j]));
                        assert(keep(ms0[j]));
                        assert(filter_members(ms0, keep).contains(ms0[j]));
                        let k = choose|k: int| 0 <= k < rest.len() && rest[k] == ms0[j];
                        assert(ms1[k] == rest[k]);
                    }
                }
            }
        }
        Ok(())
    }
}

/// Refusal of a name that is empty once trimmed.
pub const EMPTY_GROUP_NAME: &'static str = "分组名不能为空";

/// Refusal of a name longer than `GROUP_NAME_MAX_LEN` characters.
pub open spec fn long_name_message() -> Seq<char> {
    "分组名不能超过 "@ + decimal(GROUP_NAME_MAX_LEN as nat) + " 个字符"@
}

/// Refusal of a name another group already has.
pub open spec fn name_taken_message(name: Seq<char>) -> Seq<char> {
    "已存在名为「"@ + name + "」的分组"@
}

/// What a group name is checked to be: trimmed, not empty, at most
/// `GROUP_NAME_MAX_LEN` characters.
pub open spec fn name_check(name: Seq<char>) -> Result<Seq<char>, Seq<char>> {
    let t = trim_spec(name);
    if t.len() == 0 {
        Err(EMPTY_GROUP_NAME@)
    } else if t.len() > GROUP_NAME_MAX_LEN {
        Err(long_name_message())
    } else {
        Ok(t)
    }
}

/// Some group other than `gid` is called `name`.
pub open spec fn name_taken(rows: Seq<GroupRow>, gid: i64, name: Seq<char>) -> bool {
    exists|i: int| 0 <= i < rows.len() && (#[trigger] rows[i]).name@ == name && rows[i].id != gid
}

/// A group name, trimmed; refused when empty or longer than
/// `GROUP_NAME_MAX_LEN` characters.
pub fn validate_group_name(name: &str) -> (r: Result<String, DbError>)
    ensures
        name_check(name@) matches Ok(t) ==> (r matches Ok(s) && s@ == t),
        name_check(name@) matches Err(m) ==> (r matches Err(DbError::InvalidParameterName(s)) && s@ == m),
{
    let t = trim_chars(&chars_of(name));
    if t.len() == 0 {
        return Err(DbError::InvalidParameterName(string_of(&chars_of(EMPTY_GROUP_NAME))));
    }
    if t.len() > GROUP_NAME_MAX_LEN {
        let mut m = chars_of("分组名不能超过 ");
        push_decimal(GROUP_NAME_MAX_LEN as u32, &mut m);
        append_chars(&mut m, " 个字符");
        return Err(DbError::InvalidParameterName(string_of(&m)));
    }
    Ok(string_of(&t))
}

/// Refusal to delete the only group left.
pub const KEEP_ONE_GROUP: &'static str = "至少需要保留一个分组";

/// A group row's place in display order.
pub open spec fn row_key(r: GroupRow) -> (i32, i64) {
    (r.sort_order, r.id)
}

/// `f` is the group other than `gid` that comes first in display order.
pub open spec fn is_first_other(rows: Seq<GroupRow>, gid: i64, f: i64) -> bool {
    exists|i: int|
        0 <= i < rows.len() && (#[trigger] rows[i]).id == f && f != gid && forall|j: int|
            0 <= j < rows.len() && (#[trigger] rows[j]).id != gid ==> !key_lt(row_key(rows[j]), row_key(rows[i]))
}

/// The group that takes in the stocks a deletion of `gid` leaves in no group.
pub open spec fn fallback_group(rows: Seq<GroupRow>, gid: i64) -> i64 {
    choose|f: i64| is_first_other(rows, gid, f)
}

/// Ids of the stocks of `items` that are in no group, in pool order.
pub open spec fn orphans(items: Seq<WatchItem>, ms: Seq<Membership>) -> Seq<i64>
    decreases items.len(),
{
    if items.len() == 0 {
        Seq::empty()
    } else {
        let r = orphans(items.drop_last(), ms);
        if watched(ms, items.last().id) { r } else { r.push(items.last().id) }
    }
}

/// `ms` with stocks `wids` joined to group `g` at positions `start`,
/// `start + 1`, ... (a stock already there keeps its place).
pub open spec fn append_members(ms: Seq<Membership>, g: i64, wids: Seq<i64>, start: int) -> Seq<Membership>
    decreases wids.len(),
{
    if wids.len() == 0 {
        ms
    } else {
        let m = append_members(ms, g, wids.drop_last(), start);
        let w = wids.last();
        if member_in(m, g, w) {
            m
        } else {
            m.push(Membership { group_id: g, watch_id: w, sort_order: (start + wids.len() - 1) as i32 })
        }
    }
}

/// Index of the row with id `gid`.
pub open spec fn row_index_of(rows: Seq<GroupRow>, gid: i64) -> Option<int> {
    if row_has(rows, gid) {
        Some(choose|i: int| 0 <= i < rows.len() && (#[trigger] rows[i]).id == gid)
    } else {
        None
    }
}

/// `rows` without the row of `gid` (unchanged when there is none).
pub open spec fn rows_without(rows: Seq<GroupRow>, gid: i64) -> Seq<GroupRow> {
    match row_index_of(rows, gid) {
        Some(i) => rows.remove(i),
        None => rows,
    }
}

/// Two rows that are both first among the others are the same group.
proof fn lemma_first_other_unique(rows: Seq<GroupRow>, gid: i64, f1: i64, f2: i64)
    requires
        groups_wf(rows, i64::MAX as int),
        is_first_other(rows, gid, f1),
        is_first_other(rows, gid, f2),
    ensures
        f1 == f2,
{
    let i1 = choose|i: int|
        0 <= i < rows.len() && (#[trigger] rows[i]).id == f1 && f1 != gid && forall|j: int|
            0 <= j < rows.len() && (#[trigger] rows[j]).id != gid ==> !key_lt(row_key(rows[j]), row_key(rows[i]));
    let i2 = choose|i: int|
        0 <= i < rows.len() && (#[trigger] rows[i]).id == f2 && f2 != gid && forall|j: int|
            0 <= j < rows.len() && (#[trigger] rows[j]).id != gid ==> !key_lt(row_key(rows[j]), row_key(rows[i]));
    assert(!key_lt(row_key(rows[i1]), row_key(rows[i2])));
    assert(!key_lt(row_key(rows[i2]), row_key(rows[i1])));
}

/// Only existing groups are kept.
proof fn lemma_keep_alive(rows: Seq<GroupRow>, gids: Seq<i64>)
    ensures
        forall|g: i64| #[trigger] keep_alive(rows, gids).contains(g) ==> row_has(rows, g),
    decreases gids.len(),
{
    if gids.len() > 0 {
        lemma_keep_alive(rows, gids.drop_last());
        let r = keep_alive(rows, gids.drop_last());
        assert forall|g: i64| #[trigger] keep_alive(rows, gids).contains(g) implies row_has(rows, g) by {
            if row_has(rows, gids.last()) {
                let p = r.push(gids.last());
                let k = choose|k: int| 0 <= k < p.len() && p[k] == g;
                if k < r.len() {
                    assert(r[k] == g);
                    assert(r.contains(g));
                }
            } else {
                assert(r.contains(g));
            }
        }
    }
}

/// Joining keeps the memberships there were, adds only memberships of `wid`
/// in listed groups, and leaves `wid` in every listed group.
proof fn lemma_join_groups(ms: Seq<Membership>, wid: i64, gids: Seq<i64>)
    ensures
        join_groups(ms, wid, gids) matches Some(r) ==> {
            &&& ms.len() <= r.len()
            &&& forall|k: int| 0 <= k < ms.len() ==> r[k] == ms[k]
            &&& forall|k: int| ms.len() <= k < r.len() ==> (#[trigger] r[k]).watch_id == wid && gids.contains(r[k].group_id)
            &&& forall|g: i64| #[trigger] gids.contains(g) ==> member_in(r, g, wid)
        },
    decreases gids.len(),
{
    if gids.len() > 0 {
        let d = gids.drop_last();
        lemma_join_groups(ms, wid, d);
        if let Some(m) = join_groups(ms, wid, d) {
            let g = gids.last();
            if let Some(r) = join_groups(ms, wid, gids) {
                assert(forall|x: i64| d.contains(x) ==> gids.contains(x)) by {
                    assert forall|x: i64| d.contains(x) implies gids.contains(x) by {
                        let k = choose|k: int| 0 <= k < d.len() && d[k] == x;
                        assert(gids[k] == x);
                    }
                }
                assert(forall|k: int| 0 <= k < m.len() ==> r[k] == m[k]);
                assert(gids[gids.len() - 1] == g);
                assert(member_in(r, g, wid)) by {
                    if member_in(m, g, wid) {
                        let i = choose|i: int| 0 <= i < m.len() && (#[trigger] m[i]).group_id == g && m[i].watch_id == wid;
                        assert(r[i] == m[i]);
                    } else {
                        assert(r[r.len() - 1].group_id == g && r[r.len() - 1].watch_id == wid);
                    }
                }
                assert forall|x: i64| #[trigger] gids.contains(x) implies member_in(r, x, wid) by {
                    if x != g {
                        let k = choose|k: int| 0 <= k < gids.len() && gids[k] == x;
                        assert(k < gids.len() - 1);
                        assert(d[k] == x);
                        assert(d.contains(x));
                        assert(member_in(m, x, wid));
                        let i = choose|i: int| 0 <= i < m.len() && (#[trigger] m[i]).group_id == x && m[i].watch_id == wid;
                        assert(r[i] == m[i]);
                    }
                }
            }
        }
    }
}

/// Appending keeps the memberships there were, adds only memberships of
/// listed stocks in group `g`, and leaves every listed stock in `g`.
pub proof fn lemma_append_members(ms: Seq<Membership>, g: i64, wids: Seq<i64>, start: int)
    ensures
        ({
            let r = append_members(ms, g, wids, start);
            &&& ms.len() <= r.len()
            &&& forall|k: int| 0 <= k < ms.len() ==> r[k] == ms[k]
            &&& forall|k: int| ms.len() <= k < r.len() ==> (#[trigger] r[k]).group_id == g && wids.contains(r[k].watch_id)
            &&& forall|w: i64| #[trigger] wids.contains(w) ==> member_in(r, g, w)
        }),
    decreases wids.len(),
{
    if wids.len() > 0 {
        let d = wids.drop_last();
        lemma_append_members(ms, g, d, start);
        let m = append_members(ms, g, d, start);
        let r = append_members(ms, g, wids, start);
        let w = wids.last();
        assert(wids[wids.len() - 1] == w);
        assert(forall|k: int| 0 <= k < m.len() ==> r[k] == m[k]);
        assert forall|k: int| ms.len() <= k < r.len() implies (#[trigger] r[k]).group_id == g && wids.contains(r[k].watch_id) by {
            if k < m.len() {
                assert(r[k] == m[k]);
                let j = choose|j: int| 0 <= j < d.len() && d[j] == m[k].watch_id;
                assert(wids[j] == d[j]);
            }
        }
        assert(member_in(r, g, w)) by {
            if member_in(m, g, w) {
                let i = choose|i: int| 0 <= i < m.len() && (#[trigger] m[i]).group_id == g && m[i].watch_id == w;
                assert(r[i] == m[i]);
            } else {
                assert(r[r.len() - 1].group_id == g && r[r.len() - 1].watch_id == w);
            }
        }
        assert forall|x: i64| #[trigger] wids.contains(x) implies member_in(r, g, x) by {
            if x != w {
                let k = choose|k: int| 0 <= k < wids.len() && wids[k] == x;
                assert(d[k] == x);
                assert(d.contains(x));
                let i = choose|i: int| 0 <= i < m.len() && (#[trigger] m[i]).group_id == g && m[i].watch_id == x;
                assert(r[i] == m[i]);
            }
        }
    }
}

/// Every stock in no group is listed among the orphans.
proof fn lemma_orphans(items: Seq<WatchItem>, ms: Seq<Membership>)
    ensures
        forall|t: int| 0 <= t < items.len() && !watched(ms, (#[trigger] items[t]).id) ==> orphans(items, ms).contains(items[t].id),
    decreases items.len(),
{
    if items.len() > 0 {
        let d = items.drop_last();
        lemma_orphans(d, ms);
        let r = orphans(d, ms);
        assert forall|t: int| 0 <= t < items.len() && !watched(ms, (#[trigger] items[t]).id) implies orphans(items, ms).contains(items[t].id) by {
            if t < items.len() - 1 {
                assert(d[t] == items[t]);
                assert(r.contains(d[t].id));
                let k = choose|k: int| 0 <= k < r.len() && r[k] == d[t].id;
                if !watched(ms, items.last().id) {
                    assert(r.push(items.last().id)[k] == items[t].id);
                }
            } else {
                assert(items[t] == items.last());
                assert(r.push(items.last().id)[r.len() as int] == items[t].id);
            }
        }
    }
}

/// Deleting a row keeps the others.
proof fn lemma_rows_without(rows: Seq<GroupRow>, id: i64, g: i64)
    requires
        row_has(rows, g),
        g != id,
    ensures
        row_has(rows_without(rows, id), g),
{
    let j = choose|j: int| 0 <= j < rows.len() && (#[trigger] rows[j]).id == g;
    if let Some(i) = row_index_of(rows, id) {
        let r = rows.remove(i);
        assert(rows[i].id == id);
        let j2 = if j < i { j } else { j - 1 };
        assert(r[j2] == rows[j]);
    }
}

/// Once a join has failed, joining further groups fails too.
proof fn lemma_join_none_stays(ms: Seq<Membership>, wid: i64, gids: Seq<i64>, k: int)
    requires
        0 <= k <= gids.len(),
        join_groups(ms, wid, gids.take(k)) is None,
    ensures
        join_groups(ms, wid, gids) is None,
    decreases gids.len() - k,
{
    if k < gids.len() {
        assert(gids.take(k + 1).drop_last() =~= gids.take(k));
        lemma_join_none_stays(ms, wid, gids, k + 1);
    } else {
        assert(gids.take(k) =~= gids);
    }
}

} // verus!
