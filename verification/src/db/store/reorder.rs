use vstd::prelude::*;

use super::groups::row_index_of;
use super::{ids_of, member_in, member_key_set, members_wf, Database, GroupRow, Membership};
use crate::db::order::{key_lt, lemma_is_sorted_keys, lists_sorted, sorted_keys, strictly_sorted};

verus! {

/// Where `id` last occurs in `ids`.
pub open spec fn last_index(ids: Seq<i64>, id: i64) -> Option<int>
    decreases ids.len(),
{
    if ids.len() == 0 {
        None
    } else if ids.last() == id {
        Some(ids.len() - 1)
    } else {
        last_index(ids.drop_last(), id)
    }
}

/// The rows with their positions rewritten: a group listed in `ids` takes the
/// index of its last listing.
pub open spec fn regrouped(rows: Seq<GroupRow>, ids: Seq<i64>) -> Seq<GroupRow> {
    rows.map_values(
        |r: GroupRow|
            match last_index(ids, r.id) {
                Some(k) => GroupRow { id: r.id, name: r.name, sort_order: k as i32, created_at: r.created_at },
                None => r,
            },
    )
}

/// The memberships with the positions inside group `gid` rewritten: a stock
/// listed in `wids` takes the index of its last listing.
pub open spec fn members_resorted(ms: Seq<Membership>, gid: i64, wids: Seq<i64>) -> Seq<Membership> {
    ms.map_values(
        |m: Membership|
            if m.group_id == gid {
                match last_index(wids, m.watch_id) {
                    Some(k) => Membership { group_id: m.group_id, watch_id: m.watch_id, sort_order: k as i32 },
                    None => m,
                }
            } else {
                m
            },
    )
}

/// How one stock moves inside its group.
#[derive(Clone, Copy, Debug, PartialEq, Eq, Structural)]
pub enum MoveMode {
    Top,
    Up,
    Down,
}

/// The group order after moving `wid`; `None` when nothing moves (it is not
/// in the group, or already first for `Up`, or last for `Down`).
pub open spec fn moved(order: Seq<i64>, wid: i64, mode: MoveMode) -> Option<Seq<i64>> {
    match index_of(order, wid) {
        None => None,
        Some(p) => match mode {
            MoveMode::Top => Some(seq![wid] + order.remove(p)),
            MoveMode::Up => if p == 0 {
                None
            } else {
                Some(order.update(p - 1, order[p]).update(p, order[p - 1]))
            },
            MoveMode::Down => if p + 1 >= order.len() {
                None
            } else {
                Some(order.update(p, order[p + 1]).update(p + 1, order[p]))
            },
        },
    }
}

/// What each move does to a group listed as `order` (no stock twice) whose
/// member `wid` stands at `p`. Down swaps it with the member right after it
/// (nothing happens to the last one); Up swaps it with the member right
/// before it (nothing happens to the first one); Top puts it first and
/// shifts the members before it one place down. Every other place keeps its
/// member.
pub proof fn lemma_move_effects(order: Seq<i64>, wid: i64, p: int)
    requires
        no_dups(order),
        0 <= p < order.len(),
        order[p] == wid,
    ensures
        p + 1 == order.len() ==> moved(order, wid, MoveMode::Down) is None,
        p + 1 < order.len() ==> (moved(order, wid, MoveMode::Down) matches Some(new) && {
            &&& new.len() == order.len()
            &&& new[p + 1] == wid
            &&& new[p] == order[p + 1]
            &&& forall|i: int| 0 <= i < order.len() && i != p && i != p + 1 ==> new[i] == order[i]
        }),
        p == 0 ==> moved(order, wid, MoveMode::Up) is None,
        p > 0 ==> (moved(order, wid, MoveMode::Up) matches Some(new) && {
            &&& new.len() == order.len()
            &&& new[p - 1] == wid
            &&& new[p] == order[p - 1]
            &&& forall|i: int| 0 <= i < order.len() && i != p && i != p - 1 ==> new[i] == order[i]
        }),
        moved(order, wid, MoveMode::Top) matches Some(new) && {
            &&& new.len() == order.len()
            &&& new[0] == wid
            &&& forall|i: int| 0 <= i < p ==> new[i + 1] == order[i]
            &&& forall|i: int| p < i < order.len() ==> new[i] == order[i]
        },
{
    assert(order.contains(wid));
    let q = choose|q: int| 0 <= q < order.len() && order[q] == wid;
    assert(q == p);
    assert(index_of(order, wid) == Some(p));
    let top = seq![wid] + order.remove(p);
    assert forall|i: int| 0 <= i < p implies top[i + 1] == order[i] by {
        assert(order.remove(p)[i] == order[i]);
    }
    assert forall|i: int| p < i < order.len() implies top[i] == order[i] by {
        assert(order.remove(p)[i - 1] == order[i]);
    }
}

/// The place of `id` in `s` (a list without repeats).
pub open spec fn index_of(s: Seq<i64>, id: i64) -> Option<int> {
    if s.contains(id) {
        Some(choose|p: int| 0 <= p < s.len() && s[p] == id)
    } else {
        None
    }
}

/// A move rearranges the group: same members, each still once.
pub proof fn lemma_moved_permutes(order: Seq<i64>, wid: i64, mode: MoveMode)
    requires
        no_dups(order),
    ensures
        moved(order, wid, mode) matches Some(new) ==> {
            &&& no_dups(new)
            &&& new.len() == order.len()
            &&& forall|w: i64| new.contains(w) <==> order.contains(w)
        },
{
    if let Some(p) = index_of(order, wid) {
        assert(0 <= p < order.len() && order[p] == wid);
        match mode {
            MoveMode::Top => {
                let new = seq![wid] + order.remove(p);
                let rest = order.remove(p);
                assert forall|k: int| 0 <= k < rest.len() implies rest[k] == (if k < p { order[k] } else { order[k + 1] }) by {}
                assert forall|w: i64| new.contains(w) <==> order.contains(w) by {
                    if order.contains(w) {
                        let k = choose|k: int| 0 <= k < order.len() && order[k] == w;
                        if k == p {
                            assert(new[0] == w);
                        } else if k < p {
                            assert(new[k + 1] == w);
                        } else {
                            assert(new[k] == w);
                        }
                    }
                    if new.contains(w) {
                        let k = choose|k: int| 0 <= k < new.len() && new[k] == w;
                        if k == 0 {
                            assert(order[p] == w);
                        } else if k - 1 < p {
                            assert(order[k - 1] == w);
                        } else {
                            assert(order[k] == w);
                        }
                    }
                }
                assert forall|a: int, b: int| 0 <= a < new.len() && 0 <= b < new.len() && a != b implies new[a] != new[b] by {
                    let ia = if a == 0 { p } else if a - 1 < p { a - 1 } else { a };
                    let ib = if b == 0 { p } else if b - 1 < p { b - 1 } else { b };
                    assert(new[a] == order[ia] && new[b] == order[ib]);
                }
            },
            MoveMode::Up => {
                if p > 0 {
                    let new = order.update(p - 1, order[p]).update(p, order[p - 1]);
                    let sw = |k: int| if k == p - 1 { p } else if k == p { p - 1 } else { k };
                    assert forall|k: int| 0 <= k < new.len() implies new[k] == order[sw(k)] by {}
                    assert forall|w: i64| new.contains(w) <==> order.contains(w) by {
                        if order.contains(w) {
                            let k = choose|k: int| 0 <= k < order.len() && order[k] == w;
                            assert(new[sw(k)] == w);
                        }
                        if new.contains(w) {
                            let k = choose|k: int| 0 <= k < new.len() && new[k] == w;
                            assert(order[sw(k)] == w);
                        }
                    }
                    assert forall|a: int, b: int| 0 <= a < new.len() && 0 <= b < new.len() && a != b implies new[a] != new[b] by {
                        assert(new[a] == order[sw(a)] && new[b] == order[sw(b)]);
                    }
                }
            },
            MoveMode::Down => {
                if p + 1 < order.len() {
                    let new = order.update(p, order[p + 1]).update(p + 1, order[p]);
                    let sw = |k: int| if k == p { p + 1 } else if k == p + 1 { p } else { k };
                    assert forall|k: int| 0 <= k < new.len() implies new[k] == order[sw(k)] by {}
                    assert forall|w: i64| new.contains(w) <==> order.contains(w) by {
                        if order.contains(w) {
                            let k = choose|k: int| 0 <= k < order.len() && order[k] == w;
                            assert(new[sw(k)] == w);
                        }
                        if new.contains(w) {
                            let k = choose|k: int| 0 <= k < new.len() && new[k] == w;
                            assert(order[sw(k)] == w);
                        }
                    }
                    assert forall|a: int, b: int| 0 <= a < new.len() && 0 <= b < new.len() && a != b implies new[a] != new[b] by {
                        assert(new[a] == order[sw(a)] && new[b] == order[sw(b)]);
                    }
                }
            },
        }
    }
}

fn copy_ids(v: &Vec<i64>) -> (r: Vec<i64>)
    ensures
        r@ == v@,
{
    let mut out: Vec<i64> = Vec::new();
    let mut i: usize = 0;
    while i < v.len()
        invariant
            0 <= i <= v@.len(),
            out@ == v@.take(i as int),
        decreases v@.len() - i,
    {
        out.push(v[i]);
        i = i + 1;
        proof {
            assert(out@ =~= v@.take(i as int));
        }
    }
    proof {
        assert(v@.take(v@.len() as int) =~= v@);
    }
    out
}

pub open spec fn no_dups(s: Seq<i64>) -> bool {
    forall|i: int, j: int| 0 <= i < s.len() && 0 <= j < s.len() && i != j ==> s[i] != s[j]
}

/// The last listing of an element of a list without repeats is its only one.
proof fn lemma_last_index_no_dups(ids: Seq<i64>, k: int)
    requires
        no_dups(ids),
        0 <= k < ids.len(),
    ensures
        last_index(ids, ids[k]) == Some(k),
    decreases ids.len(),
{
    if k < ids.len() - 1 {
        let d = ids.drop_last();
        assert(ids.last() != ids[k]);
        assert(d[k] == ids[k]);
        assert(no_dups(d)) by {
            assert forall|i: int, j: int| 0 <= i < d.len() && 0 <= j < d.len() && i != j implies d[i] != d[j] by {
                assert(d[i] == ids[i] && d[j] == ids[j]);
            }
        }
        lemma_last_index_no_dups(d, k);
    }
}

/// The last occurrence found is an occurrence; none found means none.
pub proof fn lemma_last_index_bounds(ids: Seq<i64>, id: i64)
    ensures
        last_index(ids, id) matches Some(k) ==> 0 <= k < ids.len() && ids[k] == id,
        last_index(ids, id) is None ==> !ids.contains(id),
    decreases ids.len(),
{
    if ids.len() > 0 && ids.last() != id {
        lemma_last_index_bounds(ids.drop_last(), id);
        if ids.contains(id) {
            let j = choose|j: int| 0 <= j < ids.len() && ids[j] == id;
            assert(ids.drop_last()[j] == id);
        }
    }
}

/// One more listing: `ids[i]` now last occurs at `i`, every other id where it
/// was.
pub proof fn lemma_last_index_step(ids: Seq<i64>, i: int, id: i64)
    requires
        0 <= i < ids.len(),
    ensures
        last_index(ids.take(i + 1), id) == if id == ids[i] { Some(i) } else { last_index(ids.take(i), id) },
{
    assert(ids.take(i + 1).drop_last() =~= ids.take(i));
}

/// Listing the members of group `gid` once each, in any order, and rewriting
/// their positions from that list makes it the group's order exactly.
pub proof fn lemma_resorted_order(ms: Seq<Membership>, gid: i64, p: Seq<i64>)
    requires
        members_wf(ms),
        no_dups(p),
        p.len() <= i32::MAX + 1,
        forall|w: i64| p.contains(w) <==> member_in(ms, gid, w),
    ensures
        ids_of(sorted_keys(member_key_set(members_resorted(ms, gid, p), gid))) == p,
{
    let ms2 = members_resorted(ms, gid, p);
    let set = member_key_set(ms2, gid);
    let l = Seq::new(p.len(), |k: int| (k as i32, p[k]));
    assert forall|x: (i32, i64)| l.contains(x) <==> set.contains(x) by {
        if l.contains(x) {
            let k = choose|k: int| 0 <= k < l.len() && l[k] == x;
            assert(p.contains(p[k]));
            assert(member_in(ms, gid, p[k]));
            let i = choose|i: int| 0 <= i < ms.len() && (#[trigger] ms[i]).group_id == gid && ms[i].watch_id == p[k];
            lemma_last_index_no_dups(p, k);
            assert(ms2[i].group_id == gid && ms2[i].sort_order == x.0 && ms2[i].watch_id == x.1);
        }
        if set.contains(x) {
            let i = choose|i: int| 0 <= i < ms2.len() && (#[trigger] ms2[i]).group_id == gid && ms2[i].sort_order == x.0 && ms2[i].watch_id == x.1;
            let m = ms[i];
            assert(member_in(ms, gid, m.watch_id));
            assert(p.contains(m.watch_id));
            lemma_last_index_bounds(p, m.watch_id);
            let k = last_index(p, m.watch_id)->0;
            assert(l[k] == x);
        }
    }
    assert(strictly_sorted(l)) by {
        assert forall|i: int, j: int| 0 <= i < j < l.len() implies key_lt(#[trigger] l[i], #[trigger] l[j]) by {
            assert(l[i].0 == i && l[j].0 == j);
        }
    }
    assert(lists_sorted(l, set));
    lemma_is_sorted_keys(l, set);
    assert(ids_of(l) =~= p);
}

/// A group's members in order are its members, each once.
pub proof fn lemma_order_ids(ms: Seq<Membership>, gid: i64, sorted: Seq<(i32, i64)>)
    requires
        members_wf(ms),
        lists_sorted(sorted, member_key_set(ms, gid)),
    ensures
        no_dups(ids_of(sorted)),
        forall|w: i64| #[trigger] ids_of(sorted).contains(w) <==> member_in(ms, gid, w),
{
    let ids = ids_of(sorted);
    let set = member_key_set(ms, gid);
    assert forall|w: i64| #[trigger] ids.contains(w) <==> member_in(ms, gid, w) by {
        if ids.contains(w) {
            let k = choose|k: int| 0 <= k < ids.len() && ids[k] == w;
            assert(sorted.contains(sorted[k]));
            assert(set.contains(sorted[k]));
            let i = choose|i: int| 0 <= i < ms.len() && (#[trigger] ms[i]).group_id == gid && ms[i].sort_order == sorted[k].0 && ms[i].watch_id == sorted[k].1;
        }
        if member_in(ms, gid, w) {
            let i = choose|i: int| 0 <= i < ms.len() && (#[trigger] ms[i]).group_id == gid && ms[i].watch_id == w;
            let x = (ms[i].sort_order, w);
            assert(set.contains(x));
            assert(sorted.contains(x));
            let k = choose|k: int| 0 <= k < sorted.len() && sorted[k] == x;
            assert(ids[k] == w);
        }
    }
    assert forall|a: int, b: int| 0 <= a < ids.len() && 0 <= b < ids.len() && a != b implies ids[a] != ids[b] by {
        if ids[a] == ids[b] {
            assert(sorted.contains(sorted[a]) && sorted.contains(sorted[b]));
            assert(set.contains(sorted[a]) && set.contains(sorted[b]));
            let i = choose|i: int| 0 <= i < ms.len() && (#[trigger] ms[i]).group_id == gid && ms[i].sort_order == sorted[a].0 && ms[i].watch_id == sorted[a].1;
            let j = choose|j: int| 0 <= j < ms.len() && (#[trigger] ms[j]).group_id == gid && ms[j].sort_order == sorted[b].0 && ms[j].watch_id == sorted[b].1;
            if i != j {
                assert(!(ms[i].group_id == ms[j].group_id && ms[i].watch_id == ms[j].watch_id));
            }
            if a < b {
                assert(key_lt(sorted[a], sorted[b]));
            } else {
                assert(key_lt(sorted[b], sorted[a]));
            }
        }
    }
}

impl Database {
    /// Gives the groups listed in `ids` their index in the list as position
    /// (the last listing counts when a group is listed twice).
    pub fn reorder_watch_groups(&mut self, ids: &[i64])
        requires
            old(self).wf(),
        ensures
            final(self).wf(),
            old(self).placed() ==> final(self).placed(),
            final(self).group_rows() == regrouped(old(self).group_rows(), ids@),
            final(self).items() == old(self).items(),
            final(self).memberships() == old(self).memberships(),
            final(self).settings() == old(self).settings(),
            final(self).last_watch_id() == old(self).last_watch_id(),
            final(self).last_group_id() == old(self).last_group_id(),
    {
        let ghost rows = self.groups@;
        let mut i: usize = 0;
        proof {
            assert(regrouped(rows, ids@.take(0)) =~= rows);
        }
        while i < ids.len()
            invariant
                0 <= i <= ids@.len(),
                self.wf(),
                rows == old(self).groups@,
                self.groups@ == regrouped(rows, ids@.take(i as int)),
                self.items@ == old(self).items@,
                self.members@ == old(self).members@,
                self.settings@ == old(self).settings@,
                self.last_watch_id == old(self).last_watch_id,
                self.last_group_id == old(self).last_group_id,
            decreases ids@.len() - i,
        {
            let id = ids[i];
            let ghost before = self.groups@;
            match self.group_index(id) {
                Some(gi) => {
                    let old_row = super::clone_group_row(&self.groups[gi]);
                    self.groups.set(
                        gi,
                        GroupRow { id: old_row.id, name: old_row.name, sort_order: i as i32, created_at: old_row.created_at },
                    );
                    proof {
                        assert forall|t: int| 0 <= t < rows.len() implies self.groups@[t] == regrouped(rows, ids@.take(i + 1))[t] by {
                            lemma_last_index_step(ids@, i as int, rows[t].id);
                            if t != gi as int {
                                assert(before[t].id != before[gi as int].id);
                            }
                        }
                        assert(self.groups@ =~= regrouped(rows, ids@.take(i + 1)));
                        assert forall|a: int, b: int| 0 <= a < self.groups@.len() && 0 <= b < self.groups@.len() && a != b
                            implies (#[trigger] self.groups@[a]).id != (#[trigger] self.groups@[b]).id by {
                            assert(self.groups@[a].id == before[a].id && self.groups@[b].id == before[b].id);
                        }
                        assert(forall|a: int| 0 <= a < self.groups@.len() ==> (#[trigger] self.groups@[a]).id == before[a].id);
                    }
                },
                None => {
                    proof {
                        assert forall|t: int| 0 <= t < rows.len() implies self.groups@[t] == regrouped(rows, ids@.take(i + 1))[t] by {
                            lemma_last_index_step(ids@, i as int, rows[t].id);
                            if rows[t].id == id {
                                assert(before[t].id == id);
                                assert(super::groups::row_has(before, id));
                            }
                        }
                        assert(self.groups@ =~= regrouped(rows, ids@.take(i + 1)));
                    }
                },
            }
            i = i + 1;
        }
        proof {
            if old(self).placed() {
                super::lemma_placed_same_ids(*old(self), *self);
            }
        }
        proof {
            assert(ids@.take(ids@.len() as int) =~= ids@);
        }
    }

    /// Moves stock `watch_id` inside group `group_id` (to the top, or one
    /// place up or down) and rewrites the group's positions as 0, 1, 2, ...
    /// in the new order. Nothing changes when it is not in the group, or
    /// cannot move that way.
    pub fn move_group_member(&mut self, group_id: i64, watch_id: i64, mode: MoveMode)
        requires
            old(self).wf(),
        ensures
            final(self).wf(),
            old(self).placed() ==> final(self).placed(),
            final(self).items() == old(self).items(),
            final(self).same_groups_settings(*old(self)),
            final(self).last_watch_id() == old(self).last_watch_id(),
            moved(old(self).member_order(group_id), watch_id, mode) is None ==> final(self).unchanged(*old(self)),
            moved(old(self).member_order(group_id), watch_id, mode) matches Some(new) ==> {
                &&& final(self).memberships() == members_resorted(old(self).memberships(), group_id, new)
                &&& new.len() <= i32::MAX + 1 ==> final(self).member_order(group_id) == new
            },
    {
        let ids = self.group_member_ids(group_id);
        let mut pos: usize = 0;
        while pos < ids.len() && ids[pos] != watch_id
            invariant
                0 <= pos <= ids@.len(),
                forall|q: int| 0 <= q < pos ==> ids@[q] != watch_id,
            decreases ids@.len() - pos,
        {
            pos = pos + 1;
        }
        if pos == ids.len() {
            return;
        }
        proof {
            assert(ids@.contains(watch_id));
            let c = choose|q: int| 0 <= q < ids@.len() && ids@[q] == watch_id;
            if c != pos as int {
                assert(ids@[c] != ids@[pos as int]);
            }
            assert(index_of(ids@, watch_id) == Some(pos as int));
        }
        let ghost order = ids@;
        let mut new: Vec<i64> = Vec::new();
        match mode {
            MoveMode::Top => {
                new.push(watch_id);
                let mut k: usize = 0;
                while k < ids.len()
                    invariant
                        0 <= k <= ids@.len(),
                        0 <= pos < ids@.len(),
                        new@ == seq![watch_id] + order.remove(pos as int).take(if k <= pos { k as int } else { k - 1 }),
                        order == ids@,
                    decreases ids@.len() - k,
                {
                    if k != pos {
                        new.push(ids[k]);
                    }
                    k = k + 1;
                    proof {
                        let rest = order.remove(pos as int);
                        let m = if k <= pos { k as int } else { k - 1 };
                        assert(new@ =~= seq![watch_id] + rest.take(m));
                    }
                }
            },
            MoveMode::Up => {
                if pos == 0 {
                    return;
                }
                new = copy_ids(&ids);
                new.set(pos - 1, ids[pos]);
                new.set(pos, ids[pos - 1]);
            },
            MoveMode::Down => {
                if pos + 1 >= ids.len() {
                    return;
                }
                new = copy_ids(&ids);
                new.set(pos, ids[pos + 1]);
                new.set(pos + 1, ids[pos]);
            },
        }
        proof {
            if mode is Top {
                assert(order.remove(pos as int).take(order.len() - 1) =~= order.remove(pos as int));
            }
            assert(moved(order, watch_id, mode) == Some(new@));
            lemma_moved_permutes(order, watch_id, mode);
        }
        let ghost ms = self.members@;
        self.reorder_group_members(group_id, new.as_slice());
        proof {
            if new@.len() <= i32::MAX + 1 {
                assert forall|w: i64| new@.contains(w) <==> member_in(ms, group_id, w) by {
                    assert(order.contains(w) <==> member_in(ms, group_id, w));
                }
                lemma_resorted_order(ms, group_id, new@);
            }
        }
    }

    /// Moves stock `watch_id` to the top of group `group_id`.
    pub fn move_group_member_top(&mut self, group_id: i64, watch_id: i64)
        requires
            old(self).wf(),
        ensures
            final(self).wf(),
            old(self).placed() ==> final(self).placed(),
            final(self).items() == old(self).items(),
            final(self).same_groups_settings(*old(self)),
            final(self).last_watch_id() == old(self).last_watch_id(),
            moved(old(self).member_order(group_id), watch_id, MoveMode::Top) is None ==> final(self).unchanged(*old(self)),
            moved(old(self).member_order(group_id), watch_id, MoveMode::Top) matches Some(new) ==> {
                &&& final(self).memberships() == members_resorted(old(self).memberships(), group_id, new)
                &&& new.len() <= i32::MAX + 1 ==> final(self).member_order(group_id) == new
            },
    {
        self.move_group_member(group_id, watch_id, MoveMode::Top)
    }

    /// Moves stock `watch_id` one place up in group `group_id`.
    pub fn move_group_member_up(&mut self, group_id: i64, watch_id: i64)
        requires
            old(self).wf(),
        ensures
            final(self).wf(),
            old(self).placed() ==> final(self).placed(),
            final(self).items() == old(self).items(),
            final(self).same_groups_settings(*old(self)),
            final(self).last_watch_id() == old(self).last_watch_id(),
            moved(old(self).member_order(group_id), watch_id, MoveMode::Up) is None ==> final(self).unchanged(*old(self)),
            moved(old(self).member_order(group_id), watch_id, MoveMode::Up) matches Some(new) ==> {
                &&& final(self).memberships() == members_resorted(old(self).memberships(), group_id, new)
                &&& new.len() <= i32::MAX + 1 ==> final(self).member_order(group_id) == new
            },
    {
        self.move_group_member(group_id, watch_id, MoveMode::Up)
    }

    /// Moves stock `watch_id` one place down in group `group_id`.
    pub fn move_group_member_down(&mut self, group_id: i64, watch_id: i64)
        requires
            old(self).wf(),
        ensures
            final(self).wf(),
            old(self).placed() ==> final(self).placed(),
            final(self).items() == old(self).items(),
            final(self).same_groups_settings(*old(self)),
            final(self).last_watch_id() == old(self).last_watch_id(),
            moved(old(self).member_order(group_id), watch_id, MoveMode::Down) is None ==> final(self).unchanged(*old(self)),
            moved(old(self).member_order(group_id), watch_id, MoveMode::Down) matches Some(new) ==> {
                &&& final(self).memberships() == members_resorted(old(self).memberships(), group_id, new)
                &&& new.len() <= i32::MAX + 1 ==> final(self).member_order(group_id) == new
            },
    {
        self.move_group_member(group_id, watch_id, MoveMode::Down)
    }

    /// Index of the membership of stock `wid` in group `gid`.
    fn member_index(&self, gid: i64, wid: i64) -> (r: Option<usize>)
        requires
            self.wf(),
        ensures
            r matches Some(i) ==> i < self.memberships().len() && self.memberships()[i as int].group_id == gid
                && self.memberships()[i as int].watch_id == wid,
            r is None ==> !member_in(self.memberships(), gid, wid),
    {
        let mut i: usize = 0;
        while i < self.members.len()
            invariant
                0 <= i <= self.members@.len(),
                forall|t: int| 0 <= t < i ==> !((#[trigger] self.members@[t]).group_id == gid && self.members@[t].watch_id == wid),
            decreases self.members@.len() - i,
        {
            if self.members[i].group_id == gid && self.members[i].watch_id == wid {
                return Some(i);
            }
            i = i + 1;
        }
        None
    }

    /// Gives the members of group `gid` listed in `watch_ids` their index in
    /// the list as position inside the group; other groups are untouched.
    pub fn reorder_group_members(&mut self, group_id: i64, watch_ids: &[i64])
        requires
            old(self).wf(),
        ensures
            final(self).wf(),
            old(self).placed() ==> final(self).placed(),
            final(self).memberships() == members_resorted(old(self).memberships(), group_id, watch_ids@),
            final(self).items() == old(self).items(),
            final(self).same_groups_settings(*old(self)),
            final(self).last_watch_id() == old(self).last_watch_id(),
    {
        let ghost ms = self.members@;
        let mut i: usize = 0;
        proof {
            assert(members_resorted(ms, group_id, watch_ids@.take(0)) =~= ms);
        }
        while i < watch_ids.len()
            invariant
                0 <= i <= watch_ids@.len(),
                self.wf(),
                ms == old(self).members@,
                self.members@ == members_resorted(ms, group_id, watch_ids@.take(i as int)),
                self.items@ == old(self).items@,
                self.groups@ == old(self).groups@,
                self.settings@ == old(self).settings@,
                self.last_watch_id == old(self).last_watch_id,
                self.last_group_id == old(self).last_group_id,
            decreases watch_ids@.len() - i,
        {
            let wid = watch_ids[i];
            let ghost before = self.members@;
            match self.member_index(group_id, wid) {
                Some(mi) => {
                    self.members.set(mi, Membership { group_id, watch_id: wid, sort_order: i as i32 });
                    proof {
                        assert forall|t: int| 0 <= t < ms.len()
                            implies self.members@[t] == members_resorted(ms, group_id, watch_ids@.take(i + 1))[t] by {
                            lemma_last_index_step(watch_ids@, i as int, ms[t].watch_id);
                            if t != mi as int && ms[t].group_id == group_id && ms[t].watch_id == wid {
                                assert(before[t].group_id == before[mi as int].group_id);
                                assert(before[t].watch_id == before[mi as int].watch_id);
                            }
                        }
                        assert(self.members@ =~= members_resorted(ms, group_id, watch_ids@.take(i + 1)));
                        assert forall|a: int, b: int| 0 <= a < self.members@.len() && 0 <= b < self.members@.len() && a != b
                            implies !((#[trigger] self.members@[a]).group_id == (#[trigger] self.members@[b]).group_id
                            && self.members@[a].watch_id == self.members@[b].watch_id) by {
                            assert(self.members@[a].group_id == before[a].group_id && self.members@[a].watch_id == before[a].watch_id);
                            assert(self.members@[b].group_id == before[b].group_id && self.members@[b].watch_id == before[b].watch_id);
                        }
                    }
                },
                None => {
                    proof {
                        assert forall|t: int| 0 <= t < ms.len()
                            implies self.members@[t] == members_resorted(ms, group_id, watch_ids@.take(i + 1))[t] by {
                            lemma_last_index_step(watch_ids@, i as int, ms[t].watch_id);
                            if ms[t].group_id == group_id && ms[t].watch_id == wid {
                                assert(before[t].group_id == group_id && before[t].watch_id == wid);
                            }
                        }
                        assert(self.members@ =~= members_resorted(ms, group_id, watch_ids@.take(i + 1)));
                    }
                },
            }
            i = i + 1;
        }
        proof {
            if old(self).placed() {
                super::lemma_placed_same_ids(*old(self), *self);
            }
        }
        proof {
            assert(watch_ids@.take(watch_ids@.len() as int) =~= watch_ids@);
        }
    }
}

} // verus!
