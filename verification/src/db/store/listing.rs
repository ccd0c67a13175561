use vstd::prelude::*;

use super::groups::{row_has, row_index_of};
use super::{clone_item, group_key_set, Database, GroupRow, WatchGroup, WatchItem, WatchlistSnapshot};

verus! {

/// `g` shows row `row` (members aside).
pub open spec fn shows_row(g: WatchGroup, row: GroupRow) -> bool {
    &&& g.id == row.id
    &&& g.name@ == row.name@
    &&& g.sort_order == row.sort_order
    &&& g.created_at@ == row.created_at@
}

/// `gs` lists the groups of `db` in display order.
pub open spec fn lists_groups(gs: Seq<WatchGroup>, db: Database) -> bool {
    &&& gs.len() == db.group_order().len()
    &&& forall|k: int| 0 <= k < gs.len() ==> {
        &&& (#[trigger] gs[k]).id == db.group_order()[k]
        &&& row_index_of(db.group_rows(), gs[k].id) matches Some(i) && shows_row(gs[k], db.group_rows()[i])
    }
}

impl Database {
    /// The stock pool, in id order (the order stocks were added).
    pub fn get_watchlist(&self) -> (r: Vec<WatchItem>)
        ensures
            r@ == self.items(),
    {
        let mut out: Vec<WatchItem> = Vec::new();
        let mut i: usize = 0;
        while i < self.items.len()
            invariant
                0 <= i <= self.items@.len(),
                out@ == self.items@.take(i as int),
            decreases self.items@.len() - i,
        {
            out.push(clone_item(&self.items[i]));
            i = i + 1;
            proof {
                assert(out@ =~= self.items@.take(i as int));
            }
        }
        proof {
            assert(self.items@.take(self.items@.len() as int) =~= self.items@);
        }
        out
    }

    /// (code, market) of every stock in the pool, in id order.
    pub fn get_watch_codes(&self) -> (r: Vec<(String, String)>)
        ensures
            r@.len() == self.items().len(),
            forall|i: int| 0 <= i < r@.len() ==> (#[trigger] r@[i]).0@ == self.items()[i].code@ && r@[i].1@ == self.items()[i].market@,
    {
        let mut out: Vec<(String, String)> = Vec::new();
        let mut i: usize = 0;
        while i < self.items.len()
            invariant
                0 <= i <= self.items@.len(),
                out@.len() == i,
                forall|t: int| 0 <= t < i ==> (#[trigger] out@[t]).0@ == self.items@[t].code@ && out@[t].1@ == self.items@[t].market@,
            decreases self.items@.len() - i,
        {
            out.push((self.items[i].code.clone(), self.items[i].market.clone()));
            i = i + 1;
        }
        out
    }

    /// The groups in display order, without their members.
    pub fn get_watch_groups(&self) -> (r: Vec<WatchGroup>)
        requires
            self.wf(),
        ensures
            lists_groups(r@, *self),
            forall|k: int| 0 <= k < r@.len() ==> (#[trigger] r@[k]).watch_ids@.len() == 0,
    {
        let keys = self.sorted_group_keys();
        let mut out: Vec<WatchGroup> = Vec::new();
        let mut k: usize = 0;
        while k < keys.len()
            invariant
                self.wf(),
                0 <= k <= keys@.len(),
                keys@ == crate::db::order::sorted_keys(group_key_set(self.group_rows())),
                crate::db::order::lists_sorted(keys@, group_key_set(self.group_rows())),
                super::ids_of(keys@) == self.group_order(),
                out@.len() == k,
                forall|t: int| 0 <= t < k ==> {
                    &&& (#[trigger] out@[t]).id == self.group_order()[t]
                    &&& row_index_of(self.group_rows(), out@[t].id) matches Some(i) && shows_row(out@[t], self.group_rows()[i])
                    &&& out@[t].watch_ids@.len() == 0
                },
            decreases keys@.len() - k,
        {
            let id = keys[k].1;
            proof {
                assert(keys@.contains(keys@[k as int]));
                assert(group_key_set(self.group_rows()).contains(keys@[k as int]));
                let i = choose|i: int| 0 <= i < self.group_rows().len() && (#[trigger] self.group_rows()[i]).sort_order == keys@[k as int].0
                    && self.group_rows()[i].id == keys@[k as int].1;
                assert(row_has(self.group_rows(), id));
                assert(super::ids_of(keys@)[k as int] == id);
            }
            match self.group_index(id) {
                Some(gi) => {
                    let row = &self.groups[gi];
                    out.push(WatchGroup {
                        id: row.id,
                        name: row.name.clone(),
                        sort_order: row.sort_order,
                        created_at: row.created_at.clone(),
                        watch_ids: Vec::new(),
                    });
                },
                None => {},
            }
            k = k + 1;
        }
        out
    }

    /// Pool, groups in display order with their members in group order, and
    /// the default group (0 when there is no group).
    pub fn get_watchlist_snapshot(&self) -> (r: WatchlistSnapshot)
        requires
            self.wf(),
        ensures
            r.items@ == self.items(),
            lists_groups(r.groups@, *self),
            forall|k: int| 0 <= k < r.groups@.len() ==> (#[trigger] r.groups@[k]).watch_ids@ == self.member_order(r.groups@[k].id),
            r.default_group_id == match self.default_group() {
                Some(g) => g,
                None => 0,
            },
    {
        let items = self.get_watchlist();
        let groups = self.get_watch_groups();
        let mut out: Vec<WatchGroup> = Vec::new();
        let mut k: usize = 0;
        while k < groups.len()
            invariant
                0 <= k <= groups@.len(),
                lists_groups(groups@, *self),
                out@.len() == k,
                forall|t: int| 0 <= t < k ==> {
                    &&& (#[trigger] out@[t]).id == groups@[t].id
                    &&& out@[t].name@ == groups@[t].name@
                    &&& out@[t].sort_order == groups@[t].sort_order
                    &&& out@[t].created_at@ == groups@[t].created_at@
                    &&& out@[t].watch_ids@ == self.member_order(groups@[t].id)
                },
            decreases groups@.len() - k,
        {
            let g = &groups[k];
            let ids = self.group_member_ids(g.id);
            out.push(WatchGroup {
                id: g.id,
                name: g.name.clone(),
                sort_order: g.sort_order,
                created_at: g.created_at.clone(),
                watch_ids: ids,
            });
            k = k + 1;
        }
        proof {
            assert forall|t: int| 0 <= t < out@.len() implies {
                &&& (#[trigger] out@[t]).id == self.group_order()[t]
                &&& row_index_of(self.group_rows(), out@[t].id) matches Some(i) && shows_row(out@[t], self.group_rows()[i])
            } by {
                assert(groups@[t].id == self.group_order()[t]);
            }
        }
        let default_group_id = match self.default_group_id() {
            Some(g) => g,
            None => 0,
        };
        WatchlistSnapshot { items, groups: out, default_group_id }
    }
}

} // verus!
