use vstd::prelude::*;

use super::reorder::{last_index, lemma_last_index_step};
use super::{clone_item, item_index_of, items_wf, max_ticker, Database, DbError, WatchItem};
use super::reorder::lemma_last_index_bounds;

verus! {

/// `it` with its ticker flag and position replaced.
pub open spec fn with_ticker(it: WatchItem, enabled: bool, order: i32) -> WatchItem {
    WatchItem {
        id: it.id,
        code: it.code,
        market: it.market,
        name: it.name,
        added_at: it.added_at,
        ticker_enabled: enabled,
        ticker_order: order,
    }
}

/// The pool after turning the ticker on (at position `order`) or off for
/// stock `id`; the position is kept when turning it off.
pub open spec fn ticker_set(items: Seq<WatchItem>, id: i64, enabled: bool, order: i32) -> Seq<WatchItem> {
    items.map_values(
        |it: WatchItem|
            if it.id == id {
                with_ticker(it, enabled, if enabled { order } else { it.ticker_order })
            } else {
                it
            },
    )
}

/// The pool after turning the ticker on or off for every stock of `ids`:
/// turned on, the stocks queue up from position `next` in list order (the
/// last listing counts); turned off, they keep their position.
pub open spec fn ticker_bulk(items: Seq<WatchItem>, ids: Seq<i64>, enabled: bool, next: int) -> Seq<WatchItem> {
    items.map_values(
        |it: WatchItem|
            match last_index(ids, it.id) {
                Some(k) => if enabled {
                    with_ticker(it, true, (next + k) as i32)
                } else {
                    with_ticker(it, false, it.ticker_order)
                },
                None => it,
            },
    )
}

/// The pool with the ticker positions of the stocks of `ids` rewritten to
/// their index in the list (the last listing counts).
pub open spec fn ticker_reordered(items: Seq<WatchItem>, ids: Seq<i64>) -> Seq<WatchItem> {
    items.map_values(
        |it: WatchItem|
            match last_index(ids, it.id) {
                Some(k) => with_ticker(it, it.ticker_enabled, k as i32),
                None => it,
            },
    )
}

/// No ticker position in the pool is above `max_ticker`.
pub proof fn lemma_max_ticker(items: Seq<WatchItem>)
    ensures
        forall|i: int| 0 <= i < items.len() ==> (#[trigger] items[i]).ticker_order <= max_ticker(items),
        items.len() == 0 ==> max_ticker(items) == -1,
        i32::MIN <= max_ticker(items) <= i32::MAX,
    decreases items.len(),
{
    if items.len() > 0 {
        lemma_max_ticker(items.drop_last());
        assert forall|i: int| 0 <= i < items.len() implies (#[trigger] items[i]).ticker_order <= max_ticker(items) by {
            if i < items.len() - 1 {
                assert(items.drop_last()[i] == items[i]);
            }
        }
    }
}

/// Turning the ticker on for a stock of the pool queues it behind every
/// other stock's position.
pub proof fn lemma_enabled_goes_last(items: Seq<WatchItem>, id: i64, k: int)
    requires
        max_ticker(items) < i32::MAX,
        0 <= k < items.len(),
        items[k].id == id,
    ensures
        ({
            let after = ticker_set(items, id, true, (max_ticker(items) + 1) as i32);
            &&& after[k].ticker_enabled
            &&& forall|j: int| 0 <= j < items.len() && items[j].id != id ==> (#[trigger] after[j]).ticker_order < after[k].ticker_order
        }),
{
    lemma_max_ticker(items);
}

/// Turning the ticker on for a list of stocks queues them behind every stock
/// left out, in list order.
pub proof fn lemma_bulk_enabled_in_list_order(items: Seq<WatchItem>, ids: Seq<i64>, a: int, b: int)
    requires
        max_ticker(items) + ids.len() <= i32::MAX,
        0 <= a < items.len(),
        0 <= b < items.len(),
        last_index(ids, items[a].id) matches Some(ka) && (last_index(ids, items[b].id) matches Some(kb) && ka < kb),
    ensures
        ({
            let after = ticker_bulk(items, ids, true, max_ticker(items) + 1);
            &&& after[a].ticker_enabled && after[b].ticker_enabled
            &&& after[a].ticker_order < after[b].ticker_order
        }),
{
    lemma_max_ticker(items);
    lemma_last_index_bounds(ids, items[a].id);
    lemma_last_index_bounds(ids, items[b].id);
}

/// A stock left out of a bulk switch-on stays behind the switched-on ones.
pub proof fn lemma_bulk_enabled_after_the_rest(items: Seq<WatchItem>, ids: Seq<i64>, a: int, b: int)
    requires
        max_ticker(items) + ids.len() <= i32::MAX,
        0 <= a < items.len(),
        0 <= b < items.len(),
        last_index(ids, items[a].id) is None,
        last_index(ids, items[b].id) is Some,
    ensures
        ({
            let after = ticker_bulk(items, ids, true, max_ticker(items) + 1);
            after[a].ticker_order < after[b].ticker_order
        }),
{
    lemma_max_ticker(items);
    lemma_last_index_bounds(ids, items[b].id);
}

impl Database {
    /// Replaces the ticker flag and position of the stock at `i`.
    pub(crate) fn set_ticker_at(&mut self, i: usize, enabled: bool, order: i32)
        requires
            old(self).wf(),
            i < old(self).items().len(),
        ensures
            final(self).wf(),
            final(self).items() == old(self).items().update(i as int, with_ticker(old(self).items()[i as int], enabled, order)),
            final(self).memberships() == old(self).memberships(),
            final(self).same_groups_settings(*old(self)),
            final(self).last_watch_id() == old(self).last_watch_id(),
    {
        let ghost before = self.items@;
        let it = clone_item(&self.items[i]);
        self.items.set(
            i,
            WatchItem {
                id: it.id,
                code: it.code,
                market: it.market,
                name: it.name,
                added_at: it.added_at,
                ticker_enabled: enabled,
                ticker_order: order,
            },
        );
        proof {
            assert forall|a: int| 0 <= a < self.items@.len() implies (#[trigger] self.items@[a]).id == before[a].id
                && self.items@[a].code@ == before[a].code@ && self.items@[a].market@ == before[a].market@ by {}
            assert(items_wf(self.items@, self.last_watch_id as int)) by {
                assert forall|a: int, b: int| 0 <= a < b < self.items@.len() implies (#[trigger] self.items@[a]).id < (#[trigger] self.items@[b]).id by {
                    assert(before[a].id < before[b].id);
                }
                assert forall|a: int, b: int| 0 <= a < self.items@.len() && 0 <= b < self.items@.len() && a != b
                    implies !((#[trigger] self.items@[a]).code@ == (#[trigger] self.items@[b]).code@ && self.items@[a].market@ == self.items@[b].market@) by {
                    assert(!(before[a].code@ == before[b].code@ && before[a].market@ == before[b].market@));
                }
            }
        }
    }

    /// Turns the ticker on for stock `id` (queued at the end of the rotation:
    /// one past the largest position in the pool) or off (position kept).
    pub fn set_watch_ticker_enabled(&mut self, id: i64, enabled: bool) -> (r: Result<(), DbError>)
        requires
            old(self).wf(),
        ensures
            final(self).wf(),
            old(self).placed() ==> final(self).placed(),
            final(self).memberships() == old(self).memberships(),
            final(self).same_groups_settings(*old(self)),
            final(self).last_watch_id() == old(self).last_watch_id(),
            (enabled && max_ticker(old(self).items()) >= i32::MAX) ==> (r matches Err(DbError::IntegralValueOutOfRange))
                && final(self).unchanged(*old(self)),
            !(enabled && max_ticker(old(self).items()) >= i32::MAX) ==> r is Ok && final(self).items() == ticker_set(
                old(self).items(),
                id,
                enabled,
                (max_ticker(old(self).items()) + 1) as i32,
            ),
    {
        let ghost items0 = self.items@;
        let mut order: i32 = 0;
        if enabled {
            let top = self.max_ticker_exec();
            if top >= 0x7fff_ffffi64 {
                return Err(DbError::IntegralValueOutOfRange);
            }
            order = (top + 1) as i32;
        }
        let ghost next = (max_ticker(items0) + 1) as i32;
        match self.item_index_by_id(id) {
            Some(i) => {
                let keep = self.items[i].ticker_order;
                self.set_ticker_at(i, enabled, if enabled { order } else { keep });
                proof {
                    assert forall|t: int| 0 <= t < items0.len() implies self.items@[t] == ticker_set(items0, id, enabled, next)[t] by {
                        if t != i as int {
                            assert(items0[t].id != items0[i as int].id) by {
                                if t < i { assert(items0[t].id < items0[i as int].id); } else { assert(items0[i as int].id < items0[t].id); }
                            }
                        }
                    }
                    assert(self.items@ =~= ticker_set(items0, id, enabled, next));
                }
            },
            None => {
                proof {
                    assert forall|t: int| 0 <= t < items0.len() implies self.items@[t] == ticker_set(items0, id, enabled, next)[t] by {
                        if items0[t].id == id {
                            assert(item_index_of(items0, id) is Some);
                        }
                    }
                    assert(self.items@ =~= ticker_set(items0, id, enabled, next));
                }
            },
        }
        Ok(())
    }

    /// Turns the ticker on or off for each stock of `ids`. Turned on, they
    /// queue up at the end of the rotation in list order.
    pub fn set_ticker_enabled_bulk(&mut self, ids: &[i64], enabled: bool) -> (r: Result<(), DbError>)
        requires
            old(self).wf(),
        ensures
            final(self).wf(),
            old(self).placed() ==> final(self).placed(),
            final(self).memberships() == old(self).memberships(),
            final(self).same_groups_settings(*old(self)),
            final(self).last_watch_id() == old(self).last_watch_id(),
            ({
                let next = max_ticker(old(self).items()) + 1;
                let over = enabled && (next > i32::MAX || (ids@.len() > 0 && next + ids@.len() > i32::MAX));
                &&& over ==> (r matches Err(DbError::IntegralValueOutOfRange)) && final(self).unchanged(*old(self))
                &&& !over ==> r is Ok && final(self).items() == ticker_bulk(old(self).items(), ids@, enabled, next)
            }),
    {
        let ghost items0 = self.items@;
        let ghost next0 = max_ticker(items0) + 1;
        let mut next: i64 = 0;
        if enabled {
            let top = self.max_ticker_exec();
            if top >= 0x7fff_ffffi64 {
                return Err(DbError::IntegralValueOutOfRange);
            }
            next = top + 1;
            let room: i64 = 0x7fff_ffffi64 - next;
            if ids.len() > 0 && ids.len() > room as usize {
                return Err(DbError::IntegralValueOutOfRange);
            }
        }
        let mut k: usize = 0;
        proof {
            assert(ticker_bulk(items0, ids@.take(0), enabled, next0) =~= items0);
        }
        while k < ids.len()
            invariant
                0 <= k <= ids@.len(),
                self.wf(),
                items0 == old(self).items@,
                next0 == max_ticker(items0) + 1,
                enabled ==> next == next0 && i32::MIN < next <= i32::MAX && (ids@.len() > 0 ==> next + ids@.len() <= i32::MAX),
                self.items@ == ticker_bulk(items0, ids@.take(k as int), enabled, next0),
                self.members@ == old(self).members@,
                self.groups@ == old(self).groups@,
                self.settings@ == old(self).settings@,
                self.last_watch_id == old(self).last_watch_id,
                self.last_group_id == old(self).last_group_id,
            decreases ids@.len() - k,
        {
            let id = ids[k];
            let ghost before = self.items@;
            match self.item_index_by_id(id) {
                Some(i) => {
                    let keep = self.items[i].ticker_order;
                    let pos: i32 = if enabled { (next + k as i64) as i32 } else { keep };
                    self.set_ticker_at(i, enabled, pos);
                    proof {
                        assert forall|t: int| 0 <= t < items0.len()
                            implies self.items@[t] == ticker_bulk(items0, ids@.take(k + 1), enabled, next0)[t] by {
                            lemma_last_index_step(ids@, k as int, items0[t].id);
                            if t != i as int {
                                assert(before[t].id != before[i as int].id) by {
                                    if t < i { assert(before[t].id < before[i as int].id); } else { assert(before[i as int].id < before[t].id); }
                                }
                            }
                        }
                        assert(self.items@ =~= ticker_bulk(items0, ids@.take(k + 1), enabled, next0));
                    }
                },
                None => {
                    proof {
                        assert forall|t: int| 0 <= t < items0.len()
                            implies self.items@[t] == ticker_bulk(items0, ids@.take(k + 1), enabled, next0)[t] by {
                            lemma_last_index_step(ids@, k as int, items0[t].id);
                            if items0[t].id == id {
                                assert(before[t].id == id);
                                assert(item_index_of(before, id) is Some);
                            }
                        }
                        assert(self.items@ =~= ticker_bulk(items0, ids@.take(k + 1), enabled, next0));
                    }
                },
            }
            k = k + 1;
        }
        proof {
            assert(ids@.take(ids@.len() as int) =~= ids@);
        }
        Ok(())
    }

    /// Gives the stocks of `ids` their index in the list as ticker position.
    pub fn reorder_ticker(&mut self, ids: &[i64])
        requires
            old(self).wf(),
        ensures
            final(self).wf(),
            old(self).placed() ==> final(self).placed(),
            final(self).items() == ticker_reordered(old(self).items(), ids@),
            final(self).memberships() == old(self).memberships(),
            final(self).same_groups_settings(*old(self)),
            final(self).last_watch_id() == old(self).last_watch_id(),
    {
        let ghost items0 = self.items@;
        let mut k: usize = 0;
        proof {
            assert(ticker_reordered(items0, ids@.take(0)) =~= items0);
        }
        while k < ids.len()
            invariant
                0 <= k <= ids@.len(),
                self.wf(),
                items0 == old(self).items@,
                self.items@ == ticker_reordered(items0, ids@.take(k as int)),
                self.members@ == old(self).members@,
                self.groups@ == old(self).groups@,
                self.settings@ == old(self).settings@,
                self.last_watch_id == old(self).last_watch_id,
                self.last_group_id == old(self).last_group_id,
            decreases ids@.len() - k,
        {
            let id = ids[k];
            let ghost before = self.items@;
            match self.item_index_by_id(id) {
                Some(i) => {
                    let en = self.items[i].ticker_enabled;
                    self.set_ticker_at(i, en, k as i32);
                    proof {
                        assert forall|t: int| 0 <= t < items0.len()
                            implies self.items@[t] == ticker_reordered(items0, ids@.take(k + 1))[t] by {
                            lemma_last_index_step(ids@, k as int, items0[t].id);
                            if t != i as int {
                                assert(before[t].id != before[i as int].id) by {
                                    if t < i { assert(before[t].id < before[i as int].id); } else { assert(before[i as int].id < before[t].id); }
                                }
                            }
                        }
                        assert(self.items@ =~= ticker_reordered(items0, ids@.take(k + 1)));
                    }
                },
                None => {
                    proof {
                        assert forall|t: int| 0 <= t < items0.len()
                            implies self.items@[t] == ticker_reordered(items0, ids@.take(k + 1))[t] by {
                            lemma_last_index_step(ids@, k as int, items0[t].id);
                            if items0[t].id == id {
                                assert(before[t].id == id);
                                assert(item_index_of(before, id) is Some);
                            }
                        }
                        assert(self.items@ =~= ticker_reordered(items0, ids@.take(k + 1)));
                    }
                },
            }
            k = k + 1;
        }
        proof {
            assert(ids@.take(ids@.len() as int) =~= ids@);
        }
    }
}

} // verus!
