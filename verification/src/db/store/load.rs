use vstd::prelude::*;

use super::{
    clone_group_row, groups_wf, items_wf, keys_unique, members_wf, Database, DbError, GroupRow, Membership, WatchItem,
};

verus! {

impl Database {
    /// A store holding these rows: stocks in id order, group rows,
    /// memberships, settings, and the largest stock and group ids handed out
    /// so far. Rows that break the store's rules (an id out of order or past
    /// the last one handed out, a repeated (code, market), group id,
    /// membership or setting key) are refused.
    pub fn from_rows(
        items: Vec<WatchItem>,
        groups: Vec<GroupRow>,
        members: Vec<Membership>,
        settings: Vec<(String, String)>,
        last_watch_id: i64,
        last_group_id: i64,
    ) -> (r: Result<Database, DbError>)
        ensures
            r matches Ok(db) ==> {
                &&& db.wf()
                &&& db.items() == items@
                &&& db.group_rows() == groups@
                &&& db.memberships() == members@
                &&& db.settings() == settings@
                &&& db.last_watch_id() == last_watch_id
                &&& db.last_group_id() == last_group_id
            },
            r is Err ==> (r matches Err(DbError::ConstraintViolation)),
            (0 <= last_watch_id && 0 <= last_group_id && items_wf(items@, last_watch_id as int) && groups_wf(
                groups@,
                last_group_id as int,
            ) && members_wf(members@) && keys_unique(settings@)) ==> r is Ok,
    {
        if last_watch_id < 0 || last_group_id < 0 {
            return Err(DbError::ConstraintViolation);
        }
        // stocks: ids ascending and handed out, (code, market) distinct
        let mut i: usize = 0;
        while i < items.len()
            invariant
                0 <= i <= items@.len(),
                forall|a: int, b: int| 0 <= a < b < i ==> (#[trigger] items@[a]).id < (#[trigger] items@[b]).id,
                forall|a: int| 0 <= a < i ==> (#[trigger] items@[a]).id <= last_watch_id,
                forall|a: int, b: int| 0 <= a < i && 0 <= b < i && a != b ==> !((#[trigger] items@[a]).code@ == (#[trigger] items@[b]).code@
                    && items@[a].market@ == items@[b].market@),
            decreases items@.len() - i,
        {
            if items[i].id > last_watch_id || (i > 0 && items[i - 1].id >= items[i].id) {
                return Err(DbError::ConstraintViolation);
            }
            let mut j: usize = 0;
            while j < i
                invariant
                    0 <= j <= i < items@.len(),
                    forall|b: int| 0 <= b < j ==> !(items@[b].code@ == items@[i as int].code@ && items@[b].market@ == items@[i as int].market@),
                decreases i - j,
            {
                if items[j].code == items[i].code && items[j].market == items[i].market {
                    return Err(DbError::ConstraintViolation);
                }
                j = j + 1;
            }
            proof {
                assert forall|a: int, b: int| 0 <= a < b < i + 1 implies (#[trigger] items@[a]).id < (#[trigger] items@[b]).id by {
                    if b == i && a < i - 1 {
                        assert(items@[a].id < items@[i - 1].id);
                    }
                }
            }
            i = i + 1;
        }
        // groups: ids distinct and handed out
        let mut g: usize = 0;
        while g < groups.len()
            invariant
                0 <= g <= groups@.len(),
                forall|a: int, b: int| 0 <= a < g && 0 <= b < g && a != b ==> (#[trigger] groups@[a]).id != (#[trigger] groups@[b]).id,
                forall|a: int| 0 <= a < g ==> (#[trigger] groups@[a]).id <= last_group_id,
            decreases groups@.len() - g,
        {
            if groups[g].id > last_group_id {
                return Err(DbError::ConstraintViolation);
            }
            let mut j: usize = 0;
            while j < g
                invariant
                    0 <= j <= g < groups@.len(),
                    forall|b: int| 0 <= b < j ==> groups@[b].id != groups@[g as int].id,
                decreases g - j,
            {
                if groups[j].id == groups[g].id {
                    return Err(DbError::ConstraintViolation);
                }
                j = j + 1;
            }
            g = g + 1;
        }
        // memberships: (group, stock) distinct
        let mut m: usize = 0;
        while m < members.len()
            invariant
                0 <= m <= members@.len(),
                forall|a: int, b: int| 0 <= a < m && 0 <= b < m && a != b ==> !((#[trigger] members@[a]).group_id == (#[trigger] members@[b]).group_id
                    && members@[a].watch_id == members@[b].watch_id),
            decreases members@.len() - m,
        {
            let mut j: usize = 0;
            while j < m
                invariant
                    0 <= j <= m < members@.len(),
                    forall|b: int| 0 <= b < j ==> !(members@[b].group_id == members@[m as int].group_id && members@[b].watch_id == members@[m as int].watch_id),
                decreases m - j,
            {
                if members[j].group_id == members[m].group_id && members[j].watch_id == members[m].watch_id {
                    return Err(DbError::ConstraintViolation);
                }
                j = j + 1;
            }
            m = m + 1;
        }
        // settings: keys distinct
        let mut s: usize = 0;
        while s < settings.len()
            invariant
                0 <= s <= settings@.len(),
                forall|a: int, b: int| 0 <= a < s && 0 <= b < s && a != b ==> (#[trigger] settings@[a]).0@ != (#[trigger] settings@[b]).0@,
            decreases settings@.len() - s,
        {
            let mut j: usize = 0;
            while j < s
                invariant
                    0 <= j <= s < settings@.len(),
                    forall|b: int| 0 <= b < j ==> settings@[b].0@ != settings@[s as int].0@,
                decreases s - j,
            {
                if settings[j].0 == settings[s].0 {
                    return Err(DbError::ConstraintViolation);
                }
                j = j + 1;
            }
            s = s + 1;
        }
        Ok(Database { items, groups, members, settings, last_watch_id, last_group_id })
    }

    /// The stored group rows, in storage order.
    pub fn group_rows_vec(&self) -> (r: Vec<GroupRow>)
        ensures
            r@ == self.group_rows(),
    {
        let mut out: Vec<GroupRow> = Vec::new();
        let mut i: usize = 0;
        while i < self.groups.len()
            invariant
                0 <= i <= self.groups@.len(),
                out@ == self.groups@.take(i as int),
            decreases self.groups@.len() - i,
        {
            out.push(clone_group_row(&self.groups[i]));
            i = i + 1;
            proof {
                assert(out@ =~= self.groups@.take(i as int));
            }
        }
        proof {
            assert(self.groups@.take(self.groups@.len() as int) =~= self.groups@);
        }
        out
    }

    /// The stored memberships, in storage order.
    pub fn memberships_vec(&self) -> (r: Vec<Membership>)
        ensures
            r@ == self.memberships(),
    {
        let mut out: Vec<Membership> = Vec::new();
        let mut i: usize = 0;
        while i < self.members.len()
            invariant
                0 <= i <= self.members@.len(),
                out@ == self.members@.take(i as int),
            decreases self.members@.len() - i,
        {
            out.push(self.members[i]);
            i = i + 1;
            proof {
                assert(out@ =~= self.members@.take(i as int));
            }
        }
        proof {
            assert(self.members@.take(self.members@.len() as int) =~= self.members@);
        }
        out
    }

    /// The largest stock id and group id handed out so far.
    pub fn last_ids(&self) -> (r: (i64, i64))
        ensures
            r.0 == self.last_watch_id(),
            r.1 == self.last_group_id(),
    {
        (self.last_watch_id, self.last_group_id)
    }
}

} // verus!
