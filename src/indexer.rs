use crate::state::{Op, TableChange, compare_bytes};
use crate::store::StateChangeSet;
use crate::view::{change_model, duplicate_change};
use vstd::prelude::*;

verus! {

/// A row of the global states: one object, keyed by its id.
#[derive(Clone, Debug)]
pub struct IndexerGlobalState {
    pub object_id: u64,
    pub owner: Vec<u8>,
    pub flag: u8,
    pub value: Vec<u8>,
    pub object_type: Vec<u8>,
    pub state_root: Vec<u8>,
    pub size: u64,
    pub tx_order: u64,
    pub state_index: u64,
    pub created_at: u64,
    pub updated_at: u64,
}

/// A row of the table change sets, keyed by (tx_order, state_index).
#[derive(Clone, Debug)]
pub struct IndexerTableChangeSet {
    pub tx_order: u64,
    pub state_index: u64,
    pub table_handle: u64,
    pub table_change: TableChange,
    pub created_at: u64,
}

/// A committed transaction's whole diff, as the indexer hands it out.
#[derive(Debug)]
pub struct IndexerStateChangeSet {
    pub tx_order: u64,
    pub state_change_set: StateChangeSet,
    pub created_at: u64,
}

/// Why the projection refused a row.
#[derive(Clone, Copy, Debug, PartialEq, Eq, Structural)]
pub enum IndexerError {
    OutOfOrderDelivery,
}

/// A selection over global-state rows: an equality on each named field.
#[derive(Clone, Debug)]
pub enum GlobalStateFilter {
    ObjectTypeWithOwner { object_type: Vec<u8>, owner: Vec<u8> },
    ObjectType(Vec<u8>),
    Owner(Vec<u8>),
    ObjectId(u64),
}

/// A selection over table-state rows.
#[derive(Clone, Copy, Debug, PartialEq, Eq, Structural)]
pub enum TableStateFilter {
    TableHandle(u64),
}

/// A selection of table change sets to synchronise.
#[derive(Clone, Copy, Debug, PartialEq, Eq, Structural)]
pub enum StateSyncFilter {
    TableHandle(u64),
}

pub open spec fn global_filter_matches(f: GlobalStateFilter, row: IndexerGlobalState) -> bool {
    match f {
        GlobalStateFilter::ObjectTypeWithOwner { object_type, owner } => row.object_type@ == object_type@
            && row.owner@ == owner@,
        GlobalStateFilter::ObjectType(t) => row.object_type@ == t@,
        GlobalStateFilter::Owner(o) => row.owner@ == o@,
        GlobalStateFilter::ObjectId(id) => row.object_id == id,
    }
}

pub open spec fn sync_filter_matches(f: StateSyncFilter, row: IndexerTableChangeSet) -> bool {
    match f {
        StateSyncFilter::TableHandle(h) => row.table_handle == h,
    }
}

impl GlobalStateFilter {
    pub fn matches(&self, row: &IndexerGlobalState) -> (r: bool)
        ensures
            r == global_filter_matches(*self, *row),
    {
        match self {
            GlobalStateFilter::ObjectTypeWithOwner { object_type, owner } => compare_bytes(&row.object_type, object_type)
                == 0 && compare_bytes(&row.owner, owner) == 0,
            GlobalStateFilter::ObjectType(t) => compare_bytes(&row.object_type, t) == 0,
            GlobalStateFilter::Owner(o) => compare_bytes(&row.owner, o) == 0,
            GlobalStateFilter::ObjectId(id) => row.object_id == *id,
        }
    }
}

impl StateSyncFilter {
    pub fn matches(&self, row: &IndexerTableChangeSet) -> (r: bool)
        ensures
            r == sync_filter_matches(*self, *row),
    {
        match self {
            StateSyncFilter::TableHandle(h) => row.table_handle == *h,
        }
    }
}

pub open spec fn has_object(s: Seq<IndexerGlobalState>, id: u64) -> bool {
    exists|i: int| 0 <= i < s.len() && #[trigger] s[i].object_id == id
}

pub open spec fn unique_objects(s: Seq<IndexerGlobalState>) -> bool {
    forall|i: int, j: int|
        0 <= i < s.len() && 0 <= j < s.len() && i != j ==> #[trigger] s[i].object_id != #[trigger] s[j].object_id
}

pub open spec fn object_pos(s: Seq<IndexerGlobalState>, id: u64) -> int {
    choose|i: int| 0 <= i < s.len() && #[trigger] s[i].object_id == id
}

pub open spec fn objects_of(s: Seq<IndexerGlobalState>) -> Map<u64, IndexerGlobalState> {
    Map::new(|id: u64| has_object(s, id), |id: u64| s[object_pos(s, id)])
}

pub open spec fn has_change_set(s: Seq<IndexerTableChangeSet>, k: (u64, u64)) -> bool {
    exists|i: int| 0 <= i < s.len() && (#[trigger] s[i].tx_order, s[i].state_index) == k
}

pub open spec fn unique_change_sets(s: Seq<IndexerTableChangeSet>) -> bool {
    forall|i: int, j: int|
        0 <= i < s.len() && 0 <= j < s.len() && i != j ==> (#[trigger] s[i].tx_order, s[i].state_index) != (
        #[trigger] s[j].tx_order,
        s[j].state_index,
    )
}

pub open spec fn change_set_pos(s: Seq<IndexerTableChangeSet>, k: (u64, u64)) -> int {
    choose|i: int| 0 <= i < s.len() && (#[trigger] s[i].tx_order, s[i].state_index) == k
}

pub open spec fn change_sets_of(s: Seq<IndexerTableChangeSet>) -> Map<(u64, u64), IndexerTableChangeSet> {
    Map::new(|k: (u64, u64)| has_change_set(s, k), |k: (u64, u64)| s[change_set_pos(s, k)])
}

pub proof fn lemma_object_pos(s: Seq<IndexerGlobalState>, j: int)
    requires
        unique_objects(s),
        0 <= j < s.len(),
    ensures
        has_object(s, s[j].object_id),
        object_pos(s, s[j].object_id) == j,
{
    assert(s[j].object_id == s[j].object_id);
    let p = object_pos(s, s[j].object_id);
    assert(0 <= p < s.len() && s[p].object_id == s[j].object_id);
}

pub proof fn lemma_change_set_pos(s: Seq<IndexerTableChangeSet>, j: int)
    requires
        unique_change_sets(s),
        0 <= j < s.len(),
    ensures
        has_change_set(s, (s[j].tx_order, s[j].state_index)),
        change_set_pos(s, (s[j].tx_order, s[j].state_index)) == j,
{
    let k = (s[j].tx_order, s[j].state_index);
    assert((s[j].tx_order, s[j].state_index) == k);
    let p = change_set_pos(s, k);
    assert(0 <= p < s.len() && (s[p].tx_order, s[p].state_index) == k);
}

pub fn find_object(s: &Vec<IndexerGlobalState>, id: u64) -> (r: Option<usize>)
    ensures
        r.is_none() <==> !has_object(s@, id),
        r.is_some() ==> r.unwrap() < s@.len() && s@[r.unwrap() as int].object_id == id,
{
    let mut i: usize = 0;
    while i < s.len()
        invariant
            i <= s@.len(),
            forall|j: int| 0 <= j < i ==> #[trigger] s@[j].object_id != id,
        decreases s@.len() - i,
    {
        if s[i].object_id == id {
            return Some(i);
        }
        i = i + 1;
    }
    None
}

pub fn find_change_set(s: &Vec<IndexerTableChangeSet>, tx_order: u64, state_index: u64) -> (r: Option<usize>)
    ensures
        r.is_none() <==> !has_change_set(s@, (tx_order, state_index)),
        r.is_some() ==> r.unwrap() < s@.len() && (s@[r.unwrap() as int].tx_order, s@[r.unwrap() as int].state_index) == (
        tx_order,
        state_index,
    ),
{
    let mut i: usize = 0;
    while i < s.len()
        invariant
            i <= s@.len(),
            forall|j: int| 0 <= j < i ==> (#[trigger] s@[j].tx_order, s@[j].state_index) != (tx_order, state_index),
        decreases s@.len() - i,
    {
        if s[i].tx_order == tx_order && s[i].state_index == state_index {
            return Some(i);
        }
        i = i + 1;
    }
    None
}

/// `row` is the change-set row written for the `state_index`-th change of a transaction.
pub open spec fn row_written(
    row: IndexerTableChangeSet,
    tx_order: u64,
    state_index: u64,
    table_handle: u64,
    change: TableChange,
    created_at: u64,
) -> bool {
    &&& row.tx_order == tx_order
    &&& row.state_index == state_index
    &&& row.table_handle == table_handle
    &&& change_model(row.table_change) == change_model(change)
    &&& row.created_at == created_at
}

/// The persisted content of a change-set row.
pub open spec fn row_content(row: IndexerTableChangeSet) -> (
    u64,
    u64,
    u64,
    (Seq<((Seq<u8>, Seq<u8>), Op<(Seq<u8>, Seq<u8>)>)>, int),
    u64,
) {
    (row.tx_order, row.state_index, row.table_handle, change_model(row.table_change), row.created_at)
}

/// The durable rows that committed transactions have been projected into.
pub struct Projection {
    global_states: Vec<IndexerGlobalState>,
    table_change_sets: Vec<IndexerTableChangeSet>,
    last_tx_order: u64,
}

impl Projection {
    pub closed spec fn global_states(&self) -> Map<u64, IndexerGlobalState> {
        objects_of(self.global_states@)
    }

    pub closed spec fn change_sets(&self) -> Map<(u64, u64), IndexerTableChangeSet> {
        change_sets_of(self.table_change_sets@)
    }

    /// The highest transaction order applied so far.
    pub closed spec fn high_water(&self) -> u64 {
        self.last_tx_order
    }

    pub closed spec fn wf(&self) -> bool {
        &&& unique_objects(self.global_states@)
        &&& unique_change_sets(self.table_change_sets@)
    }

    pub fn new() -> (r: Projection)
        ensures
            r.wf(),
            r.global_states() == Map::<u64, IndexerGlobalState>::empty(),
            r.change_sets() == Map::<(u64, u64), IndexerTableChangeSet>::empty(),
            r.high_water() == 0,
    {
        let r = Projection { global_states: Vec::new(), table_change_sets: Vec::new(), last_tx_order: 0 };
        assert(objects_of(r.global_states@) =~= Map::empty());
        assert(change_sets_of(r.table_change_sets@) =~= Map::empty());
        r
    }

    /// The persisted row for object `id`, if any.
    pub fn get_global_state(&self, id: u64) -> (r: Option<&IndexerGlobalState>)
        requires
            self.wf(),
        ensures
            r.is_some() == self.global_states().contains_key(id),
            r.is_some() ==> *r.unwrap() == self.global_states()[id],
    {
        match find_object(&self.global_states, id) {
            Some(i) => {
                proof {
                    lemma_object_pos(self.global_states@, i as int);
                }
                Some(&self.global_states[i])
            },
            None => None,
        }
    }

    /// The persisted change set under (tx_order, state_index), if any.
    pub fn get_table_change_set(&self, tx_order: u64, state_index: u64) -> (r: Option<&IndexerTableChangeSet>)
        requires
            self.wf(),
        ensures
            r.is_some() == self.change_sets().contains_key((tx_order, state_index)),
            r.is_some() ==> *r.unwrap() == self.change_sets()[(tx_order, state_index)],
    {
        match find_change_set(&self.table_change_sets, tx_order, state_index) {
            Some(i) => {
                proof {
                    lemma_change_set_pos(self.table_change_sets@, i as int);
                }
                Some(&self.table_change_sets[i])
            },
            None => None,
        }
    }

    pub fn high_water_mark(&self) -> (r: u64)
        ensures
            r == self.high_water(),
    {
        self.last_tx_order
    }

    /// Upserts a global-state row by its object id; a row older than the last applied
    /// transaction is refused and nothing changes.
    pub fn apply_global_state(&mut self, row: IndexerGlobalState) -> (r: Result<(), IndexerError>)
        requires
            old(self).wf(),
        ensures
            final(self).wf(),
            row.tx_order < old(self).high_water() ==> r == Err::<(), IndexerError>(IndexerError::OutOfOrderDelivery)
                && *final(self) == *old(self),
            row.tx_order >= old(self).high_water() ==> r == Ok::<(), IndexerError>(())
                && final(self).global_states() == old(self).global_states().insert(row.object_id, row)
                && final(self).change_sets() == old(self).change_sets()
                && final(self).high_water() == row.tx_order,
    {
        if row.tx_order < self.last_tx_order {
            return Err(IndexerError::OutOfOrderDelivery);
        }
        self.last_tx_order = row.tx_order;
        let ghost s = self.global_states@;
        let ghost id = row.object_id;
        if let Some(i) = find_object(&self.global_states, row.object_id) {
            self.global_states.set(i, row);
            proof {
                let t = self.global_states@;
                lemma_object_pos(s, i as int);
                assert forall|a: int, b: int|
                    0 <= a < t.len() && 0 <= b < t.len() && a != b implies #[trigger] t[a].object_id != #[trigger] t[b].object_id by {
                    if a != i && b != i {
                        assert(t[a] == s[a] && t[b] == s[b]);
                    } else if a == i {
                        assert(t[b] == s[b]);
                    } else {
                        assert(t[a] == s[a]);
                    }
                }
                assert forall|k: u64| has_object(t, k) <==> has_object(s, k) by {
                    if has_object(t, k) {
                        let a = choose|a: int| 0 <= a < t.len() && #[trigger] t[a].object_id == k;
                        if a != i {
                            assert(t[a] == s[a]);
                        }
                    }
                    if has_object(s, k) {
                        let a = choose|a: int| 0 <= a < s.len() && #[trigger] s[a].object_id == k;
                        if a != i {
                            assert(t[a] == s[a]);
                        }
                    }
                }
                assert forall|k: u64| #[trigger] has_object(t, k) implies objects_of(t)[k] == objects_of(s).insert(id, row)[k] by {
                    let a = choose|a: int| 0 <= a < t.len() && #[trigger] t[a].object_id == k;
                    lemma_object_pos(t, a);
                    if a != i {
                        assert(t[a] == s[a]);
                        lemma_object_pos(s, a);
                    }
                }
                assert(objects_of(t) =~= objects_of(s).insert(id, row));
            }
        } else {
            self.global_states.push(row);
            proof {
                let t = self.global_states@;
                assert forall|a: int, b: int|
                    0 <= a < t.len() && 0 <= b < t.len() && a != b implies #[trigger] t[a].object_id != #[trigger] t[b].object_id by {
                    if a < s.len() && b < s.len() {
                        assert(t[a] == s[a] && t[b] == s[b]);
                    } else if a < s.len() {
                        assert(t[a] == s[a]);
                    } else {
                        assert(t[b] == s[b]);
                    }
                }
                assert forall|k: u64| has_object(t, k) <==> (has_object(s, k) || k == id) by {
                    if has_object(t, k) {
                        let a = choose|a: int| 0 <= a < t.len() && #[trigger] t[a].object_id == k;
                        if a < s.len() {
                            assert(t[a] == s[a]);
                        }
                    }
                    if has_object(s, k) {
                        let a = choose|a: int| 0 <= a < s.len() && #[trigger] s[a].object_id == k;
                        assert(t[a] == s[a]);
                    }
                    if k == id {
                        assert(t[s.len() as int].object_id == id);
                    }
                }
                assert forall|k: u64| #[trigger] has_object(t, k) implies objects_of(t)[k] == objects_of(s).insert(id, row)[k] by {
                    let a = choose|a: int| 0 <= a < t.len() && #[trigger] t[a].object_id == k;
                    lemma_object_pos(t, a);
                    if a < s.len() {
                        assert(t[a] == s[a]);
                        lemma_object_pos(s, a);
                    }
                }
                assert(objects_of(t) =~= objects_of(s).insert(id, row));
            }
        }
        Ok(())
    }

    /// Upserts a table change set by (tx_order, state_index); a row older than the
    /// last applied transaction is refused and nothing changes.
    pub fn apply_table_change_set(&mut self, row: IndexerTableChangeSet) -> (r: Result<(), IndexerError>)
        requires
            old(self).wf(),
        ensures
            final(self).wf(),
            row.tx_order < old(self).high_water() ==> r == Err::<(), IndexerError>(IndexerError::OutOfOrderDelivery)
                && *final(self) == *old(self),
            row.tx_order >= old(self).high_water() ==> r == Ok::<(), IndexerError>(())
                && final(self).change_sets() == old(self).change_sets().insert((row.tx_order, row.state_index), row)
                && final(self).global_states() == old(self).global_states()
                && final(self).high_water() == row.tx_order,
    {
        if row.tx_order < self.last_tx_order {
            return Err(IndexerError::OutOfOrderDelivery);
        }
        self.last_tx_order = row.tx_order;
        let ghost s = self.table_change_sets@;
        let ghost key = (row.tx_order, row.state_index);
        if let Some(i) = find_change_set(&self.table_change_sets, row.tx_order, row.state_index) {
            self.table_change_sets.set(i, row);
            proof {
                let t = self.table_change_sets@;
                lemma_change_set_pos(s, i as int);
                assert forall|a: int, b: int|
                    0 <= a < t.len() && 0 <= b < t.len() && a != b implies (#[trigger] t[a].tx_order, t[a].state_index) != (
                    #[trigger] t[b].tx_order,
                    t[b].state_index,
                ) by {
                    if a != i && b != i {
                        assert(t[a] == s[a] && t[b] == s[b]);
                    } else if a == i {
                        assert(t[b] == s[b]);
                    } else {
                        assert(t[a] == s[a]);
                    }
                }
                assert forall|k: (u64, u64)| has_change_set(t, k) <==> has_change_set(s, k) by {
                    if has_change_set(t, k) {
                        let a = choose|a: int| 0 <= a < t.len() && (#[trigger] t[a].tx_order, t[a].state_index) == k;
                        if a != i {
                            assert(t[a] == s[a]);
                        }
                    }
                    if has_change_set(s, k) {
                        let a = choose|a: int| 0 <= a < s.len() && (#[trigger] s[a].tx_order, s[a].state_index) == k;
                        if a != i {
                            assert(t[a] == s[a]);
                        }
                    }
                }
                assert forall|k: (u64, u64)| #[trigger] has_change_set(t, k) implies change_sets_of(t)[k]
                    == change_sets_of(s).insert(key, row)[k] by {
                    let a = choose|a: int| 0 <= a < t.len() && (#[trigger] t[a].tx_order, t[a].state_index) == k;
                    lemma_change_set_pos(t, a);
                    if a != i {
                        assert(t[a] == s[a]);
                        lemma_change_set_pos(s, a);
                    }
                }
                assert(change_sets_of(t) =~= change_sets_of(s).insert(key, row));
            }
        } else {
            self.table_change_sets.push(row);
            proof {
                let t = self.table_change_sets@;
                assert forall|a: int, b: int|
                    0 <= a < t.len() && 0 <= b < t.len() && a != b implies (#[trigger] t[a].tx_order, t[a].state_index) != (
                    #[trigger] t[b].tx_order,
                    t[b].state_index,
                ) by {
                    if a < s.len() && b < s.len() {
                        assert(t[a] == s[a] && t[b] == s[b]);
                    } else if a < s.len() {
                        assert(t[a] == s[a]);
                    } else {
                        assert(t[b] == s[b]);
                    }
                }
                assert forall|k: (u64, u64)| has_change_set(t, k) <==> (has_change_set(s, k) || k == key) by {
                    if has_change_set(t, k) {
                        let a = choose|a: int| 0 <= a < t.len() && (#[trigger] t[a].tx_order, t[a].state_index) == k;
                        if a < s.len() {
                            assert(t[a] == s[a]);
                        }
                    }
                    if has_change_set(s, k) {
                        let a = choose|a: int| 0 <= a < s.len() && (#[trigger] s[a].tx_order, s[a].state_index) == k;
                        assert(t[a] == s[a]);
                    }
                    if k == key {
                        let n = s.len() as int;
                        assert((t[n].tx_order, t[n].state_index) == key);
                    }
                }
                assert forall|k: (u64, u64)| #[trigger] has_change_set(t, k) implies change_sets_of(t)[k]
                    == change_sets_of(s).insert(key, row)[k] by {
                    let a = choose|a: int| 0 <= a < t.len() && (#[trigger] t[a].tx_order, t[a].state_index) == k;
                    lemma_change_set_pos(t, a);
                    if a < s.len() {
                        assert(t[a] == s[a]);
                        lemma_change_set_pos(s, a);
                    }
                }
                assert(change_sets_of(t) =~= change_sets_of(s).insert(key, row));
            }
        }
        Ok(())
    }

    /// The ids of the global-state rows that `filter` selects, by ascending tx_order.
    pub fn query_global_states(&self, filter: &GlobalStateFilter) -> (r: Vec<u64>)
        requires
            self.wf(),
        ensures
            r@.no_duplicates(),
            forall|j: int| 0 <= j < r@.len() ==> self.global_states().contains_key(#[trigger] r@[j])
                && global_filter_matches(*filter, self.global_states()[r@[j]]),
            forall|id: u64| #[trigger] self.global_states().contains_key(id)
                && global_filter_matches(*filter, self.global_states()[id]) ==> r@.contains(id),
            forall|a: int, b: int| 0 <= a < b < r@.len() ==> self.global_states()[#[trigger] r@[a]].tx_order
                <= self.global_states()[#[trigger] r@[b]].tx_order,
    {
        let ghost rows = self.global_states@;
        let mut out: Vec<u64> = Vec::new();
        let mut orders: Vec<u64> = Vec::new();
        let ghost mut idx: Seq<int> = Seq::empty();
        let mut i: usize = 0;
        while i < self.global_states.len()
            invariant
                rows == self.global_states@,
                unique_objects(rows),
                i <= rows.len(),
                out@.len() == idx.len() && orders@.len() == idx.len(),
                forall|j: int| 0 <= j < idx.len() ==> 0 <= #[trigger] idx[j] < i && out@[j] == rows[idx[j]].object_id
                    && orders@[j] == rows[idx[j]].tx_order && global_filter_matches(*filter, rows[idx[j]]),
                forall|a: int, b: int| 0 <= a < b < idx.len() ==> #[trigger] orders@[a] <= #[trigger] orders@[b],
                forall|a: int, b: int| 0 <= a < idx.len() && 0 <= b < idx.len() && a != b ==> #[trigger] idx[a] != #[trigger] idx[b],
                forall|t: int| 0 <= t < i && #[trigger] global_filter_matches(*filter, rows[t]) ==> exists|j: int|
                    0 <= j < idx.len() && #[trigger] idx[j] == t,
            decreases rows.len() - i,
        {
            let row = &self.global_states[i];
            if filter.matches(row) {
                let mut p: usize = 0;
                while p < orders.len() && orders[p] <= row.tx_order
                    invariant
                        p <= orders@.len(),
                        forall|j: int| 0 <= j < p ==> #[trigger] orders@[j] <= row.tx_order,
                    decreases orders@.len() - p,
                {
                    p = p + 1;
                }
                let ghost old_idx = idx;
                let ghost old_orders = orders@;
                out.insert(p, row.object_id);
                orders.insert(p, row.tx_order);
                proof {
                    idx = idx.insert(p as int, i as int);
                    assert forall|j: int| 0 <= j < idx.len() implies 0 <= #[trigger] idx[j] < i + 1 && out@[j]
                        == rows[idx[j]].object_id && orders@[j] == rows[idx[j]].tx_order && global_filter_matches(
                        *filter,
                        rows[idx[j]],
                    ) by {
                        if j < p {
                            assert(idx[j] == old_idx[j]);
                        } else if j > p {
                            assert(idx[j] == old_idx[j - 1]);
                        }
                    }
                    assert forall|a: int, b: int| 0 <= a < b < idx.len() implies #[trigger] orders@[a]
                        <= #[trigger] orders@[b] by {
                        if p < old_orders.len() {
                            assert(old_orders[p as int] > row.tx_order);
                        }
                        if b < p {
                            assert(orders@[a] == old_orders[a] && orders@[b] == old_orders[b]);
                        } else if b == p {
                            assert(orders@[a] == old_orders[a]);
                        } else if a == p {
                            assert(orders@[b] == old_orders[b - 1]);
                            if b - 1 > p {
                                assert(old_orders[p as int] <= old_orders[b - 1]);
                            }
                        } else if a < p {
                            assert(orders@[a] == old_orders[a] && orders@[b] == old_orders[b - 1]);
                        } else {
                            assert(orders@[a] == old_orders[a - 1] && orders@[b] == old_orders[b - 1]);
                        }
                    }
                    assert forall|a: int, b: int| 0 <= a < idx.len() && 0 <= b < idx.len() && a != b implies #[trigger] idx[a]
                        != #[trigger] idx[b] by {
                        let sa = if a < p { a } else { a - 1 };
                        let sb = if b < p { b } else { b - 1 };
                        if a != p {
                            assert(idx[a] == old_idx[sa]);
                        }
                        if b != p {
                            assert(idx[b] == old_idx[sb]);
                        }
                    }
                    assert forall|t: int| 0 <= t < i + 1 && #[trigger] global_filter_matches(*filter, rows[t]) implies exists|j: int|
                        0 <= j < idx.len() && #[trigger] idx[j] == t by {
                        if t == i {
                            assert(idx[p as int] == t);
                        } else {
                            let j = choose|j: int| 0 <= j < old_idx.len() && #[trigger] old_idx[j] == t;
                            if j < p {
                                assert(idx[j] == t);
                            } else {
                                assert(idx[j + 1] == t);
                            }
                        }
                    }
                }
            }
            i = i + 1;
        }
        proof {
            let m = objects_of(rows);
            assert forall|j: int| 0 <= j < out@.len() implies m.contains_key(#[trigger] out@[j])
                && global_filter_matches(*filter, m[out@[j]]) by {
                lemma_object_pos(rows, idx[j]);
            }
            assert forall|id: u64| #[trigger] m.contains_key(id) && global_filter_matches(*filter, m[id]) implies out@.contains(
                id,
            ) by {
                let t = object_pos(rows, id);
                let j = choose|j: int| 0 <= j < idx.len() && #[trigger] idx[j] == t;
                assert(out@[j] == id);
            }
            assert forall|a: int, b: int| 0 <= a < b < out@.len() implies m[#[trigger] out@[a]].tx_order
                <= m[#[trigger] out@[b]].tx_order by {
                lemma_object_pos(rows, idx[a]);
                lemma_object_pos(rows, idx[b]);
            }
            assert forall|a: int, b: int| 0 <= a < out@.len() && 0 <= b < out@.len() && a != b implies out@[a]
                != out@[b] by {
                assert(idx[a] != idx[b]);
            }
        }
        out
    }

    /// Projects a committed transaction's change set: one change-set row per table
    /// change, keyed by the transaction order and the change's position in the set.
    /// A transaction older than the last applied one is refused and nothing changes.
    pub fn apply_state_change_set(&mut self, tx_order: u64, cs: &StateChangeSet, created_at: u64) -> (r: Result<
        (),
        IndexerError,
    >)
        requires
            old(self).wf(),
        ensures
            final(self).wf(),
            tx_order < old(self).high_water() ==> r == Err::<(), IndexerError>(IndexerError::OutOfOrderDelivery)
                && *final(self) == *old(self),
            tx_order >= old(self).high_water() ==> r == Ok::<(), IndexerError>(()) && final(self).high_water() == tx_order
                && final(self).global_states() == old(self).global_states(),
            tx_order >= old(self).high_water() ==> forall|j: u64| j < cs.changes@.len() ==> #[trigger] final(self).change_sets().contains_key((tx_order, j))
                    && row_written(final(self).change_sets()[(tx_order, j)], tx_order, j, cs.changes@[j as int].0, cs.changes@[j as int].1, created_at),
            tx_order >= old(self).high_water() ==> forall|k: (u64, u64)|
                !(k.0 == tx_order && k.1 < cs.changes@.len()) ==> (#[trigger] final(self).change_sets().contains_key(k)
                    == old(self).change_sets().contains_key(k) && (old(self).change_sets().contains_key(k)
                    ==> final(self).change_sets()[k] == old(self).change_sets()[k])),
    {
        if tx_order < self.last_tx_order {
            return Err(IndexerError::OutOfOrderDelivery);
        }
        self.last_tx_order = tx_order;
        let ghost start = self.change_sets();
        let mut i: usize = 0;
        while i < cs.changes.len()
            invariant
                self.wf(),
                i <= cs.changes@.len(),
                self.high_water() == tx_order,
                self.global_states() == old(self).global_states(),
                start == old(self).change_sets(),
                forall|j: u64| j < i ==> #[trigger] self.change_sets().contains_key((tx_order, j))
                    && row_written(self.change_sets()[(tx_order, j)], tx_order, j, cs.changes@[j as int].0, cs.changes@[j as int].1, created_at),
                forall|k: (u64, u64)| !(k.0 == tx_order && k.1 < i) ==> (#[trigger] self.change_sets().contains_key(k)
                    == start.contains_key(k) && (start.contains_key(k) ==> self.change_sets()[k] == start[k])),
            decreases cs.changes@.len() - i,
        {
            let row = IndexerTableChangeSet {
                tx_order,
                state_index: i as u64,
                table_handle: cs.changes[i].0,
                table_change: duplicate_change(&cs.changes[i].1),
                created_at,
            };
            let ghost prev = self.change_sets();
            let _ = self.apply_table_change_set(row);
            proof {
                assert(self.change_sets() == prev.insert((tx_order, i as u64), row));
                assert forall|j: u64| j < i + 1 implies #[trigger] self.change_sets().contains_key((tx_order, j))
                    && row_written(self.change_sets()[(tx_order, j)], tx_order, j, cs.changes@[j as int].0, cs.changes@[j as int].1, created_at) by {
                    if j < i {
                        assert((tx_order, j) != (tx_order, i as u64));
                        assert(prev.contains_key((tx_order, j)));
                    } else {
                        assert(j == i);
                    }
                }
                assert forall|k: (u64, u64)| !(k.0 == tx_order && k.1 < i + 1) implies (#[trigger] self.change_sets().contains_key(k)
                    == start.contains_key(k) && (start.contains_key(k) ==> self.change_sets()[k] == start[k])) by {
                    assert(k != (tx_order, i as u64));
                    assert(!(k.0 == tx_order && k.1 < i));
                }
            }
            i = i + 1;
        }
        Ok(())
    }
}

/// Applying the same global-state row twice is accepted the second time and leaves
/// exactly the rows and high-water mark that the first application left.
pub proof fn lemma_global_state_replay(
    start: Projection,
    once: Projection,
    twice: Projection,
    row: IndexerGlobalState,
)
    requires
        row.tx_order >= start.high_water(),
        once.global_states() == start.global_states().insert(row.object_id, row),
        once.change_sets() == start.change_sets(),
        once.high_water() == row.tx_order,
        row.tx_order >= once.high_water() ==> twice.global_states() == once.global_states().insert(row.object_id, row)
            && twice.change_sets() == once.change_sets() && twice.high_water() == row.tx_order,
    ensures
        row.tx_order >= once.high_water(),
        twice.global_states() == once.global_states(),
        twice.change_sets() == once.change_sets(),
        twice.high_water() == once.high_water(),
{
    assert(twice.global_states() =~= once.global_states());
}

/// Applying the same table change set twice under the same (tx_order, state_index)
/// leaves exactly the rows that the first application left.
pub proof fn lemma_change_set_replay(
    start: Projection,
    once: Projection,
    twice: Projection,
    row: IndexerTableChangeSet,
)
    requires
        row.tx_order >= start.high_water(),
        once.change_sets() == start.change_sets().insert((row.tx_order, row.state_index), row),
        once.global_states() == start.global_states(),
        once.high_water() == row.tx_order,
        row.tx_order >= once.high_water() ==> twice.change_sets() == once.change_sets().insert((row.tx_order, row.state_index), row)
            && twice.global_states() == once.global_states() && twice.high_water() == row.tx_order,
    ensures
        row.tx_order >= once.high_water(),
        twice.change_sets() == once.change_sets(),
        twice.global_states() == once.global_states(),
        twice.high_water() == once.high_water(),
{
    assert(twice.change_sets() =~= once.change_sets());
}

/// Projecting the same change set twice under the same transaction order is accepted
/// the second time, and leaves the same set of rows with the same content as the
/// first projection.
pub proof fn lemma_state_change_set_replay(
    start: Projection,
    once: Projection,
    twice: Projection,
    tx_order: u64,
    cs: StateChangeSet,
    created_at: u64,
)
    requires
        tx_order >= start.high_water(),
        once.high_water() == tx_order,
        once.global_states() == start.global_states(),
        forall|j: u64| j < cs.changes@.len() ==> #[trigger] once.change_sets().contains_key((tx_order, j))
            && row_written(once.change_sets()[(tx_order, j)], tx_order, j, cs.changes@[j as int].0, cs.changes@[j as int].1, created_at),
        forall|k: (u64, u64)| !(k.0 == tx_order && k.1 < cs.changes@.len()) ==> (#[trigger] once.change_sets().contains_key(k)
            == start.change_sets().contains_key(k) && (start.change_sets().contains_key(k) ==> once.change_sets()[k]
            == start.change_sets()[k])),
        tx_order >= once.high_water() ==> twice.high_water() == tx_order && twice.global_states() == once.global_states(),
        tx_order >= once.high_water() ==> forall|j: u64| j < cs.changes@.len() ==> #[trigger] twice.change_sets().contains_key((tx_order, j))
            && row_written(twice.change_sets()[(tx_order, j)], tx_order, j, cs.changes@[j as int].0, cs.changes@[j as int].1, created_at),
        tx_order >= once.high_water() ==> forall|k: (u64, u64)| !(k.0 == tx_order && k.1 < cs.changes@.len()) ==> (
        #[trigger] twice.change_sets().contains_key(k) == once.change_sets().contains_key(k) && (
        once.change_sets().contains_key(k) ==> twice.change_sets()[k] == once.change_sets()[k])),
    ensures
        tx_order >= once.high_water(),
        twice.high_water() == once.high_water(),
        twice.global_states() == once.global_states(),
        twice.change_sets().dom() == once.change_sets().dom(),
        forall|k: (u64, u64)| #[trigger] once.change_sets().contains_key(k) ==> row_content(twice.change_sets()[k])
            == row_content(once.change_sets()[k]),
{
    assert forall|k: (u64, u64)| #[trigger] twice.change_sets().contains_key(k) == once.change_sets().contains_key(k) by {
        if k.0 == tx_order && k.1 < cs.changes@.len() {
            assert(once.change_sets().contains_key((tx_order, k.1)));
            assert(twice.change_sets().contains_key((tx_order, k.1)));
        }
    }
    assert(twice.change_sets().dom() =~= once.change_sets().dom());
    assert forall|k: (u64, u64)| #[trigger] once.change_sets().contains_key(k) implies row_content(twice.change_sets()[k])
        == row_content(once.change_sets()[k]) by {
        if k.0 == tx_order && k.1 < cs.changes@.len() {
            assert(once.change_sets().contains_key((tx_order, k.1)));
            assert(twice.change_sets().contains_key((tx_order, k.1)));
        }
    }
}

} // verus!
