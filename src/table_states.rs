use crate::indexer::{IndexerError, TableStateFilter};
use crate::state::{compare_bytes, copy_bytes};
use vstd::prelude::*;

verus! {

/// A row of the table states: one key of one table, keyed by (table_handle, key_hex).
/// A deleted key, or a key of a dropped table, keeps its row with `removed` set.
#[derive(Clone, Debug)]
pub struct IndexerTableState {
    pub table_handle: u64,
    pub key_hex: Vec<u8>,
    pub key_str: Vec<u8>,
    pub value: Vec<u8>,
    pub key_type: Vec<u8>,
    pub value_type: Vec<u8>,
    pub tx_order: u64,
    pub state_index: u64,
    pub created_at: u64,
    pub updated_at: u64,
    pub removed: bool,
}

pub open spec fn row_key(r: IndexerTableState) -> (u64, Seq<u8>) {
    (r.table_handle, r.key_hex@)
}

pub open spec fn has_row(s: Seq<IndexerTableState>, k: (u64, Seq<u8>)) -> bool {
    exists|i: int| 0 <= i < s.len() && #[trigger] row_key(s[i]) == k
}

pub open spec fn unique_rows(s: Seq<IndexerTableState>) -> bool {
    forall|i: int, j: int| 0 <= i < s.len() && 0 <= j < s.len() && i != j ==> #[trigger] row_key(s[i]) != #[trigger] row_key(s[j])
}

pub open spec fn row_pos(s: Seq<IndexerTableState>, k: (u64, Seq<u8>)) -> int {
    choose|i: int| 0 <= i < s.len() && #[trigger] row_key(s[i]) == k
}

pub open spec fn rows_of(s: Seq<IndexerTableState>) -> Map<(u64, Seq<u8>), IndexerTableState> {
    Map::new(|k: (u64, Seq<u8>)| has_row(s, k), |k: (u64, Seq<u8>)| s[row_pos(s, k)])
}

/// The row after a tombstone written at the given position in the transaction order.
pub open spec fn tombstoned(r: IndexerTableState, tx_order: u64, state_index: u64, updated_at: u64) -> IndexerTableState {
    IndexerTableState { removed: true, tx_order, state_index, updated_at, ..r }
}

/// The table handle that a table-state filter selects.
pub open spec fn filter_handle(f: TableStateFilter) -> u64 {
    match f {
        TableStateFilter::TableHandle(h) => h,
    }
}

/// The row after its table was dropped at the given position in the transaction order.
pub open spec fn after_drop(r: IndexerTableState, table_handle: u64, tx_order: u64, state_index: u64, updated_at: u64) -> IndexerTableState {
    if r.table_handle == table_handle {
        tombstoned(r, tx_order, state_index, updated_at)
    } else {
        r
    }
}

pub open spec fn table_filter_matches(f: TableStateFilter, r: IndexerTableState) -> bool {
    match f {
        TableStateFilter::TableHandle(h) => r.table_handle == h,
    }
}

pub proof fn lemma_row_pos(s: Seq<IndexerTableState>, j: int)
    requires
        unique_rows(s),
        0 <= j < s.len(),
    ensures
        has_row(s, row_key(s[j])),
        row_pos(s, row_key(s[j])) == j,
{
    assert(row_key(s[j]) == row_key(s[j]));
    let p = row_pos(s, row_key(s[j]));
    assert(0 <= p < s.len() && row_key(s[p]) == row_key(s[j]));
}

/// Writing `t` at position `i`, where a row with the same key stood, replaces that
/// key's row and nothing else.
pub proof fn lemma_rows_set(s: Seq<IndexerTableState>, i: int, t: IndexerTableState)
    requires
        unique_rows(s),
        0 <= i < s.len(),
        row_key(t) == row_key(s[i]),
    ensures
        unique_rows(s.update(i, t)),
        rows_of(s.update(i, t)) == rows_of(s).insert(row_key(t), t),
{
    let u = s.update(i, t);
    assert forall|a: int, b: int| 0 <= a < u.len() && 0 <= b < u.len() && a != b implies #[trigger] row_key(u[a])
        != #[trigger] row_key(u[b]) by {
        if a != i {
            assert(u[a] == s[a]);
        }
        if b != i {
            assert(u[b] == s[b]);
        }
    }
    lemma_row_pos(s, i);
    assert forall|k: (u64, Seq<u8>)| has_row(u, k) <==> has_row(s, k) by {
        if has_row(u, k) {
            let a = choose|a: int| 0 <= a < u.len() && #[trigger] row_key(u[a]) == k;
            if a != i {
                assert(u[a] == s[a]);
            }
        }
        if has_row(s, k) {
            let a = choose|a: int| 0 <= a < s.len() && #[trigger] row_key(s[a]) == k;
            assert(row_key(u[a]) == row_key(s[a]));
        }
    }
    assert forall|k: (u64, Seq<u8>)| #[trigger] has_row(u, k) implies rows_of(u)[k] == rows_of(s).insert(row_key(t), t)[k] by {
        let a = choose|a: int| 0 <= a < u.len() && #[trigger] row_key(u[a]) == k;
        lemma_row_pos(u, a);
        if a != i {
            assert(u[a] == s[a]);
            lemma_row_pos(s, a);
        }
    }
    assert(rows_of(u) =~= rows_of(s).insert(row_key(t), t));
}

pub proof fn lemma_rows_push(s: Seq<IndexerTableState>, t: IndexerTableState)
    requires
        unique_rows(s),
        !has_row(s, row_key(t)),
    ensures
        unique_rows(s.push(t)),
        rows_of(s.push(t)) == rows_of(s).insert(row_key(t), t),
{
    let u = s.push(t);
    let n = s.len() as int;
    assert forall|a: int, b: int| 0 <= a < u.len() && 0 <= b < u.len() && a != b implies #[trigger] row_key(u[a])
        != #[trigger] row_key(u[b]) by {
        if a < n {
            assert(u[a] == s[a]);
        }
        if b < n {
            assert(u[b] == s[b]);
        }
    }
    assert forall|k: (u64, Seq<u8>)| has_row(u, k) <==> (has_row(s, k) || k == row_key(t)) by {
        if has_row(u, k) {
            let a = choose|a: int| 0 <= a < u.len() && #[trigger] row_key(u[a]) == k;
            if a < n {
                assert(u[a] == s[a]);
            }
        }
        if has_row(s, k) {
            let a = choose|a: int| 0 <= a < s.len() && #[trigger] row_key(s[a]) == k;
            assert(u[a] == s[a]);
        }
        if k == row_key(t) {
            assert(row_key(u[n]) == k);
        }
    }
    assert forall|k: (u64, Seq<u8>)| #[trigger] has_row(u, k) implies rows_of(u)[k] == rows_of(s).insert(row_key(t), t)[k] by {
        let a = choose|a: int| 0 <= a < u.len() && #[trigger] row_key(u[a]) == k;
        lemma_row_pos(u, a);
        if a < n {
            assert(u[a] == s[a]);
            lemma_row_pos(s, a);
        }
    }
    assert(rows_of(u) =~= rows_of(s).insert(row_key(t), t));
}

pub fn find_row(s: &Vec<IndexerTableState>, table_handle: u64, key_hex: &Vec<u8>) -> (r: Option<usize>)
    ensures
        r.is_none() <==> !has_row(s@, (table_handle, key_hex@)),
        r.is_some() ==> r.unwrap() < s@.len() && row_key(s@[r.unwrap() as int]) == (table_handle, key_hex@),
{
    let mut i: usize = 0;
    while i < s.len()
        invariant
            i <= s@.len(),
            forall|j: int| 0 <= j < i ==> #[trigger] row_key(s@[j]) != (table_handle, key_hex@),
        decreases s@.len() - i,
    {
        if s[i].table_handle == table_handle && compare_bytes(&s[i].key_hex, key_hex) == 0 {
            assert(row_key(s@[i as int]) == (table_handle, key_hex@));
            return Some(i);
        }
        i = i + 1;
    }
    None
}

/// The table-state rows of the projection.
pub struct TableStateProjection {
    rows: Vec<IndexerTableState>,
    last_tx_order: u64,
}

impl TableStateProjection {
    pub closed spec fn rows(&self) -> Map<(u64, Seq<u8>), IndexerTableState> {
        rows_of(self.rows@)
    }

    pub closed spec fn high_water(&self) -> u64 {
        self.last_tx_order
    }

    pub closed spec fn wf(&self) -> bool {
        unique_rows(self.rows@)
    }

    pub fn new() -> (r: TableStateProjection)
        ensures
            r.wf(),
            r.rows() == Map::<(u64, Seq<u8>), IndexerTableState>::empty(),
            r.high_water() == 0,
    {
        let r = TableStateProjection { rows: Vec::new(), last_tx_order: 0 };
        assert(rows_of(r.rows@) =~= Map::empty());
        r
    }

    /// Upserts a row by (table_handle, key_hex); a row older than the last applied
    /// transaction is refused and nothing changes.
    pub fn apply_table_state(&mut self, row: IndexerTableState) -> (r: Result<(), IndexerError>)
        requires
            old(self).wf(),
        ensures
            final(self).wf(),
            row.tx_order < old(self).high_water() ==> r == Err::<(), IndexerError>(IndexerError::OutOfOrderDelivery)
                && *final(self) == *old(self),
            row.tx_order >= old(self).high_water() ==> r == Ok::<(), IndexerError>(())
                && final(self).rows() == old(self).rows().insert(row_key(row), row)
                && final(self).high_water() == row.tx_order,
    {
        if row.tx_order < self.last_tx_order {
            return Err(IndexerError::OutOfOrderDelivery);
        }
        self.last_tx_order = row.tx_order;
        let ghost s = self.rows@;
        match find_row(&self.rows, row.table_handle, &row.key_hex) {
            Some(i) => {
                proof {
                    lemma_rows_set(s, i as int, row);
                }
                self.rows.set(i, row);
            },
            None => {
                proof {
                    lemma_rows_push(s, row);
                }
                self.rows.push(row);
            },
        }
        Ok(())
    }

    /// Marks the row of a deleted key as removed, keeping its last value for history;
    /// a key with no row is left alone.
    pub fn remove_table_state(
        &mut self,
        table_handle: u64,
        key_hex: &Vec<u8>,
        tx_order: u64,
        state_index: u64,
        updated_at: u64,
    ) -> (r: Result<(), IndexerError>)
        requires
            old(self).wf(),
        ensures
            final(self).wf(),
            tx_order < old(self).high_water() ==> r == Err::<(), IndexerError>(IndexerError::OutOfOrderDelivery)
                && *final(self) == *old(self),
            tx_order >= old(self).high_water() ==> r == Ok::<(), IndexerError>(()) && final(self).high_water() == tx_order,
            tx_order >= old(self).high_water() && old(self).rows().contains_key((table_handle, key_hex@)) ==> final(self).rows()
                == old(self).rows().insert(
                (table_handle, key_hex@),
                tombstoned(old(self).rows()[(table_handle, key_hex@)], tx_order, state_index, updated_at),
            ),
            tx_order >= old(self).high_water() && !old(self).rows().contains_key((table_handle, key_hex@)) ==> final(self).rows()
                == old(self).rows(),
    {
        if tx_order < self.last_tx_order {
            return Err(IndexerError::OutOfOrderDelivery);
        }
        self.last_tx_order = tx_order;
        let ghost s = self.rows@;
        if let Some(i) = find_row(&self.rows, table_handle, key_hex) {
            proof {
                lemma_row_pos(s, i as int);
            }
            let mut row = self.rows.remove(i);
            row.tx_order = tx_order;
            row.state_index = state_index;
            row.updated_at = updated_at;
            row.removed = true;
            assert(row == tombstoned(s[i as int], tx_order, state_index, updated_at));
            proof {
                lemma_rows_set(s, i as int, row);
            }
            self.rows.insert(i, row);
            assert(self.rows@ =~= s.update(i as int, row));
        }
        Ok(())
    }

    /// The persisted row for `key_hex` of table `table_handle`, if any.
    pub fn get_table_state(&self, table_handle: u64, key_hex: &Vec<u8>) -> (r: Option<&IndexerTableState>)
        requires
            self.wf(),
        ensures
            r.is_some() == self.rows().contains_key((table_handle, key_hex@)),
            r.is_some() ==> *r.unwrap() == self.rows()[(table_handle, key_hex@)],
    {
        match find_row(&self.rows, table_handle, key_hex) {
            Some(i) => {
                proof {
                    lemma_row_pos(self.rows@, i as int);
                }
                Some(&self.rows[i])
            },
            None => None,
        }
    }

    /// The keys of every row that `filter` selects, removed ones included, each once.
    pub fn query_table_states(&self, filter: &TableStateFilter) -> (r: Vec<Vec<u8>>)
        requires
            self.wf(),
        ensures
            forall|j: int| 0 <= j < r@.len() ==> self.rows().contains_key((filter_handle(*filter), #[trigger] r@[j]@)),
            forall|k: (u64, Seq<u8>)| #[trigger] self.rows().contains_key(k) && k.0 == filter_handle(*filter)
                ==> exists|j: int| 0 <= j < r@.len() && #[trigger] r@[j]@ == k.1,
            forall|a: int, b: int| 0 <= a < r@.len() && 0 <= b < r@.len() && a != b ==> r@[a]@ != r@[b]@,
    {
        let ghost rows = self.rows@;
        let mut out: Vec<Vec<u8>> = Vec::new();
        let ghost mut idx: Seq<int> = Seq::empty();
        let mut i: usize = 0;
        while i < self.rows.len()
            invariant
                rows == self.rows@,
                unique_rows(rows),
                i <= rows.len(),
                out@.len() == idx.len(),
                forall|j: int| 0 <= j < idx.len() ==> 0 <= #[trigger] idx[j] < i && out@[j]@ == rows[idx[j]].key_hex@
                    && table_filter_matches(*filter, rows[idx[j]]),
                forall|a: int, b: int| 0 <= a < b < idx.len() ==> #[trigger] idx[a] < #[trigger] idx[b],
                forall|t: int| 0 <= t < i && #[trigger] table_filter_matches(*filter, rows[t]) ==> exists|j: int|
                    0 <= j < idx.len() && #[trigger] idx[j] == t,
            decreases rows.len() - i,
        {
            let selected = match filter {
                TableStateFilter::TableHandle(h) => self.rows[i].table_handle == *h,
            };
            if selected {
                let ghost old_idx = idx;
                out.push(copy_bytes(&self.rows[i].key_hex));
                proof {
                    idx = idx.push(i as int);
                    assert forall|t: int| 0 <= t < i + 1 && #[trigger] table_filter_matches(*filter, rows[t]) implies exists|j: int|
                        0 <= j < idx.len() && #[trigger] idx[j] == t by {
                        if t == i {
                            assert(idx[old_idx.len() as int] == t);
                        } else {
                            let j = choose|j: int| 0 <= j < old_idx.len() && #[trigger] old_idx[j] == t;
                            assert(idx[j] == t);
                        }
                    }
                }
            }
            i = i + 1;
        }
        proof {
            let m = rows_of(rows);
            assert forall|j: int| 0 <= j < out@.len() implies m.contains_key((filter_handle(*filter), #[trigger] out@[j]@)) by {
                lemma_row_pos(rows, idx[j]);
                assert(row_key(rows[idx[j]]) == (filter_handle(*filter), out@[j]@));
            }
            assert forall|k: (u64, Seq<u8>)| #[trigger] m.contains_key(k) && k.0 == filter_handle(*filter) implies exists|j: int|
                0 <= j < out@.len() && #[trigger] out@[j]@ == k.1 by {
                let t = row_pos(rows, k);
                assert(row_key(rows[t]) == k);
                assert(table_filter_matches(*filter, rows[t]));
                let j = choose|j: int| 0 <= j < idx.len() && #[trigger] idx[j] == t;
                assert(out@[j]@ == k.1);
            }
            assert forall|a: int, b: int| 0 <= a < out@.len() && 0 <= b < out@.len() && a != b implies out@[a]@ != out@[b]@ by {
                if a < b {
                    assert(idx[a] < idx[b]);
                } else {
                    assert(idx[b] < idx[a]);
                }
                match *filter {
                    TableStateFilter::TableHandle(h) => {
                        assert(row_key(rows[idx[a]]) != row_key(rows[idx[b]]));
                    },
                }
            }
        }
        out
    }

    /// Marks every row of a dropped table as removed, keeping the rows for history.
    pub fn remove_table(&mut self, table_handle: u64, tx_order: u64, state_index: u64, updated_at: u64) -> (r: Result<
        (),
        IndexerError,
    >)
        requires
            old(self).wf(),
        ensures
            final(self).wf(),
            tx_order < old(self).high_water() ==> r == Err::<(), IndexerError>(IndexerError::OutOfOrderDelivery)
                && *final(self) == *old(self),
            tx_order >= old(self).high_water() ==> r == Ok::<(), IndexerError>(()) && final(self).high_water() == tx_order
                && final(self).rows().dom() == old(self).rows().dom(),
            tx_order >= old(self).high_water() ==> forall|k: (u64, Seq<u8>)| #[trigger] old(self).rows().contains_key(k)
                ==> final(self).rows()[k] == after_drop(old(self).rows()[k], table_handle, tx_order, state_index, updated_at),
    {
        if tx_order < self.last_tx_order {
            return Err(IndexerError::OutOfOrderDelivery);
        }
        self.last_tx_order = tx_order;
        let ghost s = self.rows@;
        let mut i: usize = 0;
        while i < self.rows.len()
            invariant
                self.rows@.len() == s.len(),
                i <= s.len(),
                unique_rows(s),
                self.last_tx_order == tx_order,
                forall|j: int| 0 <= j < i ==> #[trigger] self.rows@[j] == after_drop(s[j], table_handle, tx_order, state_index, updated_at),
                forall|j: int| i <= j < s.len() ==> #[trigger] self.rows@[j] == s[j],
            decreases s.len() - i,
        {
            if self.rows[i].table_handle == table_handle {
                let ghost before = self.rows@;
                let mut row = self.rows.remove(i);
                row.tx_order = tx_order;
                row.state_index = state_index;
                row.updated_at = updated_at;
                row.removed = true;
                self.rows.insert(i, row);
                assert(self.rows@ =~= before.update(i as int, row));
            }
            i = i + 1;
        }
        proof {
            let u = self.rows@;
            assert forall|j: int| 0 <= j < u.len() implies #[trigger] row_key(u[j]) == row_key(s[j]) by {
                assert(u[j] == after_drop(s[j], table_handle, tx_order, state_index, updated_at));
            }
            assert forall|a: int, b: int| 0 <= a < u.len() && 0 <= b < u.len() && a != b implies #[trigger] row_key(u[a])
                != #[trigger] row_key(u[b]) by {
                assert(row_key(u[a]) == row_key(s[a]) && row_key(u[b]) == row_key(s[b]));
            }
            assert forall|k: (u64, Seq<u8>)| has_row(u, k) <==> has_row(s, k) by {
                if has_row(u, k) {
                    let a = choose|a: int| 0 <= a < u.len() && #[trigger] row_key(u[a]) == k;
                    assert(row_key(u[a]) == row_key(s[a]));
                }
                if has_row(s, k) {
                    let a = choose|a: int| 0 <= a < s.len() && #[trigger] row_key(s[a]) == k;
                    assert(row_key(u[a]) == row_key(s[a]));
                }
            }
            assert(rows_of(u).dom() =~= rows_of(s).dom());
            assert forall|k: (u64, Seq<u8>)| #[trigger] rows_of(s).contains_key(k) implies rows_of(u)[k] == after_drop(
                rows_of(s)[k],
                table_handle,
                tx_order,
                state_index,
                updated_at,
            ) by {
                let a = row_pos(s, k);
                lemma_row_pos(s, a);
                assert(row_key(u[a]) == row_key(s[a]));
                lemma_row_pos(u, a);
            }
        }
        Ok(())
    }
}

} // verus!
