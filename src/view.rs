use crate::table::{lemma_sorted_unique, sorted_keys};
use crate::indexer::{IndexerStateChangeSet, IndexerTableChangeSet};
use crate::store::{StateChangeSet, TableChangeSet};
use crate::indexer::{GlobalStateFilter, StateSyncFilter, TableStateFilter};
use crate::state::{key_lt, lemma_key_order_total, KeyState, Op, State, TableChange, TableTypeInfo, copy_bytes, duplicate_op, op_model};
use vstd::prelude::*;

verus! {

/// Display form of a value; `decoded_value` is presentation only.
#[derive(Clone, Debug)]
pub struct StateView {
    pub value: Vec<u8>,
    pub value_type: Vec<u8>,
    pub decoded_value: Option<String>,
}

/// Display form of a key without its decoded rendering.
#[derive(Clone, Debug)]
pub struct SimpleKeyStateView {
    pub key: Vec<u8>,
    pub key_type: Vec<u8>,
}

/// Display form of a key; `decoded_key` is presentation only.
#[derive(Clone, Debug)]
pub struct KeyStateView {
    pub key: Vec<u8>,
    pub key_type: Vec<u8>,
    pub decoded_key: Option<String>,
}

#[derive(Clone, Debug)]
pub struct StateKVView {
    pub key_state: KeyStateView,
    pub state: StateView,
}

#[derive(Clone, Debug)]
pub struct TableTypeInfoView {
    pub key_type: Vec<u8>,
}

#[derive(Clone, Debug)]
pub enum OpView<T> {
    New(T),
    Modify(T),
    Delete,
}

/// One entry of a table change in display form.
#[derive(Clone, Debug)]
pub struct DynamicFieldView {
    pub k: KeyStateView,
    pub v: OpView<StateView>,
}

#[derive(Clone, Debug)]
pub struct TableChangeView {
    pub entries: Vec<DynamicFieldView>,
    pub size_increment: i64,
}

impl StateView {
    /// The canonical value that this view stands for (the decoded part left out).
    pub open spec fn model(&self) -> (Seq<u8>, Seq<u8>) {
        (self.value@, self.value_type@)
    }

    pub fn from_state(state: State) -> (r: StateView)
        ensures
            r.model() == state.model(),
            r.decoded_value.is_none(),
    {
        StateView { value: state.value, value_type: state.value_type, decoded_value: None }
    }

    /// A view that carries the decoded rendering produced by a decoder.
    pub fn from_annotated(state: State, decoded_value: String) -> (r: StateView)
        ensures
            r.model() == state.model(),
            r.decoded_value == Some(decoded_value),
    {
        StateView { value: state.value, value_type: state.value_type, decoded_value: Some(decoded_value) }
    }

    pub fn into_state(self) -> (r: State)
        ensures
            r.model() == self.model(),
    {
        State { value: self.value, value_type: self.value_type }
    }
}

impl SimpleKeyStateView {
    pub open spec fn model(&self) -> (Seq<u8>, Seq<u8>) {
        (self.key@, self.key_type@)
    }

    pub fn from_key_state(state: KeyState) -> (r: SimpleKeyStateView)
        ensures
            r.model() == state.model(),
    {
        SimpleKeyStateView { key: state.key, key_type: state.key_type }
    }

    pub fn from_key_state_view(state: KeyStateView) -> (r: SimpleKeyStateView)
        ensures
            r.model() == state.model(),
    {
        SimpleKeyStateView { key: state.key, key_type: state.key_type }
    }

    pub fn into_key_state(self) -> (r: KeyState)
        ensures
            r.model() == self.model(),
    {
        KeyState { key: self.key, key_type: self.key_type }
    }
}

impl KeyStateView {
    /// The canonical key that this view stands for (the decoded part left out).
    pub open spec fn model(&self) -> (Seq<u8>, Seq<u8>) {
        (self.key@, self.key_type@)
    }

    pub fn from_key_state(state: KeyState) -> (r: KeyStateView)
        ensures
            r.model() == state.model(),
            r.decoded_key.is_none(),
    {
        KeyStateView { key: state.key, key_type: state.key_type, decoded_key: None }
    }

    pub fn from_annotated(state: KeyState, decoded_key: String) -> (r: KeyStateView)
        ensures
            r.model() == state.model(),
            r.decoded_key == Some(decoded_key),
    {
        KeyStateView { key: state.key, key_type: state.key_type, decoded_key: Some(decoded_key) }
    }

    pub fn into_key_state(self) -> (r: KeyState)
        ensures
            r.model() == self.model(),
    {
        KeyState { key: self.key, key_type: self.key_type }
    }
}

impl StateKVView {
    pub fn new(key_state: KeyStateView, state: StateView) -> (r: StateKVView)
        ensures
            r.key_state == key_state,
            r.state == state,
    {
        StateKVView { key_state, state }
    }

    pub fn from_pair(key_state: KeyState, state: State) -> (r: StateKVView)
        ensures
            r.key_state.model() == key_state.model(),
            r.state.model() == state.model(),
            r.key_state.decoded_key.is_none(),
            r.state.decoded_value.is_none(),
    {
        StateKVView {
            key_state: KeyStateView::from_key_state(key_state),
            state: StateView::from_state(state),
        }
    }
}

impl TableTypeInfoView {
    pub fn from_info(info: TableTypeInfo) -> (r: TableTypeInfoView)
        ensures
            r.key_type@ == info.key_type@,
    {
        TableTypeInfoView { key_type: info.key_type }
    }

    pub fn into_info(self) -> (r: TableTypeInfo)
        ensures
            r.key_type@ == self.key_type@,
    {
        TableTypeInfo { key_type: self.key_type }
    }
}

/// An operation view that carries no decoded rendering.
pub open spec fn op_view_plain(op: OpView<StateView>) -> bool {
    match op {
        OpView::New(s) => s.decoded_value.is_none(),
        OpView::Modify(s) => s.decoded_value.is_none(),
        OpView::Delete => true,
    }
}

/// The canonical operation that an operation view stands for.
pub open spec fn op_view_model(op: OpView<StateView>) -> Op<(Seq<u8>, Seq<u8>)> {
    match op {
        OpView::New(s) => Op::New(s.model()),
        OpView::Modify(s) => Op::Modify(s.model()),
        OpView::Delete => Op::Delete,
    }
}

impl OpView<StateView> {
    pub fn from_op(op: Op<State>) -> (r: OpView<StateView>)
        ensures
            op_view_model(r) == op_model(op),
            op_view_plain(r),
    {
        match op {
            Op::New(s) => OpView::New(StateView::from_state(s)),
            Op::Modify(s) => OpView::Modify(StateView::from_state(s)),
            Op::Delete => OpView::Delete,
        }
    }

    pub fn into_op(self) -> (r: Op<State>)
        ensures
            op_model(r) == op_view_model(self),
    {
        match self {
            OpView::New(s) => Op::New(s.into_state()),
            OpView::Modify(s) => Op::Modify(s.into_state()),
            OpView::Delete => Op::Delete,
        }
    }
}

impl DynamicFieldView {
    pub fn new(k: KeyStateView, v: OpView<StateView>) -> (r: DynamicFieldView)
        ensures
            r.k == k,
            r.v == v,
    {
        DynamicFieldView { k, v }
    }
}

/// The canonical entries of a table change, as (key, operation) models.
pub open spec fn change_model(c: TableChange) -> (Seq<((Seq<u8>, Seq<u8>), Op<(Seq<u8>, Seq<u8>)>)>, int) {
    (c.entries@.map_values(|e: (KeyState, Op<State>)| (e.0.model(), op_model(e.1))), c.size_increment as int)
}

/// The canonical entries that a table change view stands for.
pub open spec fn change_view_model(c: TableChangeView) -> (Seq<((Seq<u8>, Seq<u8>), Op<(Seq<u8>, Seq<u8>)>)>, int) {
    (c.entries@.map_values(|e: DynamicFieldView| (e.k.model(), op_view_model(e.v))), c.size_increment as int)
}

impl TableChangeView {
    pub fn from_change(change: &TableChange) -> (r: TableChangeView)
        ensures
            change_view_model(r) == change_model(*change),
            forall|j: int| 0 <= j < r.entries@.len() ==> (#[trigger] r.entries@[j]).k.decoded_key.is_none()
                && op_view_plain(r.entries@[j].v),
    {
        let mut out: Vec<DynamicFieldView> = Vec::new();
        let mut i: usize = 0;
        while i < change.entries.len()
            invariant
                i <= change.entries@.len(),
                out@.len() == i,
                forall|j: int| 0 <= j < i ==> (#[trigger] out@[j]).k.model() == change.entries@[j].0.model()
                    && op_view_model(out@[j].v) == op_model(change.entries@[j].1) && out@[j].k.decoded_key.is_none()
                    && op_view_plain(out@[j].v),
            decreases change.entries@.len() - i,
        {
            let e = &change.entries[i];
            let k = KeyStateView::from_key_state(e.0.duplicate());
            let v = OpView::from_op(duplicate_op(&e.1));
            out.push(DynamicFieldView::new(k, v));
            i = i + 1;
        }
        let r = TableChangeView { entries: out, size_increment: change.size_increment };
        assert(change_view_model(r).0 =~= change_model(*change).0);
        r
    }

    /// The table change this view stands for, its entries put in canonical key order.
    /// Where the view lists a key more than once, its last entry for that key wins.
    pub fn into_change(&self) -> (r: TableChange)
        ensures
            sorted_change_of(*self, r),
    {
        let mut out: Vec<(KeyState, Op<State>)> = Vec::new();
        let ghost mut idx: Seq<int> = Seq::empty();
        let ghost ins = self.entries@;
        let mut i: usize = 0;
        while i < self.entries.len()
            invariant
                ins == self.entries@,
                i <= ins.len(),
                out@.len() == idx.len(),
                sorted_keys(out@),
                forall|j: int| 0 <= j < idx.len() ==> 0 <= #[trigger] idx[j] < i && entry_model(out@[j]) == field_model(ins[idx[j]])
                    && last_upto(ins, idx[j], i as int),
                forall|t: int| 0 <= t < i && #[trigger] last_upto(ins, t, i as int) ==> placed(idx, t),
            decreases ins.len() - i,
        {
            let e = &self.entries[i];
            let k = KeyState { key: copy_bytes(&e.k.key), key_type: copy_bytes(&e.k.key_type) };
            let v = match &e.v {
                OpView::New(s) => Op::New(State { value: copy_bytes(&s.value), value_type: copy_bytes(&s.value_type) }),
                OpView::Modify(s) => Op::Modify(State { value: copy_bytes(&s.value), value_type: copy_bytes(&s.value_type) }),
                OpView::Delete => Op::Delete,
            };
            assert(entry_model((k, v)) == field_model(ins[i as int]));
            let mut p: usize = 0;
            while p < out.len() && out[p].0.compare(&k) == -1
                invariant
                    p <= out@.len(),
                    forall|j: int| 0 <= j < p ==> key_lt(#[trigger] out@[j].0.model(), k.model()),
                decreases out@.len() - p,
            {
                p = p + 1;
            }
            let ghost old_out = out@;
            let ghost old_idx = idx;
            proof {
                lemma_sorted_unique(old_out);
            }
            if p < out.len() && out[p].0.compare(&k) == 0 {
                out.set(p, (k, v));
                proof {
                    idx = idx.update(p as int, i as int);
                    let o = out@;
                    assert forall|x: int, y: int| 0 <= x < y < o.len() implies key_lt(#[trigger] o[x].0.model(), #[trigger] o[y].0.model()) by {
                        assert(old_out[p as int].0.model() == k.model());
                        if x != p {
                            assert(o[x] == old_out[x]);
                        }
                        if y != p {
                            assert(o[y] == old_out[y]);
                        }
                    }
                    assert forall|j: int| 0 <= j < idx.len() implies 0 <= #[trigger] idx[j] < i + 1 && entry_model(o[j])
                        == field_model(ins[idx[j]]) && last_upto(ins, idx[j], i + 1) by {
                        if j != p {
                            assert(o[j] == old_out[j] && idx[j] == old_idx[j]);
                            assert(old_out[j].0.model() != old_out[p as int].0.model());
                        }
                    }
                    assert forall|t: int| 0 <= t < i + 1 && #[trigger] last_upto(ins, t, i + 1) implies placed(idx, t) by {
                        if t == i {
                            assert(idx[p as int] == t);
                        } else {
                            assert(last_upto(ins, t, i as int));
                            assert(placed(old_idx, t));
                            let j = choose|j: int| 0 <= j < old_idx.len() && #[trigger] old_idx[j] == t;
                            if j == p {
                                assert(ins[t].k.model() == ins[i as int].k.model());
                            }
                            assert(idx[j] == t);
                        }
                    }
                }
            } else {
                proof {
                    if p < old_out.len() {
                        lemma_key_order_total(old_out[p as int].0.model(), k.model(), k.model());
                        assert(key_lt(k.model(), old_out[p as int].0.model()));
                    }
                    assert forall|j: int| 0 <= j < old_out.len() implies #[trigger] old_out[j].0.model() != k.model() by {
                        lemma_key_order_total(old_out[j].0.model(), k.model(), k.model());
                        if j > p {
                            lemma_key_order_total(k.model(), old_out[p as int].0.model(), old_out[j].0.model());
                        }
                    }
                }
                out.insert(p, (k, v));
                proof {
                    idx = idx.insert(p as int, i as int);
                    let o = out@;
                    assert forall|x: int, y: int| 0 <= x < y < o.len() implies key_lt(#[trigger] o[x].0.model(), #[trigger] o[y].0.model()) by {
                        if y < p {
                            assert(o[x] == old_out[x] && o[y] == old_out[y]);
                        } else if y == p {
                            assert(o[x] == old_out[x]);
                        } else if x == p {
                            assert(o[y] == old_out[y - 1]);
                            if y - 1 > p {
                                lemma_key_order_total(k.model(), old_out[p as int].0.model(), old_out[y - 1].0.model());
                            }
                        } else if x < p {
                            assert(o[x] == old_out[x] && o[y] == old_out[y - 1]);
                            lemma_key_order_total(old_out[x].0.model(), k.model(), old_out[y - 1].0.model());
                            if y - 1 > p {
                                lemma_key_order_total(k.model(), old_out[p as int].0.model(), old_out[y - 1].0.model());
                            }
                        } else {
                            assert(o[x] == old_out[x - 1] && o[y] == old_out[y - 1]);
                        }
                    }
                    assert forall|j: int| 0 <= j < idx.len() implies 0 <= #[trigger] idx[j] < i + 1 && entry_model(o[j])
                        == field_model(ins[idx[j]]) && last_upto(ins, idx[j], i + 1) by {
                        if j < p {
                            assert(o[j] == old_out[j] && idx[j] == old_idx[j]);
                            assert(old_out[j].0.model() != k.model());
                        } else if j > p {
                            assert(o[j] == old_out[j - 1] && idx[j] == old_idx[j - 1]);
                            assert(old_out[j - 1].0.model() != k.model());
                        }
                    }
                    assert forall|t: int| 0 <= t < i + 1 && #[trigger] last_upto(ins, t, i + 1) implies placed(idx, t) by {
                        if t == i {
                            assert(idx[p as int] == t);
                        } else {
                            assert(last_upto(ins, t, i as int));
                            assert(placed(old_idx, t));
                            let j = choose|j: int| 0 <= j < old_idx.len() && #[trigger] old_idx[j] == t;
                            if j < p {
                                assert(idx[j] == t);
                            } else {
                                assert(idx[j + 1] == t);
                            }
                        }
                    }
                }
            }
            i = i + 1;
        }
        let r = TableChange { entries: out, size_increment: self.size_increment };
        proof {
            assert forall|j: int| 0 <= j < r.entries@.len() implies #[trigger] from_some_field(*self, r.entries@[j]) by {
                assert(entry_model(r.entries@[j]) == field_model(self.entries@[idx[j]]));
                assert(is_last(self.entries@, idx[j]));
            }
            assert forall|t: int| 0 <= t < self.entries@.len() && #[trigger] is_last(self.entries@, t) implies in_some_entry(
                r,
                self.entries@[t],
            ) by {
                assert(last_upto(ins, t, ins.len() as int));
                assert(placed(idx, t));
                let j = choose|j: int| 0 <= j < idx.len() && #[trigger] idx[j] == t;
                assert(entry_model(r.entries@[j]) == field_model(self.entries@[idx[j]]));
            }
            assert(sorted_change_of(*self, r));
        }
        r
    }
}

/// No entry of `s` after position `t` and before position `n` has the key of entry `t`.
pub open spec fn last_upto(s: Seq<DynamicFieldView>, t: int, n: int) -> bool {
    forall|j: int| t < j < n ==> #[trigger] s[j].k.model() != s[t].k.model()
}

/// Entry `t` is the last entry of `s` for its key.
pub open spec fn is_last(s: Seq<DynamicFieldView>, t: int) -> bool {
    last_upto(s, t, s.len() as int)
}

/// A table change entry as (key, operation) models.
pub open spec fn entry_model(e: (KeyState, Op<State>)) -> ((Seq<u8>, Seq<u8>), Op<(Seq<u8>, Seq<u8>)>) {
    (e.0.model(), op_model(e.1))
}

/// A table change view entry as (key, operation) models.
pub open spec fn field_model(f: DynamicFieldView) -> ((Seq<u8>, Seq<u8>), Op<(Seq<u8>, Seq<u8>)>) {
    (f.k.model(), op_view_model(f.v))
}

/// `c` is what the view `v` stands for: for each key of the view, the (key, operation)
/// pair of its last entry, once, in canonical key order, with the view's size increment.
pub open spec fn sorted_change_of(v: TableChangeView, c: TableChange) -> bool {
    &&& sorted_keys(c.entries@)
    &&& c.size_increment == v.size_increment
    &&& forall|j: int| 0 <= j < c.entries@.len() ==> #[trigger] from_some_field(v, c.entries@[j])
    &&& forall|i: int| 0 <= i < v.entries@.len() && #[trigger] is_last(v.entries@, i) ==> in_some_entry(c, v.entries@[i])
}

pub open spec fn from_some_field(v: TableChangeView, e: (KeyState, Op<State>)) -> bool {
    exists|i: int| 0 <= i < v.entries@.len() && is_last(v.entries@, i) && entry_model(e) == #[trigger] field_model(v.entries@[i])
}

pub open spec fn in_some_entry(c: TableChange, f: DynamicFieldView) -> bool {
    exists|j: int| 0 <= j < c.entries@.len() && #[trigger] entry_model(c.entries@[j]) == field_model(f)
}

/// Some position of `idx` holds `t`.
pub open spec fn placed(idx: Seq<int>, t: int) -> bool {
    exists|j: int| 0 <= j < idx.len() && #[trigger] idx[j] == t
}


/// A copy of a table change with the same entries and size increment.
pub fn duplicate_change(c: &TableChange) -> (r: TableChange)
    ensures
        change_model(r) == change_model(*c),
{
    let mut out: Vec<(KeyState, Op<State>)> = Vec::new();
    let mut i: usize = 0;
    while i < c.entries.len()
        invariant
            i <= c.entries@.len(),
            out@.len() == i,
            forall|j: int| 0 <= j < i ==> (#[trigger] out@[j]).0.model() == c.entries@[j].0.model()
                && op_model(out@[j].1) == op_model(c.entries@[j].1),
        decreases c.entries@.len() - i,
    {
        out.push((c.entries[i].0.duplicate(), duplicate_op(&c.entries[i].1)));
        i = i + 1;
    }
    let r = TableChange { entries: out, size_increment: c.size_increment };
    assert(change_model(r).0 =~= change_model(*c).0);
    r
}

/// Converting a value to its view and back gives the same value and type.
pub proof fn lemma_state_view_round_trip(s: State, v: StateView, t: State)
    requires
        v.model() == s.model(),
        t.model() == v.model(),
    ensures
        t.value@ == s.value@,
        t.value_type@ == s.value_type@,
{
}


/// A filter over global states as a caller writes it; a multichain address is
/// resolved to an owner by the caller before the filter is used.
#[derive(Clone, Debug)]
pub enum GlobalStateFilterView {
    ObjectTypeWithOwner { object_type: Vec<u8>, owner: Vec<u8> },
    ObjectType(Vec<u8>),
    Owner(Vec<u8>),
    ObjectId(u64),
    MultiChainAddress { multichain_id: u64, address: String },
}

#[derive(Clone, Copy, Debug, PartialEq, Eq, Structural)]
pub enum TableStateFilterView {
    TableHandle(u64),
}

#[derive(Clone, Copy, Debug, PartialEq, Eq, Structural)]
pub enum StateSyncFilterView {
    TableHandle(u64),
}

/// The filter that a view stands for, given the owner its address resolved to.
pub open spec fn resolved_filter(v: GlobalStateFilterView, resolve_address: Vec<u8>) -> GlobalStateFilter {
    match v {
        GlobalStateFilterView::ObjectTypeWithOwner { object_type, owner } => GlobalStateFilter::ObjectTypeWithOwner {
            object_type,
            owner,
        },
        GlobalStateFilterView::ObjectType(t) => GlobalStateFilter::ObjectType(t),
        GlobalStateFilterView::Owner(o) => GlobalStateFilter::Owner(o),
        GlobalStateFilterView::ObjectId(id) => GlobalStateFilter::ObjectId(id),
        GlobalStateFilterView::MultiChainAddress { .. } => GlobalStateFilter::Owner(resolve_address),
    }
}

impl GlobalStateFilterView {
    pub fn into_global_state_filter(state_filter: GlobalStateFilterView, resolve_address: Vec<u8>) -> (r: GlobalStateFilter)
        ensures
            r == resolved_filter(state_filter, resolve_address),
    {
        match state_filter {
            GlobalStateFilterView::ObjectTypeWithOwner { object_type, owner } => GlobalStateFilter::ObjectTypeWithOwner {
                object_type,
                owner,
            },
            GlobalStateFilterView::ObjectType(t) => GlobalStateFilter::ObjectType(t),
            GlobalStateFilterView::Owner(o) => GlobalStateFilter::Owner(o),
            GlobalStateFilterView::ObjectId(id) => GlobalStateFilter::ObjectId(id),
            GlobalStateFilterView::MultiChainAddress { .. } => GlobalStateFilter::Owner(resolve_address),
        }
    }
}

impl TableStateFilterView {
    pub fn into_filter(self) -> (r: TableStateFilter)
        ensures
            match self {
                TableStateFilterView::TableHandle(h) => r == TableStateFilter::TableHandle(h),
            },
    {
        match self {
            TableStateFilterView::TableHandle(h) => TableStateFilter::TableHandle(h),
        }
    }
}

impl StateSyncFilterView {
    pub fn into_filter(self) -> (r: StateSyncFilter)
        ensures
            match self {
                StateSyncFilterView::TableHandle(h) => r == StateSyncFilter::TableHandle(h),
            },
    {
        match self {
            StateSyncFilterView::TableHandle(h) => StateSyncFilter::TableHandle(h),
        }
    }
}

/// Display form of a transaction's diff.
#[derive(Debug)]
pub struct StateChangeSetView {
    pub new_tables: Vec<u64>,
    pub removed_tables: Vec<u64>,
    pub changes: Vec<(u64, TableChangeView)>,
}

/// Display form of a per-table diff.
#[derive(Debug)]
pub struct TableChangeSetView {
    pub new_tables: Vec<u64>,
    pub changes: Vec<(u64, TableChangeView)>,
    pub removed_tables: Vec<u64>,
}

/// Display form of a persisted change-set row.
#[derive(Debug)]
pub struct IndexerTableChangeSetView {
    pub tx_order: u64,
    pub state_index: u64,
    pub table_handle: u64,
    pub table_change: TableChangeView,
    pub created_at: u64,
}

pub fn copy_handles(v: &Vec<u64>) -> (r: Vec<u64>)
    ensures
        r@ == v@,
{
    let mut r: Vec<u64> = Vec::new();
    let mut i: usize = 0;
    while i < v.len()
        invariant
            i <= v@.len(),
            r@ == v@.subrange(0, i as int),
        decreases v@.len() - i,
    {
        r.push(v[i]);
        i = i + 1;
        assert(r@ =~= v@.subrange(0, i as int));
    }
    assert(r@ =~= v@);
    r
}

/// The views of each table's change, in the same order and with the same handles.
pub fn changes_to_views(cs: &Vec<(u64, TableChange)>) -> (r: Vec<(u64, TableChangeView)>)
    ensures
        r@.len() == cs@.len(),
        forall|j: int| 0 <= j < cs@.len() ==> (#[trigger] r@[j]).0 == cs@[j].0 && change_view_model(r@[j].1)
            == change_model(cs@[j].1),
{
    let mut r: Vec<(u64, TableChangeView)> = Vec::new();
    let mut i: usize = 0;
    while i < cs.len()
        invariant
            i <= cs@.len(),
            r@.len() == i,
            forall|j: int| 0 <= j < i ==> (#[trigger] r@[j]).0 == cs@[j].0 && change_view_model(r@[j].1)
                == change_model(cs@[j].1),
        decreases cs@.len() - i,
    {
        r.push((cs[i].0, TableChangeView::from_change(&cs[i].1)));
        i = i + 1;
    }
    r
}

/// The table changes that views stand for, in the same order and with the same
/// handles.
pub fn views_to_changes(vs: &Vec<(u64, TableChangeView)>) -> (r: Vec<(u64, TableChange)>)
    ensures
        r@.len() == vs@.len(),
        forall|j: int| 0 <= j < vs@.len() ==> (#[trigger] r@[j]).0 == vs@[j].0 && sorted_change_of(vs@[j].1, r@[j].1),
{
    let mut r: Vec<(u64, TableChange)> = Vec::new();
    let mut i: usize = 0;
    while i < vs.len()
        invariant
            i <= vs@.len(),
            r@.len() == i,
            forall|j: int| 0 <= j < i ==> (#[trigger] r@[j]).0 == vs@[j].0 && sorted_change_of(vs@[j].1, r@[j].1),
        decreases vs@.len() - i,
    {
        r.push((vs[i].0, vs[i].1.into_change()));
        i = i + 1;
    }
    r
}

impl StateChangeSetView {
    pub fn from_change_set(cs: &StateChangeSet) -> (r: StateChangeSetView)
        ensures
            r.new_tables@ == cs.new_tables@,
            r.removed_tables@ == cs.removed_tables@,
            r.changes@.len() == cs.changes@.len(),
            forall|j: int| 0 <= j < cs.changes@.len() ==> (#[trigger] r.changes@[j]).0 == cs.changes@[j].0
                && change_view_model(r.changes@[j].1) == change_model(cs.changes@[j].1),
    {
        StateChangeSetView {
            new_tables: copy_handles(&cs.new_tables),
            removed_tables: copy_handles(&cs.removed_tables),
            changes: changes_to_views(&cs.changes),
        }
    }

    /// The change set this view stands for; `None` exactly when some table's view
    /// The diff this view stands for, each table's change in canonical key order.
    pub fn into_change_set(&self) -> (r: StateChangeSet)
        ensures
            r.new_tables@ == self.new_tables@,
            r.removed_tables@ == self.removed_tables@,
            r.changes@.len() == self.changes@.len(),
            forall|j: int| 0 <= j < self.changes@.len() ==> (#[trigger] r.changes@[j]).0 == self.changes@[j].0
                && sorted_change_of(self.changes@[j].1, r.changes@[j].1),
    {
        StateChangeSet {
            new_tables: copy_handles(&self.new_tables),
            removed_tables: copy_handles(&self.removed_tables),
            changes: views_to_changes(&self.changes),
        }
    }

}

impl TableChangeSetView {
    pub fn from_table_change_set(cs: &TableChangeSet) -> (r: TableChangeSetView)
        ensures
            r.new_tables@ == cs.new_tables@,
            r.removed_tables@ == cs.removed_tables@,
            r.changes@.len() == cs.changes@.len(),
            forall|j: int| 0 <= j < cs.changes@.len() ==> (#[trigger] r.changes@[j]).0 == cs.changes@[j].0
                && change_view_model(r.changes@[j].1) == change_model(cs.changes@[j].1),
    {
        TableChangeSetView {
            new_tables: copy_handles(&cs.new_tables),
            changes: changes_to_views(&cs.changes),
            removed_tables: copy_handles(&cs.removed_tables),
        }
    }

    /// The per-table diff this view stands for; `None` exactly when some table's view
    /// The diff this view stands for, each table's change in canonical key order.
    pub fn into_table_change_set(&self) -> (r: TableChangeSet)
        ensures
            r.new_tables@ == self.new_tables@,
            r.removed_tables@ == self.removed_tables@,
            r.changes@.len() == self.changes@.len(),
            forall|j: int| 0 <= j < self.changes@.len() ==> (#[trigger] r.changes@[j]).0 == self.changes@[j].0
                && sorted_change_of(self.changes@[j].1, r.changes@[j].1),
    {
        TableChangeSet {
            new_tables: copy_handles(&self.new_tables),
            removed_tables: copy_handles(&self.removed_tables),
            changes: views_to_changes(&self.changes),
        }
    }

}

impl IndexerTableChangeSetView {
    pub fn from_row(row: &IndexerTableChangeSet) -> (r: IndexerTableChangeSetView)
        ensures
            r.tx_order == row.tx_order,
            r.state_index == row.state_index,
            r.table_handle == row.table_handle,
            r.created_at == row.created_at,
            change_view_model(r.table_change) == change_model(row.table_change),
    {
        IndexerTableChangeSetView {
            tx_order: row.tx_order,
            state_index: row.state_index,
            table_handle: row.table_handle,
            table_change: TableChangeView::from_change(&row.table_change),
            created_at: row.created_at,
        }
    }
}

/// Display form of a committed transaction's whole diff.
#[derive(Debug)]
pub struct IndexerStateChangeSetView {
    pub tx_order: u64,
    pub state_change_set: StateChangeSetView,
    pub created_at: u64,
}

impl IndexerStateChangeSetView {
    pub fn from_row(row: &IndexerStateChangeSet) -> (r: IndexerStateChangeSetView)
        ensures
            r.tx_order == row.tx_order,
            r.created_at == row.created_at,
            r.state_change_set.new_tables@ == row.state_change_set.new_tables@,
            r.state_change_set.removed_tables@ == row.state_change_set.removed_tables@,
            r.state_change_set.changes@.len() == row.state_change_set.changes@.len(),
            forall|j: int| 0 <= j < row.state_change_set.changes@.len() ==> (#[trigger] r.state_change_set.changes@[j]).0
                == row.state_change_set.changes@[j].0 && change_view_model(r.state_change_set.changes@[j].1) == change_model(
                row.state_change_set.changes@[j].1,
            ),
    {
        IndexerStateChangeSetView {
            tx_order: row.tx_order,
            state_change_set: StateChangeSetView::from_change_set(&row.state_change_set),
            created_at: row.created_at,
        }
    }
}

} // verus!
