use crate::gas::GasParameters;
use crate::state::{KeyState, State, TableChange};
use crate::table::{BoxError, BoxTable, has_net_change, is_change_of, lemma_change_nonempty, sorted_keys};
use vstd::prelude::*;

verus! {

/// The diff of one transaction over all tables: the handles it created, the handles it
/// removed, and the net change of each table it touched.
#[derive(Debug)]
pub struct StateChangeSet {
    pub new_tables: Vec<u64>,
    pub removed_tables: Vec<u64>,
    pub changes: Vec<(u64, TableChange)>,
}

/// The per-table form of a transaction's diff, as the indexer stores it; it has the
/// same parts as a state change set.
#[derive(Debug)]
pub struct TableChangeSet {
    pub new_tables: Vec<u64>,
    pub removed_tables: Vec<u64>,
    pub changes: Vec<(u64, TableChange)>,
}

/// The handles strictly ascend.
pub open spec fn ascending(s: Seq<u64>) -> bool {
    forall|a: int, b: int| 0 <= a < b < s.len() ==> #[trigger] s[a] < #[trigger] s[b]
}

/// A well-formed diff: new and removed handles ascend and are disjoint, changes ascend
/// by handle, and each table's change ascends by key.
pub open spec fn change_set_wf(new_tables: Seq<u64>, removed_tables: Seq<u64>, changes: Seq<(u64, TableChange)>) -> bool {
    &&& ascending(new_tables)
    &&& ascending(removed_tables)
    &&& new_tables.to_set().disjoint(removed_tables.to_set())
    &&& forall|a: int, b: int| 0 <= a < b < changes.len() ==> #[trigger] changes[a].0 < #[trigger] changes[b].0
    &&& forall|j: int| 0 <= j < changes.len() ==> sorted_keys(#[trigger] changes[j].1.entries@)
}

impl StateChangeSet {
    pub open spec fn wf(&self) -> bool {
        change_set_wf(self.new_tables@, self.removed_tables@, self.changes@)
    }
}

impl TableChangeSet {
    pub open spec fn wf(&self) -> bool {
        change_set_wf(self.new_tables@, self.removed_tables@, self.changes@)
    }
}

/// Some position of `v` before `n` holds `x`.
pub open spec fn seen(v: Seq<u64>, n: int, x: u64) -> bool {
    exists|t: int| 0 <= t < n && #[trigger] v[t] == x
}

/// The handles of `v` in ascending order.
pub fn sort_handles(v: &Vec<u64>) -> (r: Vec<u64>)
    requires
        v@.no_duplicates(),
    ensures
        ascending(r@),
        r@.to_set() == v@.to_set(),
{
    let mut out: Vec<u64> = Vec::new();
    let mut i: usize = 0;
    while i < v.len()
        invariant
            i <= v@.len(),
            v@.no_duplicates(),
            ascending(out@),
            forall|x: u64| out@.contains(x) <==> seen(v@, i as int, x),
        decreases v@.len() - i,
    {
        let x = v[i];
        let mut p: usize = 0;
        while p < out.len() && out[p] < x
            invariant
                p <= out@.len(),
                forall|j: int| 0 <= j < p ==> #[trigger] out@[j] < x,
            decreases out@.len() - p,
        {
            p = p + 1;
        }
        let ghost old_out = out@;
        proof {
            if p < old_out.len() {
                assert(old_out.contains(old_out[p as int]));
                assert(seen(v@, i as int, old_out[p as int]));
                let t = choose|t: int| 0 <= t < i && #[trigger] v@[t] == old_out[p as int];
                assert(old_out[p as int] != x);
            }
        }
        out.insert(p, x);
        proof {
            let o = out@;
            assert forall|a: int, b: int| 0 <= a < b < o.len() implies #[trigger] o[a] < #[trigger] o[b] by {
                if b < p {
                    assert(o[a] == old_out[a] && o[b] == old_out[b]);
                } else if b == p {
                    assert(o[a] == old_out[a]);
                } else if a == p {
                    assert(o[b] == old_out[b - 1]);
                } else if a < p {
                    assert(o[a] == old_out[a] && o[b] == old_out[b - 1]);
                } else {
                    assert(o[a] == old_out[a - 1] && o[b] == old_out[b - 1]);
                }
            }
            assert forall|y: u64| o.contains(y) <==> seen(v@, i + 1, y) by {
                if o.contains(y) {
                    let a = choose|a: int| 0 <= a < o.len() && o[a] == y;
                    if a < p {
                        assert(o[a] == old_out[a]);
                        assert(old_out.contains(y));
                    } else if a > p {
                        assert(o[a] == old_out[a - 1]);
                        assert(old_out.contains(y));
                    }
                    if y != x {
                        assert(seen(v@, i as int, y));
                        let t = choose|t: int| 0 <= t < i && #[trigger] v@[t] == y;
                        assert(v@[t] == y);
                    } else {
                        assert(v@[i as int] == y);
                    }
                }
                if seen(v@, i + 1, y) {
                    let t = choose|t: int| 0 <= t < i + 1 && #[trigger] v@[t] == y;
                    if t < i {
                        assert(seen(v@, i as int, y));
                        assert(old_out.contains(y));
                        let a = choose|a: int| 0 <= a < old_out.len() && old_out[a] == y;
                        if a < p {
                            assert(o[a] == y);
                        } else {
                            assert(o[a + 1] == y);
                        }
                    } else {
                        assert(o[p as int] == y);
                    }
                }
            }
        }
        i = i + 1;
    }
    proof {
        assert forall|y: u64| out@.to_set().contains(y) <==> v@.to_set().contains(y) by {
            if v@.contains(y) {
                let t = choose|t: int| 0 <= t < v@.len() && v@[t] == y;
                assert(seen(v@, v@.len() as int, y));
            }
        }
        assert(out@.to_set() =~= v@.to_set());
    }
    out
}

/// Some position of `idx` holds `t`.
pub open spec fn placed_at(idx: Seq<int>, t: int) -> bool {
    exists|j: int| 0 <= j < idx.len() && #[trigger] idx[j] == t
}

/// Some pair of `cs` is the change of table `h`.
pub open spec fn lists_handle(cs: Seq<(u64, TableChange)>, h: u64) -> bool {
    exists|j: int| 0 <= j < cs.len() && #[trigger] cs[j].0 == h
}

pub open spec fn has_handle(s: Seq<BoxTable>, h: u64) -> bool {
    exists|i: int| 0 <= i < s.len() && #[trigger] s[i].handle_id() == h
}

pub open spec fn unique_handles(s: Seq<BoxTable>) -> bool {
    forall|i: int, j: int|
        0 <= i < s.len() && 0 <= j < s.len() && i != j ==> #[trigger] s[i].handle_id() != #[trigger] s[j].handle_id()
}

pub open spec fn handle_pos(s: Seq<BoxTable>, h: u64) -> int {
    choose|i: int| 0 <= i < s.len() && #[trigger] s[i].handle_id() == h
}

pub open spec fn tables_of(s: Seq<BoxTable>) -> Map<u64, BoxTable> {
    Map::new(|h: u64| has_handle(s, h), |h: u64| s[handle_pos(s, h)])
}

pub proof fn lemma_handle_pos(s: Seq<BoxTable>, j: int)
    requires
        unique_handles(s),
        0 <= j < s.len(),
    ensures
        has_handle(s, s[j].handle_id()),
        handle_pos(s, s[j].handle_id()) == j,
{
    let h = s[j].handle_id();
    assert(s[j].handle_id() == h);
    let p = handle_pos(s, h);
    assert(0 <= p < s.len() && s[p].handle_id() == h);
}

/// Replacing the table at position `i` by one with the same handle replaces that
/// handle's table in the map and nothing else.
pub proof fn lemma_tables_update(s: Seq<BoxTable>, i: int, t: BoxTable)
    requires
        unique_handles(s),
        0 <= i < s.len(),
        t.handle_id() == s[i].handle_id(),
    ensures
        unique_handles(s.update(i, t)),
        tables_of(s.update(i, t)) == tables_of(s).insert(t.handle_id(), t),
{
    let u = s.update(i, t);
    assert forall|a: int, b: int|
        0 <= a < u.len() && 0 <= b < u.len() && a != b implies #[trigger] u[a].handle_id() != #[trigger] u[b].handle_id() by {
        if a != i {
            assert(u[a] == s[a]);
        }
        if b != i {
            assert(u[b] == s[b]);
        }
    }
    lemma_handle_pos(s, i);
    assert forall|h: u64| has_handle(u, h) <==> has_handle(s, h) by {
        if has_handle(u, h) {
            let a = choose|a: int| 0 <= a < u.len() && #[trigger] u[a].handle_id() == h;
            if a != i {
                assert(u[a] == s[a]);
            }
        }
        if has_handle(s, h) {
            let a = choose|a: int| 0 <= a < s.len() && #[trigger] s[a].handle_id() == h;
            assert(u[a].handle_id() == s[a].handle_id());
        }
    }
    assert forall|h: u64| #[trigger] has_handle(u, h) implies tables_of(u)[h] == tables_of(s).insert(
        t.handle_id(),
        t,
    )[h] by {
        let a = choose|a: int| 0 <= a < u.len() && #[trigger] u[a].handle_id() == h;
        lemma_handle_pos(u, a);
        if a != i {
            assert(u[a] == s[a]);
            lemma_handle_pos(s, a);
        }
    }
    assert(tables_of(u) =~= tables_of(s).insert(t.handle_id(), t));
}

pub fn find_table(s: &Vec<BoxTable>, h: u64) -> (r: Option<usize>)
    ensures
        r.is_none() <==> !has_handle(s@, h),
        r.is_some() ==> r.unwrap() < s@.len() && s@[r.unwrap() as int].handle_id() == h,
{
    let mut i: usize = 0;
    while i < s.len()
        invariant
            i <= s@.len(),
            forall|j: int| 0 <= j < i ==> #[trigger] s@[j].handle_id() != h,
        decreases s@.len() - i,
    {
        if s[i].handle() == h {
            return Some(i);
        }
        i = i + 1;
    }
    None
}

pub fn position_of(s: &Vec<u64>, h: u64) -> (r: Option<usize>)
    ensures
        r.is_none() <==> !s@.contains(h),
        r.is_some() ==> r.unwrap() < s@.len() && s@[r.unwrap() as int] == h,
{
    let mut i: usize = 0;
    while i < s.len()
        invariant
            i <= s@.len(),
            forall|j: int| 0 <= j < i ==> s@[j] != h,
        decreases s@.len() - i,
    {
        if s[i] == h {
            return Some(i);
        }
        i = i + 1;
    }
    None
}

pub proof fn lemma_remove_to_set(s: Seq<u64>, j: int)
    requires
        s.no_duplicates(),
        0 <= j < s.len(),
    ensures
        s.remove(j).no_duplicates(),
        s.remove(j).to_set() == s.to_set().remove(s[j]),
{
    let u = s.remove(j);
    assert forall|a: int, b: int| 0 <= a < u.len() && 0 <= b < u.len() && a != b implies u[a] != u[b] by {
        let sa = if a < j { a } else { a + 1 };
        let sb = if b < j { b } else { b + 1 };
        assert(u[a] == s[sa] && u[b] == s[sb]);
    }
    assert forall|x: u64| u.contains(x) <==> (s.contains(x) && x != s[j]) by {
        if u.contains(x) {
            let a = choose|a: int| 0 <= a < u.len() && u[a] == x;
            let sa = if a < j { a } else { a + 1 };
            assert(u[a] == s[sa]);
        }
        if s.contains(x) && x != s[j] {
            let a = choose|a: int| 0 <= a < s.len() && s[a] == x;
            if a < j {
                assert(u[a] == x);
            } else {
                assert(u[a - 1] == x);
            }
        }
    }
    assert(u.to_set() =~= s.to_set().remove(s[j]));
}

pub proof fn lemma_push_to_set(s: Seq<u64>, h: u64)
    requires
        s.no_duplicates(),
        !s.contains(h),
    ensures
        s.push(h).no_duplicates(),
        s.push(h).to_set() == s.to_set().insert(h),
{
    let u = s.push(h);
    assert forall|a: int, b: int| 0 <= a < u.len() && 0 <= b < u.len() && a != b implies u[a] != u[b] by {
        if a < s.len() && b < s.len() {
            assert(u[a] == s[a] && u[b] == s[b]);
        } else if a < s.len() {
            assert(u[a] == s[a]);
        } else {
            assert(u[b] == s[b]);
        }
    }
    assert forall|x: u64| u.contains(x) <==> (s.contains(x) || x == h) by {
        if u.contains(x) {
            let a = choose|a: int| 0 <= a < u.len() && u[a] == x;
            if a < s.len() {
                assert(u[a] == s[a]);
            }
        }
        if s.contains(x) {
            let a = choose|a: int| 0 <= a < s.len() && s[a] == x;
            assert(u[a] == x);
        }
        if x == h {
            assert(u[s.len() as int] == h);
        }
    }
    assert(u.to_set() =~= s.to_set().insert(h));
}

pub proof fn lemma_tables_push(s: Seq<BoxTable>, t: BoxTable)
    requires
        unique_handles(s),
        !has_handle(s, t.handle_id()),
    ensures
        unique_handles(s.push(t)),
        tables_of(s.push(t)) == tables_of(s).insert(t.handle_id(), t),
{
    let u = s.push(t);
    let n = s.len() as int;
    assert forall|a: int, b: int|
        0 <= a < u.len() && 0 <= b < u.len() && a != b implies #[trigger] u[a].handle_id() != #[trigger] u[b].handle_id() by {
        if a < n {
            assert(u[a] == s[a]);
        }
        if b < n {
            assert(u[b] == s[b]);
        }
    }
    assert forall|h: u64| has_handle(u, h) <==> (has_handle(s, h) || h == t.handle_id()) by {
        if has_handle(u, h) {
            let a = choose|a: int| 0 <= a < u.len() && #[trigger] u[a].handle_id() == h;
            if a < n {
                assert(u[a] == s[a]);
            }
        }
        if has_handle(s, h) {
            let a = choose|a: int| 0 <= a < s.len() && #[trigger] s[a].handle_id() == h;
            assert(u[a] == s[a]);
        }
        if h == t.handle_id() {
            assert(u[n].handle_id() == h);
        }
    }
    assert forall|h: u64| #[trigger] has_handle(u, h) implies tables_of(u)[h] == tables_of(s).insert(t.handle_id(), t)[h] by {
        let a = choose|a: int| 0 <= a < u.len() && #[trigger] u[a].handle_id() == h;
        lemma_handle_pos(u, a);
        if a < n {
            assert(u[a] == s[a]);
            lemma_handle_pos(s, a);
        }
    }
    assert(tables_of(u) =~= tables_of(s).insert(t.handle_id(), t));
}

pub proof fn lemma_tables_remove(s: Seq<BoxTable>, i: int)
    requires
        unique_handles(s),
        0 <= i < s.len(),
    ensures
        unique_handles(s.remove(i)),
        tables_of(s.remove(i)) == tables_of(s).remove(s[i].handle_id()),
{
    let u = s.remove(i);
    assert forall|a: int, b: int|
        0 <= a < u.len() && 0 <= b < u.len() && a != b implies #[trigger] u[a].handle_id() != #[trigger] u[b].handle_id() by {
        let sa = if a < i { a } else { a + 1 };
        let sb = if b < i { b } else { b + 1 };
        assert(u[a] == s[sa] && u[b] == s[sb]);
    }
    assert forall|h: u64| has_handle(u, h) <==> (has_handle(s, h) && h != s[i].handle_id()) by {
        if has_handle(u, h) {
            let a = choose|a: int| 0 <= a < u.len() && #[trigger] u[a].handle_id() == h;
            let sa = if a < i { a } else { a + 1 };
            assert(u[a] == s[sa]);
        }
        if has_handle(s, h) && h != s[i].handle_id() {
            let a = choose|a: int| 0 <= a < s.len() && #[trigger] s[a].handle_id() == h;
            if a < i {
                assert(u[a] == s[a]);
            } else {
                assert(u[a - 1] == s[a]);
            }
        }
    }
    assert forall|h: u64| #[trigger] has_handle(u, h) implies tables_of(u)[h] == tables_of(s)[h] by {
        let a = choose|a: int| 0 <= a < u.len() && #[trigger] u[a].handle_id() == h;
        lemma_handle_pos(u, a);
        let sa = if a < i { a } else { a + 1 };
        assert(u[a] == s[sa]);
        lemma_handle_pos(s, sa);
    }
    assert(tables_of(u) =~= tables_of(s).remove(s[i].handle_id()));
}

/// All tables, and which handles the current transaction created and removed.
pub struct BoxStore {
    tables: Vec<BoxTable>,
    created: Vec<u64>,
    dropped: Vec<u64>,
}

impl BoxStore {
    /// The live tables by handle.
    pub closed spec fn tables(&self) -> Map<u64, BoxTable> {
        tables_of(self.tables@)
    }

    /// Handles created in the current transaction and still live.
    pub closed spec fn created(&self) -> Set<u64> {
        self.created@.to_set()
    }

    /// Handles that existed before the current transaction and were dropped in it.
    pub closed spec fn dropped(&self) -> Set<u64> {
        self.dropped@.to_set()
    }

    pub closed spec fn wf(&self) -> bool {
        &&& unique_handles(self.tables@)
        &&& forall|i: int| 0 <= i < self.tables@.len() ==> (#[trigger] self.tables@[i]).wf()
        &&& self.created@.no_duplicates()
        &&& self.dropped@.no_duplicates()
        &&& forall|h: u64| self.created@.contains(h) ==> #[trigger] has_handle(self.tables@, h)
        &&& forall|h: u64| self.dropped@.contains(h) ==> !#[trigger] has_handle(self.tables@, h)
    }

    /// A well-formed store holds well-formed tables, and never counts a handle as both
    /// created and dropped.
    pub proof fn lemma_wf(&self)
        requires
            self.wf(),
        ensures
            forall|h: u64| #[trigger] self.tables().contains_key(h) ==> self.tables()[h].wf(),
            forall|h: u64| self.created().contains(h) ==> #[trigger] self.tables().contains_key(h),
            forall|h: u64| #[trigger] self.dropped().contains(h) ==> !self.tables().contains_key(h),
            self.created().disjoint(self.dropped()),
    {
        assert forall|h: u64| #[trigger] self.tables().contains_key(h) implies self.tables()[h].wf() by {
            let a = choose|a: int| 0 <= a < self.tables@.len() && #[trigger] self.tables@[a].handle_id() == h;
            lemma_handle_pos(self.tables@, a);
        }
        assert forall|h: u64| self.created().contains(h) implies !self.dropped().contains(h) by {
            assert(self.created@.contains(h));
            assert(has_handle(self.tables@, h));
            if self.dropped@.contains(h) {
                assert(!has_handle(self.tables@, h));
            }
        }
    }

    pub fn new() -> (r: BoxStore)
        ensures
            r.wf(),
            r.tables() == Map::<u64, BoxTable>::empty(),
            r.created() == Set::<u64>::empty(),
            r.dropped() == Set::<u64>::empty(),
    {
        let r = BoxStore { tables: Vec::new(), created: Vec::new(), dropped: Vec::new() };
        assert(tables_of(r.tables@) =~= Map::empty());
        assert(r.created@.to_set() =~= Set::empty());
        assert(r.dropped@.to_set() =~= Set::empty());
        r
    }

    /// Whether `key` is present in table `handle`; an unknown handle holds nothing.
    pub fn contains_box(&self, handle: u64, key: &KeyState) -> (r: bool)
        requires
            self.wf(),
        ensures
            r == (self.tables().contains_key(handle) && self.tables()[handle].contents().contains_key(key.model())),
    {
        match find_table(&self.tables, handle) {
            Some(i) => {
                proof {
                    lemma_handle_pos(self.tables@, i as int);
                }
                self.tables[i].contains_box(key)
            },
            None => false,
        }
    }

    pub fn borrow_box(&self, handle: u64, key: &KeyState) -> (r: Result<State, BoxError>)
        requires
            self.wf(),
        ensures
            !self.tables().contains_key(handle) ==> r == Err::<State, BoxError>(BoxError::InvalidTableHandle),
            self.tables().contains_key(handle) && self.tables()[handle].contents().contains_key(key.model()) ==> r.is_ok()
                && r.unwrap().model() == self.tables()[handle].contents()[key.model()],
            self.tables().contains_key(handle) && !self.tables()[handle].contents().contains_key(key.model()) ==> r
                == Err::<State, BoxError>(BoxError::NotFound),
    {
        match find_table(&self.tables, handle) {
            Some(i) => {
                proof {
                    lemma_handle_pos(self.tables@, i as int);
                }
                self.tables[i].borrow_box(key)
            },
            None => Err(BoxError::InvalidTableHandle),
        }
    }

    /// Reads the value under `key` in table `handle`, with the gas the read costs: the
    /// load base plus a charge per byte of the value when found, the load base plus the
    /// failure surcharge when not.
    pub fn load(&self, gas: &GasParameters, handle: u64, key: &KeyState) -> (r: (Result<State, BoxError>, u128))
        requires
            self.wf(),
        ensures
            !self.tables().contains_key(handle) ==> r.0 == Err::<State, BoxError>(BoxError::InvalidTableHandle),
            self.tables().contains_key(handle) && self.tables()[handle].contents().contains_key(key.model()) ==> r.0.is_ok()
                && r.0.unwrap().model() == self.tables()[handle].contents()[key.model()],
            self.tables().contains_key(handle) && !self.tables()[handle].contents().contains_key(key.model()) ==> r.0
                == Err::<State, BoxError>(BoxError::NotFound),
            r.0.is_ok() ==> r.1 == gas.load_base + gas.load_per_byte * r.0.unwrap().value@.len(),
            r.0.is_err() ==> r.1 == gas.load_base + gas.load_failure,
    {
        let found = self.borrow_box(handle, key);
        match found {
            Ok(st) => {
                let size = st.value.len() as u64;
                let cost = gas.load_cost(size);
                (Ok(st), cost)
            },
            Err(e) => (Err(e), gas.load_failure_cost()),
        }
    }

    pub fn box_length(&self, handle: u64) -> (r: Result<u64, BoxError>)
        requires
            self.wf(),
        ensures
            !self.tables().contains_key(handle) ==> r == Err::<u64, BoxError>(BoxError::InvalidTableHandle),
            self.tables().contains_key(handle) ==> r == Ok::<u64, BoxError>(self.tables()[handle].contents().len() as u64)
                && self.tables()[handle].contents().len() == r.unwrap(),
    {
        match find_table(&self.tables, handle) {
            Some(i) => {
                proof {
                    lemma_handle_pos(self.tables@, i as int);
                }
                Ok(self.tables[i].box_length())
            },
            None => Err(BoxError::InvalidTableHandle),
        }
    }

    /// Adds `value` under `key` in table `handle`; an unknown handle is a new table,
    /// born with this entry; a handle dropped in this transaction is refused.
    pub fn add_box(&mut self, handle: u64, key: KeyState, value: State) -> (r: Result<(), BoxError>)
        requires
            old(self).wf(),
        ensures
            final(self).wf(),
            old(self).dropped().contains(handle) ==> r == Err::<(), BoxError>(BoxError::InvalidTableHandle)
                && final(self).tables() == old(self).tables() && final(self).created() == old(self).created()
                && final(self).dropped() == old(self).dropped(),
            !old(self).dropped().contains(handle) && !old(self).tables().contains_key(handle) ==> r == Ok::<(), BoxError>(())
                && final(self).tables().contains_key(handle)
                && final(self).tables()[handle].contents() == Map::<(Seq<u8>, Seq<u8>), (Seq<u8>, Seq<u8>)>::empty().insert(
                key.model(),
                value.model(),
            ) && final(self).tables().remove(handle) == old(self).tables()
                && final(self).created() == old(self).created().insert(handle)
                && final(self).dropped() == old(self).dropped(),
            old(self).tables().contains_key(handle) ==> final(self).tables().contains_key(handle)
                && final(self).tables().remove(handle) == old(self).tables().remove(handle)
                && final(self).created() == old(self).created() && final(self).dropped() == old(self).dropped()
                && (old(self).tables()[handle].contents().contains_key(key.model()) ==> r == Err::<(), BoxError>(
                BoxError::DuplicateKey,
            ) && final(self).tables()[handle].contents() == old(self).tables()[handle].contents())
                && (!old(self).tables()[handle].contents().contains_key(key.model()) ==> r == Ok::<(), BoxError>(())
                && final(self).tables()[handle].contents() == old(self).tables()[handle].contents().insert(
                key.model(),
                value.model(),
            )),
    {
        proof {
            self.lemma_wf();
        }
        let ghost s = self.tables@;
        match find_table(&self.tables, handle) {
            Some(i) => {
                proof {
                    lemma_handle_pos(s, i as int);
                }
                let mut t = self.tables.remove(i);
                let r = t.add_box(key, value);
                self.tables.insert(i, t);
                proof {
                    assert(self.tables@ =~= s.update(i as int, t));
                    lemma_tables_update(s, i as int, t);
                    assert(tables_of(self.tables@).remove(handle) =~= tables_of(s).remove(handle));
                    assert forall|j: int| 0 <= j < self.tables@.len() implies (#[trigger] self.tables@[j]).wf() by {
                        if j != i {
                            assert(self.tables@[j] == s[j]);
                        }
                    }
                    assert(unique_handles(self.tables@));
                    assert(self.created@.no_duplicates());
                    assert(self.dropped@.no_duplicates());
                    assert forall|h: u64| self.created@.contains(h) implies #[trigger] has_handle(self.tables@, h) by {
                        assert(old(self).created@.contains(h));
                        assert(has_handle(s, h));
                        assert(tables_of(self.tables@).contains_key(h) == tables_of(s).contains_key(h));
                    }
                    assert forall|h: u64| self.dropped@.contains(h) implies !#[trigger] has_handle(self.tables@, h) by {
                        assert(old(self).dropped@.contains(h));
                        assert(!has_handle(s, h));
                        assert(tables_of(self.tables@).contains_key(h) == tables_of(s).contains_key(h));
                    }
                    assert(self.wf());
                }
                r
            },
            None => {
                if position_of(&self.dropped, handle).is_some() {
                    return Err(BoxError::InvalidTableHandle);
                }
                let mut t = BoxTable::new(handle);
                let _ = t.add_box(key, value);
                self.tables.push(t);
                proof {
                    lemma_tables_push(s, t);
                    assert(tables_of(self.tables@).remove(handle) =~= tables_of(s));
                    assert(!self.created@.contains(handle));
                    assert forall|j: int| 0 <= j < self.tables@.len() implies (#[trigger] self.tables@[j]).wf() by {
                        if j < s.len() {
                            assert(self.tables@[j] == s[j]);
                        }
                    }
                    assert(t.contents() =~= Map::<(Seq<u8>, Seq<u8>), (Seq<u8>, Seq<u8>)>::empty().insert(
                        key.model(),
                        value.model(),
                    ));
                }
                proof {
                    lemma_push_to_set(self.created@, handle);
                }
                self.created.push(handle);
                proof {
                    assert forall|h: u64| self.dropped@.contains(h) implies !#[trigger] has_handle(self.tables@, h) by {
                        assert(tables_of(self.tables@).contains_key(h) == (tables_of(s).contains_key(h) || h == handle));
                    }
                    assert forall|h: u64| self.created@.contains(h) implies #[trigger] has_handle(self.tables@, h) by {
                        assert(tables_of(self.tables@).contains_key(h) == (tables_of(s).contains_key(h) || h == handle));
                    }
                    assert(self.wf());
                }
                Ok(())
            },
        }
    }

    /// Removes the value under `key` in table `handle` and hands it back.
    pub fn remove_box(&mut self, handle: u64, key: &KeyState) -> (r: Result<State, BoxError>)
        requires
            old(self).wf(),
        ensures
            final(self).wf(),
            final(self).created() == old(self).created(),
            final(self).dropped() == old(self).dropped(),
            !old(self).tables().contains_key(handle) ==> r == Err::<State, BoxError>(BoxError::InvalidTableHandle)
                && final(self).tables() == old(self).tables(),
            old(self).tables().contains_key(handle) ==> final(self).tables().contains_key(handle)
                && final(self).tables().remove(handle) == old(self).tables().remove(handle)
                && (!old(self).tables()[handle].contents().contains_key(key.model()) ==> r == Err::<State, BoxError>(
                BoxError::NotFound,
            ) && final(self).tables()[handle].contents() == old(self).tables()[handle].contents())
                && (old(self).tables()[handle].contents().contains_key(key.model()) ==> r.is_ok() && r.unwrap().model()
                == old(self).tables()[handle].contents()[key.model()] && final(self).tables()[handle].contents()
                == old(self).tables()[handle].contents().remove(key.model())),
    {
        proof {
            self.lemma_wf();
        }
        let ghost s = self.tables@;
        match find_table(&self.tables, handle) {
            Some(i) => {
                proof {
                    lemma_handle_pos(s, i as int);
                }
                let mut t = self.tables.remove(i);
                let r = t.remove_box(key);
                self.tables.insert(i, t);
                proof {
                    assert(self.tables@ =~= s.update(i as int, t));
                    lemma_tables_update(s, i as int, t);
                    assert(tables_of(self.tables@).remove(handle) =~= tables_of(s).remove(handle));
                    assert forall|j: int| 0 <= j < self.tables@.len() implies (#[trigger] self.tables@[j]).wf() by {
                        if j != i {
                            assert(self.tables@[j] == s[j]);
                        }
                    }
                    assert forall|h: u64| self.created@.contains(h) implies #[trigger] has_handle(self.tables@, h) by {
                        assert(old(self).created@.contains(h));
                        assert(has_handle(s, h));
                        assert(tables_of(self.tables@).contains_key(h) == tables_of(s).contains_key(h));
                    }
                    assert forall|h: u64| self.dropped@.contains(h) implies !#[trigger] has_handle(self.tables@, h) by {
                        assert(old(self).dropped@.contains(h));
                        assert(!has_handle(s, h));
                        assert(tables_of(self.tables@).contains_key(h) == tables_of(s).contains_key(h));
                    }
                }
                r
            },
            None => Err(BoxError::InvalidTableHandle),
        }
    }

    /// Discards table `handle` whole. A table created in this transaction leaves no
    /// trace; one that existed before is recorded as removed.
    pub fn drop_unchecked_box(&mut self, handle: u64) -> (r: Result<(), BoxError>)
        requires
            old(self).wf(),
        ensures
            final(self).wf(),
            !old(self).tables().contains_key(handle) ==> r == Err::<(), BoxError>(BoxError::InvalidTableHandle)
                && final(self).tables() == old(self).tables() && final(self).created() == old(self).created()
                && final(self).dropped() == old(self).dropped(),
            old(self).tables().contains_key(handle) ==> r == Ok::<(), BoxError>(())
                && final(self).tables() == old(self).tables().remove(handle),
            old(self).tables().contains_key(handle) && old(self).created().contains(handle) ==> final(self).created()
                == old(self).created().remove(handle) && final(self).dropped() == old(self).dropped(),
            old(self).tables().contains_key(handle) && !old(self).created().contains(handle) ==> final(self).created()
                == old(self).created() && final(self).dropped() == old(self).dropped().insert(handle),
    {
        proof {
            self.lemma_wf();
        }
        let ghost s = self.tables@;
        let i = match find_table(&self.tables, handle) {
            Some(i) => i,
            None => {
                return Err(BoxError::InvalidTableHandle);
            },
        };
        proof {
            lemma_handle_pos(s, i as int);
            lemma_tables_remove(s, i as int);
        }
        let _ = self.tables.remove(i);
        proof {
            assert forall|j: int| 0 <= j < self.tables@.len() implies (#[trigger] self.tables@[j]).wf() by {
                if j < i {
                    assert(self.tables@[j] == s[j]);
                } else {
                    assert(self.tables@[j] == s[j + 1]);
                }
            }
        }
        match position_of(&self.created, handle) {
            Some(j) => {
                proof {
                    lemma_remove_to_set(self.created@, j as int);
                }
                let _ = self.created.remove(j);
                proof {
                    assert forall|h: u64| self.created@.contains(h) implies #[trigger] has_handle(self.tables@, h) by {
                        assert(old(self).created@.contains(h) && h != handle);
                        assert(has_handle(s, h));
                        assert(tables_of(self.tables@).contains_key(h) == (tables_of(s).contains_key(h) && h != handle));
                    }
                    assert forall|h: u64| self.dropped@.contains(h) implies !#[trigger] has_handle(self.tables@, h) by {
                        assert(!has_handle(s, h));
                        assert(tables_of(self.tables@).contains_key(h) == (tables_of(s).contains_key(h) && h != handle));
                    }
                }
            },
            None => {
                proof {
                    assert(!self.dropped@.contains(handle));
                    lemma_push_to_set(self.dropped@, handle);
                }
                self.dropped.push(handle);
                proof {
                    assert forall|h: u64| self.created@.contains(h) implies #[trigger] has_handle(self.tables@, h) by {
                        assert(has_handle(s, h));
                        assert(tables_of(self.tables@).contains_key(h) == (tables_of(s).contains_key(h) && h != handle));
                    }
                    assert forall|h: u64| self.dropped@.contains(h) implies !#[trigger] has_handle(self.tables@, h) by {
                        assert(tables_of(self.tables@).contains_key(h) == (tables_of(s).contains_key(h) && h != handle));
                        if h != handle {
                            assert(old(self).dropped@.contains(h));
                        }
                    }
                }
            },
        }
        Ok(())
    }

    /// Ends the transaction: the handles it created and removed, and the net change of
    /// every live table whose change is not empty, by ascending handle.
    /// Each table's next transaction starts from its current contents.
    #[verifier::spinoff_prover]
    #[verifier::rlimit(50)]
    pub fn commit(&mut self) -> (r: StateChangeSet)
        requires
            old(self).wf(),
            forall|h: u64| #[trigger] old(self).tables().contains_key(h) ==> old(self).tables()[h].contents().len() <= i64::MAX,
        ensures
            final(self).wf(),
            final(self).tables().dom() == old(self).tables().dom(),
            forall|h: u64| #[trigger] final(self).tables().contains_key(h) ==> {
                &&& final(self).tables()[h].contents() == old(self).tables()[h].contents()
                &&& final(self).tables()[h].base() == old(self).tables()[h].contents()
                &&& final(self).tables()[h].before() == Map::<(Seq<u8>, Seq<u8>), Option<(Seq<u8>, Seq<u8>)>>::empty()
            },
            final(self).created() == Set::<u64>::empty(),
            final(self).dropped() == Set::<u64>::empty(),
            r.new_tables@.to_set() == old(self).created(),
            r.removed_tables@.to_set() == old(self).dropped(),
            r.new_tables@.to_set().disjoint(r.removed_tables@.to_set()),
            r.wf(),
            forall|j: int| 0 <= j < r.changes@.len() ==> old(self).tables().contains_key(#[trigger] r.changes@[j].0)
                && r.changes@[j].1.entries@.len() > 0 && is_change_of(old(self).tables()[r.changes@[j].0], r.changes@[j].1),
            forall|a: int, b: int| 0 <= a < b < r.changes@.len() ==> #[trigger] r.changes@[a].0 < #[trigger] r.changes@[b].0,
            forall|h: u64| #[trigger] old(self).tables().contains_key(h) && has_net_change(old(self).tables()[h]) ==> lists_handle(
                r.changes@,
                h,
            ),
    {
        proof {
            self.lemma_wf();
        }
        let ghost s = self.tables@;
        proof {
            assert forall|j: int| 0 <= j < s.len() implies s[j].contents().len() <= i64::MAX && s[j].wf() by {
                lemma_handle_pos(s, j);
                assert(self.tables@[j].wf());
                assert(old(self).tables().contains_key(s[j].handle_id()));
                assert(old(self).tables()[s[j].handle_id()] == s[j]);
            }
        }
        let mut changes: Vec<(u64, TableChange)> = Vec::new();
        let ghost mut cidx: Seq<int> = Seq::empty();
        let mut i: usize = 0;
        while i < self.tables.len()
            invariant
                self.tables@.len() == s.len(),
                i <= s.len(),
                unique_handles(s),
                self.created@ == old(self).created@,
                self.dropped@ == old(self).dropped@,
                forall|j: int| 0 <= j < s.len() ==> s[j].contents().len() <= i64::MAX && s[j].wf(),
                forall|j: int| 0 <= j < s.len() ==> (#[trigger] self.tables@[j]).handle_id() == s[j].handle_id()
                    && self.tables@[j].wf(),
                forall|j: int| 0 <= j < i ==> {
                    &&& (#[trigger] self.tables@[j]).contents() == s[j].contents()
                    &&& self.tables@[j].base() == s[j].contents()
                    &&& self.tables@[j].before() == Map::<(Seq<u8>, Seq<u8>), Option<(Seq<u8>, Seq<u8>)>>::empty()
                },
                forall|j: int| i <= j < s.len() ==> #[trigger] self.tables@[j] == s[j],
                cidx.len() == changes@.len(),
                forall|j: int| 0 <= j < cidx.len() ==> 0 <= #[trigger] cidx[j] < i && changes@[j].0 == s[cidx[j]].handle_id()
                    && is_change_of(s[cidx[j]], changes@[j].1) && changes@[j].1.entries@.len() > 0,
                forall|a: int, b: int| 0 <= a < b < changes@.len() ==> #[trigger] changes@[a].0 < #[trigger] changes@[b].0,
                forall|t: int| 0 <= t < i && #[trigger] has_net_change(s[t]) ==> placed_at(cidx, t),
            decreases s.len() - i,
        {
            proof {
                lemma_handle_pos(s, i as int);
            }
            let ghost before_tables = self.tables@;
            let mut t = self.tables.remove(i);
            let h = t.handle();
            let c = t.take_change();
            proof {
                lemma_change_nonempty(s[i as int], c);
            }
            self.tables.insert(i, t);
            proof {
                assert(self.tables@ =~= before_tables.update(i as int, t));
            }
            if c.entries.len() > 0 {
                let ghost old_changes = changes@;
                let ghost old_cidx = cidx;
                let mut p: usize = 0;
                while p < changes.len() && changes[p].0 < h
                    invariant
                        p <= changes@.len(),
                        forall|j: int| 0 <= j < p ==> #[trigger] changes@[j].0 < h,
                    decreases changes@.len() - p,
                {
                    p = p + 1;
                }
                proof {
                    if p < changes@.len() {
                        assert(cidx[p as int] != i);
                        assert(changes@[p as int].0 != h);
                        assert(changes@[p as int].0 > h);
                    }
                }
                changes.insert(p, (h, c));
                proof {
                    cidx = cidx.insert(p as int, i as int);
                    assert(s[i as int].handle_id() == h);
                    assert forall|j: int| 0 <= j < cidx.len() implies 0 <= #[trigger] cidx[j] < i + 1 && changes@[j].0
                        == s[cidx[j]].handle_id() && is_change_of(s[cidx[j]], changes@[j].1) && changes@[j].1.entries@.len() > 0 by {
                        if j < p {
                            assert(cidx[j] == old_cidx[j] && changes@[j] == old_changes[j]);
                        } else if j > p {
                            assert(cidx[j] == old_cidx[j - 1] && changes@[j] == old_changes[j - 1]);
                        }
                    }
                    assert forall|x: int, y: int| 0 <= x < y < changes@.len() implies #[trigger] changes@[x].0
                        < #[trigger] changes@[y].0 by {
                        if y < p {
                            assert(changes@[x] == old_changes[x] && changes@[y] == old_changes[y]);
                        } else if y == p {
                            assert(changes@[x] == old_changes[x]);
                        } else if x == p {
                            assert(changes@[y] == old_changes[y - 1]);
                        } else if x < p {
                            assert(changes@[x] == old_changes[x] && changes@[y] == old_changes[y - 1]);
                        } else {
                            assert(changes@[x] == old_changes[x - 1] && changes@[y] == old_changes[y - 1]);
                        }
                    }
                    assert forall|t: int| 0 <= t < i + 1 && #[trigger] has_net_change(s[t]) implies placed_at(cidx, t) by {
                        if t == i {
                            assert(cidx[p as int] == t);
                        } else {
                            assert(placed_at(old_cidx, t));
                            let j = choose|j: int| 0 <= j < old_cidx.len() && #[trigger] old_cidx[j] == t;
                            if j < p {
                                assert(cidx[j] == t);
                            } else {
                                assert(cidx[j + 1] == t);
                            }
                        }
                    }
                }
            }
            i = i + 1;
        }
        proof {
            assert(old(self).tables() == tables_of(s));
            assert forall|j: int| 0 <= j < changes@.len() implies old(self).tables().contains_key(#[trigger] changes@[j].0)
                && changes@[j].1.entries@.len() > 0 && is_change_of(old(self).tables()[changes@[j].0], changes@[j].1) by {
                lemma_handle_pos(s, cidx[j]);
            }
            assert forall|h: u64| #[trigger] old(self).tables().contains_key(h) && has_net_change(old(self).tables()[h]) implies lists_handle(
                changes@,
                h,
            ) by {
                let t = handle_pos(s, h);
                assert(s[t].handle_id() == h);
                assert(has_net_change(s[t]));
                assert(placed_at(cidx, t));
                let j = choose|j: int| 0 <= j < cidx.len() && #[trigger] cidx[j] == t;
                assert(changes@[j].0 == h);
            }
        }
        proof {
            let u = self.tables@;
            assert forall|a: int, b: int|
                0 <= a < u.len() && 0 <= b < u.len() && a != b implies #[trigger] u[a].handle_id() != #[trigger] u[b].handle_id() by {
                assert(u[a].handle_id() == s[a].handle_id() && u[b].handle_id() == s[b].handle_id());
            }
            assert forall|h: u64| has_handle(u, h) <==> has_handle(s, h) by {
                if has_handle(u, h) {
                    let a = choose|a: int| 0 <= a < u.len() && #[trigger] u[a].handle_id() == h;
                    assert(s[a].handle_id() == h);
                }
                if has_handle(s, h) {
                    let a = choose|a: int| 0 <= a < s.len() && #[trigger] s[a].handle_id() == h;
                    assert(u[a].handle_id() == h);
                }
            }
            assert(tables_of(u).dom() =~= tables_of(s).dom());
            assert forall|h: u64| #[trigger] tables_of(u).contains_key(h) implies {
                &&& tables_of(u)[h].contents() == tables_of(s)[h].contents()
                &&& tables_of(u)[h].base() == tables_of(s)[h].contents()
                &&& tables_of(u)[h].before() == Map::<(Seq<u8>, Seq<u8>), Option<(Seq<u8>, Seq<u8>)>>::empty()
            } by {
                let a = choose|a: int| 0 <= a < u.len() && #[trigger] u[a].handle_id() == h;
                lemma_handle_pos(u, a);
                assert(s[a].handle_id() == h);
                lemma_handle_pos(s, a);
            }
            assert forall|j: int| 0 <= j < u.len() implies (#[trigger] u[j]).wf() by {
            }
        }
        let new_tables = sort_handles(&self.created);
        let removed_tables = sort_handles(&self.dropped);
        self.created = Vec::new();
        self.dropped = Vec::new();
        proof {
            assert(self.created@.to_set() =~= Set::empty());
            assert(self.dropped@.to_set() =~= Set::empty());
        }
        proof {
            assert forall|j: int| 0 <= j < changes@.len() implies sorted_keys(#[trigger] changes@[j].1.entries@) by {
                assert(is_change_of(s[cidx[j]], changes@[j].1));
            }
            assert(new_tables@.to_set() == old(self).created@.to_set());
            assert(removed_tables@.to_set() == old(self).dropped@.to_set());
        }
        StateChangeSet { new_tables, removed_tables, changes }
    }
}

/// A table created and dropped within one transaction appears in neither the new nor
/// the removed handles of that transaction's change set, and has no change in it.
pub proof fn lemma_created_then_dropped_leaves_no_trace(
    s0: BoxStore,
    s1: BoxStore,
    s2: BoxStore,
    h: u64,
    r: StateChangeSet,
)
    requires
        s0.wf(),
        !s0.tables().contains_key(h),
        !s0.dropped().contains(h),
        s1.tables().contains_key(h),
        s1.created() == s0.created().insert(h),
        s1.dropped() == s0.dropped(),
        s2.tables() == s1.tables().remove(h),
        s2.created() == s1.created().remove(h),
        s2.dropped() == s1.dropped(),
        r.new_tables@.to_set() == s2.created(),
        r.removed_tables@.to_set() == s2.dropped(),
        forall|j: int| 0 <= j < r.changes@.len() ==> s2.tables().contains_key(#[trigger] r.changes@[j].0),
    ensures
        !r.new_tables@.contains(h),
        !r.removed_tables@.contains(h),
        forall|j: int| 0 <= j < r.changes@.len() ==> #[trigger] r.changes@[j].0 != h,
{
    s0.lemma_wf();
    assert(!r.new_tables@.to_set().contains(h));
    assert(!r.removed_tables@.to_set().contains(h));
    assert forall|j: int| 0 <= j < r.changes@.len() implies #[trigger] r.changes@[j].0 != h by {
        assert(s2.tables().contains_key(r.changes@[j].0));
    }
}

} // verus!
