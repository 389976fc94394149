use crate::state::{KeyState, Op, State, TableChange, key_lt, lemma_key_order_total, op_model};
use vstd::prelude::*;

verus! {

/// Why a box operation was refused.
#[derive(Clone, Copy, Debug, PartialEq, Eq, Structural)]
pub enum BoxError {
    NotFound,
    DuplicateKey,
    InvalidTableHandle,
}

/// Some position of `s` holds key `k`.
pub open spec fn has_key<X>(s: Seq<(KeyState, X)>, k: (Seq<u8>, Seq<u8>)) -> bool {
    exists|i: int| 0 <= i < s.len() && #[trigger] s[i].0.model() == k
}

/// No key occurs twice in `s`.
pub open spec fn unique_keys<X>(s: Seq<(KeyState, X)>) -> bool {
    forall|i: int, j: int|
        0 <= i < s.len() && 0 <= j < s.len() && i != j ==> #[trigger] s[i].0.model() != #[trigger] s[j].0.model()
}

/// The keys of `s` strictly ascend in the canonical key order.
pub open spec fn sorted_keys<X>(s: Seq<(KeyState, X)>) -> bool {
    forall|i: int, j: int|
        0 <= i < j < s.len() ==> key_lt(#[trigger] s[i].0.model(), #[trigger] s[j].0.model())
}

/// The position of key `k` in `s`.
pub open spec fn pos_of<X>(s: Seq<(KeyState, X)>, k: (Seq<u8>, Seq<u8>)) -> int {
    choose|i: int| 0 <= i < s.len() && #[trigger] s[i].0.model() == k
}

/// The table's contents as a map from key to value.
pub open spec fn contents_of(s: Seq<(KeyState, State)>) -> Map<(Seq<u8>, Seq<u8>), (Seq<u8>, Seq<u8>)> {
    Map::new(|k: (Seq<u8>, Seq<u8>)| has_key(s, k), |k: (Seq<u8>, Seq<u8>)| s[pos_of(s, k)].1.model())
}

/// The value that key `k` held before the transaction, for each touched key.
pub open spec fn before_of(s: Seq<(KeyState, Option<State>)>) -> Map<(Seq<u8>, Seq<u8>), Option<(Seq<u8>, Seq<u8>)>> {
    Map::new(
        |k: (Seq<u8>, Seq<u8>)| has_key(s, k),
        |k: (Seq<u8>, Seq<u8>)|
            match s[pos_of(s, k)].1 {
                Some(v) => Some(v.model()),
                None => None,
            },
    )
}

pub open spec fn get_opt(
    m: Map<(Seq<u8>, Seq<u8>), (Seq<u8>, Seq<u8>)>,
    k: (Seq<u8>, Seq<u8>),
) -> Option<(Seq<u8>, Seq<u8>)> {
    if m.contains_key(k) {
        Some(m[k])
    } else {
        None
    }
}

/// The net operation on a key, given its value before and after a transaction; a key
/// that was absent before and after leaves no entry.
pub open spec fn net_op(
    before: Option<(Seq<u8>, Seq<u8>)>,
    after: Option<(Seq<u8>, Seq<u8>)>,
) -> Option<Op<(Seq<u8>, Seq<u8>)>> {
    match (before, after) {
        (None, None) => None,
        (None, Some(v)) => Some(Op::New(v)),
        (Some(_), Some(v)) => Some(Op::Modify(v)),
        (Some(_), None) => Some(Op::Delete),
    }
}

pub proof fn lemma_pos_of<X>(s: Seq<(KeyState, X)>, j: int)
    requires
        unique_keys(s),
        0 <= j < s.len(),
    ensures
        has_key(s, s[j].0.model()),
        pos_of(s, s[j].0.model()) == j,
{
    let k = s[j].0.model();
    assert(s[j].0.model() == k);
    let p = pos_of(s, k);
    assert(0 <= p < s.len() && s[p].0.model() == k);
}

pub proof fn lemma_sorted_unique<X>(s: Seq<(KeyState, X)>)
    requires
        sorted_keys(s),
    ensures
        unique_keys(s),
{
    assert forall|i: int, j: int|
        0 <= i < s.len() && 0 <= j < s.len() && i != j implies #[trigger] s[i].0.model() != #[trigger] s[j].0.model() by {
        lemma_key_order_total(s[i].0.model(), s[j].0.model(), s[j].0.model());
        lemma_key_order_total(s[j].0.model(), s[i].0.model(), s[i].0.model());
        if i < j {
            assert(key_lt(s[i].0.model(), s[j].0.model()));
        } else {
            assert(key_lt(s[j].0.model(), s[i].0.model()));
        }
    }
}

/// Finds the position of `k` in `s`.
pub fn find_key<X>(s: &Vec<(KeyState, X)>, k: &KeyState) -> (r: Option<usize>)
    ensures
        r.is_none() <==> !has_key(s@, k.model()),
        r.is_some() ==> r.unwrap() < s@.len() && s@[r.unwrap() as int].0.model() == k.model(),
{
    let mut i: usize = 0;
    while i < s.len()
        invariant
            i <= s@.len(),
            forall|j: int| 0 <= j < i ==> #[trigger] s@[j].0.model() != k.model(),
        decreases s@.len() - i,
    {
        if s[i].0.same_key(k) {
            return Some(i);
        }
        i = i + 1;
    }
    None
}

pub proof fn lemma_insert_unique<X>(s: Seq<(KeyState, X)>, p: int, e: (KeyState, X))
    requires
        unique_keys(s),
        0 <= p <= s.len(),
        !has_key(s, e.0.model()),
    ensures
        unique_keys(s.insert(p, e)),
        forall|k: (Seq<u8>, Seq<u8>)| has_key(s.insert(p, e), k) <==> (has_key(s, k) || k == e.0.model()),
{
    let t = s.insert(p, e);
    assert forall|i: int, j: int|
        0 <= i < t.len() && 0 <= j < t.len() && i != j implies #[trigger] t[i].0.model() != #[trigger] t[j].0.model() by {
        let si = if i < p { i } else { i - 1 };
        let sj = if j < p { j } else { j - 1 };
        if i == p {
            assert(t[j] == s[sj]);
            assert(s[sj].0.model() != e.0.model());
        } else if j == p {
            assert(t[i] == s[si]);
            assert(s[si].0.model() != e.0.model());
        } else {
            assert(t[i] == s[si]);
            assert(t[j] == s[sj]);
        }
    }
    assert forall|k: (Seq<u8>, Seq<u8>)| has_key(t, k) <==> (has_key(s, k) || k == e.0.model()) by {
        if has_key(t, k) {
            let i = choose|i: int| 0 <= i < t.len() && #[trigger] t[i].0.model() == k;
            if i < p {
                assert(t[i] == s[i]);
            } else if i > p {
                assert(t[i] == s[i - 1]);
            }
        }
        if has_key(s, k) {
            let i = choose|i: int| 0 <= i < s.len() && #[trigger] s[i].0.model() == k;
            if i < p {
                assert(t[i] == s[i]);
            } else {
                assert(t[i + 1] == s[i]);
            }
        }
        if k == e.0.model() {
            assert(t[p] == e);
        }
    }
}

pub proof fn lemma_remove_unique<X>(s: Seq<(KeyState, X)>, p: int)
    requires
        unique_keys(s),
        0 <= p < s.len(),
    ensures
        unique_keys(s.remove(p)),
        forall|k: (Seq<u8>, Seq<u8>)| has_key(s.remove(p), k) <==> (has_key(s, k) && k != s[p].0.model()),
{
    let t = s.remove(p);
    assert forall|i: int, j: int|
        0 <= i < t.len() && 0 <= j < t.len() && i != j implies #[trigger] t[i].0.model() != #[trigger] t[j].0.model() by {
        let si = if i < p { i } else { i + 1 };
        let sj = if j < p { j } else { j + 1 };
        assert(t[i] == s[si]);
        assert(t[j] == s[sj]);
    }
    assert forall|k: (Seq<u8>, Seq<u8>)| has_key(t, k) <==> (has_key(s, k) && k != s[p].0.model()) by {
        if has_key(t, k) {
            let i = choose|i: int| 0 <= i < t.len() && #[trigger] t[i].0.model() == k;
            let si = if i < p { i } else { i + 1 };
            assert(t[i] == s[si]);
        }
        if has_key(s, k) && k != s[p].0.model() {
            let i = choose|i: int| 0 <= i < s.len() && #[trigger] s[i].0.model() == k;
            if i < p {
                assert(t[i] == s[i]);
            } else {
                assert(t[i - 1] == s[i]);
            }
        }
    }
}

pub proof fn lemma_contents_insert(s: Seq<(KeyState, State)>, p: int, e: (KeyState, State))
    requires
        unique_keys(s),
        0 <= p <= s.len(),
        !has_key(s, e.0.model()),
    ensures
        unique_keys(s.insert(p, e)),
        contents_of(s.insert(p, e)) == contents_of(s).insert(e.0.model(), e.1.model()),
{
    let t = s.insert(p, e);
    lemma_insert_unique(s, p, e);
    assert forall|k: (Seq<u8>, Seq<u8>)| #[trigger] has_key(t, k) implies
        contents_of(t)[k] == contents_of(s).insert(e.0.model(), e.1.model())[k] by {
        let i = choose|i: int| 0 <= i < t.len() && #[trigger] t[i].0.model() == k;
        lemma_pos_of(t, i);
        if i < p {
            assert(t[i] == s[i]);
            lemma_pos_of(s, i);
        } else if i > p {
            assert(t[i] == s[i - 1]);
            lemma_pos_of(s, i - 1);
        }
    }
    assert(contents_of(t) =~= contents_of(s).insert(e.0.model(), e.1.model()));
}

pub proof fn lemma_contents_remove(s: Seq<(KeyState, State)>, p: int)
    requires
        unique_keys(s),
        0 <= p < s.len(),
    ensures
        unique_keys(s.remove(p)),
        contents_of(s.remove(p)) == contents_of(s).remove(s[p].0.model()),
{
    let t = s.remove(p);
    lemma_remove_unique(s, p);
    assert forall|k: (Seq<u8>, Seq<u8>)| #[trigger] has_key(t, k) implies
        contents_of(t)[k] == contents_of(s)[k] by {
        let i = choose|i: int| 0 <= i < t.len() && #[trigger] t[i].0.model() == k;
        lemma_pos_of(t, i);
        let si = if i < p { i } else { i + 1 };
        assert(t[i] == s[si]);
        lemma_pos_of(s, si);
    }
    assert(contents_of(t) =~= contents_of(s).remove(s[p].0.model()));
}

pub proof fn lemma_before_insert(s: Seq<(KeyState, Option<State>)>, p: int, e: (KeyState, Option<State>))
    requires
        unique_keys(s),
        0 <= p <= s.len(),
        !has_key(s, e.0.model()),
    ensures
        unique_keys(s.insert(p, e)),
        before_of(s.insert(p, e)) == before_of(s).insert(
            e.0.model(),
            match e.1 {
                Some(v) => Some(v.model()),
                None => None,
            },
        ),
{
    let t = s.insert(p, e);
    lemma_insert_unique(s, p, e);
    let ev = match e.1 {
        Some(v) => Some(v.model()),
        None => None,
    };
    assert forall|k: (Seq<u8>, Seq<u8>)| #[trigger] has_key(t, k) implies before_of(t)[k] == before_of(s).insert(
        e.0.model(),
        ev,
    )[k] by {
        let i = choose|i: int| 0 <= i < t.len() && #[trigger] t[i].0.model() == k;
        lemma_pos_of(t, i);
        if i < p {
            assert(t[i] == s[i]);
            lemma_pos_of(s, i);
        } else if i > p {
            assert(t[i] == s[i - 1]);
            lemma_pos_of(s, i - 1);
        }
    }
    assert(before_of(t) =~= before_of(s).insert(e.0.model(), ev));
}

/// A table with unique keys holds as many entries as its contents map.
pub proof fn lemma_contents_len(s: Seq<(KeyState, State)>)
    requires
        unique_keys(s),
    ensures
        contents_of(s).dom().finite(),
        contents_of(s).len() == s.len(),
    decreases s.len(),
{
    if s.len() == 0 {
        assert(contents_of(s) =~= Map::empty());
    } else {
        let n = s.len() - 1;
        let d = s.drop_last();
        assert(unique_keys(d)) by {
            assert forall|i: int, j: int|
                0 <= i < d.len() && 0 <= j < d.len() && i != j implies #[trigger] d[i].0.model() != #[trigger] d[j].0.model() by {
                assert(d[i] == s[i] && d[j] == s[j]);
            }
        }
        assert(!has_key(d, s[n].0.model())) by {
            if has_key(d, s[n].0.model()) {
                let i = choose|i: int| 0 <= i < d.len() && #[trigger] d[i].0.model() == s[n].0.model();
                assert(d[i] == s[i]);
            }
        }
        lemma_contents_len(d);
        assert(d.insert(n, s[n]) =~= s);
        lemma_contents_insert(d, n, s[n]);
    }
}

/// The weight of an operation in the net count of entries: a new key adds one, a
/// deleted key takes one away, a modification leaves the count.
pub open spec fn op_weight(op: Op<State>) -> int {
    match op {
        Op::New(_) => 1,
        Op::Modify(_) => 0,
        Op::Delete => -1,
    }
}

pub open spec fn opt_weight(op: Option<Op<State>>) -> int {
    match op {
        Some(o) => op_weight(o),
        None => 0,
    }
}

pub open spec fn opt_model(op: Option<Op<State>>) -> Option<Op<(Seq<u8>, Seq<u8>)>> {
    match op {
        Some(o) => Some(op_model(o)),
        None => None,
    }
}

/// The number of new keys minus the number of deleted keys in a change's entries.
pub open spec fn net_count(s: Seq<(KeyState, Op<State>)>) -> int
    decreases s.len(),
{
    if s.len() == 0 {
        0
    } else {
        net_count(s.drop_last()) + op_weight(s.last().1)
    }
}

/// The set of keys that occur in `s`.
pub open spec fn key_set<X>(s: Seq<(KeyState, X)>) -> Set<(Seq<u8>, Seq<u8>)>
    decreases s.len(),
{
    if s.len() == 0 {
        Set::empty()
    } else {
        key_set(s.drop_last()).insert(s.last().0.model())
    }
}

pub proof fn lemma_key_set<X>(s: Seq<(KeyState, X)>)
    ensures
        key_set(s).finite(),
        forall|k: (Seq<u8>, Seq<u8>)| key_set(s).contains(k) <==> has_key(s, k),
    decreases s.len(),
{
    if s.len() > 0 {
        let d = s.drop_last();
        lemma_key_set(d);
        assert forall|k: (Seq<u8>, Seq<u8>)| key_set(s).contains(k) <==> has_key(s, k) by {
            if has_key(d, k) {
                let i = choose|i: int| 0 <= i < d.len() && #[trigger] d[i].0.model() == k;
                assert(s[i] == d[i]);
            }
            if has_key(s, k) {
                let i = choose|i: int| 0 <= i < s.len() && #[trigger] s[i].0.model() == k;
                if i < d.len() {
                    assert(d[i] == s[i]);
                }
            }
        }
    }
}

/// The record of touched keys after touching `k`, whose value was `cur`: the first
/// touch in a transaction keeps the value from before it.
pub open spec fn touch_model(
    before: Map<(Seq<u8>, Seq<u8>), Option<(Seq<u8>, Seq<u8>)>>,
    k: (Seq<u8>, Seq<u8>),
    cur: Option<(Seq<u8>, Seq<u8>)>,
) -> Map<(Seq<u8>, Seq<u8>), Option<(Seq<u8>, Seq<u8>)>> {
    if before.contains_key(k) {
        before
    } else {
        before.insert(k, cur)
    }
}

/// One table of boxes, with the record of what the current transaction changed.
pub struct BoxTable {
    handle: u64,
    entries: Vec<(KeyState, State)>,
    touched: Vec<(KeyState, Option<State>)>,
    base_count: usize,
    base: Ghost<Map<(Seq<u8>, Seq<u8>), (Seq<u8>, Seq<u8>)>>,
}

impl BoxTable {
    /// The handle that names this table.
    pub closed spec fn handle_id(&self) -> u64 {
        self.handle
    }

    pub fn handle(&self) -> (r: u64)
        ensures
            r == self.handle_id(),
    {
        self.handle
    }

    /// What the table holds now.
    pub closed spec fn contents(&self) -> Map<(Seq<u8>, Seq<u8>), (Seq<u8>, Seq<u8>)> {
        contents_of(self.entries@)
    }

    /// What the table held when the current transaction began.
    pub closed spec fn base(&self) -> Map<(Seq<u8>, Seq<u8>), (Seq<u8>, Seq<u8>)> {
        self.base@
    }

    /// For each key the current transaction touched, its value before the transaction.
    pub closed spec fn before(&self) -> Map<(Seq<u8>, Seq<u8>), Option<(Seq<u8>, Seq<u8>)>> {
        before_of(self.touched@)
    }

    pub closed spec fn wf(&self) -> bool {
        &&& unique_keys(self.entries@)
        &&& sorted_keys(self.touched@)
        &&& self.base@.dom().finite()
        &&& self.base@.len() == self.base_count
        &&& self.base_count <= i64::MAX
        &&& forall|k: (Seq<u8>, Seq<u8>)| #[trigger] before_of(self.touched@).contains_key(k)
            ==> before_of(self.touched@)[k] == get_opt(self.base@, k)
        &&& forall|k: (Seq<u8>, Seq<u8>)| !before_of(self.touched@).contains_key(k)
            ==> #[trigger] get_opt(contents_of(self.entries@), k) == get_opt(self.base@, k)
    }

    /// What a well-formed table knows of its record: a touched key remembers its value
    /// from the start of the transaction, and an untouched key still holds that value.
    pub proof fn lemma_record(&self)
        requires
            self.wf(),
        ensures
            forall|k: (Seq<u8>, Seq<u8>)| #[trigger] self.before().contains_key(k)
                ==> self.before()[k] == get_opt(self.base(), k),
            forall|k: (Seq<u8>, Seq<u8>)| !self.before().contains_key(k)
                ==> #[trigger] get_opt(self.contents(), k) == get_opt(self.base(), k),
    {
    }

    pub proof fn lemma_wf_finite(&self)
        requires
            self.wf(),
        ensures
            self.contents().dom().finite(),
            self.base().dom().finite(),
    {
        lemma_contents_len(self.entries@);
    }

    /// A fresh, empty table.
    pub fn new(handle: u64) -> (r: BoxTable)
        ensures
            r.wf(),
            r.handle_id() == handle,
            r.contents() == Map::<(Seq<u8>, Seq<u8>), (Seq<u8>, Seq<u8>)>::empty(),
            r.base() == Map::<(Seq<u8>, Seq<u8>), (Seq<u8>, Seq<u8>)>::empty(),
            r.before() == Map::<(Seq<u8>, Seq<u8>), Option<(Seq<u8>, Seq<u8>)>>::empty(),
    {
        let r = BoxTable {
            handle,
            entries: Vec::new(),
            touched: Vec::new(),
            base_count: 0,
            base: Ghost(Map::empty()),
        };
        assert(contents_of(r.entries@) =~= Map::empty());
        assert(before_of(r.touched@) =~= Map::empty());
        r
    }

    pub fn contains_box(&self, key: &KeyState) -> (r: bool)
        ensures
            r == self.contents().contains_key(key.model()),
    {
        find_key(&self.entries, key).is_some()
    }

    /// A copy of the value under `key`.
    pub fn borrow_box(&self, key: &KeyState) -> (r: Result<State, BoxError>)
        requires
            self.wf(),
        ensures
            self.contents().contains_key(key.model()) ==> r.is_ok() && r.unwrap().model() == self.contents()[key.model()],
            !self.contents().contains_key(key.model()) ==> r == Err::<State, BoxError>(BoxError::NotFound),
    {
        match find_key(&self.entries, key) {
            Some(i) => {
                proof {
                    lemma_pos_of(self.entries@, i as int);
                }
                Ok(self.entries[i].1.duplicate())
            },
            None => Err(BoxError::NotFound),
        }
    }

    /// The number of entries, kept by the table rather than counted.
    pub fn box_length(&self) -> (r: u64)
        requires
            self.wf(),
        ensures
            r == self.contents().len(),
    {
        proof {
            lemma_contents_len(self.entries@);
        }
        self.entries.len() as u64
    }

    /// Adds `value` under `key`; refused if the key is already present.
    pub fn add_box(&mut self, key: KeyState, value: State) -> (r: Result<(), BoxError>)
        requires
            old(self).wf(),
        ensures
            final(self).wf(),
            final(self).handle_id() == old(self).handle_id(),
            final(self).base() == old(self).base(),
            old(self).contents().contains_key(key.model()) ==> r == Err::<(), BoxError>(BoxError::DuplicateKey)
                && final(self).contents() == old(self).contents() && final(self).before() == old(self).before(),
            !old(self).contents().contains_key(key.model()) ==> r == Ok::<(), BoxError>(())
                && final(self).contents() == old(self).contents().insert(key.model(), value.model())
                && final(self).contents().len() == old(self).contents().len() + 1
                && final(self).before() == touch_model(old(self).before(), key.model(), None),
    {
        proof {
            self.lemma_wf_finite();
        }
        if find_key(&self.entries, &key).is_some() {
            return Err(BoxError::DuplicateKey);
        }
        self.touch(&key);
        let ghost s = self.entries@;
        let ghost k = key.model();
        let e = (key, value);
        self.entries.push(e);
        proof {
            assert(self.entries@ == s.insert(s.len() as int, e));
            lemma_contents_insert(s, s.len() as int, e);
            assert forall|k2: (Seq<u8>, Seq<u8>)| !before_of(self.touched@).contains_key(k2)
                implies #[trigger] get_opt(contents_of(self.entries@), k2) == get_opt(self.base@, k2) by {
                assert(k2 != k);
                assert(get_opt(contents_of(s), k2) == get_opt(self.base@, k2));
            }
        }
        Ok(())
    }

    /// Removes the value under `key` and hands it back; refused if the key is absent.
    pub fn remove_box(&mut self, key: &KeyState) -> (r: Result<State, BoxError>)
        requires
            old(self).wf(),
        ensures
            final(self).wf(),
            final(self).handle_id() == old(self).handle_id(),
            final(self).base() == old(self).base(),
            !old(self).contents().contains_key(key.model()) ==> r == Err::<State, BoxError>(BoxError::NotFound)
                && final(self).contents() == old(self).contents() && final(self).before() == old(self).before(),
            old(self).contents().contains_key(key.model()) ==> r.is_ok()
                && r.unwrap().model() == old(self).contents()[key.model()]
                && final(self).contents() == old(self).contents().remove(key.model())
                && final(self).contents().len() + 1 == old(self).contents().len()
                && final(self).before() == touch_model(old(self).before(), key.model(), Some(old(self).contents()[key.model()])),
    {
        let i = match find_key(&self.entries, key) {
            Some(i) => i,
            None => {
                return Err(BoxError::NotFound);
            },
        };
        proof {
            lemma_pos_of(self.entries@, i as int);
        }
        proof {
            self.lemma_wf_finite();
        }
        self.touch(key);
        let ghost s = self.entries@;
        let ghost k = key.model();
        let e = self.entries.remove(i);
        proof {
            lemma_contents_remove(s, i as int);
            assert forall|k2: (Seq<u8>, Seq<u8>)| !before_of(self.touched@).contains_key(k2)
                implies #[trigger] get_opt(contents_of(self.entries@), k2) == get_opt(self.base@, k2) by {
                assert(k2 != k);
                assert(get_opt(contents_of(s), k2) == get_opt(self.base@, k2));
            }
        }
        Ok(e.1)
    }

    /// Discards the whole table without looking at its entries; hands back its handle.
    pub fn drop_unchecked_box(self) -> (r: u64)
        ensures
            r == self.handle_id(),
    {
        self.handle
    }

    /// Ends the transaction: hands back its net change, one entry for each touched key
    /// whose net operation is not void, in canonical key order, and starts the next
    /// transaction from the current contents.
    pub fn take_change(&mut self) -> (r: TableChange)
        requires
            old(self).wf(),
            old(self).contents().len() <= i64::MAX,
        ensures
            final(self).wf(),
            final(self).handle_id() == old(self).handle_id(),
            final(self).contents() == old(self).contents(),
            final(self).base() == old(self).contents(),
            final(self).before() == Map::<(Seq<u8>, Seq<u8>), Option<(Seq<u8>, Seq<u8>)>>::empty(),
            sorted_keys(r.entries@),
            forall|j: int| 0 <= j < r.entries@.len() ==> {
                let k = #[trigger] r.entries@[j].0.model();
                &&& old(self).before().contains_key(k)
                &&& net_op(old(self).before()[k], get_opt(old(self).contents(), k)) == Some(op_model(r.entries@[j].1))
            },
            forall|k: (Seq<u8>, Seq<u8>)| #[trigger] old(self).before().contains_key(k)
                && net_op(old(self).before()[k], get_opt(old(self).contents(), k)).is_some()
                ==> has_key(r.entries@, k),
            r.size_increment == old(self).contents().len() - old(self).base().len(),
            r.size_increment == net_count(r.entries@),
            is_change_of(*old(self), r),
    {
        proof {
            lemma_sorted_unique(self.touched@);
            lemma_contents_len(self.entries@);
            assert(key_set(self.touched@.subrange(0, 0)) =~= Set::empty());
            assert(contents_of(self.entries@).dom().intersect(Set::empty()) =~= Set::empty());
            assert(self.base@.dom().intersect(Set::empty()) =~= Set::empty());
        }
        let ghost bmap = self.base@;
        let ghost bm = before_of(self.touched@);
        let ghost cm = contents_of(self.entries@);
        let mut out: Vec<(KeyState, Op<State>)> = Vec::new();
        let mut i: usize = 0;
        while i < self.touched.len()
            invariant
                i <= self.touched@.len(),
                sorted_keys(self.touched@),
                unique_keys(self.touched@),
                unique_keys(self.entries@),
                bm == before_of(self.touched@),
                cm == contents_of(self.entries@),
                sorted_keys(out@),
                forall|j: int| 0 <= j < out@.len() ==> exists|t: int| 0 <= t < i
                    && #[trigger] out@[j].0.model() == #[trigger] self.touched@[t].0.model(),
                forall|j: int| 0 <= j < out@.len() ==> {
                    let k = #[trigger] out@[j].0.model();
                    &&& bm.contains_key(k)
                    &&& net_op(bm[k], get_opt(cm, k)) == Some(op_model(out@[j].1))
                },
                forall|t: int| 0 <= t < i ==> {
                    let k = #[trigger] self.touched@[t].0.model();
                    net_op(bm[k], get_opt(cm, k)).is_some() ==> has_key(out@, k)
                },
                cm.dom().finite(),
                bmap.dom().finite(),
                forall|k: (Seq<u8>, Seq<u8>)| #[trigger] bm.contains_key(k) ==> bm[k] == get_opt(bmap, k),
                net_count(out@) == cm.dom().intersect(key_set(self.touched@.subrange(0, i as int))).len() - bmap.dom().intersect(
                    key_set(self.touched@.subrange(0, i as int)),
                ).len(),
            decreases self.touched@.len() - i,
        {
            let tk = &self.touched[i as usize].0;
            let ghost k = tk.model();
            proof {
                lemma_pos_of(self.touched@, i as int);
            }
            let found = find_key(&self.entries, tk);
            let op: Option<Op<State>> = match found {
                Some(j) => {
                    proof {
                        lemma_pos_of(self.entries@, j as int);
                    }
                    let v = self.entries[j].1.duplicate();
                    if self.touched[i].1.is_some() {
                        Some(Op::Modify(v))
                    } else {
                        Some(Op::New(v))
                    }
                },
                None => {
                    if self.touched[i].1.is_some() {
                        Some(Op::Delete)
                    } else {
                        None
                    }
                },
            };
            let ghost old_out = out@;
            let ghost w: int = opt_weight(op);
            let ghost op_m = opt_model(op);
            assert(net_op(bm[k], get_opt(cm, k)) == op_m);
            match op {
                Some(o) => {
                    assert(net_op(bm[k], get_opt(cm, k)) == Some(op_model(o)));
                    out.push((tk.duplicate(), o));
                    proof {
                        assert forall|a: int, b: int| 0 <= a < b < out@.len() implies
                            key_lt(#[trigger] out@[a].0.model(), #[trigger] out@[b].0.model()) by {
                            if b == out@.len() - 1 {
                                assert(out@[a] == old_out[a]);
                                let t = choose|t: int| 0 <= t < i
                                    && #[trigger] old_out[a].0.model() == #[trigger] self.touched@[t].0.model();
                                assert(key_lt(self.touched@[t].0.model(), self.touched@[i as int].0.model()));
                            } else {
                                assert(out@[a] == old_out[a] && out@[b] == old_out[b]);
                            }
                        }
                        assert forall|j: int| 0 <= j < out@.len() implies exists|t: int| 0 <= t < i + 1
                            && #[trigger] out@[j].0.model() == #[trigger] self.touched@[t].0.model() by {
                            if j == out@.len() - 1 {
                                assert(out@[j].0.model() == self.touched@[i as int].0.model());
                            } else {
                                assert(out@[j] == old_out[j]);
                                let t = choose|t: int| 0 <= t < i
                                    && #[trigger] old_out[j].0.model() == #[trigger] self.touched@[t].0.model();
                                assert(out@[j].0.model() == self.touched@[t].0.model());
                            }
                        }
                        assert forall|j: int| 0 <= j < out@.len() implies {
                            let k2 = #[trigger] out@[j].0.model();
                            &&& bm.contains_key(k2)
                            &&& net_op(bm[k2], get_opt(cm, k2)) == Some(op_model(out@[j].1))
                        } by {
                            if j < out@.len() - 1 {
                                assert(out@[j] == old_out[j]);
                            }
                        }
                        assert forall|t: int| 0 <= t < i + 1 implies {
                            let k2 = #[trigger] self.touched@[t].0.model();
                            net_op(bm[k2], get_opt(cm, k2)).is_some() ==> has_key(out@, k2)
                        } by {
                            let k2 = self.touched@[t].0.model();
                            if t == i {
                                assert(out@[out@.len() - 1].0.model() == k2);
                            } else if has_key(old_out, k2) {
                                let j = choose|j: int| 0 <= j < old_out.len() && #[trigger] old_out[j].0.model() == k2;
                                assert(out@[j] == old_out[j]);
                            }
                        }
                    }
                },
                None => {
                    assert(net_op(bm[k], get_opt(cm, k)).is_none());
                },
            }
            proof {
                if w != 0 || op_m.is_some() {
                    assert(out@.drop_last() =~= old_out);
                }
                assert(net_count(out@) == net_count(old_out) + w);
                let ti = key_set(self.touched@.subrange(0, i as int));
                let sub1 = self.touched@.subrange(0, i as int + 1);
                assert(sub1.drop_last() =~= self.touched@.subrange(0, i as int));
                assert(key_set(sub1) == ti.insert(k));
                lemma_key_set(self.touched@.subrange(0, i as int));
                assert(!ti.contains(k)) by {
                    if has_key(self.touched@.subrange(0, i as int), k) {
                        let t = choose|t: int| 0 <= t < i && #[trigger] self.touched@.subrange(0, i as int)[t].0.model() == k;
                        assert(self.touched@[t].0.model() == k);
                    }
                }
                let c0 = cm.dom().intersect(ti);
                let b0 = bmap.dom().intersect(ti);
                if cm.dom().contains(k) {
                    assert(cm.dom().intersect(ti.insert(k)) =~= c0.insert(k));
                } else {
                    assert(cm.dom().intersect(ti.insert(k)) =~= c0);
                }
                if bmap.dom().contains(k) {
                    assert(bmap.dom().intersect(ti.insert(k)) =~= b0.insert(k));
                } else {
                    assert(bmap.dom().intersect(ti.insert(k)) =~= b0);
                }
                assert(bm.contains_key(k));
            }
            i = i + 1;
        }
        proof {
            let tall = key_set(self.touched@);
            assert(self.touched@.subrange(0, self.touched@.len() as int) =~= self.touched@);
            lemma_key_set(self.touched@);
            let cd = cm.dom();
            let bd = bmap.dom();
            assert(cd.difference(tall) =~= bd.difference(tall)) by {
                assert forall|k: (Seq<u8>, Seq<u8>)| cd.difference(tall).contains(k) <==> bd.difference(tall).contains(k) by {
                    if !tall.contains(k) {
                        assert(!bm.contains_key(k));
                        assert(get_opt(cm, k) == get_opt(bmap, k));
                    }
                }
            }
            vstd::set_lib::lemma_set_difference_len(cd, tall);
            vstd::set_lib::lemma_set_difference_len(bd, tall);
            assert(net_count(out@) == cm.len() - bmap.len());
            assert forall|k: (Seq<u8>, Seq<u8>)| bm.contains_key(k)
                && net_op(bm[k], get_opt(cm, k)).is_some() implies has_key(out@, k) by {
                let t = choose|t: int| 0 <= t < self.touched@.len() && #[trigger] self.touched@[t].0.model() == k;
            }
        }
        let n = self.entries.len();
        let size_increment = n as i64 - self.base_count as i64;
        self.touched = Vec::new();
        self.base_count = n;
        self.base = Ghost(contents_of(self.entries@));
        proof {
            assert(before_of(self.touched@) =~= Map::empty());
        }
        TableChange { entries: out, size_increment }
    }

    /// Records the value of `key` before its first change in this transaction.
    fn touch(&mut self, key: &KeyState)
        requires
            old(self).wf(),
        ensures
            final(self).wf(),
            final(self).handle_id() == old(self).handle_id(),
            final(self).contents() == old(self).contents(),
            final(self).base() == old(self).base(),
            final(self).entries@ == old(self).entries@,
            final(self).before() == touch_model(old(self).before(), key.model(), get_opt(old(self).contents(), key.model())),
    {
        proof {
            lemma_sorted_unique(self.touched@);
        }
        if find_key(&self.touched, key).is_some() {
            return;
        }
        let cur = match find_key(&self.entries, key) {
            Some(i) => {
                proof {
                    lemma_pos_of(self.entries@, i as int);
                }
                Some(self.entries[i].1.duplicate())
            },
            None => None,
        };
        let ghost cur_model = get_opt(self.contents(), key.model());
        assert(match cur {
            Some(v) => Some(v.model()),
            None => None::<(Seq<u8>, Seq<u8>)>,
        } == cur_model);
        let mut p: usize = 0;
        while p < self.touched.len() && self.touched[p].0.compare(key) == -1
            invariant
                p <= self.touched@.len(),
                forall|j: int| 0 <= j < p ==> key_lt(#[trigger] self.touched@[j].0.model(), key.model()),
            decreases self.touched@.len() - p,
        {
            p = p + 1;
        }
        let ghost s = self.touched@;
        let e = (key.duplicate(), cur);
        proof {
            if p < s.len() {
                lemma_key_order_total(s[p as int].0.model(), key.model(), key.model());
                assert(s[p as int].0.model() != key.model());
                assert(key_lt(key.model(), s[p as int].0.model()));
            }
        }
        self.touched.insert(p, e);
        proof {
            let t = self.touched@;
            assert(t == s.insert(p as int, e));
            assert forall|i: int, j: int| 0 <= i < j < t.len() implies key_lt(#[trigger] t[i].0.model(), #[trigger] t[j].0.model()) by {
                if j < p {
                    assert(t[i] == s[i] && t[j] == s[j]);
                } else if j == p {
                    assert(t[i] == s[i]);
                } else if i == p {
                    assert(t[j] == s[j - 1]);
                    if j - 1 > p {
                        lemma_key_order_total(key.model(), s[p as int].0.model(), s[j - 1].0.model());
                    }
                } else if i < p {
                    assert(t[i] == s[i] && t[j] == s[j - 1]);
                    lemma_key_order_total(s[i].0.model(), key.model(), s[j - 1].0.model());
                    if j - 1 > p {
                        lemma_key_order_total(key.model(), s[p as int].0.model(), s[j - 1].0.model());
                    }
                } else {
                    assert(t[i] == s[i - 1] && t[j] == s[j - 1]);
                }
            }
            lemma_before_insert(s, p as int, e);
            assert forall|k: (Seq<u8>, Seq<u8>)| #[trigger] before_of(t).contains_key(k)
                implies before_of(t)[k] == get_opt(self.base@, k) by {
                if k != key.model() {
                    assert(before_of(s).contains_key(k));
                }
            }
            assert forall|k: (Seq<u8>, Seq<u8>)| !before_of(t).contains_key(k)
                implies #[trigger] get_opt(contents_of(self.entries@), k) == get_opt(self.base@, k) by {
                assert(!before_of(s).contains_key(k));
            }
        }
    }
}

/// `c` is the collapsed change of the transaction recorded in `t`: one entry for each
/// touched key with a non-void net operation, in canonical key order, and the net
/// change in size.
pub open spec fn is_change_of(t: BoxTable, c: TableChange) -> bool {
    &&& sorted_keys(c.entries@)
    &&& forall|j: int| 0 <= j < c.entries@.len() ==> {
        let k = #[trigger] c.entries@[j].0.model();
        &&& t.before().contains_key(k)
        &&& net_op(t.before()[k], get_opt(t.contents(), k)) == Some(op_model(c.entries@[j].1))
    }
    &&& forall|k: (Seq<u8>, Seq<u8>)| #[trigger] t.before().contains_key(k) && net_op(t.before()[k], get_opt(t.contents(), k)).is_some()
        ==> has_key(c.entries@, k)
    &&& c.size_increment == t.contents().len() - t.base().len()
    &&& c.size_increment == net_count(c.entries@)
}

/// Some key touched in the transaction recorded in `t` has a non-void net operation.
pub open spec fn has_net_change(t: BoxTable) -> bool {
    exists|k: (Seq<u8>, Seq<u8>)| #[trigger] t.before().contains_key(k) && net_op(t.before()[k], get_opt(t.contents(), k)).is_some()
}

/// A collapsed change has entries exactly when its transaction changed something.
pub proof fn lemma_change_nonempty(t: BoxTable, c: TableChange)
    requires
        is_change_of(t, c),
    ensures
        (c.entries@.len() > 0) == has_net_change(t),
{
    if c.entries@.len() > 0 {
        let k = c.entries@[0].0.model();
        assert(t.before().contains_key(k));
    }
    if has_net_change(t) {
        let k = choose|k: (Seq<u8>, Seq<u8>)| #[trigger] t.before().contains_key(k) && net_op(t.before()[k], get_opt(t.contents(), k)).is_some();
        assert(has_key(c.entries@, k));
    }
}

/// On a table that starts empty, whatever adds and removes a transaction makes, the
/// final number of entries equals the number of keys its collapsed change reports as
/// new minus the number it reports as deleted, which is also its size increment.
pub proof fn lemma_fresh_table_length(t: BoxTable, c: TableChange)
    requires
        t.wf(),
        t.base() == Map::<(Seq<u8>, Seq<u8>), (Seq<u8>, Seq<u8>)>::empty(),
        c.size_increment == t.contents().len() - t.base().len(),
        c.size_increment == net_count(c.entries@),
    ensures
        net_count(c.entries@) == t.contents().len(),
        c.size_increment == t.contents().len(),
{
}

/// Adding a key that was absent when the transaction began and then removing it in
/// the same transaction leaves no entry for that key in the transaction's change.
pub proof fn lemma_add_remove_cancels(
    t0: BoxTable,
    t1: BoxTable,
    t2: BoxTable,
    k: (Seq<u8>, Seq<u8>),
    v: (Seq<u8>, Seq<u8>),
    c: TableChange,
)
    requires
        t0.wf(),
        !t0.base().contains_key(k),
        !t0.contents().contains_key(k),
        t1.base() == t0.base(),
        t1.contents() == t0.contents().insert(k, v),
        t1.before() == touch_model(t0.before(), k, None),
        t2.contents() == t1.contents().remove(k),
        t2.before() == touch_model(t1.before(), k, Some(v)),
        forall|j: int| 0 <= j < c.entries@.len() ==> {
            let kj = #[trigger] c.entries@[j].0.model();
            &&& t2.before().contains_key(kj)
            &&& net_op(t2.before()[kj], get_opt(t2.contents(), kj)) == Some(op_model(c.entries@[j].1))
        },
    ensures
        !has_key(c.entries@, k),
{
    t0.lemma_record();
    assert(t2.before()[k] == None::<(Seq<u8>, Seq<u8>)>);
    assert(!t2.contents().contains_key(k));
    if has_key(c.entries@, k) {
        let j = choose|j: int| 0 <= j < c.entries@.len() && #[trigger] c.entries@[j].0.model() == k;
        assert(net_op(t2.before()[k], get_opt(t2.contents(), k)) == None::<Op<(Seq<u8>, Seq<u8>)>>);
    }
}

/// Two strictly ascending sequences of entries with the same keys, where each key
/// determines its entry, are equal.
pub proof fn lemma_sorted_same_keys(a: Seq<(KeyState, Op<State>)>, b: Seq<(KeyState, Op<State>)>, f: spec_fn((Seq<u8>, Seq<u8>)) -> Op<(Seq<u8>, Seq<u8>)>)
    requires
        sorted_keys(a),
        sorted_keys(b),
        forall|k: (Seq<u8>, Seq<u8>)| has_key(a, k) <==> has_key(b, k),
        forall|j: int| 0 <= j < a.len() ==> op_model(#[trigger] a[j].1) == f(a[j].0.model()),
        forall|j: int| 0 <= j < b.len() ==> op_model(#[trigger] b[j].1) == f(b[j].0.model()),
    ensures
        a.len() == b.len(),
        forall|j: int| 0 <= j < a.len() ==> #[trigger] a[j].0.model() == b[j].0.model() && op_model(a[j].1) == op_model(b[j].1),
    decreases a.len(),
{
    if a.len() == 0 {
        if b.len() > 0 {
            assert(has_key(b, b[0].0.model()));
        }
    } else if b.len() == 0 {
        assert(has_key(a, a[0].0.model()));
    } else {
        let x = a[0].0.model();
        let y = b[0].0.model();
        assert(has_key(a, x));
        assert(has_key(b, y));
        if x != y {
            let ib = choose|i: int| 0 <= i < b.len() && #[trigger] b[i].0.model() == x;
            let ia = choose|i: int| 0 <= i < a.len() && #[trigger] a[i].0.model() == y;
            assert(ib > 0 && ia > 0);
            assert(key_lt(y, x));
            assert(key_lt(x, y));
            lemma_key_order_total(x, y, x);
        }
        let ta = a.drop_first();
        let tb = b.drop_first();
        lemma_sorted_unique(a);
        lemma_sorted_unique(b);
        assert(sorted_keys(ta)) by {
            assert forall|i: int, j: int| 0 <= i < j < ta.len() implies key_lt(#[trigger] ta[i].0.model(), #[trigger] ta[j].0.model()) by {
                assert(ta[i] == a[i + 1] && ta[j] == a[j + 1]);
            }
        }
        assert(sorted_keys(tb)) by {
            assert forall|i: int, j: int| 0 <= i < j < tb.len() implies key_lt(#[trigger] tb[i].0.model(), #[trigger] tb[j].0.model()) by {
                assert(tb[i] == b[i + 1] && tb[j] == b[j + 1]);
            }
        }
        assert forall|k: (Seq<u8>, Seq<u8>)| has_key(ta, k) <==> has_key(tb, k) by {
            if has_key(ta, k) {
                let i = choose|i: int| 0 <= i < ta.len() && #[trigger] ta[i].0.model() == k;
                assert(a[i + 1].0.model() == k);
                assert(k != x);
                assert(has_key(b, k));
                let m = choose|m: int| 0 <= m < b.len() && #[trigger] b[m].0.model() == k;
                assert(m != 0);
                assert(tb[m - 1] == b[m]);
            }
            if has_key(tb, k) {
                let i = choose|i: int| 0 <= i < tb.len() && #[trigger] tb[i].0.model() == k;
                assert(b[i + 1].0.model() == k);
                assert(k != y);
                assert(has_key(a, k));
                let m = choose|m: int| 0 <= m < a.len() && #[trigger] a[m].0.model() == k;
                assert(m != 0);
                assert(ta[m - 1] == a[m]);
            }
        }
        assert forall|j: int| 0 <= j < ta.len() implies op_model(#[trigger] ta[j].1) == f(ta[j].0.model()) by {
            assert(ta[j] == a[j + 1]);
        }
        assert forall|j: int| 0 <= j < tb.len() implies op_model(#[trigger] tb[j].1) == f(tb[j].0.model()) by {
            assert(tb[j] == b[j + 1]);
        }
        lemma_sorted_same_keys(ta, tb, f);
        assert forall|j: int| 0 <= j < a.len() implies #[trigger] a[j].0.model() == b[j].0.model() && op_model(a[j].1) == op_model(b[j].1) by {
            if j > 0 {
                assert(ta[j - 1] == a[j] && tb[j - 1] == b[j]);
            }
        }
    }
}

/// The collapsed change of a transaction depends only on what the table held before
/// and after it, not on the order of its operations: two records with the same values
/// before, the same contents and the same start give the same entries, in the same
/// order, and the same size increment.
pub proof fn lemma_change_order_independent(t1: BoxTable, t2: BoxTable, c1: TableChange, c2: TableChange)
    requires
        is_change_of(t1, c1),
        is_change_of(t2, c2),
        t1.before() == t2.before(),
        t1.contents() == t2.contents(),
        t1.base() == t2.base(),
    ensures
        c1.entries@.len() == c2.entries@.len(),
        forall|j: int| 0 <= j < c1.entries@.len() ==> #[trigger] c1.entries@[j].0.model() == c2.entries@[j].0.model()
            && op_model(c1.entries@[j].1) == op_model(c2.entries@[j].1),
        c1.size_increment == c2.size_increment,
{
    let f = |k: (Seq<u8>, Seq<u8>)| net_op(t1.before()[k], get_opt(t1.contents(), k)).unwrap();
    assert forall|k: (Seq<u8>, Seq<u8>)| has_key(c1.entries@, k) <==> has_key(c2.entries@, k) by {
        if has_key(c1.entries@, k) {
            let j = choose|j: int| 0 <= j < c1.entries@.len() && #[trigger] c1.entries@[j].0.model() == k;
            assert(t1.before().contains_key(k));
        }
        if has_key(c2.entries@, k) {
            let j = choose|j: int| 0 <= j < c2.entries@.len() && #[trigger] c2.entries@[j].0.model() == k;
            assert(t2.before().contains_key(k));
        }
    }
    assert forall|j: int| 0 <= j < c1.entries@.len() implies op_model(#[trigger] c1.entries@[j].1) == f(c1.entries@[j].0.model()) by {
        let k = c1.entries@[j].0.model();
        assert(t1.before().contains_key(k));
    }
    assert forall|j: int| 0 <= j < c2.entries@.len() implies op_model(#[trigger] c2.entries@[j].1) == f(c2.entries@[j].0.model()) by {
        let k = c2.entries@[j].0.model();
        assert(t2.before().contains_key(k));
    }
    lemma_sorted_same_keys(c1.entries@, c2.entries@, f);
}

} // verus!
