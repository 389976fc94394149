use vstd::prelude::*;

verus! {

/// Lexicographic "strictly less" on byte strings, comparing from position `i` on.
pub open spec fn lt_from(a: Seq<u8>, b: Seq<u8>, i: int) -> bool
    decreases a.len() - i,
{
    if i < 0 || i >= a.len() {
        0 <= i < b.len()
    } else if i >= b.len() {
        false
    } else if a[i] != b[i] {
        a[i] < b[i]
    } else {
        lt_from(a, b, i + 1)
    }
}

/// Lexicographic order on byte strings (a proper prefix comes first).
pub open spec fn bytes_lt(a: Seq<u8>, b: Seq<u8>) -> bool {
    lt_from(a, b, 0)
}

/// A typed table key: the serialized key and the canonical text of its type tag.
#[derive(Clone, Debug)]
pub struct KeyState {
    pub key: Vec<u8>,
    pub key_type: Vec<u8>,
}

/// A typed value: the serialized value and the canonical text of its type tag.
#[derive(Clone, Debug)]
pub struct State {
    pub value: Vec<u8>,
    pub value_type: Vec<u8>,
}

/// The canonical order of keys: by type tag first, then by key bytes.
pub open spec fn key_lt(x: (Seq<u8>, Seq<u8>), y: (Seq<u8>, Seq<u8>)) -> bool {
    bytes_lt(x.1, y.1) || (x.1 == y.1 && bytes_lt(x.0, y.0))
}

impl KeyState {
    /// The key as (key bytes, type tag bytes).
    pub open spec fn model(&self) -> (Seq<u8>, Seq<u8>) {
        (self.key@, self.key_type@)
    }

    pub fn new(key: Vec<u8>, key_type: Vec<u8>) -> (r: KeyState)
        ensures
            r.key@ == key@,
            r.key_type@ == key_type@,
    {
        KeyState { key, key_type }
    }

    pub fn duplicate(&self) -> (r: KeyState)
        ensures
            r.model() == self.model(),
    {
        KeyState { key: copy_bytes(&self.key), key_type: copy_bytes(&self.key_type) }
    }

    /// Three-way comparison in the canonical key order.
    pub fn compare(&self, other: &KeyState) -> (r: i8)
        ensures
            r == -1 <==> key_lt(self.model(), other.model()),
            r == 0 <==> self.model() == other.model(),
            r == 1 <==> key_lt(other.model(), self.model()),
            r == -1 || r == 0 || r == 1,
    {
        proof {
            lemma_bytes_lt_irrefl(self.key_type@);
            lemma_bytes_lt_irrefl(self.key@);
            lemma_bytes_lt_asym(self.key_type@, other.key_type@);
            lemma_bytes_lt_asym(self.key@, other.key@);
        }
        let t = compare_bytes(&self.key_type, &other.key_type);
        if t != 0 {
            t
        } else {
            compare_bytes(&self.key, &other.key)
        }
    }

    pub fn same_key(&self, other: &KeyState) -> (r: bool)
        ensures
            r == (self.model() == other.model()),
    {
        self.compare(other) == 0
    }
}

/// The net transition of one key within one transaction.
#[derive(Clone, Debug)]
pub enum Op<T> {
    New(T),
    Modify(T),
    Delete,
}

/// The net change of one table in one transaction: its entries in canonical key
/// order, and the net change in its number of entries.
#[derive(Clone, Debug)]
pub struct TableChange {
    pub entries: Vec<(KeyState, Op<State>)>,
    pub size_increment: i64,
}

/// The type information of a table: the type tag of its keys.
#[derive(Clone, Debug)]
pub struct TableTypeInfo {
    pub key_type: Vec<u8>,
}

/// The model of an operation on values.
pub open spec fn op_model(op: Op<State>) -> Op<(Seq<u8>, Seq<u8>)> {
    match op {
        Op::New(s) => Op::New(s.model()),
        Op::Modify(s) => Op::Modify(s.model()),
        Op::Delete => Op::Delete,
    }
}

pub fn duplicate_op(op: &Op<State>) -> (r: Op<State>)
    ensures
        op_model(r) == op_model(*op),
{
    match op {
        Op::New(s) => Op::New(s.duplicate()),
        Op::Modify(s) => Op::Modify(s.duplicate()),
        Op::Delete => Op::Delete,
    }
}

impl State {
    /// The value as (value bytes, type tag bytes).
    pub open spec fn model(&self) -> (Seq<u8>, Seq<u8>) {
        (self.value@, self.value_type@)
    }

    pub fn new(value: Vec<u8>, value_type: Vec<u8>) -> (r: State)
        ensures
            r.value@ == value@,
            r.value_type@ == value_type@,
    {
        State { value, value_type }
    }

    pub fn duplicate(&self) -> (r: State)
        ensures
            r.model() == self.model(),
    {
        State { value: copy_bytes(&self.value), value_type: copy_bytes(&self.value_type) }
    }
}

pub fn copy_bytes(v: &Vec<u8>) -> (r: Vec<u8>)
    ensures
        r@ == v@,
{
    let mut r: Vec<u8> = Vec::new();
    let mut i: usize = 0;
    while i < v.len()
        invariant
            i <= v.len(),
            r@ == v@.subrange(0, i as int),
        decreases v.len() - i,
    {
        r.push(v[i]);
        i = i + 1;
        assert(r@ =~= v@.subrange(0, i as int));
    }
    assert(r@ =~= v@);
    r
}

/// Three-way lexicographic comparison of byte strings.
pub fn compare_bytes(a: &Vec<u8>, b: &Vec<u8>) -> (r: i8)
    ensures
        r == -1 <==> bytes_lt(a@, b@),
        r == 0 <==> a@ == b@,
        r == 1 <==> bytes_lt(b@, a@),
        r == -1 || r == 0 || r == 1,
{
    proof {
        lemma_bytes_lt_irrefl(a@);
        lemma_bytes_lt_asym(a@, b@);
    }
    let mut i: usize = 0;
    while i < a.len() && i < b.len()
        invariant
            i <= a.len(),
            i <= b.len(),
            forall|j: int| 0 <= j < i ==> a@[j] == b@[j],
            bytes_lt(a@, b@) == lt_from(a@, b@, i as int),
            bytes_lt(b@, a@) == lt_from(b@, a@, i as int),
        decreases a.len() - i,
    {
        if a[i] < b[i] {
            assert(a@ != b@);
            return -1;
        } else if a[i] > b[i] {
            assert(a@ != b@);
            return 1;
        }
        i = i + 1;
    }
    if a.len() < b.len() {
        assert(a@.len() != b@.len());
        -1
    } else if a.len() > b.len() {
        assert(a@.len() != b@.len());
        1
    } else {
        assert(a@ =~= b@);
        0
    }
}

pub proof fn lemma_lt_from_irrefl(a: Seq<u8>, i: int)
    requires
        0 <= i,
    ensures
        !lt_from(a, a, i),
    decreases a.len() - i,
{
    if i < a.len() {
        lemma_lt_from_irrefl(a, i + 1);
    }
}

pub proof fn lemma_bytes_lt_irrefl(a: Seq<u8>)
    ensures
        !bytes_lt(a, a),
{
    lemma_lt_from_irrefl(a, 0);
}

pub proof fn lemma_lt_from_asym(a: Seq<u8>, b: Seq<u8>, i: int)
    requires
        0 <= i,
    ensures
        !(lt_from(a, b, i) && lt_from(b, a, i)),
    decreases a.len() - i,
{
    if i < a.len() && i < b.len() && a[i] == b[i] {
        lemma_lt_from_asym(a, b, i + 1);
    }
}

pub proof fn lemma_bytes_lt_asym(a: Seq<u8>, b: Seq<u8>)
    ensures
        !(bytes_lt(a, b) && bytes_lt(b, a)),
{
    lemma_lt_from_asym(a, b, 0);
}

pub proof fn lemma_lt_from_trans(a: Seq<u8>, b: Seq<u8>, c: Seq<u8>, i: int)
    requires
        0 <= i,
        lt_from(a, b, i),
        lt_from(b, c, i),
    ensures
        lt_from(a, c, i),
    decreases a.len() - i,
{
    if i < a.len() && i < b.len() && i < c.len() && a[i] == b[i] && b[i] == c[i] {
        lemma_lt_from_trans(a, b, c, i + 1);
    }
}

pub proof fn lemma_lt_from_total(a: Seq<u8>, b: Seq<u8>, i: int)
    requires
        0 <= i <= a.len(),
        i <= b.len(),
        forall|j: int| 0 <= j < i ==> a[j] == b[j],
        !lt_from(a, b, i),
        !lt_from(b, a, i),
    ensures
        a == b,
    decreases a.len() - i,
{
    if i < a.len() && i < b.len() {
        lemma_lt_from_total(a, b, i + 1);
    } else {
        assert(a =~= b);
    }
}

/// The key order is a strict total order: irreflexive, transitive, and any two
/// distinct keys are comparable.
pub proof fn lemma_key_order_total(
    x: (Seq<u8>, Seq<u8>),
    y: (Seq<u8>, Seq<u8>),
    z: (Seq<u8>, Seq<u8>),
)
    ensures
        !key_lt(x, x),
        key_lt(x, y) && key_lt(y, z) ==> key_lt(x, z),
        x != y ==> (key_lt(x, y) || key_lt(y, x)),
        !(key_lt(x, y) && key_lt(y, x)),
{
    lemma_bytes_lt_irrefl(x.0);
    lemma_bytes_lt_irrefl(x.1);
    lemma_bytes_lt_asym(x.0, y.0);
    lemma_bytes_lt_asym(x.1, y.1);
    if key_lt(x, y) && key_lt(y, z) {
        if bytes_lt(x.1, y.1) && bytes_lt(y.1, z.1) {
            lemma_lt_from_trans(x.1, y.1, z.1, 0);
        }
        if x.1 == y.1 && y.1 == z.1 {
            lemma_lt_from_trans(x.0, y.0, z.0, 0);
        }
    }
    if x != y && !key_lt(x, y) && !key_lt(y, x) {
        lemma_lt_from_total(x.1, y.1, 0);
        lemma_lt_from_total(x.0, y.0, 0);
        assert(x == y);
    }
}

} // verus!
