//! Core data model: user keys and values, sequence numbers, value kinds,
//! internal keys, and the lexicographic orderings the engine sorts by.

use vstd::prelude::*;

verus! {

/// Monotonic sequence number; higher means more recent.
pub type SeqNo = u64;

/// A read instant handed out by the oracle; same counter as [`SeqNo`].
pub type Instant = u64;

/// Kind of an entry: a live value or a deletion marker.
#[derive(Clone, Copy, PartialEq, Eq, Structural, Debug)]
pub enum ValueType {
    Value,
    Tombstone,
}

impl ValueType {
    /// Numeric code used by the on-disk format and the internal-key order.
    pub open spec fn spec_code(self) -> u8 {
        match self {
            ValueType::Value => 0u8,
            ValueType::Tombstone => 1u8,
        }
    }

    pub fn code(self) -> (r: u8)
        ensures
            r == self.spec_code(),
    {
        match self {
            ValueType::Value => 0u8,
            ValueType::Tombstone => 1u8,
        }
    }

    pub fn from_code(c: u8) -> (r: Option<ValueType>)
        ensures
            match r {
                Some(t) => t.spec_code() == c,
                None => c != 0 && c != 1,
            },
    {
        if c == 0 {
            Some(ValueType::Value)
        } else if c == 1 {
            Some(ValueType::Tombstone)
        } else {
            None
        }
    }
}

/// Mathematical model of one entry: what a [`Value`] denotes.
pub struct Entry {
    pub key: Seq<u8>,
    pub value: Seq<u8>,
    pub seqno: SeqNo,
    pub value_type: ValueType,
}

/// One key-value entry carried through the write path.
#[derive(Clone, PartialEq, Debug)]
pub struct Value {
    /// User key; compared lexicographically.
    pub key: Vec<u8>,
    /// User value; empty for tombstones.
    pub value: Vec<u8>,
    /// Sequence number of the write that produced this entry.
    pub seqno: SeqNo,
    pub value_type: ValueType,
}

impl View for Value {
    type V = Entry;

    open spec fn view(&self) -> Entry {
        Entry {
            key: self.key@,
            value: self.value@,
            seqno: self.seqno,
            value_type: self.value_type,
        }
    }
}

impl Value {
    pub fn new(key: Vec<u8>, value: Vec<u8>, seqno: SeqNo, value_type: ValueType) -> (r: Value)
        ensures
            r@ == (Entry { key: key@, value: value@, seqno, value_type }),
    {
        Value { key, value, seqno, value_type }
    }

    pub fn is_tombstone(&self) -> (r: bool)
        ensures
            r == (self.value_type == ValueType::Tombstone),
    {
        match self.value_type {
            ValueType::Tombstone => true,
            ValueType::Value => false,
        }
    }

    /// Serialized size of the entry: the fixed per-entry overhead of the
    /// on-disk encoding plus the key and value bytes.
    pub open spec fn spec_size(self) -> int {
        ENTRY_OVERHEAD + self.key@.len() + self.value@.len()
    }

    pub fn size(&self) -> (r: usize)
        requires
            self.spec_size() <= usize::MAX,
        ensures
            r == self.spec_size(),
    {
        ENTRY_OVERHEAD + self.key.len() + self.value.len()
    }
}

/// Bytes of encoding overhead per entry: seqno (8) + kind (1) + key length
/// (2) + value length (4).
pub const ENTRY_OVERHEAD: usize = 15;

/// Strict lexicographic order on byte strings; a proper prefix sorts first.
pub open spec fn lex_lt(a: Seq<u8>, b: Seq<u8>) -> bool
    decreases a.len(),
{
    if b.len() == 0 {
        false
    } else if a.len() == 0 {
        true
    } else if a[0] < b[0] {
        true
    } else if a[0] > b[0] {
        false
    } else {
        lex_lt(a.skip(1), b.skip(1))
    }
}

pub open spec fn lex_le(a: Seq<u8>, b: Seq<u8>) -> bool {
    lex_lt(a, b) || a == b
}

/// `a` begins with the bytes of `p`.
pub open spec fn starts_with(a: Seq<u8>, p: Seq<u8>) -> bool {
    p.len() <= a.len() && a.subrange(0, p.len() as int) == p
}

/// The lexicographic order is irreflexive and antisymmetric: two strings
/// neither of which precedes the other are equal.
pub proof fn lemma_lex_total(a: Seq<u8>, b: Seq<u8>)
    ensures
        !(lex_lt(a, b) && lex_lt(b, a)),
        !lex_lt(a, b) && !lex_lt(b, a) ==> a == b,
    decreases a.len(),
{
    if b.len() == 0 || a.len() == 0 {
        if !lex_lt(a, b) && !lex_lt(b, a) {
            assert(a.len() == 0 && b.len() == 0);
            assert(a =~= b);
        }
    } else if a[0] == b[0] {
        lemma_lex_total(a.skip(1), b.skip(1));
        if !lex_lt(a, b) && !lex_lt(b, a) {
            assert(a.skip(1) =~= b.skip(1));
            assert(a =~= Seq::new(a.len(), |i: int| if i == 0 { a[0] } else { a.skip(1)[i - 1] }));
            assert(a =~= b);
        }
    }
}

/// The lexicographic order is transitive.
pub proof fn lemma_lex_trans(a: Seq<u8>, b: Seq<u8>, c: Seq<u8>)
    requires
        lex_lt(a, b),
        lex_lt(b, c),
    ensures
        lex_lt(a, c),
    decreases a.len(),
{
    if a.len() == 0 {
        assert(b.len() > 0);
        assert(c.len() > 0);
    } else {
        assert(b.len() > 0 && c.len() > 0);
        if a[0] == b[0] && b[0] == c[0] {
            lemma_lex_trans(a.skip(1), b.skip(1), c.skip(1));
        }
    }
}

/// The reflexive order is transitive as well.
pub proof fn lemma_lex_le_trans(a: Seq<u8>, b: Seq<u8>, c: Seq<u8>)
    requires
        lex_le(a, b),
        lex_le(b, c),
    ensures
        lex_le(a, c),
{
    if a == b || b == c {
    } else {
        lemma_lex_trans(a, b, c);
    }
}

/// Comparing two strings that agree on their first `i` bytes reduces to
/// comparing what remains after those bytes.
pub proof fn lemma_lex_skip(a: Seq<u8>, b: Seq<u8>, i: int)
    requires
        0 <= i <= a.len(),
        i <= b.len(),
        a.subrange(0, i) == b.subrange(0, i),
    ensures
        lex_lt(a, b) == lex_lt(a.skip(i), b.skip(i)),
    decreases i,
{
    if i > 0 {
        assert(a[0] == b[0]) by {
            assert(a.subrange(0, i)[0] == a[0]);
            assert(b.subrange(0, i)[0] == b[0]);
        }
        assert(a.len() > 0 && b.len() > 0);
        assert(a.skip(1).subrange(0, i - 1) =~= b.skip(1).subrange(0, i - 1)) by {
            assert forall|j: int| 0 <= j < i - 1 implies a.skip(1)[j] == b.skip(1)[j] by {
                assert(a.subrange(0, i)[j + 1] == a[j + 1]);
                assert(b.subrange(0, i)[j + 1] == b[j + 1]);
                assert(a.skip(1)[j] == a[j + 1]);
                assert(b.skip(1)[j] == b[j + 1]);
            }
        }
        lemma_lex_skip(a.skip(1), b.skip(1), i - 1);
        assert(a.skip(1).skip(i - 1) =~= a.skip(i));
        assert(b.skip(1).skip(i - 1) =~= b.skip(i));
        assert(lex_lt(a, b) == lex_lt(a.skip(1), b.skip(1)));
    } else {
        assert(a.skip(0) =~= a);
        assert(b.skip(0) =~= b);
    }
}

/// The strings that begin with a given prefix form an interval of the
/// lexicographic order: anything between the prefix itself and some string
/// that begins with it also begins with it.
pub proof fn lemma_prefix_interval(p: Seq<u8>, x: Seq<u8>, m: Seq<u8>)
    requires
        lex_le(p, x),
        lex_le(x, m),
        starts_with(m, p),
    ensures
        starts_with(x, p),
    decreases p.len(),
{
    if p.len() == 0 {
        assert(x.subrange(0, 0) =~= p);
    } else {
        if x.len() == 0 {
            // then lex_le(p, x) forces p empty
            assert(lex_lt(p, x) == false);
            assert(p =~= x);
        } else {
            assert(m.len() >= p.len());
            assert(m[0] == p[0]) by {
                assert(m.subrange(0, p.len() as int)[0] == p[0]);
            }
            // p <= x: either p[0] < x[0] or p[0] == x[0]
            if x[0] < p[0] {
                // then x < p and x < m in a way contradicting p <= x
                assert(lex_lt(x, p));
                lemma_lex_total(p, x);
                assert(!lex_lt(p, x));
                assert(p != x) by {
                    if p == x {
                        assert(p[0] == x[0]);
                    }
                }
                assert(false);
            } else if x[0] > p[0] {
                // then m < x, contradicting x <= m
                assert(x[0] > m[0]);
                assert(lex_lt(m, x));
                lemma_lex_total(x, m);
                assert(!lex_lt(x, m));
                assert(x != m) by {
                    if x == m {
                        assert(x[0] == m[0]);
                    }
                }
                assert(false);
            } else {
                // heads agree; recurse on tails
                let p1 = p.skip(1);
                let x1 = x.skip(1);
                let m1 = m.skip(1);
                assert(lex_le(p1, x1)) by {
                    if p == x {
                        assert(p1 =~= x1);
                    } else {
                        assert(lex_lt(p, x));
                        assert(lex_lt(p1, x1));
                    }
                }
                assert(lex_le(x1, m1)) by {
                    if x == m {
                        assert(x1 =~= m1);
                    } else {
                        assert(lex_lt(x, m));
                        assert(lex_lt(x1, m1));
                    }
                }
                assert(starts_with(m1, p1)) by {
                    assert(m1.subrange(0, p1.len() as int) =~= p1) by {
                        assert forall|j: int| 0 <= j < p1.len() implies m1[j] == p1[j] by {
                            assert(m.subrange(0, p.len() as int)[j + 1] == p[j + 1]);
                        }
                    }
                }
                lemma_prefix_interval(p1, x1, m1);
                assert(x.subrange(0, p.len() as int) =~= p) by {
                    assert forall|j: int| 0 <= j < p.len() implies x[j] == p[j] by {
                        if j > 0 {
                            assert(x1.subrange(0, p1.len() as int)[j - 1] == p1[j - 1]);
                        }
                    }
                }
            }
        }
    }
}

/// A string that begins with `p` is not lexicographically before `p`.
pub proof fn lemma_starts_with_ge(a: Seq<u8>, p: Seq<u8>)
    requires
        starts_with(a, p),
    ensures
        lex_le(p, a),
    decreases p.len(),
{
    if p.len() == 0 {
        if a.len() == 0 {
            assert(a =~= p);
        }
    } else {
        assert(a[0] == p[0]) by {
            assert(a.subrange(0, p.len() as int)[0] == p[0]);
        }
        let a1 = a.skip(1);
        let p1 = p.skip(1);
        assert(starts_with(a1, p1)) by {
            assert(a1.subrange(0, p1.len() as int) =~= p1) by {
                assert forall|j: int| 0 <= j < p1.len() implies a1[j] == p1[j] by {
                    assert(a.subrange(0, p.len() as int)[j + 1] == p[j + 1]);
                }
            }
        }
        lemma_starts_with_ge(a1, p1);
        if p1 == a1 {
            assert(p =~= a);
        } else {
            assert(lex_lt(p1, a1));
            assert(lex_lt(p, a));
        }
    }
}

/// Internal key of an entry: user key, sequence number and kind. Ordering is
/// ascending user key, then descending seqno, then kind, so that a seek to
/// `(key, SeqNo::MAX)` finds the newest version of `key` first.
pub struct ParsedInternalKey {
    pub user_key: Vec<u8>,
    pub seqno: SeqNo,
    pub value_type: ValueType,
}

/// Sort key an internal key is stored under: the user key, the seqno
/// complemented so that the natural integer order runs newest-first, and the
/// kind's code.
pub type EncodedKey = (Vec<u8>, u64, u8);

/// Model of an [`EncodedKey`].
pub type KeyModel = (Seq<u8>, u64, u8);

/// Model of an encoded key.
pub open spec fn key_model(k: EncodedKey) -> KeyModel {
    (k.0@, k.1, k.2)
}

/// The seqno an encoded key stands for.
pub open spec fn seqno_of(t: KeyModel) -> u64 {
    (u64::MAX - t.1) as u64
}

/// Strict order on encoded keys: lexicographic on the user key, then on the
/// complemented seqno (so higher seqnos come first), then on the kind code.
pub open spec fn enc_lt(a: KeyModel, b: KeyModel) -> bool {
    lex_lt(a.0, b.0) || (a.0 == b.0 && (a.1 < b.1 || (a.1 == b.1 && a.2 < b.2)))
}

pub proof fn lemma_enc_total(a: KeyModel, b: KeyModel)
    ensures
        !(enc_lt(a, b) && enc_lt(b, a)),
        !enc_lt(a, b) && !enc_lt(b, a) ==> a == b,
{
    lemma_lex_total(a.0, b.0);
}

impl ParsedInternalKey {
    pub fn new(user_key: Vec<u8>, seqno: SeqNo, value_type: ValueType) -> (r: ParsedInternalKey)
        ensures
            r.user_key@ == user_key@,
            r.seqno == seqno,
            r.value_type == value_type,
    {
        ParsedInternalKey { user_key, seqno, value_type }
    }

    /// What this key encodes to.
    pub open spec fn spec_encoded(self) -> KeyModel {
        (self.user_key@, (u64::MAX - self.seqno) as u64, self.value_type.spec_code())
    }

    /// Turns the key into the sort key it is stored under.
    pub fn encode(self) -> (r: EncodedKey)
        ensures
            key_model(r) == self.spec_encoded(),
    {
        let code = self.value_type.code();
        (self.user_key, u64::MAX - self.seqno, code)
    }
}

/// A fresh vector with the same bytes.
pub fn copy_bytes(v: &Vec<u8>) -> (r: Vec<u8>)
    ensures
        r@ == v@,
{
    let mut r: Vec<u8> = Vec::new();
    let n = v.len();
    let mut i: usize = 0;
    while i < n
        invariant
            n == v@.len(),
            0 <= i <= n,
            r@ == v@.subrange(0, i as int),
        decreases n - i,
    {
        r.push(v[i]);
        proof {
            assert(r@ =~= v@.subrange(0, i + 1 as int));
        }
        i = i + 1;
    }
    proof {
        assert(v@.subrange(0, n as int) =~= v@);
    }
    r
}

/// Exact equality of two byte vectors.
pub fn bytes_eq(a: &Vec<u8>, b: &Vec<u8>) -> (r: bool)
    ensures
        r == (a@ == b@),
{
    if a.len() != b.len() {
        proof {
            assert(a@ != b@) by {
                if a@ == b@ {
                    assert(a@.len() == b@.len());
                }
            }
        }
        return false;
    }
    let n = a.len();
    let mut i: usize = 0;
    while i < n
        invariant
            n == a@.len() == b@.len(),
            0 <= i <= n,
            a@.subrange(0, i as int) == b@.subrange(0, i as int),
        decreases n - i,
    {
        if a[i] != b[i] {
            proof {
                assert(a@ != b@) by {
                    if a@ == b@ {
                        assert(a@[i as int] == b@[i as int]);
                    }
                }
            }
            return false;
        }
        proof {
            assert(a@.subrange(0, i + 1 as int) =~= b@.subrange(0, i + 1 as int)) by {
                assert forall|j: int| 0 <= j < i + 1 implies a@[j] == b@[j] by {
                    if j < i {
                        assert(a@.subrange(0, i as int)[j] == b@.subrange(0, i as int)[j]);
                    }
                }
            }
        }
        i = i + 1;
    }
    proof {
        assert(a@ =~= b@) by {
            assert forall|j: int| 0 <= j < n implies a@[j] == b@[j] by {
                assert(a@.subrange(0, n as int)[j] == b@.subrange(0, n as int)[j]);
            }
        }
    }
    true
}

/// Strict lexicographic comparison of two byte vectors.
pub fn bytes_lt(a: &Vec<u8>, b: &Vec<u8>) -> (r: bool)
    ensures
        r == lex_lt(a@, b@),
{
    let na = a.len();
    let nb = b.len();
    let n = if na < nb { na } else { nb };
    let mut i: usize = 0;
    while i < n
        invariant
            na == a@.len(),
            nb == b@.len(),
            n == if na < nb { na } else { nb },
            0 <= i <= n,
            a@.subrange(0, i as int) == b@.subrange(0, i as int),
        decreases n - i,
    {
        let x = a[i];
        let y = b[i];
        if x != y {
            proof {
                lemma_lex_skip(a@, b@, i as int);
                assert(a@.skip(i as int)[0] == x);
                assert(b@.skip(i as int)[0] == y);
            }
            return x < y;
        }
        proof {
            assert(a@.subrange(0, i + 1 as int) =~= b@.subrange(0, i + 1 as int)) by {
                assert forall|j: int| 0 <= j < i + 1 implies a@[j] == b@[j] by {
                    if j < i {
                        assert(a@.subrange(0, i as int)[j] == b@.subrange(0, i as int)[j]);
                    }
                }
            }
        }
        i = i + 1;
    }
    proof {
        lemma_lex_skip(a@, b@, n as int);
        assert(a@.skip(n as int).len() == na - n);
        assert(b@.skip(n as int).len() == nb - n);
    }
    na < nb
}

pub fn bytes_le(a: &Vec<u8>, b: &Vec<u8>) -> (r: bool)
    ensures
        r == lex_le(a@, b@),
{
    let lt = bytes_lt(a, b);
    if lt {
        true
    } else {
        let eq = bytes_eq(a, b);
        eq
    }
}

/// Does `a` begin with the bytes of `p`?
pub fn bytes_starts_with(a: &Vec<u8>, p: &Vec<u8>) -> (r: bool)
    ensures
        r == starts_with(a@, p@),
{
    if p.len() > a.len() {
        return false;
    }
    let n = p.len();
    let mut i: usize = 0;
    while i < n
        invariant
            n == p@.len() <= a@.len(),
            0 <= i <= n,
            forall|j: int| 0 <= j < i ==> a@[j] == p@[j],
        decreases n - i,
    {
        if a[i] != p[i] {
            proof {
                assert(!starts_with(a@, p@)) by {
                    if starts_with(a@, p@) {
                        assert(a@.subrange(0, n as int)[i as int] == p@[i as int]);
                    }
                }
            }
            return false;
        }
        i = i + 1;
    }
    proof {
        assert(a@.subrange(0, n as int) =~= p@);
    }
    true
}

} // verus!
