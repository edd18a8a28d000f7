use vstd::prelude::*;
use vstd::utf8::encode_utf8;

verus! {

/// The ordering a tree key must provide: a strict order `precedes` that is
/// irreflexive, transitive, and total up to equivalence (two keys are
/// equivalent when neither precedes the other).
pub trait TreeKey: Sized {
    spec fn precedes(self, other: Self) -> bool;

    proof fn lemma_irreflexive(a: Self)
        ensures
            !a.precedes(a),
    ;

    proof fn lemma_transitive(a: Self, b: Self, c: Self)
        requires
            a.precedes(b),
            b.precedes(c),
        ensures
            a.precedes(c),
    ;

    /// Not-preceding is transitive too: if `a` does not precede `b` and `b`
    /// does not precede `c`, then `a` does not precede `c`.
    proof fn lemma_negatively_transitive(a: Self, b: Self, c: Self)
        requires
            !a.precedes(b),
            !b.precedes(c),
        ensures
            !a.precedes(c),
    ;

    fn less(&self, other: &Self) -> (r: bool)
        ensures
            r == self.precedes(*other),
    ;

    fn duplicate(&self) -> (r: Self)
        ensures
            r == *self,
    ;
}

/// `a` and `b` are equivalent: neither precedes the other.
pub open spec fn equiv<K: TreeKey>(a: K, b: K) -> bool {
    !a.precedes(b) && !b.precedes(a)
}

/// `a` is at most `b`.
pub open spec fn at_most<K: TreeKey>(a: K, b: K) -> bool {
    !b.precedes(a)
}

pub proof fn lemma_lt_le<K: TreeKey>(a: K, b: K, c: K)
    requires
        a.precedes(b),
        at_most(b, c),
    ensures
        a.precedes(c),
{
    if !a.precedes(c) {
        K::lemma_negatively_transitive(a, c, b);
    }
}

pub proof fn lemma_le_lt<K: TreeKey>(a: K, b: K, c: K)
    requires
        at_most(a, b),
        b.precedes(c),
    ensures
        a.precedes(c),
{
    if !a.precedes(c) {
        K::lemma_negatively_transitive(b, a, c);
    }
}

pub proof fn lemma_le_le<K: TreeKey>(a: K, b: K, c: K)
    requires
        at_most(a, b),
        at_most(b, c),
    ensures
        at_most(a, c),
{
    K::lemma_negatively_transitive(c, b, a);
}

impl TreeKey for i32 {
    open spec fn precedes(self, other: Self) -> bool {
        self < other
    }

    proof fn lemma_irreflexive(a: Self) {
    }

    proof fn lemma_transitive(a: Self, b: Self, c: Self) {
    }

    proof fn lemma_negatively_transitive(a: Self, b: Self, c: Self) {
    }

    fn less(&self, other: &Self) -> (r: bool) {
        *self < *other
    }

    fn duplicate(&self) -> (r: Self) {
        *self
    }
}

impl TreeKey for i64 {
    open spec fn precedes(self, other: Self) -> bool {
        self < other
    }

    proof fn lemma_irreflexive(a: Self) {
    }

    proof fn lemma_transitive(a: Self, b: Self, c: Self) {
    }

    proof fn lemma_negatively_transitive(a: Self, b: Self, c: Self) {
    }

    fn less(&self, other: &Self) -> (r: bool) {
        *self < *other
    }

    fn duplicate(&self) -> (r: Self) {
        *self
    }
}

impl TreeKey for u64 {
    open spec fn precedes(self, other: Self) -> bool {
        self < other
    }

    proof fn lemma_irreflexive(a: Self) {
    }

    proof fn lemma_transitive(a: Self, b: Self, c: Self) {
    }

    proof fn lemma_negatively_transitive(a: Self, b: Self, c: Self) {
    }

    fn less(&self, other: &Self) -> (r: bool) {
        *self < *other
    }

    fn duplicate(&self) -> (r: Self) {
        *self
    }
}

/// Lexicographic order on byte sequences: a proper prefix comes first.
pub open spec fn bytes_lt(a: Seq<u8>, b: Seq<u8>) -> bool
    decreases a.len(),
{
    if b.len() == 0 {
        false
    } else if a.len() == 0 {
        true
    } else if a[0] != b[0] {
        a[0] < b[0]
    } else {
        bytes_lt(a.drop_first(), b.drop_first())
    }
}

proof fn lemma_bytes_lt_irreflexive(a: Seq<u8>)
    ensures
        !bytes_lt(a, a),
    decreases a.len(),
{
    if a.len() > 0 {
        lemma_bytes_lt_irreflexive(a.drop_first());
    }
}

proof fn lemma_bytes_lt_transitive(a: Seq<u8>, b: Seq<u8>, c: Seq<u8>)
    requires
        bytes_lt(a, b),
        bytes_lt(b, c),
    ensures
        bytes_lt(a, c),
    decreases a.len(),
{
    if a.len() > 0 && a[0] == b[0] && b[0] == c[0] {
        lemma_bytes_lt_transitive(a.drop_first(), b.drop_first(), c.drop_first());
    }
}

proof fn lemma_bytes_lt_total(a: Seq<u8>, b: Seq<u8>)
    ensures
        bytes_lt(a, b) || bytes_lt(b, a) || a == b,
    decreases a.len(),
{
    if a.len() > 0 && b.len() > 0 && a[0] == b[0] {
        lemma_bytes_lt_total(a.drop_first(), b.drop_first());
        if a.drop_first() == b.drop_first() {
            assert(a =~= seq![a[0]] + a.drop_first());
            assert(b =~= seq![b[0]] + b.drop_first());
        }
    } else if a.len() == 0 && b.len() == 0 {
        assert(a =~= b);
    }
}

/// Strings are ordered by their UTF-8 bytes, which is the order of their
/// characters.
pub open spec fn string_bytes(s: String) -> Seq<u8> {
    encode_utf8(s@)
}

/// Compares two byte slices lexicographically.
fn slice_less(a: &[u8], b: &[u8]) -> (r: bool)
    ensures
        r == bytes_lt(a@, b@),
{
    let mut i: usize = 0;
    assert(a@.skip(0) =~= a@);
    assert(b@.skip(0) =~= b@);
    while i < a.len() && i < b.len() && a[i] == b[i]
        invariant
            i <= a@.len(),
            i <= b@.len(),
            bytes_lt(a@, b@) == bytes_lt(a@.skip(i as int), b@.skip(i as int)),
        decreases a@.len() - i,
    {
        proof {
            let sa = a@.skip(i as int);
            let sb = b@.skip(i as int);
            assert(sa.drop_first() =~= a@.skip(i + 1));
            assert(sb.drop_first() =~= b@.skip(i + 1));
        }
        i = i + 1;
    }
    let sa = Ghost(a@.skip(i as int));
    let sb = Ghost(b@.skip(i as int));
    if i == b.len() {
        assert(sb@.len() == 0);
        false
    } else if i == a.len() {
        assert(sa@.len() == 0);
        true
    } else {
        assert(sa@[0] == a@[i as int]);
        assert(sb@[0] == b@[i as int]);
        a[i] < b[i]
    }
}

impl TreeKey for String {
    open spec fn precedes(self, other: Self) -> bool {
        bytes_lt(string_bytes(self), string_bytes(other))
    }

    proof fn lemma_irreflexive(a: Self) {
        lemma_bytes_lt_irreflexive(string_bytes(a));
    }

    proof fn lemma_transitive(a: Self, b: Self, c: Self) {
        lemma_bytes_lt_transitive(string_bytes(a), string_bytes(b), string_bytes(c));
    }

    proof fn lemma_negatively_transitive(a: Self, b: Self, c: Self) {
        let (x, y, z) = (string_bytes(a), string_bytes(b), string_bytes(c));
        lemma_bytes_lt_total(x, y);
        lemma_bytes_lt_total(y, z);
        if bytes_lt(x, z) {
            if bytes_lt(y, x) {
                lemma_bytes_lt_transitive(y, x, z);
            }
        }
    }

    fn less(&self, other: &Self) -> (r: bool) {
        let a = self.as_str();
        let b = other.as_str();
        slice_less(a.as_bytes(), b.as_bytes())
    }

    fn duplicate(&self) -> (r: Self) {
        self.clone()
    }
}

} // verus!
