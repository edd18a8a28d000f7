use vstd::prelude::*;
use vstd::multiset::Multiset;
use crate::key::{TreeKey, equiv};
use crate::tree::holds_equiv;

verus! {

broadcast use vstd::multiset::group_multiset_properties;

/// The keys held after inserting the keys of `s`, first to last, into a tree
/// holding `m` (each insert adds its key: see `RBtree::insert`).
pub open spec fn insert_all<K>(m: Multiset<K>, s: Seq<K>) -> Multiset<K>
    decreases s.len(),
{
    if s.len() == 0 {
        m
    } else {
        insert_all(m.insert(s[0]), s.drop_first())
    }
}

/// No two keys of `s` are equivalent.
pub open spec fn pairwise_distinct<K: TreeKey>(s: Seq<K>) -> bool {
    forall|i: int, j: int| 0 <= i < s.len() && 0 <= j < s.len() && i != j ==> !equiv(s[i], s[j])
}

proof fn lemma_insert_all_contains<K>(m: Multiset<K>, s: Seq<K>, x: K)
    ensures
        insert_all(m, s).contains(x) <==> m.contains(x) || s.contains(x),
    decreases s.len(),
{
    if s.len() > 0 {
        lemma_insert_all_contains(m.insert(s[0]), s.drop_first(), x);
        if s.contains(x) && x != s[0] {
            let i = choose|i: int| 0 <= i < s.len() && s[i] == x;
            assert(s.drop_first()[i - 1] == x);
        }
        if s.drop_first().contains(x) {
            let i = choose|i: int| 0 <= i < s.drop_first().len() && s.drop_first()[i] == x;
            assert(s[i + 1] == x);
        }
    }
}

/// Round trip: after the keys of `s` are inserted into an empty tree, a
/// search for `k` finds a key exactly when `k` is equivalent to one of the
/// keys of `s`; in particular every inserted key is found.
pub proof fn lemma_round_trip<K: TreeKey>(s: Seq<K>, k: K)
    ensures
        holds_equiv(insert_all(Multiset::empty(), s), k) <==> exists|i: int|
            0 <= i < s.len() && equiv(#[trigger] s[i], k),
        forall|i: int|
            0 <= i < s.len() ==> holds_equiv(insert_all(Multiset::empty(), s), #[trigger] s[i]),
{
    let m = insert_all(Multiset::<K>::empty(), s);
    if holds_equiv(m, k) {
        let x = choose|x: K| #[trigger] m.contains(x) && equiv(x, k);
        lemma_insert_all_contains(Multiset::empty(), s, x);
        let i = choose|i: int| 0 <= i < s.len() && s[i] == x;
        assert(equiv(s[i], k));
    }
    if exists|i: int| 0 <= i < s.len() && equiv(#[trigger] s[i], k) {
        let i = choose|i: int| 0 <= i < s.len() && equiv(#[trigger] s[i], k);
        lemma_insert_all_contains(Multiset::empty(), s, s[i]);
        assert(m.contains(s[i]));
    }
    assert forall|i: int| 0 <= i < s.len() implies holds_equiv(m, #[trigger] s[i]) by {
        lemma_insert_all_contains(Multiset::empty(), s, s[i]);
        K::lemma_irreflexive(s[i]);
        assert(m.contains(s[i]) && equiv(s[i], s[i]));
    }
}

/// Deleting from a tree that holds exactly the pairwise distinct keys of `s`
/// the key `s[i]`, for any `i`: the delete finds a key, the key it removes
/// (any held key equivalent to `s[i]`) is `s[i]` itself, the tree then holds
/// exactly the remaining keys, still pairwise distinct, and a search for
/// `s[i]` finds nothing. Deleting the keys of `s` one by one in any order
/// thus succeeds every time and ends with an empty tree.
pub proof fn lemma_delete_distinct<K: TreeKey>(s: Seq<K>, i: int, x: K)
    requires
        pairwise_distinct(s),
        0 <= i < s.len(),
        s.to_multiset().contains(x),
        equiv(x, s[i]),
    ensures
        holds_equiv(s.to_multiset(), s[i]),
        x == s[i],
        s.to_multiset().remove(x) =~= s.remove(i).to_multiset(),
        s.remove(i).len() == s.len() - 1,
        pairwise_distinct(s.remove(i)),
        !holds_equiv(s.remove(i).to_multiset(), s[i]),
{
    broadcast use vstd::seq_lib::group_to_multiset_ensures;

    K::lemma_irreflexive(s[i]);
    assert(s.to_multiset().contains(s[i]));
    assert(s.contains(x));
    let j = choose|j: int| 0 <= j < s.len() && s[j] == x;
    assert(j == i);
    let r = s.remove(i);
    assert forall|a: int, b: int| 0 <= a < r.len() && 0 <= b < r.len() && a != b implies !equiv(
        r[a],
        r[b],
    ) by {
        let a2 = if a < i {
            a
        } else {
            a + 1
        };
        let b2 = if b < i {
            b
        } else {
            b + 1
        };
        assert(r[a] == s[a2] && r[b] == s[b2]);
    }
    assert forall|y: K| #[trigger] r.to_multiset().contains(y) implies !equiv(y, s[i]) by {
        assert(r.contains(y));
        let a = choose|a: int| 0 <= a < r.len() && r[a] == y;
        let a2 = if a < i {
            a
        } else {
            a + 1
        };
        assert(r[a] == s[a2]);
    }
}

} // verus!
