//! The red-black tree.
//!
//! Each node owns its two subtrees; an absent child, `None`, plays the part
//! of the sentinel (no key, black). Nodes keep no parent link: insert and
//! delete descend recursively, and the fixup walk towards the root happens
//! as the recursion returns, one ancestor at a time, with the same cases as a
//! walk along parent links (uncle color on insert; sibling and nephew colors
//! on delete).
//!
//! Equal keys are all kept. A new key that does not precede a node's key goes
//! to its right; since rotations may later move equal keys to either side,
//! the order kept is: keys of a left subtree are at most the node's key, keys
//! of a right subtree at least. Search and delete stop at the first node met
//! whose key is equivalent to the one asked for.
use vstd::prelude::*;
use vstd::multiset::Multiset;
use vstd::arithmetic::power2::{pow2, lemma_pow2_unfold, lemma_pow2_strictly_increases, lemma2_to64};
use crate::key::{TreeKey, equiv, at_most, lemma_lt_le, lemma_le_lt, lemma_le_le};

verus! {

broadcast use vstd::multiset::group_multiset_properties;

/// The color of a node. An absent child (the sentinel) counts as black.
#[derive(Clone, Copy, PartialEq, Eq, Structural, Debug)]
pub enum Color {
    Red,
    Black,
}

/// A node of the tree. A child that is `None` is the sentinel: it holds no
/// key and is black.
pub struct Node<K> {
    pub key: K,
    pub color: Color,
    pub left: Option<Box<Node<K>>>,
    pub right: Option<Box<Node<K>>>,
}

/// The keys held in a subtree, with their multiplicities.
pub open spec fn link_keys<K>(t: Option<Box<Node<K>>>) -> Multiset<K>
    decreases t,
{
    match t {
        None => Multiset::empty(),
        Some(n) => link_keys(n.left).add(link_keys(n.right)).insert(n.key),
    }
}

/// What a node's subtree holds: its key and its two subtrees' keys.
proof fn lemma_node_keys<K>(t: Option<Box<Node<K>>>)
    requires
        t is Some,
    ensures
        forall|x: K| #[trigger]
            link_keys(t).contains(x) <==> (link_keys(t.unwrap().left).contains(x) || link_keys(
                t.unwrap().right,
            ).contains(x) || x == t.unwrap().key),
        link_keys(t).len() == link_keys(t.unwrap().left).len() + link_keys(t.unwrap().right).len()
            + 1,
{
    let n = t.unwrap();
    assert forall|x: K| #[trigger]
        link_keys(t).contains(x) <==> (link_keys(n.left).contains(x) || link_keys(
            n.right,
        ).contains(x) || x == n.key) by {
        if x != n.key {
            assert(link_keys(t).count(x) == link_keys(n.left).count(x) + link_keys(n.right).count(x));
        }
    }
}

/// Every key of `m` is at most `k`.
pub open spec fn all_at_most<K: TreeKey>(m: Multiset<K>, k: K) -> bool {
    forall|x: K| #[trigger] m.contains(x) ==> at_most(x, k)
}

/// Every key of `m` is at least `k`.
pub open spec fn all_at_least<K: TreeKey>(m: Multiset<K>, k: K) -> bool {
    forall|x: K| #[trigger] m.contains(x) ==> at_most(k, x)
}

/// `m` holds a key equivalent to `k`.
pub open spec fn holds_equiv<K: TreeKey>(m: Multiset<K>, k: K) -> bool {
    exists|x: K| #[trigger] m.contains(x) && equiv(x, k)
}

/// Search-tree order: the keys of a left subtree are at most the node's key,
/// those of a right subtree at least the node's key. (Equal keys may sit on
/// either side once rotations have moved them.)
pub open spec fn is_search_tree<K: TreeKey>(t: Option<Box<Node<K>>>) -> bool
    decreases t,
{
    match t {
        None => true,
        Some(n) => {
            &&& is_search_tree(n.left)
            &&& is_search_tree(n.right)
            &&& all_at_most(link_keys(n.left), n.key)
            &&& all_at_least(link_keys(n.right), n.key)
        },
    }
}

pub open spec fn is_red<K>(t: Option<Box<Node<K>>>) -> bool {
    match t {
        None => false,
        Some(n) => n.color == Color::Red,
    }
}

/// The number of black nodes on the leftmost path below and including the
/// root, the sentinel not counted.
pub open spec fn black_height<K>(t: Option<Box<Node<K>>>) -> nat
    decreases t,
{
    match t {
        None => 0,
        Some(n) => black_height(n.left) + if n.color == Color::Black {
            1nat
        } else {
            0nat
        },
    }
}

/// The color rules: no red node has a red child, and both subtrees of every
/// node have the same black height, so every path from a node down to the
/// sentinel meets the same number of black nodes.
pub open spec fn is_red_black<K>(t: Option<Box<Node<K>>>) -> bool
    decreases t,
{
    match t {
        None => true,
        Some(n) => {
            &&& is_red_black(n.left)
            &&& is_red_black(n.right)
            &&& black_height(n.left) == black_height(n.right)
            &&& (n.color == Color::Red ==> !is_red(n.left) && !is_red(n.right))
        },
    }
}

/// The number of nodes on the longest path from the root down to the sentinel.
pub open spec fn link_height<K>(t: Option<Box<Node<K>>>) -> nat
    decreases t,
{
    match t {
        None => 0,
        Some(n) => 1 + if link_height(n.left) >= link_height(n.right) {
            link_height(n.left)
        } else {
            link_height(n.right)
        },
    }
}

/// The color rules hold in both subtrees, which have the same black height;
/// the root itself may be a red node with a red child.
pub open spec fn almost_red_black<K>(t: Option<Box<Node<K>>>) -> bool {
    match t {
        None => true,
        Some(n) => {
            &&& is_red_black(n.left)
            &&& is_red_black(n.right)
            &&& black_height(n.left) == black_height(n.right)
        },
    }
}

/// A valid red-black tree: search-tree order, the color rules, black root.
pub open spec fn valid_tree<K: TreeKey>(t: Option<Box<Node<K>>>) -> bool {
    is_search_tree(t) && is_red_black(t) && !is_red(t)
}

/// Descends from the root and returns the first stored key equivalent to
/// `key`.
fn rb_search<K: TreeKey>(t: &Option<Box<Node<K>>>, key: &K) -> (r: Option<K>)
    requires
        is_search_tree(*t),
    ensures
        r is None ==> !holds_equiv(link_keys(*t), *key),
        r matches Some(x) ==> link_keys(*t).contains(x) && equiv(x, *key),
    decreases *t,
{
    match t {
        None => None,
        Some(n) => {
            proof {
                lemma_node_keys(*t);
            }
            if key.less(&n.key) {
                let r = rb_search(&n.left, key);
                proof {
                    assert forall|x: K| #[trigger] link_keys(n.right).contains(x) implies !equiv(
                        x,
                        *key,
                    ) by {
                        lemma_lt_le(*key, n.key, x);
                    }
                }
                r
            } else if n.key.less(key) {
                let r = rb_search(&n.right, key);
                proof {
                    assert forall|x: K| #[trigger] link_keys(n.left).contains(x) implies !equiv(
                        x,
                        *key,
                    ) by {
                        lemma_le_lt(x, n.key, *key);
                    }
                }
                r
            } else {
                Some(n.key.duplicate())
            }
        },
    }
}

/// The key of the leftmost node: the least key of the subtree.
fn rb_tree_minimum<K: TreeKey>(t: &Option<Box<Node<K>>>) -> (r: Option<K>)
    requires
        is_search_tree(*t),
    ensures
        r is None ==> link_keys(*t).len() == 0,
        r matches Some(m) ==> link_keys(*t).contains(m) && all_at_least(link_keys(*t), m),
    decreases *t,
{
    match t {
        None => None,
        Some(n) => {
            proof {
                lemma_node_keys(*t);
            }
            let r = rb_tree_minimum(&n.left);
            match r {
                None => {
                    proof {
                        K::lemma_irreflexive(n.key);
                        assert(link_keys(n.left) =~= Multiset::empty());
                    }
                    Some(n.key.duplicate())
                },
                Some(m) => {
                    proof {
                        assert forall|x: K| #[trigger]
                            link_keys(n.right).contains(x) implies at_most(m, x) by {
                            lemma_le_le(m, n.key, x);
                        }
                    }
                    Some(m)
                },
            }
        },
    }
}

/// The key of the rightmost node: the greatest key of the subtree.
fn rb_tree_maximum<K: TreeKey>(t: &Option<Box<Node<K>>>) -> (r: Option<K>)
    requires
        is_search_tree(*t),
    ensures
        r is None ==> link_keys(*t).len() == 0,
        r matches Some(m) ==> link_keys(*t).contains(m) && all_at_most(link_keys(*t), m),
    decreases *t,
{
    match t {
        None => None,
        Some(n) => {
            proof {
                lemma_node_keys(*t);
            }
            let r = rb_tree_maximum(&n.right);
            match r {
                None => {
                    proof {
                        K::lemma_irreflexive(n.key);
                        assert(link_keys(n.right) =~= Multiset::empty());
                    }
                    Some(n.key.duplicate())
                },
                Some(m) => {
                    proof {
                        assert forall|x: K| #[trigger]
                            link_keys(n.left).contains(x) implies at_most(x, m) by {
                            lemma_le_le(x, n.key, m);
                        }
                    }
                    Some(m)
                },
            }
        },
    }
}

fn link_is_red<K>(t: &Option<Box<Node<K>>>) -> (r: bool)
    ensures
        r == is_red(*t),
{
    match t {
        None => false,
        Some(n) => n.color == Color::Red,
    }
}

/// The same node with another color.
fn recolor<K: TreeKey>(n: Box<Node<K>>, color: Color) -> (r: Box<Node<K>>)
    ensures
        r.key == n.key,
        r.left == n.left,
        r.right == n.right,
        r.color == color,
        link_keys(Some(r)) == link_keys(Some(n)),
        is_search_tree(Some(n)) ==> is_search_tree(Some(r)),
{
    let mut n = n;
    n.color = color;
    n
}

/// Left rotation at `x`: its right child `y` takes its place, `x` becomes
/// `y`'s left child, and `y`'s former left subtree becomes `x`'s right
/// subtree. Colors go with their keys.
fn rb_left_rotate<K: TreeKey>(x: Box<Node<K>>) -> (y: Box<Node<K>>)
    requires
        x.right is Some,
    ensures
        y.key == x.right.unwrap().key,
        y.color == x.right.unwrap().color,
        y.right == x.right.unwrap().right,
        y.left is Some,
        y.left.unwrap().key == x.key,
        y.left.unwrap().color == x.color,
        y.left.unwrap().left == x.left,
        y.left.unwrap().right == x.right.unwrap().left,
        link_keys(Some(y)) =~= link_keys(Some(x)),
        is_search_tree(Some(x)) ==> is_search_tree(Some(y)),
{
    let Node { key, color, left, right } = *x;
    let r = right.unwrap();
    let Node { key: rkey, color: rcolor, left: rleft, right: rright } = *r;
    let lower = Box::new(Node { key, color, left, right: rleft });
    let y = Box::new(Node { key: rkey, color: rcolor, left: Some(lower), right: rright });
    proof {
        let xs = Some(x);
        let rs = Some(r);
        let ls = Some(lower);
        assert(x.right == rs);
        lemma_node_keys(xs);
        lemma_node_keys(rs);
        lemma_node_keys(ls);
        lemma_node_keys(Some(y));
        if is_search_tree(xs) {
            assert(is_search_tree(rs));
            assert(all_at_most(link_keys(rleft), rkey));
            assert(link_keys(rs).contains(rkey));
            assert(at_most(key, rkey));
            assert forall|v: K| #[trigger] link_keys(ls).contains(v) implies at_most(v, rkey) by {
                if link_keys(left).contains(v) {
                    lemma_le_le(v, key, rkey);
                } else if v == key {
                } else {
                    assert(link_keys(rleft).contains(v));
                }
            }
            assert forall|v: K| #[trigger] link_keys(rleft).contains(v) implies at_most(key, v) by {
                assert(link_keys(rs).contains(v));
            }
            assert(is_search_tree(ls));
        }
    }
    y
}

/// Right rotation at `x`: the mirror image of `rb_left_rotate`.
fn rb_right_rotate<K: TreeKey>(x: Box<Node<K>>) -> (y: Box<Node<K>>)
    requires
        x.left is Some,
    ensures
        y.key == x.left.unwrap().key,
        y.color == x.left.unwrap().color,
        y.left == x.left.unwrap().left,
        y.right is Some,
        y.right.unwrap().key == x.key,
        y.right.unwrap().color == x.color,
        y.right.unwrap().right == x.right,
        y.right.unwrap().left == x.left.unwrap().right,
        link_keys(Some(y)) =~= link_keys(Some(x)),
        is_search_tree(Some(x)) ==> is_search_tree(Some(y)),
{
    let Node { key, color, left, right } = *x;
    let l = left.unwrap();
    let Node { key: lkey, color: lcolor, left: lleft, right: lright } = *l;
    let lower = Box::new(Node { key, color, left: lright, right });
    let y = Box::new(Node { key: lkey, color: lcolor, left: lleft, right: Some(lower) });
    proof {
        let xs = Some(x);
        let ls = Some(l);
        let us = Some(lower);
        assert(x.left == ls);
        lemma_node_keys(xs);
        lemma_node_keys(ls);
        lemma_node_keys(us);
        lemma_node_keys(Some(y));
        if is_search_tree(xs) {
            assert(is_search_tree(ls));
            assert(all_at_least(link_keys(lright), lkey));
            assert(link_keys(ls).contains(lkey));
            assert(at_most(lkey, key));
            assert forall|v: K| #[trigger] link_keys(us).contains(v) implies at_most(lkey, v) by {
                if link_keys(right).contains(v) {
                    lemma_le_le(lkey, key, v);
                } else if v == key {
                } else {
                    assert(link_keys(lright).contains(v));
                }
            }
            assert forall|v: K| #[trigger] link_keys(lright).contains(v) implies at_most(v, key) by {
                assert(link_keys(ls).contains(v));
            }
            assert(is_search_tree(us));
        }
    }
    y
}

/// Restores the color rules at a node whose left subtree `p` has just
/// received a key. If `p` is red with a red child, the uncle `u` decides: a
/// red uncle means recoloring (the node turns red, and the conflict may move
/// up); a black uncle means one or two rotations, which end the repair.
fn rb_insert_fixup_left<K: TreeKey>(
    gkey: K,
    gcolor: Color,
    p: Box<Node<K>>,
    u: Option<Box<Node<K>>>,
) -> (r: Box<Node<K>>)
    requires
        is_search_tree(Some(p)),
        is_search_tree(u),
        all_at_most(link_keys(Some(p)), gkey),
        all_at_least(link_keys(u), gkey),
        almost_red_black(Some(p)),
        is_red_black(u),
        black_height(Some(p)) == black_height(u),
        p.color == Color::Red ==> !(is_red(p.left) && is_red(p.right)),
        gcolor == Color::Red ==> is_red_black(Some(p)) && !is_red(u),
    ensures
        link_keys(Some(r)) =~= link_keys(Some(p)).add(link_keys(u)).insert(gkey),
        is_search_tree(Some(r)),
        almost_red_black(Some(r)),
        black_height(Some(r)) == black_height(Some(p)) + if gcolor == Color::Black {
            1nat
        } else {
            0nat
        },
        gcolor == Color::Black ==> is_red_black(Some(r)),
        gcolor == Color::Red ==> r.color == Color::Red && !(is_red(r.left) && is_red(r.right)),
{
    let ghost p0 = p;
    if p.color == Color::Red && (link_is_red(&p.left) || link_is_red(&p.right)) {
        if link_is_red(&u) {
            let p2 = recolor(p, Color::Black);
            let u2 = recolor(u.unwrap(), Color::Black);
            let r = Box::new(Node { key: gkey, color: Color::Red, left: Some(p2), right: Some(u2) });
            proof {
                assert(black_height(Some(p2)) == black_height(Some(p0)) + 1);
                assert(black_height(Some(u2)) == black_height(u) + 1);
                assert(is_red_black(Some(p2)));
                assert(is_red_black(Some(u2)));
            }
            r
        } else {
            let outer = link_is_red(&p.left);
            let top = if outer {
                p
            } else {
                rb_left_rotate(p)
            };
            let top = recolor(top, Color::Black);
            let g = Box::new(Node { key: gkey, color: Color::Red, left: Some(top), right: u });
            proof {
                assert(is_search_tree(Some(g)));
            }
            let r = rb_right_rotate(g);
            proof {
                let rl = r.left;
                let rr = r.right.unwrap();
                if outer {
                    assert(rl == p0.left);
                    assert(rr.left == p0.right);
                } else {
                    let z = p0.right.unwrap();
                    assert(is_red_black(p0.right));
                    assert(rl.unwrap().left == p0.left);
                    assert(rl.unwrap().right == z.left);
                    assert(rr.left == z.right);
                    assert(is_red_black(rl));
                }
                assert(is_red_black(r.right));
                assert(black_height(rl) == black_height(Some(p0)));
                assert(black_height(r.right) == black_height(Some(p0)));
            }
            r
        }
    } else {
        let r = Box::new(Node { key: gkey, color: gcolor, left: Some(p), right: u });
        proof {
            assert(is_red_black(Some(p0)));
        }
        r
    }
}

/// The mirror image of `rb_insert_fixup_left`, for a node whose right
/// subtree `p` has just received a key.
fn rb_insert_fixup_right<K: TreeKey>(
    gkey: K,
    gcolor: Color,
    u: Option<Box<Node<K>>>,
    p: Box<Node<K>>,
) -> (r: Box<Node<K>>)
    requires
        is_search_tree(Some(p)),
        is_search_tree(u),
        all_at_least(link_keys(Some(p)), gkey),
        all_at_most(link_keys(u), gkey),
        almost_red_black(Some(p)),
        is_red_black(u),
        black_height(Some(p)) == black_height(u),
        p.color == Color::Red ==> !(is_red(p.left) && is_red(p.right)),
        gcolor == Color::Red ==> is_red_black(Some(p)) && !is_red(u),
    ensures
        link_keys(Some(r)) =~= link_keys(u).add(link_keys(Some(p))).insert(gkey),
        is_search_tree(Some(r)),
        almost_red_black(Some(r)),
        black_height(Some(r)) == black_height(Some(p)) + if gcolor == Color::Black {
            1nat
        } else {
            0nat
        },
        gcolor == Color::Black ==> is_red_black(Some(r)),
        gcolor == Color::Red ==> r.color == Color::Red && !(is_red(r.left) && is_red(r.right)),
{
    let ghost p0 = p;
    if p.color == Color::Red && (link_is_red(&p.left) || link_is_red(&p.right)) {
        if link_is_red(&u) {
            let p2 = recolor(p, Color::Black);
            let u2 = recolor(u.unwrap(), Color::Black);
            let r = Box::new(Node { key: gkey, color: Color::Red, left: Some(u2), right: Some(p2) });
            proof {
                assert(black_height(Some(p2)) == black_height(Some(p0)) + 1);
                assert(black_height(Some(u2)) == black_height(u) + 1);
                assert(is_red_black(Some(p2)));
                assert(is_red_black(Some(u2)));
            }
            r
        } else {
            let outer = link_is_red(&p.right);
            let top = if outer {
                p
            } else {
                rb_right_rotate(p)
            };
            let top = recolor(top, Color::Black);
            let g = Box::new(Node { key: gkey, color: Color::Red, left: u, right: Some(top) });
            proof {
                assert(is_search_tree(Some(g)));
            }
            let r = rb_left_rotate(g);
            proof {
                let rr = r.right;
                let rl = r.left.unwrap();
                if outer {
                    assert(rr == p0.right);
                    assert(rl.right == p0.left);
                } else {
                    let z = p0.left.unwrap();
                    assert(is_red_black(p0.left));
                    assert(rr.unwrap().right == p0.right);
                    assert(rr.unwrap().left == z.right);
                    assert(rl.right == z.left);
                    assert(is_red_black(rr));
                }
                assert(is_red_black(r.left));
                assert(black_height(rr) == black_height(Some(p0)));
                assert(black_height(r.left) == black_height(Some(p0)));
            }
            r
        }
    } else {
        let r = Box::new(Node { key: gkey, color: gcolor, left: u, right: Some(p) });
        proof {
            assert(is_red_black(Some(p0)));
        }
        r
    }
}

/// Places `key` below `t` by search-tree descent (a key that does not
/// precede a node's key goes right) as a new red node, and repairs the color
/// rules on the way back up. A red-red conflict between the returned root and
/// one of its children is left for the caller.
fn rb_insert<K: TreeKey>(t: Option<Box<Node<K>>>, key: K) -> (r: Box<Node<K>>)
    requires
        is_search_tree(t),
        is_red_black(t),
    ensures
        link_keys(Some(r)) =~= link_keys(t).insert(key),
        is_search_tree(Some(r)),
        almost_red_black(Some(r)),
        black_height(Some(r)) == black_height(t),
        !is_red(t) ==> is_red_black(Some(r)),
        is_red(t) ==> r.color == Color::Red && !(is_red(r.left) && is_red(r.right)),
    decreases t,
{
    match t {
        None => Box::new(Node { key, color: Color::Red, left: None, right: None }),
        Some(n) => {
            let ghost t0 = t;
            let Node { key: nkey, color, left, right } = *n;
            proof {
                lemma_node_keys(t0);
            }
            if key.less(&nkey) {
                proof {
                    if nkey.precedes(key) {
                        K::lemma_transitive(key, nkey, key);
                        K::lemma_irreflexive(key);
                    }
                }
                let p = rb_insert(left, key);
                proof {
                    lemma_node_keys(Some(p));
                    assert forall|x: K| #[trigger] link_keys(Some(p)).contains(x) implies at_most(
                        x,
                        nkey,
                    ) by {
                        if x != key {
                            assert(link_keys(left).contains(x));
                        }
                    }
                }
                rb_insert_fixup_left(nkey, color, p, right)
            } else {
                let p = rb_insert(right, key);
                proof {
                    assert forall|x: K| #[trigger] link_keys(Some(p)).contains(x) implies at_most(
                        nkey,
                        x,
                    ) by {
                        if x != key {
                            assert(link_keys(right).contains(x));
                        }
                    }
                }
                rb_insert_fixup_right(nkey, color, left, p)
            }
        },
    }
}

/// The delete-fixup step at a node whose left subtree `x` has lost one
/// black level, when the sibling `w` is black. Both of `w`'s children black:
/// `w` turns red and the loss moves up unless the node was red. Otherwise a
/// red far child (after a rotation at `w` if only the near child was red)
/// lets a rotation at the node restore the balance.
fn rb_delete_fixup_left_black<K: TreeKey>(
    pkey: K,
    pcolor: Color,
    x: Option<Box<Node<K>>>,
    w: Box<Node<K>>,
) -> (res: (Box<Node<K>>, bool))
    requires
        is_search_tree(x),
        is_search_tree(Some(w)),
        all_at_most(link_keys(x), pkey),
        all_at_least(link_keys(Some(w)), pkey),
        is_red_black(x),
        is_red_black(Some(w)),
        w.color == Color::Black,
        black_height(Some(w)) == black_height(x) + 1,
        !is_red(x),
    ensures
        link_keys(Some(res.0)) =~= link_keys(x).add(link_keys(Some(w))).insert(pkey),
        is_search_tree(Some(res.0)),
        is_red_black(Some(res.0)),
        black_height(Some(res.0)) + (if res.1 {
            1nat
        } else {
            0nat
        }) == black_height(Some(w)) + (if pcolor == Color::Black {
            1nat
        } else {
            0nat
        }),
        pcolor == Color::Black ==> !is_red(Some(res.0)),
        res.1 ==> !is_red(Some(res.0)),
        pcolor == Color::Red ==> !res.1,
{
    let ghost w0 = w;
    if !link_is_red(&w.left) && !link_is_red(&w.right) {
        let w2 = recolor(w, Color::Red);
        let r = Box::new(Node { key: pkey, color: Color::Black, left: x, right: Some(w2) });
        proof {
            assert(is_red_black(Some(w2)));
            assert(black_height(Some(w2)) == black_height(x));
            assert(black_height(Some(r)) == black_height(x) + 1);
        }
        (r, pcolor == Color::Black)
    } else {
        let w3 = if !link_is_red(&w.right) {
            let Node { key: wk, color: _, left: wl, right: wr } = *w;
            let wl2 = recolor(wl.unwrap(), Color::Black);
            let w2 = Box::new(Node { key: wk, color: Color::Red, left: Some(wl2), right: wr });
            proof {
                lemma_node_keys(Some(w0));
                lemma_node_keys(Some(w2));
                assert(link_keys(Some(w2)) =~= link_keys(Some(w0)));
                assert(is_search_tree(Some(w2)));
            }
            let w3 = rb_right_rotate(w2);
            proof {
                let z = w0.left.unwrap();
                assert(is_red_black(w0.left));
                assert(w3.left == z.left);
                assert(w3.right.unwrap().left == z.right);
                assert(w3.right.unwrap().right == w0.right);
                assert(is_red_black(w3.right));
                assert(black_height(w3.right) == black_height(z.left));
            }
            w3
        } else {
            w
        };
        let ghost w30 = w3;
        proof {
            assert(is_red_black(Some(w3)));
            assert(is_red(w3.right));
            assert(black_height(Some(w3)) == black_height(Some(w0)));
        }
        let Node { key: wk, color: _, left: wl, right: wr } = *w3;
        let wr2 = recolor(wr.unwrap(), Color::Black);
        let w4 = Box::new(Node { key: wk, color: pcolor, left: wl, right: Some(wr2) });
        proof {
            lemma_node_keys(Some(w30));
            lemma_node_keys(Some(w4));
            assert(link_keys(Some(w4)) =~= link_keys(Some(w30)));
            assert(is_search_tree(Some(w4)));
        }
        let g = Box::new(Node { key: pkey, color: Color::Black, left: x, right: Some(w4) });
        let r = rb_left_rotate(g);
        proof {
            assert(r.left.unwrap().left == x);
            assert(r.left.unwrap().right == wl);
            assert(is_red_black(r.left));
            assert(black_height(r.left) == black_height(x) + 1);
            assert(wr == w30.right);
            assert(is_red_black(wr));
            assert(is_red_black(Some(wr2)));
        }
        (r, false)
    }
}

/// The delete-fixup step at a node whose left subtree `x` has lost one
/// black level. A red sibling is first rotated up (it turns black, the node
/// red), so that the black-sibling step applies below it.
fn rb_delete_fixup_left<K: TreeKey>(
    pkey: K,
    pcolor: Color,
    x: Option<Box<Node<K>>>,
    w: Option<Box<Node<K>>>,
) -> (res: (Box<Node<K>>, bool))
    requires
        is_search_tree(x),
        is_search_tree(w),
        all_at_most(link_keys(x), pkey),
        all_at_least(link_keys(w), pkey),
        is_red_black(x),
        is_red_black(w),
        black_height(w) == black_height(x) + 1,
        !is_red(x),
        pcolor == Color::Red ==> !is_red(w),
    ensures
        link_keys(Some(res.0)) =~= link_keys(x).add(link_keys(w)).insert(pkey),
        is_search_tree(Some(res.0)),
        is_red_black(Some(res.0)),
        black_height(Some(res.0)) + (if res.1 {
            1nat
        } else {
            0nat
        }) == black_height(w) + (if pcolor == Color::Black {
            1nat
        } else {
            0nat
        }),
        pcolor == Color::Black ==> !is_red(Some(res.0)),
        res.1 ==> !is_red(Some(res.0)),
        pcolor == Color::Red ==> !res.1,
{
    let w = w.unwrap();
    if w.color == Color::Red {
        let ghost w0 = w;
        let w2 = recolor(w, Color::Black);
        let g = Box::new(Node { key: pkey, color: Color::Red, left: x, right: Some(w2) });
        proof {
            assert(is_search_tree(Some(g)));
        }
        let top = rb_left_rotate(g);
        let ghost top0 = top;
        let Node { key: tk, color: tc, left: tl, right: tr } = *top;
        let Node { key: pk, color: pc, left: xx, right: ww } = *tl.unwrap();
        proof {
            assert(is_search_tree(Some(top0)));
            assert(is_search_tree(top0.left));
            assert(ww == w0.left);
            assert(black_height(w0.left) == black_height(Some(w0)));
            assert(is_red_black(w0.left));
        }
        let (np, _) = rb_delete_fixup_left_black(pk, pc, xx, ww.unwrap());
        let r = Box::new(Node { key: tk, color: tc, left: Some(np), right: tr });
        proof {
            lemma_node_keys(Some(top0));
            lemma_node_keys(top0.left);
            lemma_node_keys(Some(np));
            lemma_node_keys(Some(r));
            assert(link_keys(Some(np)) =~= link_keys(top0.left));
            assert(all_at_most(link_keys(Some(np)), tk));
            assert(tr == w0.right);
            assert(is_red_black(w0.right));
        }
        (r, false)
    } else {
        rb_delete_fixup_left_black(pkey, pcolor, x, w)
    }
}

/// The mirror image of `rb_delete_fixup_left_black`: the right subtree `x`
/// has lost one black level and its sibling `w` is black.
fn rb_delete_fixup_right_black<K: TreeKey>(
    pkey: K,
    pcolor: Color,
    w: Box<Node<K>>,
    x: Option<Box<Node<K>>>,
) -> (res: (Box<Node<K>>, bool))
    requires
        is_search_tree(x),
        is_search_tree(Some(w)),
        all_at_least(link_keys(x), pkey),
        all_at_most(link_keys(Some(w)), pkey),
        is_red_black(x),
        is_red_black(Some(w)),
        w.color == Color::Black,
        black_height(Some(w)) == black_height(x) + 1,
        !is_red(x),
    ensures
        link_keys(Some(res.0)) =~= link_keys(Some(w)).add(link_keys(x)).insert(pkey),
        is_search_tree(Some(res.0)),
        is_red_black(Some(res.0)),
        black_height(Some(res.0)) + (if res.1 {
            1nat
        } else {
            0nat
        }) == black_height(Some(w)) + (if pcolor == Color::Black {
            1nat
        } else {
            0nat
        }),
        pcolor == Color::Black ==> !is_red(Some(res.0)),
        res.1 ==> !is_red(Some(res.0)),
        pcolor == Color::Red ==> !res.1,
{
    let ghost w0 = w;
    if !link_is_red(&w.left) && !link_is_red(&w.right) {
        let w2 = recolor(w, Color::Red);
        let r = Box::new(Node { key: pkey, color: Color::Black, left: Some(w2), right: x });
        proof {
            assert(is_red_black(Some(w2)));
            assert(black_height(Some(w2)) == black_height(x));
            assert(black_height(Some(r)) == black_height(x) + 1);
        }
        (r, pcolor == Color::Black)
    } else {
        let w3 = if !link_is_red(&w.left) {
            let Node { key: wk, color: _, left: wl, right: wr } = *w;
            let wr2 = recolor(wr.unwrap(), Color::Black);
            let w2 = Box::new(Node { key: wk, color: Color::Red, left: wl, right: Some(wr2) });
            proof {
                lemma_node_keys(Some(w0));
                lemma_node_keys(Some(w2));
                assert(link_keys(Some(w2)) =~= link_keys(Some(w0)));
                assert(is_search_tree(Some(w2)));
            }
            let w3 = rb_left_rotate(w2);
            proof {
                let z = w0.right.unwrap();
                assert(is_red_black(w0.right));
                assert(w3.right == z.right);
                assert(w3.left.unwrap().right == z.left);
                assert(w3.left.unwrap().left == w0.left);
                assert(is_red_black(w3.left));
                assert(black_height(w3.left) == black_height(z.right));
            }
            w3
        } else {
            w
        };
        let ghost w30 = w3;
        proof {
            assert(is_red_black(Some(w3)));
            assert(is_red(w3.left));
            assert(black_height(Some(w3)) == black_height(Some(w0)));
        }
        let Node { key: wk, color: _, left: wl, right: wr } = *w3;
        let wl2 = recolor(wl.unwrap(), Color::Black);
        let w4 = Box::new(Node { key: wk, color: pcolor, left: Some(wl2), right: wr });
        proof {
            lemma_node_keys(Some(w30));
            lemma_node_keys(Some(w4));
            assert(link_keys(Some(w4)) =~= link_keys(Some(w30)));
            assert(is_search_tree(Some(w4)));
        }
        let g = Box::new(Node { key: pkey, color: Color::Black, left: Some(w4), right: x });
        let r = rb_right_rotate(g);
        proof {
            assert(r.right.unwrap().right == x);
            assert(r.right.unwrap().left == wr);
            assert(is_red_black(r.right));
            assert(black_height(r.right) == black_height(x) + 1);
            assert(wl == w30.left);
            assert(is_red_black(wl));
            assert(is_red_black(Some(wl2)));
            assert(black_height(wl) == black_height(wl.unwrap().left));
            assert(black_height(Some(wl2)) == black_height(Some(w0)));
            assert(r.left == Some(wl2));
        }
        (r, false)
    }
}

/// The mirror image of `rb_delete_fixup_left`: the right subtree `x` has
/// lost one black level.
fn rb_delete_fixup_right<K: TreeKey>(
    pkey: K,
    pcolor: Color,
    w: Option<Box<Node<K>>>,
    x: Option<Box<Node<K>>>,
) -> (res: (Box<Node<K>>, bool))
    requires
        is_search_tree(x),
        is_search_tree(w),
        all_at_least(link_keys(x), pkey),
        all_at_most(link_keys(w), pkey),
        is_red_black(x),
        is_red_black(w),
        black_height(w) == black_height(x) + 1,
        !is_red(x),
        pcolor == Color::Red ==> !is_red(w),
    ensures
        link_keys(Some(res.0)) =~= link_keys(w).add(link_keys(x)).insert(pkey),
        is_search_tree(Some(res.0)),
        is_red_black(Some(res.0)),
        black_height(Some(res.0)) + (if res.1 {
            1nat
        } else {
            0nat
        }) == black_height(w) + (if pcolor == Color::Black {
            1nat
        } else {
            0nat
        }),
        pcolor == Color::Black ==> !is_red(Some(res.0)),
        res.1 ==> !is_red(Some(res.0)),
        pcolor == Color::Red ==> !res.1,
{
    let w = w.unwrap();
    if w.color == Color::Red {
        let ghost w0 = w;
        let w2 = recolor(w, Color::Black);
        let g = Box::new(Node { key: pkey, color: Color::Red, left: Some(w2), right: x });
        proof {
            assert(is_search_tree(Some(g)));
        }
        let top = rb_right_rotate(g);
        let ghost top0 = top;
        let Node { key: tk, color: tc, left: tl, right: tr } = *top;
        let Node { key: pk, color: pc, left: ww, right: xx } = *tr.unwrap();
        proof {
            assert(is_search_tree(Some(top0)));
            assert(is_search_tree(top0.right));
            assert(ww == w0.right);
            assert(black_height(w0.right) == black_height(Some(w0)));
            assert(is_red_black(w0.right));
        }
        let (np, _) = rb_delete_fixup_right_black(pk, pc, ww.unwrap(), xx);
        let r = Box::new(Node { key: tk, color: tc, left: tl, right: Some(np) });
        proof {
            lemma_node_keys(Some(top0));
            lemma_node_keys(top0.right);
            lemma_node_keys(Some(np));
            lemma_node_keys(Some(r));
            assert(link_keys(Some(np)) =~= link_keys(top0.right));
            assert(all_at_least(link_keys(Some(np)), tk));
            assert(tl == w0.left);
            assert(is_red_black(w0.left));
        }
        (r, false)
    } else {
        rb_delete_fixup_right_black(pkey, pcolor, w, x)
    }
}

/// Puts `child` in the place of a removed node of color `color` whose other
/// child was the sentinel. A red child turns black and keeps the black height;
/// removing a black node with no red child below it shortens the subtree by
/// one black level, which the second result reports.
fn rb_transplant<K: TreeKey>(color: Color, child: Option<Box<Node<K>>>) -> (res: (
    Option<Box<Node<K>>>,
    bool,
))
    requires
        is_search_tree(child),
        is_red_black(child),
        black_height(child) == 0,
        color == Color::Red ==> !is_red(child),
    ensures
        link_keys(res.0) == link_keys(child),
        is_search_tree(res.0),
        is_red_black(res.0),
        !is_red(res.0),
        black_height(res.0) + (if res.1 {
            1nat
        } else {
            0nat
        }) == if color == Color::Black {
            1nat
        } else {
            0nat
        },
{
    if link_is_red(&child) {
        let c = recolor(child.unwrap(), Color::Black);
        (Some(c), false)
    } else {
        proof {
            if child is Some {
                assert(black_height(child) >= 1);
            }
        }
        (child, color == Color::Black)
    }
}

/// Removes the leftmost node of a subtree (its least key, returned third) and
/// repairs the color rules on the way back up; the second result reports that
/// the subtree lost one black level.
fn rb_remove_minimum<K: TreeKey>(b: Box<Node<K>>) -> (res: (Option<Box<Node<K>>>, bool, K))
    requires
        is_search_tree(Some(b)),
        is_red_black(Some(b)),
    ensures
        link_keys(Some(b)).contains(res.2),
        all_at_least(link_keys(Some(b)), res.2),
        link_keys(res.0) =~= link_keys(Some(b)).remove(res.2),
        is_search_tree(res.0),
        is_red_black(res.0),
        black_height(res.0) + (if res.1 {
            1nat
        } else {
            0nat
        }) == black_height(Some(b)),
        res.1 ==> !is_red(res.0),
        !is_red(Some(b)) ==> !is_red(res.0),
    decreases b,
{
    let ghost b0 = b;
    proof {
        lemma_node_keys(Some(b0));
    }
    let Node { key, color, left, right } = *b;
    match left {
        None => {
            let (r, sh) = rb_transplant(color, right);
            proof {
                K::lemma_irreflexive(key);
                assert(link_keys(left) =~= Multiset::empty());
            }
            (r, sh, key)
        },
        Some(l) => {
            let (nl, sh, m) = rb_remove_minimum(l);
            proof {
                lemma_node_keys(Some(l));
                assert(link_keys(Some(l)).contains(m));
                assert(at_most(m, key));
                assert forall|v: K| #[trigger] link_keys(right).contains(v) implies at_most(m, v) by {
                    lemma_le_le(m, key, v);
                }
                assert forall|v: K| #[trigger] link_keys(nl).contains(v) implies at_most(v, key) by {
                    assert(link_keys(Some(l)).contains(v));
                }
            }
            if sh {
                let (r, sh2) = rb_delete_fixup_left(key, color, nl, right);
                (Some(r), sh2, m)
            } else {
                let r = Box::new(Node { key, color, left: nl, right });
                (Some(r), false, m)
            }
        },
    }
}

/// Removes a node with key `nkey`, color `color` and subtrees `left` and
/// `right` from its place, and returns what takes the place. With a sentinel
/// child the other child moves up; with two children the successor's key
/// moves up and the successor's node is removed instead.
fn rb_delete_node<K: TreeKey>(
    color: Color,
    left: Option<Box<Node<K>>>,
    right: Option<Box<Node<K>>>,
    nkey: Ghost<K>,
) -> (res: (Option<Box<Node<K>>>, bool))
    requires
        is_search_tree(left),
        is_search_tree(right),
        all_at_most(link_keys(left), nkey@),
        all_at_least(link_keys(right), nkey@),
        is_red_black(left),
        is_red_black(right),
        black_height(left) == black_height(right),
        color == Color::Red ==> !is_red(left) && !is_red(right),
    ensures
        link_keys(res.0) =~= link_keys(left).add(link_keys(right)),
        is_search_tree(res.0),
        is_red_black(res.0),
        black_height(res.0) + (if res.1 {
            1nat
        } else {
            0nat
        }) == black_height(left) + if color == Color::Black {
            1nat
        } else {
            0nat
        },
        res.1 ==> !is_red(res.0),
        color == Color::Black ==> !is_red(res.0),
{
    match left {
        None => {
            let (r, sh) = rb_transplant(color, right);
            proof {
                assert(link_keys(left) =~= Multiset::empty());
            }
            (r, sh)
        },
        Some(l) => match right {
            None => {
                let (r, sh) = rb_transplant(color, Some(l));
                proof {
                    assert(link_keys(right) =~= Multiset::empty());
                }
                (r, sh)
            },
            Some(rt) => {
                let ghost l0 = Some(l);
                let (nr, sh, m) = rb_remove_minimum(rt);
                proof {
                    lemma_node_keys(Some(rt));
                    assert(at_most(nkey@, m));
                    assert forall|v: K| #[trigger] link_keys(l0).contains(v) implies at_most(v, m) by {
                        lemma_le_le(v, nkey@, m);
                    }
                    assert forall|v: K| #[trigger] link_keys(nr).contains(v) implies at_most(m, v) by {
                        assert(link_keys(Some(rt)).contains(v));
                    }
                }
                if sh {
                    let (r, sh2) = rb_delete_fixup_right(m, color, Some(l), nr);
                    (Some(r), sh2)
                } else {
                    let r = Box::new(Node { key: m, color, left: Some(l), right: nr });
                    (Some(r), false)
                }
            },
        },
    }
}

/// Removing `x` from one part of a node's subtree removes it from the whole.
proof fn lemma_remove_below<K>(a: Multiset<K>, b: Multiset<K>, k: K, x: K)
    requires
        a.contains(x),
    ensures
        a.remove(x).add(b).insert(k) =~= a.add(b).insert(k).remove(x),
{
}

/// Puts a node back together after a removal in its left subtree `nl`,
/// running the delete-fixup when `nl` lost one black level.
fn rb_delete_rejoin_left<K: TreeKey>(
    nkey: K,
    color: Color,
    nl: Option<Box<Node<K>>>,
    right: Option<Box<Node<K>>>,
    shorter: bool,
) -> (res: (Box<Node<K>>, bool))
    requires
        is_search_tree(nl),
        is_search_tree(right),
        all_at_most(link_keys(nl), nkey),
        all_at_least(link_keys(right), nkey),
        is_red_black(nl),
        is_red_black(right),
        black_height(nl) + (if shorter {
            1nat
        } else {
            0nat
        }) == black_height(right),
        shorter ==> !is_red(nl),
        color == Color::Red ==> !is_red(nl) && !is_red(right),
    ensures
        link_keys(Some(res.0)) =~= link_keys(nl).add(link_keys(right)).insert(nkey),
        is_search_tree(Some(res.0)),
        is_red_black(Some(res.0)),
        black_height(Some(res.0)) + (if res.1 {
            1nat
        } else {
            0nat
        }) == black_height(right) + if color == Color::Black {
            1nat
        } else {
            0nat
        },
        res.1 ==> !is_red(Some(res.0)),
        color == Color::Black ==> !is_red(Some(res.0)),
        !shorter ==> !res.1,
{
    if shorter {
        rb_delete_fixup_left(nkey, color, nl, right)
    } else {
        (Box::new(Node { key: nkey, color, left: nl, right }), false)
    }
}

/// Puts a node back together after a removal in its right subtree `nr`,
/// running the delete-fixup when `nr` lost one black level.
fn rb_delete_rejoin_right<K: TreeKey>(
    nkey: K,
    color: Color,
    left: Option<Box<Node<K>>>,
    nr: Option<Box<Node<K>>>,
    shorter: bool,
) -> (res: (Box<Node<K>>, bool))
    requires
        is_search_tree(left),
        is_search_tree(nr),
        all_at_most(link_keys(left), nkey),
        all_at_least(link_keys(nr), nkey),
        is_red_black(left),
        is_red_black(nr),
        black_height(nr) + (if shorter {
            1nat
        } else {
            0nat
        }) == black_height(left),
        shorter ==> !is_red(nr),
        color == Color::Red ==> !is_red(left) && !is_red(nr),
    ensures
        link_keys(Some(res.0)) =~= link_keys(left).add(link_keys(nr)).insert(nkey),
        is_search_tree(Some(res.0)),
        is_red_black(Some(res.0)),
        black_height(Some(res.0)) + (if res.1 {
            1nat
        } else {
            0nat
        }) == black_height(left) + if color == Color::Black {
            1nat
        } else {
            0nat
        },
        res.1 ==> !is_red(Some(res.0)),
        color == Color::Black ==> !is_red(Some(res.0)),
        !shorter ==> !res.1,
{
    if shorter {
        rb_delete_fixup_right(nkey, color, left, nr)
    } else {
        (Box::new(Node { key: nkey, color, left, right: nr }), false)
    }
}

/// Removes one node whose key is equivalent to `key`, the first one met on
/// the search-tree descent, and repairs the color rules on the way back up. A
/// node with two children takes the key of its successor (the least key of
/// its right subtree), whose node is removed instead. The third result is the
/// removed key, `None` when there was none.
fn rb_delete<K: TreeKey>(t: Option<Box<Node<K>>>, key: &K) -> (res: (
    Option<Box<Node<K>>>,
    bool,
    Option<K>,
))
    requires
        is_search_tree(t),
        is_red_black(t),
    ensures
        res.2 is None ==> !holds_equiv(link_keys(t), *key) && link_keys(res.0) =~= link_keys(t)
            && !res.1,
        res.2 matches Some(x) ==> link_keys(t).contains(x) && equiv(x, *key) && link_keys(res.0)
            =~= link_keys(t).remove(x),
        is_search_tree(res.0),
        is_red_black(res.0),
        black_height(res.0) + (if res.1 {
            1nat
        } else {
            0nat
        }) == black_height(t),
        res.1 ==> !is_red(res.0),
        !is_red(t) ==> !is_red(res.0),
    decreases t,
{
    let ghost t0 = t;
    match t {
        None => {
            proof {
                assert(link_keys(t0) =~= Multiset::empty());
            }
            (None, false, None)
        },
        Some(n) => {
            proof {
                lemma_node_keys(t0);
            }
            let Node { key: nkey, color, left, right } = *n;
            if key.less(&nkey) {
                let (nl, sh, rm) = rb_delete(left, key);
                proof {
                    assert forall|v: K| #[trigger] link_keys(right).contains(v) implies !equiv(
                        v,
                        *key,
                    ) by {
                        lemma_lt_le(*key, nkey, v);
                    }
                    assert forall|v: K| #[trigger] link_keys(nl).contains(v) implies at_most(v, nkey) by {
                        assert(link_keys(left).contains(v));
                    }
                    if rm is Some {
                        lemma_remove_below(link_keys(left), link_keys(right), nkey, rm.unwrap());
                    }
                }
                let (r, sh2) = rb_delete_rejoin_left(nkey, color, nl, right, sh);
                (Some(r), sh2, rm)
            } else if nkey.less(key) {
                let (nr, sh, rm) = rb_delete(right, key);
                proof {
                    assert forall|v: K| #[trigger] link_keys(left).contains(v) implies !equiv(
                        v,
                        *key,
                    ) by {
                        lemma_le_lt(v, nkey, *key);
                    }
                    assert forall|v: K| #[trigger] link_keys(nr).contains(v) implies at_most(nkey, v) by {
                        assert(link_keys(right).contains(v));
                    }
                    if rm is Some {
                        let x = rm.unwrap();
                        lemma_remove_below(link_keys(right), link_keys(left), nkey, x);
                        assert(link_keys(left).add(link_keys(right)) =~= link_keys(right).add(
                            link_keys(left),
                        ));
                        assert(link_keys(left).add(link_keys(right).remove(x)) =~= link_keys(
                            right,
                        ).remove(x).add(link_keys(left)));
                    }
                }
                let (r, sh2) = rb_delete_rejoin_right(nkey, color, left, nr, sh);
                (Some(r), sh2, rm)
            } else {
                let (r, sh) = rb_delete_node(color, left, right, Ghost(nkey));
                (r, sh, Some(nkey))
            }
        },
    }
}

/// The color rules bound the height by the black height: no path holds two
/// red nodes in a row.
proof fn lemma_height_black_height<K>(t: Option<Box<Node<K>>>)
    requires
        is_red_black(t),
    ensures
        link_height(t) <= 2 * black_height(t) + if is_red(t) {
            1int
        } else {
            0int
        },
    decreases t,
{
    if let Some(n) = t {
        lemma_height_black_height(n.left);
        lemma_height_black_height(n.right);
    }
}

/// A subtree of black height `h` holds at least `2^h - 1` keys.
proof fn lemma_black_height_size<K>(t: Option<Box<Node<K>>>)
    requires
        is_red_black(t),
    ensures
        pow2(black_height(t)) <= link_keys(t).len() + 1,
    decreases t,
{
    match t {
        None => {
            assert(pow2(0) == 1) by {
                lemma2_to64();
            }
        },
        Some(n) => {
            lemma_node_keys(t);
            lemma_black_height_size(n.left);
            lemma_black_height_size(n.right);
            let h = black_height(n.left);
            if n.color == Color::Black {
                lemma_pow2_unfold(h + 1);
            }
        },
    }
}

/// Height bound of a valid tree: the height is at most twice the black
/// height, and a tree of black height `h` holds at least `2^h - 1` keys, so
/// the height is at most `2 * log2(n + 1)` for `n` keys.
pub proof fn lemma_height_bound<K: TreeKey>(t: Option<Box<Node<K>>>)
    requires
        valid_tree(t),
    ensures
        link_height(t) <= 2 * black_height(t),
        pow2(black_height(t)) <= link_keys(t).len() + 1,
{
    lemma_height_black_height(t);
    lemma_black_height_size(t);
}

fn rb_height<K>(t: &Option<Box<Node<K>>>) -> (r: usize)
    requires
        link_height(*t) <= 256,
    ensures
        r == link_height(*t),
    decreases *t,
{
    match t {
        None => 0,
        Some(n) => {
            let hl = rb_height(&n.left);
            let hr = rb_height(&n.right);
            if hl >= hr {
                1 + hl
            } else {
                1 + hr
            }
        },
    }
}

/// An ordered container of keys, duplicates allowed, held in a red-black
/// tree.
pub struct RBtree<K> {
    root: Option<Box<Node<K>>>,
    size: i64,
}

impl<K: TreeKey> RBtree<K> {
    /// The tree's root; `None` is the sentinel of an empty tree.
    pub closed spec fn root_link(&self) -> Option<Box<Node<K>>> {
        self.root
    }

    /// The node count kept beside the tree.
    pub closed spec fn spec_size(&self) -> int {
        self.size as int
    }

    /// The tree is a valid red-black tree and the count matches its keys.
    pub open spec fn wf(&self) -> bool {
        &&& valid_tree(self.root_link())
        &&& self.spec_size() == link_keys(self.root_link()).len()
    }
}

impl<K: TreeKey> View for RBtree<K> {
    type V = Multiset<K>;

    /// The keys held, with their multiplicities.
    open spec fn view(&self) -> Multiset<K> {
        link_keys(self.root_link())
    }
}

impl<K: TreeKey> RBtree<K> {
    /// An empty tree: the root is the sentinel.
    pub fn new() -> (r: Self)
        ensures
            r.wf(),
            r@ == Multiset::<K>::empty(),
    {
        RBtree { root: None, size: 0 }
    }

    /// The number of keys held.
    pub fn size(&self) -> (r: i64)
        requires
            self.wf(),
        ensures
            r == self@.len(),
    {
        self.size
    }

    /// The number of nodes on the longest path from the root down to the
    /// sentinel.
    pub fn height(&self) -> (r: usize)
        requires
            self.wf(),
        ensures
            r == link_height(self.root_link()),
            r <= 2 * black_height(self.root_link()),
            pow2(black_height(self.root_link())) <= self@.len() + 1,
    {
        proof {
            let t = self.root_link();
            lemma_height_bound(t);
            if black_height(t) >= 64 {
                lemma2_to64();
                if black_height(t) > 64 {
                    lemma_pow2_strictly_increases(64, black_height(t));
                }
                assert(false);
            }
        }
        rb_height(&self.root)
    }

    /// The least key, `None` when the tree is empty.
    pub fn min(&self) -> (r: Option<K>)
        requires
            self.wf(),
        ensures
            r is None <==> self@.len() == 0,
            r matches Some(m) ==> self@.contains(m) && all_at_least(self@, m),
    {
        rb_tree_minimum(&self.root)
    }

    /// The greatest key, `None` when the tree is empty.
    pub fn max(&self) -> (r: Option<K>)
        requires
            self.wf(),
        ensures
            r is None <==> self@.len() == 0,
            r matches Some(m) ==> self@.contains(m) && all_at_most(self@, m),
    {
        rb_tree_maximum(&self.root)
    }

    /// The stored key equivalent to `item` (the first one met on the
    /// descent), `None` when there is none.
    pub fn search(&self, item: K) -> (r: Option<K>)
        requires
            self.wf(),
        ensures
            r is None <==> !holds_equiv(self@, item),
            r matches Some(x) ==> self@.contains(x) && equiv(x, item),
    {
        rb_search(&self.root, &item)
    }

    /// Adds `item`; an equal key already held is kept too.
    pub fn insert(&mut self, item: K)
        requires
            old(self).wf(),
            old(self)@.len() < i64::MAX,
        ensures
            final(self).wf(),
            final(self)@ == old(self)@.insert(item),
            final(self)@.len() == old(self)@.len() + 1,
    {
        let root = self.root.take();
        let r = rb_insert(root, item);
        let r = recolor(r, Color::Black);
        self.root = Some(r);
        self.size = self.size + 1;
    }

    /// Removes one key equivalent to `item` and returns `Ok(item)`, or
    /// returns `Err("not found")` and changes nothing when there is none.
    pub fn delete(&mut self, item: K) -> (r: Result<K, &'static str>)
        requires
            old(self).wf(),
        ensures
            final(self).wf(),
            r is Ok <==> holds_equiv(old(self)@, item),
            r matches Ok(k) ==> k == item && exists|x: K|
                #![trigger old(self)@.contains(x)]
                old(self)@.contains(x) && equiv(x, item) && final(self)@ == old(self)@.remove(x),
            r is Ok ==> final(self)@.len() == old(self)@.len() - 1,
            r is Err ==> final(self)@ == old(self)@ && r == Err::<K, &'static str>("not found"),
    {
        let root = self.root.take();
        let (r, _, removed) = rb_delete(root, &item);
        self.root = r;
        match removed {
            Some(_) => {
                self.size = self.size - 1;
                Ok(item)
            },
            None => Err("not found"),
        }
    }
}

} // verus!
