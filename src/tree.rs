//! The block tree in heap order: what it holds, when it is well formed, and
//! the descents that allocate, free and look up blocks.
use vstd::prelude::*;
use crate::bitv::{Bitv, Node};
use crate::geometry::{
    after_free, at_level, covers, exp2, first_fit, is_free, lemma_child_offsets, lemma_exp2_mono,
    lemma_exp2_pos, lemma_ff_covered, lemma_ff_empty, lemma_ff_local, lemma_halves, offset_of,
    overlaps, pairwise_disjoint, Block,
};

verus! {

/// The node holds nothing more that can be handed out.
pub open spec fn is_full(x: Node) -> bool {
    x == Node::Used || x == Node::Full
}

/// The state that a halved node takes from the states of its two halves.
pub open spec fn combine(a: Node, b: Node) -> Node {
    if a == Node::Unused && b == Node::Unused {
        Node::Unused
    } else if is_full(a) && is_full(b) {
        Node::Full
    } else {
        Node::Split
    }
}

/// Node `i` at level `l` and all of its subtree have indices below `n`.
pub open spec fn fits(n: nat, i: int, l: nat) -> bool {
    0 <= i && (i + 2) * exp2(l) <= n + 1
}

/// Node `j` is `m` levels below node `i`.
pub open spec fn desc_at(j: int, i: int, m: nat) -> bool {
    (i + 1) * exp2(m) <= j + 1 < (i + 2) * exp2(m)
}

/// Node `j` is in the subtree of node `i` at level `l`.
pub open spec fn in_sub(j: int, i: int, l: nat) -> bool {
    exists|m: nat| m <= l && #[trigger] desc_at(j, i, m)
}

/// The blocks handed out in the subtree of node `i`, whose block starts at
/// `lo` and has level `l`.
pub open spec fn used_in(t: Seq<Node>, i: int, lo: int, l: nat) -> Set<Block>
    decreases l,
{
    if t[i] == Node::Unused {
        Set::empty()
    } else if t[i] == Node::Used {
        set![(lo, l)]
    } else if l == 0 {
        Set::empty()
    } else {
        used_in(t, 2 * i + 1, lo, (l - 1) as nat).union(
            used_in(t, 2 * i + 2, lo + exp2((l - 1) as nat), (l - 1) as nat),
        )
    }
}

/// Every halved node below `i` holds the combination of its halves, and none
/// sits at the lowest level.
pub open spec fn wf_node(t: Seq<Node>, i: int, l: nat) -> bool
    decreases l,
{
    t[i] == Node::Unused || t[i] == Node::Used || (l > 0 && wf_node(t, 2 * i + 1, (l - 1) as nat)
        && wf_node(t, 2 * i + 2, (l - 1) as nat) && t[i] == combine(t[2 * i + 1], t[2 * i + 2]))
}

proof fn lemma_fits_children(n: nat, i: int, l: nat)
    requires
        fits(n, i, l),
    ensures
        i < n,
        l > 0 ==> 2 * i + 2 < n,
        l > 0 ==> fits(n, 2 * i + 1, (l - 1) as nat),
        l > 0 ==> fits(n, 2 * i + 2, (l - 1) as nat),
{
    lemma_exp2_pos(l);
    let e = exp2(l);
    assert((i + 2) * e >= i + 2) by (nonlinear_arith)
        requires
            e >= 1,
            i >= 0,
    ;
    if l > 0 {
        lemma_halves(l);
        let h = exp2((l - 1) as nat);
        assert((2 * i + 4) * h == (i + 2) * e) by (nonlinear_arith)
            requires
                e == 2 * h,
        ;
        assert((2 * i + 3) * h <= (2 * i + 4) * h) by (nonlinear_arith)
            requires
                h >= 1,
        ;
        assert((2 * i + 4) * h >= 2 * i + 4) by (nonlinear_arith)
            requires
                h >= 1,
                i >= 0,
        ;
    }
}

proof fn lemma_sub_self(x: int, l: nat)
    requires
        x >= 0,
    ensures
        in_sub(x, x, l),
{
    assert(exp2(0) == 1);
    assert((x + 1) * 1 == x + 1 && (x + 2) * 1 == x + 2);
    assert(desc_at(x, x, 0));
}

proof fn lemma_sub_child(j: int, i: int, l: nat)
    requires
        l > 0,
        i >= 0,
        in_sub(j, 2 * i + 1, (l - 1) as nat) || in_sub(j, 2 * i + 2, (l - 1) as nat),
    ensures
        in_sub(j, i, l),
{
    let c = if in_sub(j, 2 * i + 1, (l - 1) as nat) {
        2 * i + 1
    } else {
        2 * i + 2
    };
    let m = choose|m: nat| m <= (l - 1) as nat && #[trigger] desc_at(j, c, m);
    let e = exp2(m);
    lemma_exp2_pos(m);
    assert(exp2(m + 1) == 2 * e);
    assert((i + 1) * (2 * e) == (2 * i + 2) * e) by (nonlinear_arith);
    assert((i + 2) * (2 * e) == (2 * i + 4) * e) by (nonlinear_arith);
    assert((2 * i + 2) * e <= (c + 1) * e) by (nonlinear_arith)
        requires
            c >= 2 * i + 1,
            e >= 1,
    ;
    assert((c + 2) * e <= (2 * i + 4) * e) by (nonlinear_arith)
        requires
            c <= 2 * i + 2,
            e >= 1,
    ;
    assert(desc_at(j, i, m + 1));
}

proof fn lemma_sub_apart(j: int, i: int, l: nat)
    requires
        l > 0,
        i >= 0,
    ensures
        !(in_sub(j, 2 * i + 1, (l - 1) as nat) && in_sub(j, 2 * i + 2, (l - 1) as nat)),
        !in_sub(i, 2 * i + 1, (l - 1) as nat),
        !in_sub(i, 2 * i + 2, (l - 1) as nat),
{
    if in_sub(j, 2 * i + 1, (l - 1) as nat) && in_sub(j, 2 * i + 2, (l - 1) as nat) {
        let m = choose|m: nat| m <= (l - 1) as nat && #[trigger] desc_at(j, 2 * i + 1, m);
        let p = choose|p: nat| p <= (l - 1) as nat && #[trigger] desc_at(j, 2 * i + 2, p);
        let e = exp2(m);
        let f = exp2(p);
        lemma_exp2_pos(m);
        lemma_exp2_pos(p);
        if m < p {
            lemma_exp2_mono(m, p);
            assert(false) by (nonlinear_arith)
                requires
                    (2 * i + 3) * f <= j + 1,
                    j + 1 < (2 * i + 3) * e,
                    2 * e <= f,
                    e >= 1,
                    i >= 0,
            ;
        } else if p < m {
            lemma_exp2_mono(p, m);
            assert(false) by (nonlinear_arith)
                requires
                    (2 * i + 2) * e <= j + 1,
                    j + 1 < (2 * i + 4) * f,
                    2 * f <= e,
                    f >= 1,
                    i >= 0,
            ;
        } else {
            assert(e == f);
        }
    }
    if in_sub(i, 2 * i + 1, (l - 1) as nat) || in_sub(i, 2 * i + 2, (l - 1) as nat) {
        let c = if in_sub(i, 2 * i + 1, (l - 1) as nat) {
            2 * i + 1
        } else {
            2 * i + 2
        };
        let m = choose|m: nat| m <= (l - 1) as nat && #[trigger] desc_at(i, c, m);
        let e = exp2(m);
        lemma_exp2_pos(m);
        assert(false) by (nonlinear_arith)
            requires
                (c + 1) * e <= i + 1,
                c >= 2 * i + 1,
                e >= 1,
                i >= 0,
        ;
    }
}

/// Two trees that agree on a subtree agree on what it holds.
proof fn lemma_frame(t1: Seq<Node>, t2: Seq<Node>, n: nat, i: int, lo: int, l: nat)
    requires
        fits(n, i, l),
        n <= t1.len(),
        n <= t2.len(),
        forall|j: int| 0 <= j < n && in_sub(j, i, l) ==> t1[j] == t2[j],
    ensures
        used_in(t1, i, lo, l) == used_in(t2, i, lo, l),
        wf_node(t1, i, l) == wf_node(t2, i, l),
    decreases l,
{
    lemma_fits_children(n, i, l);
    lemma_sub_self(i, l);
    if l > 0 {
        let h = exp2((l - 1) as nat);
        assert forall|j: int| 0 <= j < n && in_sub(j, 2 * i + 1, (l - 1) as nat) implies t1[j]
            == t2[j] by {
            lemma_sub_child(j, i, l);
        }
        assert forall|j: int| 0 <= j < n && in_sub(j, 2 * i + 2, (l - 1) as nat) implies t1[j]
            == t2[j] by {
            lemma_sub_child(j, i, l);
        }
        lemma_sub_self(2 * i + 1, (l - 1) as nat);
        lemma_sub_self(2 * i + 2, (l - 1) as nat);
        lemma_frame(t1, t2, n, 2 * i + 1, lo, (l - 1) as nat);
        lemma_frame(t1, t2, n, 2 * i + 2, lo + h, (l - 1) as nat);
    }
}

/// The blocks of a well-formed subtree lie in its block, are pairwise
/// disjoint, and there are some unless the node is unused.
proof fn lemma_shape(t: Seq<Node>, n: nat, i: int, lo: int, l: nat)
    requires
        fits(n, i, l),
        n <= t.len(),
        wf_node(t, i, l),
    ensures
        forall|b: Block| #[trigger]
            used_in(t, i, lo, l).contains(b) ==> lo <= b.0 && b.0 + exp2(b.1) <= lo + exp2(l),
        (t[i] == Node::Unused) <==> used_in(t, i, lo, l) == Set::<Block>::empty(),
        pairwise_disjoint(used_in(t, i, lo, l)),
    decreases l,
{
    lemma_fits_children(n, i, l);
    let s = used_in(t, i, lo, l);
    if t[i] == Node::Used {
        assert(s.contains((lo, l)));
    } else if t[i] != Node::Unused {
        lemma_halves(l);
        let h = exp2((l - 1) as nat);
        let sl = used_in(t, 2 * i + 1, lo, (l - 1) as nat);
        let sr = used_in(t, 2 * i + 2, lo + h, (l - 1) as nat);
        lemma_shape(t, n, 2 * i + 1, lo, (l - 1) as nat);
        lemma_shape(t, n, 2 * i + 2, lo + h, (l - 1) as nat);
        if t[2 * i + 1] != Node::Unused {
            assert(!(sl =~= Set::<Block>::empty()));
            let b = sl.choose();
            assert(sl.contains(b));
            assert(s.contains(b));
        } else {
            assert(!(sr =~= Set::<Block>::empty()));
            let b = sr.choose();
            assert(sr.contains(b));
            assert(s.contains(b));
        }
        assert forall|a: Block, b: Block|
            #![trigger s.contains(a), s.contains(b)]
            s.contains(a) && s.contains(b) && a != b implies !overlaps(a, b.0, exp2(b.1)) by {
            if sl.contains(a) && sl.contains(b) {
            } else if sr.contains(a) && sr.contains(b) {
            } else {
                lemma_exp2_pos(a.1);
                lemma_exp2_pos(b.1);
            }
        }
    } else {
        assert(s =~= Set::<Block>::empty());
    }
}

/// The search in a halved node is the search in its left half, then in its
/// right half.
proof fn lemma_ff_split(t: Seq<Node>, n: nat, i: int, lo: int, l: nat, k: nat)
    requires
        fits(n, i, l),
        n <= t.len(),
        wf_node(t, i, l),
        t[i] == Node::Split || t[i] == Node::Full,
        k < l,
    ensures
        first_fit(used_in(t, i, lo, l), lo, l, k) == match first_fit(
            used_in(t, 2 * i + 1, lo, (l - 1) as nat),
            lo,
            (l - 1) as nat,
            k,
        ) {
            Some(o) => Some(o),
            None => first_fit(
                used_in(t, 2 * i + 2, lo + exp2((l - 1) as nat), (l - 1) as nat),
                lo + exp2((l - 1) as nat),
                (l - 1) as nat,
                k,
            ),
        },
{
    lemma_fits_children(n, i, l);
    lemma_halves(l);
    let h = exp2((l - 1) as nat);
    let sl = used_in(t, 2 * i + 1, lo, (l - 1) as nat);
    let sr = used_in(t, 2 * i + 2, lo + h, (l - 1) as nat);
    lemma_shape(t, n, 2 * i + 1, lo, (l - 1) as nat);
    lemma_shape(t, n, 2 * i + 2, lo + h, (l - 1) as nat);
    assert forall|b: Block| #[trigger] sr.contains(b) implies !overlaps(b, lo, h) by {}
    assert forall|b: Block| #[trigger] sl.contains(b) implies !overlaps(b, lo + h, h) by {}
    lemma_ff_local(sl, sr, lo, (l - 1) as nat, k);
    lemma_ff_local(sr, sl, lo + h, (l - 1) as nat, k);
    assert(sl.union(sr) =~= sr.union(sl));
}

/// A used or full node, or one of the wanted level that holds anything,
/// leaves no free block of that level.
proof fn lemma_busy(t: Seq<Node>, n: nat, i: int, lo: int, l: nat, k: nat)
    requires
        fits(n, i, l),
        n <= t.len(),
        wf_node(t, i, l),
        t[i] != Node::Unused,
        is_full(t[i]) || l == k,
        k <= l,
    ensures
        first_fit(used_in(t, i, lo, l), lo, l, k) is None,
    decreases l,
{
    lemma_fits_children(n, i, l);
    lemma_shape(t, n, i, lo, l);
    let s = used_in(t, i, lo, l);
    if l == k {
        assert(!(s =~= Set::<Block>::empty()));
        let b = s.choose();
        assert(s.contains(b));
        lemma_exp2_pos(b.1);
        assert(overlaps(b, lo, exp2(l)));
    } else if t[i] == Node::Used {
        assert(s.contains((lo, l)));
        lemma_ff_covered(s, (lo, l), lo, l, k);
    } else {
        lemma_ff_split(t, n, i, lo, l, k);
        lemma_busy(t, n, 2 * i + 1, lo, (l - 1) as nat, k);
        lemma_busy(t, n, 2 * i + 2, lo + exp2((l - 1) as nat), (l - 1) as nat, k);
    }
}

/// The state that a halved node takes from its halves.
fn combine_exec(a: Node, b: Node) -> (r: Node)
    ensures
        r == combine(a, b),
{
    match (a, b) {
        (Node::Unused, Node::Unused) => Node::Unused,
        (Node::Used, Node::Used) | (Node::Used, Node::Full) | (Node::Full, Node::Used) | (
            Node::Full,
            Node::Full,
        ) => Node::Full,
        _ => Node::Split,
    }
}

/// Sets node `i` to the combination of its halves.
fn fix_node(tree: &mut Bitv, i: usize)
    requires
        2 * i + 2 < old(tree)@.len(),
        2 * i + 2 <= usize::MAX,
    ensures
        final(tree)@ == old(tree)@.update(
            i as int,
            combine(old(tree)@[2 * i + 1], old(tree)@[2 * i + 2]),
        ),
{
    let a = tree.get(2 * i + 1);
    let b = tree.get(2 * i + 2);
    tree.set(i, combine_exec(a, b));
}

/// Hands out the lowest free block of level `k` in the subtree of node `i`,
/// whose block starts at `lo` and has level `l` and length `len`.
pub(crate) fn alloc_rec(
    tree: &mut Bitv,
    n: Ghost<nat>,
    order: Ghost<nat>,
    i: usize,
    lo: usize,
    l: usize,
    len: usize,
    k: usize,
) -> (r: Option<usize>)
    requires
        fits(n@, i as int, l as nat),
        at_level(order@, i as int, l as nat),
        lo == offset_of(order@, i as int, l as nat),
        n@ <= old(tree)@.len(),
        n@ <= usize::MAX,
        wf_node(old(tree)@, i as int, l as nat),
        k <= l,
        len == exp2(l as nat),
        lo + len <= usize::MAX + 1,
    ensures
        final(tree)@.len() == old(tree)@.len(),
        wf_node(final(tree)@, i as int, l as nat),
        forall|j: int|
            0 <= j < old(tree)@.len() && !in_sub(j, i as int, l as nat) ==> final(tree)@[j]
                == old(tree)@[j],
        match first_fit(
            used_in(old(tree)@, i as int, lo as int, l as nat),
            lo as int,
            l as nat,
            k as nat,
        ) {
            Some(o) => r == Some(o as usize) && used_in(final(tree)@, i as int, lo as int, l as nat)
                == used_in(old(tree)@, i as int, lo as int, l as nat).insert((o, k as nat)),
            None => r is None && final(tree)@ == old(tree)@,
        },
        r is Some ==> first_fit(
            used_in(old(tree)@, i as int, lo as int, l as nat),
            lo as int,
            l as nat,
            k as nat,
        ) == Some(r->Some_0 as int),
    decreases l,
{
    let ghost t0 = tree@;
    let ghost ii = i as int;
    let ghost ll = l as nat;
    proof {
        lemma_fits_children(n@, ii, ll);
        lemma_sub_self(ii, ll);
        lemma_shape(t0, n@, ii, lo as int, ll);
    }
    let s = tree.get(i);
    match s {
        Node::Unused => {
            if l == k {
                tree.set(i, Node::Used);
                proof {
                    assert(used_in(tree@, ii, lo as int, ll) =~= Set::<Block>::empty().insert(
                        (lo as int, k as nat),
                    ));
                    assert(is_free(Set::<Block>::empty(), lo as int, exp2(ll)));
                }
                Some(lo)
            } else {
                let left = 2 * i + 1;
                let right = 2 * i + 2;
                proof {
                    lemma_halves(ll);
                    lemma_child_offsets(order@, ii, ll);
                    lemma_sub_apart(left as int, ii, ll);
                    lemma_sub_apart(right as int, ii, ll);
                    lemma_sub_self(left as int, (ll - 1) as nat);
                    lemma_sub_self(right as int, (ll - 1) as nat);
                    lemma_sub_child(left as int, ii, ll);
                    lemma_sub_child(right as int, ii, ll);
                    lemma_ff_empty(lo as int, (ll - 1) as nat, k as nat);
                    lemma_ff_empty(lo as int, ll, k as nat);
                }
                tree.set(left, Node::Unused);
                tree.set(right, Node::Unused);
                let ghost t1 = tree@;
                let r = alloc_rec(tree, n, order, left, lo, l - 1, len / 2, k);
                let ghost t2 = tree@;
                proof {
                    assert(t2[right as int] == Node::Unused);
                    lemma_shape(t2, n@, left as int, lo as int, (ll - 1) as nat);
                    assert(used_in(t2, left as int, lo as int, (ll - 1) as nat).contains(
                        (lo as int, k as nat),
                    ));
                }
                fix_node(tree, i);
                let ghost t3 = tree@;
                proof {
                    let h = exp2((ll - 1) as nat);
                    assert forall|j: int| 0 <= j < n@ && in_sub(j, left as int, (ll - 1) as nat)
                        implies t3[j] == t2[j] by {
                        lemma_sub_apart(j, ii, ll);
                    }
                    lemma_frame(t3, t2, n@, left as int, lo as int, (ll - 1) as nat);
                    assert(used_in(t3, right as int, lo + h, (ll - 1) as nat) =~= Set::<
                        Block,
                    >::empty());
                    assert(used_in(t3, ii, lo as int, ll) =~= Set::<Block>::empty().insert(
                        (lo as int, k as nat),
                    ));
                    assert(t3[left as int] == t2[left as int]);
                    assert(wf_node(t3, left as int, (ll - 1) as nat));
                    assert(wf_node(t3, right as int, (ll - 1) as nat));
                    assert(wf_node(t3, ii, ll));
                    assert forall|j: int|
                        0 <= j < t0.len() && !in_sub(j, ii, ll) implies t3[j] == t0[j] by {
                        if in_sub(j, left as int, (ll - 1) as nat) {
                            lemma_sub_child(j, ii, ll);
                        }
                    }
                }
                r
            }
        },
        Node::Split => {
            if l == k {
                proof {
                    lemma_busy(t0, n@, ii, lo as int, ll, k as nat);
                }
                None
            } else {
                let left = 2 * i + 1;
                let right = 2 * i + 2;
                let half = len / 2;
                let ghost h = exp2((ll - 1) as nat);
                let ghost sl = used_in(t0, left as int, lo as int, (ll - 1) as nat);
                let ghost sr = used_in(t0, right as int, lo + h, (ll - 1) as nat);
                proof {
                    lemma_halves(ll);
                    lemma_child_offsets(order@, ii, ll);
                    lemma_ff_split(t0, n@, ii, lo as int, ll, k as nat);
                    lemma_sub_apart(left as int, ii, ll);
                    lemma_sub_apart(right as int, ii, ll);
                    lemma_sub_self(left as int, (ll - 1) as nat);
                    lemma_sub_self(right as int, (ll - 1) as nat);
                }
                let r1 = alloc_rec(tree, n, order, left, lo, l - 1, half, k);
                let ghost t1 = tree@;
                let r = match r1 {
                    Some(o) => Some(o),
                    None => alloc_rec(tree, n, order, right, lo + half, l - 1, half, k),
                };
                let ghost t2 = tree@;
                proof {
                    // each call leaves the other half alone
                    assert forall|j: int|
                        0 <= j < n@ && in_sub(j, right as int, (ll - 1) as nat) implies t1[j]
                        == t0[j] by {
                        lemma_sub_apart(j, ii, ll);
                    }
                    lemma_frame(t1, t0, n@, right as int, lo + h, (ll - 1) as nat);
                    assert forall|j: int|
                        0 <= j < n@ && in_sub(j, left as int, (ll - 1) as nat) implies t2[j]
                        == t1[j] by {
                        lemma_sub_apart(j, ii, ll);
                    }
                    lemma_frame(t2, t1, n@, left as int, lo as int, (ll - 1) as nat);
                    lemma_shape(t2, n@, left as int, lo as int, (ll - 1) as nat);
                    lemma_shape(t2, n@, right as int, lo + h, (ll - 1) as nat);
                    if r is Some {
                        let o = r->Some_0 as int;
                        if r1 is Some {
                            assert(used_in(t2, left as int, lo as int, (ll - 1) as nat).contains(
                                (o, k as nat),
                            ));
                        } else {
                            assert(used_in(t2, right as int, lo + h, (ll - 1) as nat).contains(
                                (o, k as nat),
                            ));
                        }
                    }
                }
                fix_node(tree, i);
                let ghost t3 = tree@;
                proof {
                    assert forall|j: int|
                        0 <= j < n@ && in_sub(j, left as int, (ll - 1) as nat) implies t3[j]
                        == t2[j] by {
                        lemma_sub_apart(j, ii, ll);
                    }
                    assert forall|j: int|
                        0 <= j < n@ && in_sub(j, right as int, (ll - 1) as nat) implies t3[j]
                        == t2[j] by {
                        lemma_sub_apart(j, ii, ll);
                    }
                    lemma_frame(t3, t2, n@, left as int, lo as int, (ll - 1) as nat);
                    lemma_frame(t3, t2, n@, right as int, lo + h, (ll - 1) as nat);
                    assert forall|j: int|
                        0 <= j < t0.len() && !in_sub(j, ii, ll) implies t3[j] == t0[j] by {
                        if in_sub(j, left as int, (ll - 1) as nat) || in_sub(
                            j,
                            right as int,
                            (ll - 1) as nat,
                        ) {
                            lemma_sub_child(j, ii, ll);
                        }
                    }
                    if r is Some {
                        let o = r->Some_0 as int;
                        assert(used_in(t3, ii, lo as int, ll) =~= used_in(
                            t0,
                            ii,
                            lo as int,
                            ll,
                        ).insert((o, k as nat)));
                    } else {
                        assert(t3 =~= t0);
                    }
                }
                r
            }
        },
        _ => {
            proof {
                lemma_busy(t0, n@, ii, lo as int, ll, k as nat);
            }
            None
        },
    }
}

/// Returns the block that holds offset `off` to the free part of the
/// subtree of node `i`, whose block starts at `lo` and has level `l` and
/// length `len`; does nothing where no handed-out block holds it.
pub(crate) fn free_rec(
    tree: &mut Bitv,
    n: Ghost<nat>,
    order: Ghost<nat>,
    i: usize,
    lo: usize,
    l: usize,
    len: usize,
    off: usize,
)
    requires
        fits(n@, i as int, l as nat),
        at_level(order@, i as int, l as nat),
        lo == offset_of(order@, i as int, l as nat),
        n@ <= old(tree)@.len(),
        n@ <= usize::MAX,
        wf_node(old(tree)@, i as int, l as nat),
        len == exp2(l as nat),
        lo <= off < lo + len,
        lo + len <= usize::MAX + 1,
    ensures
        final(tree)@.len() == old(tree)@.len(),
        wf_node(final(tree)@, i as int, l as nat),
        forall|j: int|
            0 <= j < old(tree)@.len() && !in_sub(j, i as int, l as nat) ==> final(tree)@[j]
                == old(tree)@[j],
        used_in(final(tree)@, i as int, lo as int, l as nat) == after_free(
            used_in(old(tree)@, i as int, lo as int, l as nat),
            off as int,
        ),
    decreases l,
{
    let ghost t0 = tree@;
    let ghost ii = i as int;
    let ghost ll = l as nat;
    proof {
        lemma_fits_children(n@, ii, ll);
        lemma_sub_self(ii, ll);
        lemma_shape(t0, n@, ii, lo as int, ll);
    }
    let s = tree.get(i);
    match s {
        Node::Unused => {
            proof {
                assert(after_free(Set::<Block>::empty(), off as int) =~= Set::<Block>::empty());
            }
        },
        Node::Used => {
            tree.set(i, Node::Unused);
            proof {
                assert(covers((lo as int, ll), off as int));
                assert(after_free(set![(lo as int, ll)], off as int) =~= Set::<Block>::empty());
            }
        },
        _ => {
            let left = 2 * i + 1;
            let right = 2 * i + 2;
            let half = len / 2;
            let ghost h = exp2((ll - 1) as nat);
            let ghost sl = used_in(t0, left as int, lo as int, (ll - 1) as nat);
            let ghost sr = used_in(t0, right as int, lo + h, (ll - 1) as nat);
            proof {
                lemma_halves(ll);
                    lemma_child_offsets(order@, ii, ll);
                lemma_sub_apart(left as int, ii, ll);
                lemma_sub_apart(right as int, ii, ll);
                lemma_sub_self(left as int, (ll - 1) as nat);
                lemma_sub_self(right as int, (ll - 1) as nat);
                lemma_shape(t0, n@, left as int, lo as int, (ll - 1) as nat);
                lemma_shape(t0, n@, right as int, lo + h, (ll - 1) as nat);
            }
            if off < lo + half {
                free_rec(tree, n, order, left, lo, l - 1, half, off);
                proof {
                    assert forall|j: int|
                        0 <= j < n@ && in_sub(j, right as int, (ll - 1) as nat) implies tree@[j]
                        == t0[j] by {
                        lemma_sub_apart(j, ii, ll);
                    }
                    lemma_frame(tree@, t0, n@, right as int, lo + h, (ll - 1) as nat);
                    assert(after_free(sr, off as int) =~= sr);
                }
            } else {
                free_rec(tree, n, order, right, lo + half, l - 1, half, off);
                proof {
                    assert forall|j: int|
                        0 <= j < n@ && in_sub(j, left as int, (ll - 1) as nat) implies tree@[j]
                        == t0[j] by {
                        lemma_sub_apart(j, ii, ll);
                    }
                    lemma_frame(tree@, t0, n@, left as int, lo as int, (ll - 1) as nat);
                    assert(after_free(sl, off as int) =~= sl);
                }
            }
            let ghost t2 = tree@;
            proof {
                lemma_shape(t2, n@, left as int, lo as int, (ll - 1) as nat);
                lemma_shape(t2, n@, right as int, lo + h, (ll - 1) as nat);
            }
            fix_node(tree, i);
            let ghost t3 = tree@;
            proof {
                assert forall|j: int|
                    0 <= j < n@ && in_sub(j, left as int, (ll - 1) as nat) implies t3[j]
                    == t2[j] by {
                    lemma_sub_apart(j, ii, ll);
                }
                assert forall|j: int|
                    0 <= j < n@ && in_sub(j, right as int, (ll - 1) as nat) implies t3[j]
                    == t2[j] by {
                    lemma_sub_apart(j, ii, ll);
                }
                lemma_frame(t3, t2, n@, left as int, lo as int, (ll - 1) as nat);
                lemma_frame(t3, t2, n@, right as int, lo + h, (ll - 1) as nat);
                assert forall|j: int|
                    0 <= j < t0.len() && !in_sub(j, ii, ll) implies t3[j] == t0[j] by {
                    if in_sub(j, left as int, (ll - 1) as nat) || in_sub(
                        j,
                        right as int,
                        (ll - 1) as nat,
                    ) {
                        lemma_sub_child(j, ii, ll);
                    }
                }
                assert(after_free(sl.union(sr), off as int) =~= after_free(sl, off as int).union(
                    after_free(sr, off as int),
                ));
                assert(used_in(t3, ii, lo as int, ll) =~= after_free(
                    used_in(t0, ii, lo as int, ll),
                    off as int,
                ));
            }
        },
    }
}

/// The handed-out block, as offset and level, that holds offset `off` in the
/// subtree of node `i`, whose block starts at `lo` and has level `l` and
/// length `len`.
pub(crate) fn find_rec(
    tree: &Bitv,
    n: Ghost<nat>,
    order: Ghost<nat>,
    i: usize,
    lo: usize,
    l: usize,
    len: usize,
    off: usize,
) -> (r: Option<(usize, usize)>)
    requires
        fits(n@, i as int, l as nat),
        at_level(order@, i as int, l as nat),
        lo == offset_of(order@, i as int, l as nat),
        n@ <= tree@.len(),
        n@ <= usize::MAX,
        wf_node(tree@, i as int, l as nat),
        len == exp2(l as nat),
        lo <= off < lo + len,
        lo + len <= usize::MAX + 1,
    ensures
        match r {
            Some(b) => used_in(tree@, i as int, lo as int, l as nat).contains(
                (b.0 as int, b.1 as nat),
            ) && covers((b.0 as int, b.1 as nat), off as int),
            None => forall|b: Block| #[trigger]
                used_in(tree@, i as int, lo as int, l as nat).contains(b) ==> !covers(
                    b,
                    off as int,
                ),
        },
    decreases l,
{
    let ghost t = tree@;
    let ghost ii = i as int;
    let ghost ll = l as nat;
    proof {
        lemma_fits_children(n@, ii, ll);
    }
    let s = tree.get(i);
    match s {
        Node::Unused => None,
        Node::Used => Some((lo, l)),
        _ => {
            let left = 2 * i + 1;
            let right = 2 * i + 2;
            let half = len / 2;
            let ghost h = exp2((ll - 1) as nat);
            proof {
                lemma_halves(ll);
                    lemma_child_offsets(order@, ii, ll);
                lemma_shape(t, n@, left as int, lo as int, (ll - 1) as nat);
                lemma_shape(t, n@, right as int, lo + h, (ll - 1) as nat);
            }
            if off < lo + half {
                find_rec(tree, n, order, left, lo, l - 1, half, off)
            } else {
                find_rec(tree, n, order, right, lo + half, l - 1, half, off)
            }
        },
    }
}

/// The blocks of a well-formed subtree lie in its block and are pairwise
/// disjoint.
pub proof fn lemma_shape_pub(t: Seq<Node>, n: nat, i: int, lo: int, l: nat)
    requires
        fits(n, i, l),
        n <= t.len(),
        wf_node(t, i, l),
    ensures
        forall|b: Block| #[trigger]
            used_in(t, i, lo, l).contains(b) ==> lo <= b.0 && b.0 + exp2(b.1) <= lo + exp2(l),
        pairwise_disjoint(used_in(t, i, lo, l)),
{
    lemma_shape(t, n, i, lo, l);
}

} // verus!
