//! Blocks of the region: powers of two, offsets, and the lowest free block
//! of a given size.
use vstd::prelude::*;
use vstd::arithmetic::div_mod::{lemma_fundamental_div_mod, lemma_mod_multiples_vanish};

verus! {

/// Two to the power `n`.
pub open spec fn exp2(n: nat) -> nat
    decreases n,
{
    if n == 0 {
        1
    } else {
        2 * exp2((n - 1) as nat)
    }
}

/// The least `l` with `exp2(l) >= n`.
pub open spec fn ceil_lg(n: nat) -> nat
    decreases n,
{
    if n <= 1 {
        0
    } else {
        1 + ceil_lg(((n + 1) / 2) as nat)
    }
}

/// A block is an offset into the region and a level: it spans
/// `[offset, offset + exp2(level))`.
pub type Block = (int, nat);

/// The block meets the range `[lo, lo + len)`.
pub open spec fn overlaps(b: Block, lo: int, len: nat) -> bool {
    b.0 < lo + len && lo < b.0 + exp2(b.1)
}

/// The block holds the byte at offset `off`.
pub open spec fn covers(b: Block, off: int) -> bool {
    b.0 <= off < b.0 + exp2(b.1)
}

/// No block of `s` meets `[lo, lo + len)`.
pub open spec fn is_free(s: Set<Block>, lo: int, len: nat) -> bool {
    forall|b: Block| #[trigger] s.contains(b) ==> !overlaps(b, lo, len)
}

/// The lowest offset of a free block of level `k` inside the block at `lo`
/// of level `l`, where the blocks of level `k` are those that halving it
/// gives; `None` where each of them meets a block of `s`.
pub open spec fn first_fit(s: Set<Block>, lo: int, l: nat, k: nat) -> Option<int>
    decreases l,
{
    if l <= k {
        if l == k && is_free(s, lo, exp2(l)) {
            Some(lo)
        } else {
            None
        }
    } else {
        match first_fit(s, lo, (l - 1) as nat, k) {
            Some(o) => Some(o),
            None => first_fit(s, lo + exp2((l - 1) as nat), (l - 1) as nat, k),
        }
    }
}

/// What is left of `s` once the block that holds `off`, if any, is gone.
pub open spec fn after_free(s: Set<Block>, off: int) -> Set<Block> {
    s.filter(|b: Block| !covers(b, off))
}

/// The blocks of `s` are pairwise disjoint.
pub open spec fn pairwise_disjoint(s: Set<Block>) -> bool {
    forall|a: Block, b: Block|
        #![trigger s.contains(a), s.contains(b)]
        s.contains(a) && s.contains(b) && a != b ==> !overlaps(a, b.0, exp2(b.1))
}

pub proof fn lemma_exp2_pos(n: nat)
    ensures
        exp2(n) >= 1,
    decreases n,
{
    if n > 0 {
        lemma_exp2_pos((n - 1) as nat);
    }
}

pub proof fn lemma_exp2_mono(a: nat, b: nat)
    requires
        a <= b,
    ensures
        exp2(a) <= exp2(b),
        a < b ==> 2 * exp2(a) <= exp2(b),
    decreases b,
{
    lemma_exp2_pos(b);
    if a < b {
        lemma_exp2_mono(a, (b - 1) as nat);
    }
}

pub proof fn lemma_exp2_add(a: nat, b: nat)
    ensures
        exp2(a + b) == exp2(a) * exp2(b),
    decreases b,
{
    if b > 0 {
        lemma_exp2_add(a, (b - 1) as nat);
        let x = exp2(a);
        let y = exp2((b - 1) as nat);
        assert(exp2(a + b) == 2 * exp2((a + b - 1) as nat));
        assert(exp2(b) == 2 * y);
        assert(exp2((a + b - 1) as nat) == x * y);
        assert(2 * (x * y) == x * (2 * y)) by (nonlinear_arith);
    } else {
        assert(a + b == a);
        assert(exp2(a) * 1 == exp2(a));
    }
}

/// `ceil_lg(n)` is the least level whose block holds `n` bytes.
pub proof fn lemma_ceil_lg(n: nat)
    ensures
        exp2(ceil_lg(n)) >= n,
        ceil_lg(n) > 0 ==> exp2((ceil_lg(n) - 1) as nat) < n,
    decreases n,
{
    if n > 1 {
        let m = ((n + 1) / 2) as nat;
        lemma_ceil_lg(m);
        lemma_exp2_pos(ceil_lg(m));
    }
}

pub proof fn lemma_ceil_lg_exp2(l: nat)
    ensures
        ceil_lg(exp2(l)) == l,
    decreases l,
{
    if l > 0 {
        lemma_exp2_pos((l - 1) as nat);
        lemma_ceil_lg_exp2((l - 1) as nat);
        assert((exp2(l) + 1) / 2 == exp2((l - 1) as nat));
    }
}

/// Halving a block into two of half the length.
pub proof fn lemma_halves(l: nat)
    requires
        l > 0,
    ensures
        exp2(l) == 2 * exp2((l - 1) as nat),
        exp2((l - 1) as nat) >= 1,
{
    lemma_exp2_pos((l - 1) as nat);
}

pub proof fn lemma_ff_empty(lo: int, l: nat, k: nat)
    requires
        k <= l,
    ensures
        first_fit(Set::empty(), lo, l, k) == Some(lo),
    decreases l,
{
    if l > k {
        lemma_ff_empty(lo, (l - 1) as nat, k);
    }
}

/// A block of `s` that spans the whole range leaves nothing free in it.
pub proof fn lemma_ff_covered(s: Set<Block>, b: Block, lo: int, l: nat, k: nat)
    requires
        s.contains(b),
        b.0 <= lo,
        lo + exp2(l) <= b.0 + exp2(b.1),
    ensures
        first_fit(s, lo, l, k) is None,
    decreases l,
{
    lemma_exp2_pos(l);
    if l > k {
        lemma_halves(l);
        lemma_ff_covered(s, b, lo, (l - 1) as nat, k);
        lemma_ff_covered(s, b, lo + exp2((l - 1) as nat), (l - 1) as nat, k);
    } else if l == k {
        assert(overlaps(b, lo, exp2(l)));
    }
}

/// Blocks that do not meet the range do not change the search in it.
pub proof fn lemma_ff_local(s1: Set<Block>, s2: Set<Block>, lo: int, l: nat, k: nat)
    requires
        forall|b: Block| #[trigger] s2.contains(b) ==> !overlaps(b, lo, exp2(l)),
    ensures
        first_fit(s1.union(s2), lo, l, k) == first_fit(s1, lo, l, k),
    decreases l,
{
    if l > k {
        lemma_halves(l);
        let h = exp2((l - 1) as nat);
        lemma_ff_local(s1, s2, lo, (l - 1) as nat, k);
        lemma_ff_local(s1, s2, lo + h, (l - 1) as nat, k);
    } else if l == k {
        if is_free(s1, lo, exp2(l)) {
            assert forall|b: Block| #[trigger] s1.union(s2).contains(b) implies !overlaps(
                b,
                lo,
                exp2(l),
            ) by {
                if s2.contains(b) {
                } else {
                    assert(s1.contains(b));
                }
            }
        }
        if is_free(s1.union(s2), lo, exp2(l)) {
            assert forall|b: Block| #[trigger] s1.contains(b) implies !overlaps(b, lo, exp2(l)) by {
                assert(s1.union(s2).contains(b));
            }
        }
    }
}

/// A block that the search finds lies in the range, is aligned to its
/// length and is free.
pub proof fn lemma_ff_found(s: Set<Block>, lo: int, l: nat, k: nat)
    requires
        first_fit(s, lo, l, k) is Some,
    ensures
        k <= l,
        ({
            let o = first_fit(s, lo, l, k)->Some_0;
            &&& lo <= o
            &&& o + exp2(k) <= lo + exp2(l)
            &&& (o - lo) % (exp2(k) as int) == 0
            &&& is_free(s, o, exp2(k))
        }),
    decreases l,
{
    lemma_exp2_pos(k);
    if l > k {
        lemma_halves(l);
        let h = exp2((l - 1) as nat);
        let o = first_fit(s, lo, l, k)->Some_0;
        if first_fit(s, lo, (l - 1) as nat, k) is Some {
            lemma_ff_found(s, lo, (l - 1) as nat, k);
        } else {
            lemma_ff_found(s, lo + h, (l - 1) as nat, k);
            let p = exp2(k);
            let q = exp2((l - 1 - k) as nat);
            lemma_exp2_add(k, (l - 1 - k) as nat);
            assert(h == p * q);
            lemma_mod_multiples_vanish(q as int, o - (lo + h), p as int);
            assert(p * q + (o - (lo + h)) == o - lo);
        }
    } else {
        let p = exp2(k) as int;
        assert(0int % p == 0) by (nonlinear_arith)
            requires
                p >= 1,
        ;
        assert(lo - lo == 0);
    }
}

/// A level whose block holds `n` bytes while the next lower one does not is
/// `ceil_lg(n)`.
pub proof fn lemma_ceil_lg_unique(n: nat, k: nat)
    requires
        exp2(k) >= n,
        k == 0 || exp2((k - 1) as nat) < n,
    ensures
        k == ceil_lg(n),
{
    let c = ceil_lg(n);
    lemma_ceil_lg(n);
    if c < k {
        lemma_exp2_mono(c, (k - 1) as nat);
    } else if c > k {
        lemma_exp2_mono(k, (c - 1) as nat);
    }
}

/// In a set of disjoint blocks, freeing the offset that block `c` holds
/// removes `c` alone.
pub proof fn lemma_after_free_one(s: Set<Block>, c: Block, off: int)
    requires
        pairwise_disjoint(s),
        s.contains(c),
        covers(c, off),
    ensures
        after_free(s, off) == s.remove(c),
{
    assert forall|b: Block| #[trigger] s.contains(b) && b != c implies !covers(b, off) by {
        assert(!overlaps(b, c.0, exp2(c.1)));
    }
    assert(after_free(s, off) =~= s.remove(c));
}

/// `q` is a block of level `k` inside the block at `lo` of level `l`, as
/// halving that block gives them.
pub open spec fn is_slot(q: int, lo: int, l: nat, k: nat) -> bool {
    lo <= q && q + exp2(k) <= lo + exp2(l) && (q - lo) % (exp2(k) as int) == 0
}

/// The search finds the lowest free slot, and finds none only where no slot
/// is free.
pub proof fn lemma_ff_lowest(s: Set<Block>, lo: int, l: nat, k: nat)
    requires
        k <= l,
    ensures
        match first_fit(s, lo, l, k) {
            Some(o) => forall|q: int|
                #![trigger is_slot(q, lo, l, k)]
                is_slot(q, lo, l, k) && q < o ==> !is_free(s, q, exp2(k)),
            None => forall|q: int|
                #![trigger is_slot(q, lo, l, k)]
                is_slot(q, lo, l, k) ==> !is_free(s, q, exp2(k)),
        },
    decreases l,
{
    let p = exp2(k);
    lemma_exp2_pos(k);
    if l > k {
        let l1 = (l - 1) as nat;
        let h = exp2(l1);
        let c = exp2((l1 - k) as nat);
        lemma_exp2_add(k, (l1 - k) as nat);
        assert(h == p * c);
        lemma_ff_lowest(s, lo, l1, k);
        lemma_ff_lowest(s, lo + h, l1, k);
        if first_fit(s, lo, l1, k) is Some {
            lemma_ff_found(s, lo, l1, k);
        }
        assert forall|q: int| #![trigger is_slot(q, lo, l, k)] is_slot(q, lo, l, k) implies (q
            < lo + h ==> is_slot(q, lo, l1, k)) && (q >= lo + h ==> is_slot(q, lo + h, l1, k)) by {
            lemma_fundamental_div_mod(q - lo, p as int);
            let a = (q - lo) / (p as int);
            assert(q - lo == p * a);
            if q < lo + h {
                assert(a < c) by (nonlinear_arith)
                    requires
                        p * a < p * c,
                        p >= 1,
                ;
                assert(p * a + p <= p * c) by (nonlinear_arith)
                    requires
                        a + 1 <= c,
                        p >= 1,
                ;
            } else {
                lemma_mod_multiples_vanish(-(c as int), q - lo, p as int);
                assert(p * (-(c as int)) + (q - lo) == q - (lo + h)) by (nonlinear_arith)
                    requires
                        h == p * c,
                ;
            }
        }
    } else {
        assert forall|q: int| #![trigger is_slot(q, lo, l, k)] is_slot(q, lo, l, k) implies q
            == lo by {}
    }
}

/// Two to the power `l`.
pub fn block_len(l: usize) -> (r: usize)
    requires
        exp2(l as nat) <= usize::MAX,
    ensures
        r == exp2(l as nat),
{
    let mut r: usize = 1;
    let mut j: usize = 0;
    while j < l
        invariant
            j <= l,
            r == exp2(j as nat),
            exp2(l as nat) <= usize::MAX,
        decreases l - j,
    {
        proof {
            lemma_exp2_mono((j + 1) as nat, l as nat);
        }
        r = 2 * r;
        j = j + 1;
    }
    r
}

/// The offset from the region's start of the block of node `i` at level
/// `l`, in a tree whose root has level `order`.
pub open spec fn offset_of(order: nat, i: int, l: nat) -> int {
    (i + 1 - exp2((order - l) as nat)) * exp2(l)
}

/// Node `i` is one of the nodes at level `l`.
pub open spec fn at_level(order: nat, i: int, l: nat) -> bool {
    l <= order && exp2((order - l) as nat) - 1 <= i < 2 * exp2((order - l) as nat) - 1
}

/// The root is the one node at the top level, and its block starts the
/// region.
pub proof fn lemma_root_offset(order: nat)
    ensures
        at_level(order, 0, order),
        offset_of(order, 0, order) == 0,
{
    assert(exp2((order - order) as nat) == 1);
    assert(0 * exp2(order) == 0);
}

/// The halves of node `i` start at its own offset and half its length
/// further.
pub proof fn lemma_child_offsets(order: nat, i: int, l: nat)
    requires
        at_level(order, i, l),
        l > 0,
    ensures
        at_level(order, 2 * i + 1, (l - 1) as nat),
        at_level(order, 2 * i + 2, (l - 1) as nat),
        offset_of(order, 2 * i + 1, (l - 1) as nat) == offset_of(order, i, l),
        offset_of(order, 2 * i + 2, (l - 1) as nat) == offset_of(order, i, l) + exp2(
            (l - 1) as nat,
        ),
{
    let d = (order - l) as nat;
    let e = exp2(d);
    let h = exp2((l - 1) as nat);
    assert(exp2((order - (l - 1)) as nat) == 2 * e);
    assert(exp2(l) == 2 * h);
    assert((2 * i + 2 - 2 * e) * h == (i + 1 - e) * (2 * h)) by (nonlinear_arith);
    assert((2 * i + 3 - 2 * e) * h == (i + 1 - e) * (2 * h) + h) by (nonlinear_arith);
}

/// The offset from the region's start of the block of node `index` at
/// level `level`.
pub fn node_offset(order: usize, index: usize, level: usize) -> (r: usize)
    requires
        at_level(order as nat, index as int, level as nat),
        exp2(order as nat) <= usize::MAX,
    ensures
        r == offset_of(order as nat, index as int, level as nat),
        r + exp2(level as nat) <= exp2(order as nat),
{
    let d = order - level;
    proof {
        lemma_exp2_mono(d as nat, order as nat);
        lemma_exp2_mono(level as nat, order as nat);
        lemma_exp2_add(d as nat, level as nat);
    }
    let e = block_len(d);
    proof {
        lemma_exp2_pos(d as nat);
    }
    let x = index - (e - 1);
    let p = block_len(level);
    proof {
        assert(x * p + p <= e * p) by (nonlinear_arith)
            requires
                x + 1 <= e,
                p >= 0,
        ;
        assert(x * p >= 0) by (nonlinear_arith)
            requires
                x >= 0,
                p >= 0,
        ;
    }
    x * p
}

/// The parent of node `i`.
pub fn parent(i: usize) -> (r: usize)
    requires
        i > 0,
    ensures
        r == (i + 1) / 2 - 1,
        i == 2 * r + 1 || i == 2 * r + 2,
{
    (i - 1) / 2
}

/// The other half of the parent of node `i`.
pub fn buddy(i: usize) -> (r: usize)
    requires
        0 < i < usize::MAX,
    ensures
        r == if i % 2 == 1 {
            i + 1
        } else {
            i - 1
        },
        r > 0,
        (r + 1) / 2 == (i + 1) / 2,
{
    i - 1 + (i % 2) * 2
}

} // verus!
