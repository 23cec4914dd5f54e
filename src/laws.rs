//! What holds of the allocator over every state and across calls.
use vstd::prelude::*;
use crate::buddy::{granted, level_for, BuddyAlloc};
use crate::geometry::{
    after_free, ceil_lg, covers, exp2, first_fit, is_free, is_slot, lemma_ceil_lg_exp2,
    lemma_exp2_mono, lemma_exp2_pos, lemma_ff_empty, lemma_ff_found, lemma_ff_lowest,
    pairwise_disjoint, Block,
};

verus! {

/// What is left of `s` once the offsets of `offs` are freed in turn.
pub open spec fn after_frees(s: Set<Block>, offs: Seq<int>) -> Set<Block>
    decreases offs.len(),
{
    if offs.len() == 0 {
        s
    } else {
        after_frees(after_free(s, offs[0]), offs.subrange(1, offs.len() as int))
    }
}

/// Every block handed out lies inside the region.
pub proof fn lemma_blocks_in_region(a: &BuddyAlloc)
    requires
        a.wf(),
    ensures
        forall|b: Block| #[trigger]
            a.used().contains(b) ==> 0 <= b.0 && b.0 + exp2(b.1) <= a.size_spec(),
{
    a.lemma_wf();
}

/// The blocks handed out are pairwise disjoint.
pub proof fn lemma_outstanding_disjoint(a: &BuddyAlloc)
    requires
        a.wf(),
    ensures
        pairwise_disjoint(a.used()),
{
    a.lemma_wf();
}

/// Freeing the start of every block handed out leaves nothing handed out.
pub proof fn lemma_free_every_block(s: Set<Block>, offs: Seq<int>)
    requires
        forall|b: Block| #[trigger]
            s.contains(b) ==> exists|j: int| 0 <= j < offs.len() && offs[j] == b.0,
    ensures
        after_frees(s, offs) == Set::<Block>::empty(),
    decreases offs.len(),
{
    if offs.len() == 0 {
        assert(s =~= Set::<Block>::empty());
    } else {
        let s1 = after_free(s, offs[0]);
        let rest = offs.subrange(1, offs.len() as int);
        assert forall|b: Block| #[trigger] s1.contains(b) implies exists|j: int|
            0 <= j < rest.len() && rest[j] == b.0 by {
            let j = choose|j: int| 0 <= j < offs.len() && offs[j] == b.0;
            lemma_exp2_pos(b.1);
            if j == 0 {
                assert(covers(b, offs[0]));
            }
            assert(rest[j - 1] == b.0);
        }
        lemma_free_every_block(s1, rest);
    }
}

/// With nothing handed out, a request for the whole region gets the whole
/// region.
pub proof fn lemma_full_cycle(a: &BuddyAlloc)
    requires
        a.wf(),
        a.used() == Set::<Block>::empty(),
    ensures
        a.planned(a.size_spec()) == Some((0int, a.lg_size())),
{
    lemma_exp2_pos(a.lg_size());
    lemma_ceil_lg_exp2(a.lg_size());
    lemma_ff_empty(0, a.lg_size(), a.lg_size());
    assert(ceil_lg(a.size_spec()) == a.lg_size());
    assert(first_fit(a.used(), 0, a.lg_size(), a.lg_size()) == Some(0int));
}

/// Freeing an offset twice leaves what freeing it once leaves.
pub proof fn lemma_free_idempotent(s: Set<Block>, off: int)
    ensures
        after_free(after_free(s, off), off) == after_free(s, off),
{
    assert(after_free(after_free(s, off), off) =~= after_free(s, off));
}

/// Freeing an offset outside the region frees nothing.
pub proof fn lemma_free_outside(a: &BuddyAlloc, off: int)
    requires
        a.wf(),
        off < 0 || off >= a.size_spec(),
    ensures
        after_free(a.used(), off) == a.used(),
{
    a.lemma_wf();
    assert(after_free(a.used(), off) =~= a.used());
}

/// A request gets the lowest free block of the least level that holds it,
/// among the blocks that halving the region gives, and gets none only where
/// that level is above the region's or no such block is free.
pub proof fn lemma_planned_is_lowest(a: &BuddyAlloc, size: nat)
    requires
        a.wf(),
    ensures
        ({
            let k = level_for(size);
            match a.planned(size) {
                Some(b) => {
                    &&& b.1 == k
                    &&& is_slot(b.0, 0, a.lg_size(), k)
                    &&& is_free(a.used(), b.0, exp2(k))
                    &&& forall|q: int|
                        #![trigger is_slot(q, 0, a.lg_size(), k)]
                        is_slot(q, 0, a.lg_size(), k) && q < b.0 ==> !is_free(a.used(), q, exp2(k))
                },
                None => k > a.lg_size() || forall|q: int|
                    #![trigger is_slot(q, 0, a.lg_size(), k)]
                    is_slot(q, 0, a.lg_size(), k) ==> !is_free(a.used(), q, exp2(k)),
            }
        }),
{
    let k = level_for(size);
    if k <= a.lg_size() {
        lemma_ff_lowest(a.used(), 0, a.lg_size(), k);
        if first_fit(a.used(), 0, a.lg_size(), k) is Some {
            lemma_ff_found(a.used(), 0, a.lg_size(), k);
        }
    }
}

/// With nothing handed out, any allocator's answer to a request that fits
/// in the region is a block, never the failure.
pub proof fn lemma_empty_grants(base: int, lg: nat, size: nat, r: (usize, usize))
    requires
        granted(Set::<Block>::empty(), base, lg, size, r),
        level_for(size) <= lg,
    ensures
        r.1 > 0,
{
    let k = level_for(size);
    if r.1 == 0 {
        lemma_exp2_mono(k, lg);
        lemma_exp2_pos(k);
        let p = exp2(k) as int;
        assert(0int % p == 0) by (nonlinear_arith)
            requires
                p >= 1,
        ;
        assert(is_slot(0, 0, lg, k));
        assert(is_free(Set::<Block>::empty(), 0, exp2(k)));
    }
}

} // verus!
