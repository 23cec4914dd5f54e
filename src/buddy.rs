//! The buddy allocator: a region of `2^order` bytes at `base`, handed out
//! in blocks of power-of-two length that are aligned to their length.
use vstd::prelude::*;
use crate::bitv::Bitv;
use crate::geometry::{
    after_free, at_level, block_len, ceil_lg, covers, exp2, first_fit, is_free,
    lemma_after_free_one, lemma_ceil_lg, lemma_ceil_lg_unique, lemma_exp2_mono, lemma_exp2_pos,
    lemma_ff_found, lemma_root_offset, offset_of, overlaps, pairwise_disjoint, Block, is_slot,
};
use crate::laws::lemma_planned_is_lowest;
use crate::tree::{alloc_rec, find_rec, fits, free_rec, used_in, wf_node};

verus! {

/// The least level whose block holds a request for `size` bytes, counting
/// a request for none as one for a single byte.
pub open spec fn level_for(size: nat) -> nat {
    ceil_lg(if size == 0 {
        1
    } else {
        size
    })
}

/// What a request for `size` bytes may return, given the blocks `out`
/// already handed out of the region of `2^lg` bytes at `base`: a block of
/// the least power-of-two length that holds the request, inside the region,
/// aligned to its length and free; or `(base, 0)`, only where no such block
/// is free.
pub open spec fn granted(
    out: Set<Block>,
    base: int,
    lg: nat,
    size: nat,
    r: (usize, usize),
) -> bool {
    let k = level_for(size);
    if r.1 > 0 {
        &&& base <= r.0
        &&& r.0 + r.1 <= base + exp2(lg)
        &&& (r.0 - base) % (r.1 as int) == 0
        &&& r.1 == exp2(k)
        &&& is_free(out, r.0 - base, r.1 as nat)
    } else {
        &&& r.0 == base
        &&& (k > lg || forall|q: int|
            #![trigger is_slot(q, 0, lg, k)]
            is_slot(q, 0, lg, k) ==> !is_free(out, q, exp2(k)))
    }
}

/// What an allocator offers its clients.
pub trait Allocator {
    /// The allocator is ready for use.
    spec fn inv(&self) -> bool;

    /// The address of the region.
    spec fn base_addr(&self) -> int;

    /// The base-2 logarithm of the region's length.
    spec fn lg_region(&self) -> nat;

    /// The blocks handed out and not yet given back, by offset from the
    /// region's start and level.
    spec fn outstanding(&self) -> Set<Block>;

    /// Hands out a block of at least `size` bytes as `(pointer, length)`;
    /// a length of 0 says that none was free.
    fn allocate(&mut self, size: usize) -> (r: (usize, usize))
        requires
            old(self).inv(),
        ensures
            final(self).inv(),
            final(self).base_addr() == old(self).base_addr(),
            final(self).lg_region() == old(self).lg_region(),
            granted(
                old(self).outstanding(),
                old(self).base_addr(),
                old(self).lg_region(),
                size as nat,
                r,
            ),
            r.1 > 0 ==> final(self).outstanding() == old(self).outstanding().insert(
                (r.0 - old(self).base_addr(), level_for(size as nat)),
            ),
            r.1 == 0 ==> final(self).outstanding() == old(self).outstanding(),
    ;

    /// As `allocate`, and sets the bytes of the block to zero in `mem`, the
    /// region's contents from its start.
    fn zero_alloc(&mut self, size: usize, mem: &mut Vec<u8>) -> (r: (usize, usize))
        requires
            old(self).inv(),
            old(mem)@.len() == exp2(old(self).lg_region()),
        ensures
            final(self).inv(),
            final(self).base_addr() == old(self).base_addr(),
            final(self).lg_region() == old(self).lg_region(),
            granted(
                old(self).outstanding(),
                old(self).base_addr(),
                old(self).lg_region(),
                size as nat,
                r,
            ),
            r.1 > 0 ==> final(self).outstanding() == old(self).outstanding().insert(
                (r.0 - old(self).base_addr(), level_for(size as nat)),
            ),
            r.1 == 0 ==> final(self).outstanding() == old(self).outstanding(),
            final(mem)@.len() == old(mem)@.len(),
            forall|j: int|
                0 <= j < old(mem)@.len() ==> final(mem)@[j] == if r.1 > 0 && r.0 - old(
                    self,
                ).base_addr() <= j < r.0 - old(self).base_addr() + r.1 {
                    0u8
                } else {
                    old(mem)@[j]
                },
    ;

    /// Moves the block that holds `ptr` to a block of at least `size` bytes,
    /// copying the lesser of the two lengths in `mem` from the old block's
    /// start to the new one's, then gives the old block back. Where no block
    /// is free, changes nothing; where no block holds `ptr`, it allocates.
    fn realloc(&mut self, ptr: usize, size: usize, mem: &mut Vec<u8>) -> (r: (usize, usize))
        requires
            old(self).inv(),
            old(mem)@.len() == exp2(old(self).lg_region()),
        ensures
            final(self).inv(),
            final(self).base_addr() == old(self).base_addr(),
            final(self).lg_region() == old(self).lg_region(),
            granted(
                old(self).outstanding(),
                old(self).base_addr(),
                old(self).lg_region(),
                size as nat,
                r,
            ),
            r.1 == 0 ==> final(self).outstanding() == old(self).outstanding() && final(mem)@ == old(
                mem,
            )@,
            r.1 > 0 ==> forall|c: Block| #[trigger]
                old(self).outstanding().contains(c) && covers(c, ptr - old(self).base_addr())
                    ==> final(self).outstanding() == old(self).outstanding().insert(
                    (r.0 - old(self).base_addr(), level_for(size as nat)),
                ).remove(c) && moved(
                    old(mem)@,
                    final(mem)@,
                    c.0,
                    r.0 - old(self).base_addr(),
                    if exp2(c.1) < r.1 {
                        exp2(c.1)
                    } else {
                        r.1 as nat
                    },
                ),
            r.1 > 0 && (forall|c: Block| #[trigger]
                old(self).outstanding().contains(c) ==> !covers(c, ptr - old(self).base_addr()))
                ==> final(self).outstanding() == old(self).outstanding().insert(
                (r.0 - old(self).base_addr(), level_for(size as nat)),
            ) && final(mem)@ == old(mem)@,
    ;

    /// Gives back the block handed out that holds `ptr`, if any.
    fn free(&mut self, ptr: usize)
        requires
            old(self).inv(),
        ensures
            final(self).inv(),
            final(self).base_addr() == old(self).base_addr(),
            final(self).lg_region() == old(self).lg_region(),
            final(self).outstanding() == after_free(
                old(self).outstanding(),
                ptr - old(self).base_addr(),
            ),
    ;
}

/// A buddy allocator over the region `[base, base + 2^order)`, with its
/// block tree in `tree`.
pub struct BuddyAlloc {
    base: usize,
    order: usize,
    tree: Bitv,
}

impl BuddyAlloc {
    /// The address of the region.
    pub closed spec fn start(&self) -> int {
        self.base as int
    }

    /// The base-2 logarithm of the region's length.
    pub closed spec fn lg_size(&self) -> nat {
        self.order as nat
    }

    /// The region's length in bytes.
    pub open spec fn size_spec(&self) -> nat {
        exp2(self.lg_size())
    }

    /// The number of nodes of the block tree.
    pub open spec fn node_count(&self) -> nat {
        (2 * self.size_spec() - 1) as nat
    }

    /// The blocks handed out and not yet given back, by offset from the
    /// region's start and level.
    pub closed spec fn used(&self) -> Set<Block> {
        used_in(self.tree@, 0, 0, self.order as nat)
    }

    /// The number of cells of the tree's storage.
    pub closed spec fn cells(&self) -> nat {
        self.tree@.len()
    }

    /// The allocator is well formed.
    pub closed spec fn wf(&self) -> bool {
        &&& 1 <= self.order
        &&& 2 * exp2(self.order as nat) - 1 <= usize::MAX
        &&& self.base + exp2(self.order as nat) <= usize::MAX + 1
        &&& self.tree@.len() >= 2 * exp2(self.order as nat) - 1
        &&& wf_node(self.tree@, 0, self.order as nat)
    }

    /// The block, as offset and level, that a request for `size` bytes
    /// gets: the lowest free one of the least level that holds
    /// `max(size, 1)` bytes, or none.
    pub open spec fn planned(&self, size: nat) -> Option<Block> {
        let k = level_for(size);
        if k > self.lg_size() {
            None
        } else {
            match first_fit(self.used(), 0, self.lg_size(), k) {
                Some(o) => Some((o, k)),
                None => None,
            }
        }
    }

    /// What a request for `size` bytes returns and leaves.
    pub open spec fn alloc_post(
        old: BuddyAlloc,
        new: BuddyAlloc,
        size: nat,
        r: (usize, usize),
    ) -> bool {
        &&& new.wf()
        &&& new.start() == old.start()
        &&& new.lg_size() == old.lg_size()
        &&& match old.planned(size) {
            Some(b) => {
                &&& r.0 == old.start() + b.0
                &&& r.1 == exp2(b.1)
                &&& new.used() == old.used().insert(b)
            },
            None => {
                &&& r.0 == old.start()
                &&& r.1 == 0
                &&& new.used() == old.used()
            },
        }
        &&& r.1 > 0 ==> {
            &&& old.start() <= r.0
            &&& r.0 + r.1 <= old.start() + old.size_spec()
            &&& (r.0 - old.start()) % (r.1 as int) == 0
            &&& r.1 == exp2(level_for(size))
            &&& is_free(old.used(), r.0 - old.start(), r.1 as nat)
        }
    }

    pub(crate) proof fn lemma_wf(&self)
        requires
            self.wf(),
        ensures
            fits(self.node_count(), 0, self.lg_size()),
            self.node_count() <= self.cells(),
            self.node_count() <= usize::MAX,
            exp2(self.lg_size()) <= usize::MAX,
            forall|b: Block| #[trigger]
                self.used().contains(b) ==> 0 <= b.0 && b.0 + exp2(b.1) <= self.size_spec(),
            pairwise_disjoint(self.used()),
            at_level(self.lg_size(), 0, self.lg_size()),
            offset_of(self.lg_size(), 0, self.lg_size()) == 0,
    {
        lemma_root_offset(self.lg_size());
        lemma_exp2_pos(self.order as nat);
        crate::tree::lemma_shape_pub(self.tree@, self.node_count(), 0, 0, self.order as nat);
    }

    /// An allocator over `[base, base + 2^order)` whose tree is kept in
    /// `storage`, with nothing handed out. The storage is cleared.
    pub fn new(base: usize, order: usize, storage: Bitv) -> (r: BuddyAlloc)
        requires
            1 <= order,
            2 * exp2(order as nat) - 1 <= usize::MAX,
            base + exp2(order as nat) <= usize::MAX + 1,
            storage@.len() >= 2 * exp2(order as nat) - 1,
        ensures
            r.wf(),
            r.start() == base,
            r.lg_size() == order,
            r.used() == Set::<Block>::empty(),
    {
        let mut tree = storage;
        tree.clear();
        proof {
            lemma_exp2_pos(order as nat);
        }
        let r = BuddyAlloc { base, order, tree };
        proof {
            assert(r.tree@[0] == crate::bitv::Node::Unused);
        }
        r
    }

    /// The address of the region.
    pub fn base(&self) -> (r: usize)
        ensures
            r == self.start(),
    {
        self.base
    }

    /// The base-2 logarithm of the region's length.
    pub fn order(&self) -> (r: usize)
        ensures
            r == self.lg_size(),
    {
        self.order
    }

    /// Hands out the lowest free block of the least power-of-two length
    /// that holds `max(size, 1)` bytes, as `(pointer, length)`; where none
    /// is free, returns `(base, 0)` and changes nothing.
    pub fn allocate(&mut self, size: usize) -> (r: (usize, usize))
        requires
            old(self).wf(),
        ensures
            Self::alloc_post(*old(self), *final(self), size as nat, r),
    {
        proof {
            self.lemma_wf();
        }
        let want: usize = if size == 0 {
            1
        } else {
            size
        };
        let mut k: usize = 0;
        let mut p: usize = 1;
        while k < self.order && p < want
            invariant
                p == exp2(k as nat),
                k <= self.order,
                exp2(self.order as nat) <= usize::MAX,
                k == 0 || exp2((k - 1) as nat) < want,
            decreases self.order - k,
        {
            proof {
                lemma_exp2_mono((k + 1) as nat, self.order as nat);
            }
            p = 2 * p;
            k = k + 1;
        }
        let ghost u0 = self.used();
        let ghost s0 = *self;
        if p < want {
            proof {
                lemma_ceil_lg(want as nat);
                if ceil_lg(want as nat) <= self.order {
                    lemma_exp2_mono(ceil_lg(want as nat), self.order as nat);
                }
            }
            return (self.base, 0);
        }
        proof {
            lemma_ceil_lg_unique(want as nat, k as nat);
        }
        let len = block_len(self.order);
        let r = alloc_rec(
            &mut self.tree,
            Ghost(s0.node_count()),
            Ghost(self.order as nat),
            0,
            0,
            self.order,
            len,
            k,
        );
        match r {
            Some(o) => {
                proof {
                    lemma_ff_found(u0, 0, self.order as nat, k as nat);
                }
                (self.base + o, p)
            },
            None => (self.base, 0),
        }
    }

    /// The block handed out that holds `ptr`, as `(pointer, length)`.
    pub fn block_at(&self, ptr: usize) -> (r: Option<(usize, usize)>)
        requires
            self.wf(),
        ensures
            match r {
                Some(b) => exists|l: nat|
                    self.used().contains((b.0 - self.start(), l)) && b.1 == exp2(l) && covers(
                        (b.0 - self.start(), l),
                        ptr - self.start(),
                    ),
                None => forall|b: Block| #[trigger]
                    self.used().contains(b) ==> !covers(b, ptr - self.start()),
            },
    {
        proof {
            self.lemma_wf();
        }
        let len = block_len(self.order);
        if ptr < self.base || ptr - self.base >= len {
            return None;
        }
        let off = ptr - self.base;
        let found = find_rec(
            &self.tree,
            Ghost(self.node_count()),
            Ghost(self.order as nat),
            0,
            0,
            self.order,
            len,
            off,
        );
        match found {
            Some(b) => {
                proof {
                    assert(self.used().contains((b.0 as int, b.1 as nat)));
                }
                let g = block_len(b.1);
                proof {
                    assert(self.used().contains(((self.base + b.0) - self.start(), b.1 as nat)));
                }
                Some((self.base + b.0, g))
            },
            None => None,
        }
    }

    /// Gives back the block handed out that holds `ptr`. A pointer that no
    /// such block holds, inside the region or out of it, changes nothing.
    /// On the way back up, a halved node whose halves are both free again
    /// becomes one free block, so that a later request finds it whole.
    pub fn free(&mut self, ptr: usize)
        requires
            old(self).wf(),
        ensures
            final(self).wf(),
            final(self).start() == old(self).start(),
            final(self).lg_size() == old(self).lg_size(),
            final(self).used() == after_free(old(self).used(), ptr - old(self).start()),
            ptr < old(self).start() || ptr - old(self).start() >= old(self).size_spec()
                ==> *final(self) == *old(self),
    {
        proof {
            self.lemma_wf();
        }
        let len = block_len(self.order);
        if ptr < self.base || ptr - self.base >= len {
            proof {
                assert(after_free(self.used(), ptr - self.start()) =~= self.used());
            }
            return;
        }
        let off = ptr - self.base;
        let ghost n = self.node_count();
        free_rec(
            &mut self.tree,
            Ghost(n),
            Ghost(self.order as nat),
            0,
            0,
            self.order,
            len,
            off,
        );
    }
    /// As `allocate`, and sets the bytes of the block handed out to zero in
    /// `mem`, the region's contents from its start.
    pub fn zero_alloc(&mut self, size: usize, mem: &mut Vec<u8>) -> (r: (usize, usize))
        requires
            old(self).wf(),
            old(mem)@.len() == old(self).size_spec(),
        ensures
            Self::alloc_post(*old(self), *final(self), size as nat, r),
            final(mem)@.len() == old(mem)@.len(),
            forall|j: int|
                0 <= j < old(mem)@.len() ==> final(mem)@[j] == if r.1 > 0 && r.0 - old(
                    self,
                ).start() <= j < r.0 - old(self).start() + r.1 {
                    0u8
                } else {
                    old(mem)@[j]
                },
    {
        let ghost s0 = *self;
        let r = self.allocate(size);
        proof {
            if s0.planned(size as nat) is Some {
                lemma_exp2_pos(s0.planned(size as nat)->Some_0.1);
            }
        }
        let from = r.0 - self.base;
        let mut t: usize = 0;
        while t < r.1
            invariant
                t <= r.1,
                r.1 > 0 ==> from + r.1 <= mem@.len(),
                mem@.len() <= usize::MAX,
                from == r.0 - old(self).start(),
                mem@.len() == old(mem)@.len(),
                forall|j: int|
                    0 <= j < mem@.len() ==> mem@[j] == if from <= j < from + t {
                        0u8
                    } else {
                        old(mem)@[j]
                    },
            decreases r.1 - t,
        {
            mem.set(from + t, 0);
            t = t + 1;
        }
        r
    }

    /// Moves the block that holds `src` to a block of at least `size`
    /// bytes: the new block is taken first, as `allocate` takes it, then
    /// the lesser of the two lengths is copied in `mem` from the old block's
    /// start to the new one's, then the old block is given back. Where no
    /// block is free, returns `(base, 0)` and changes nothing, and the old
    /// block stays handed out. Where no block handed out holds `src`, it
    /// acts as `allocate`.
    pub fn realloc(&mut self, src: usize, size: usize, mem: &mut Vec<u8>) -> (r: (usize, usize))
        requires
            old(self).wf(),
            old(mem)@.len() == old(self).size_spec(),
        ensures
            final(self).wf(),
            final(self).start() == old(self).start(),
            final(self).lg_size() == old(self).lg_size(),
            match old(self).planned(size as nat) {
                None => r == (old(self).start() as usize, 0usize) && final(self).used() == old(
                    self,
                ).used() && final(mem)@ == old(mem)@,
                Some(b) => {
                    &&& r.0 == old(self).start() + b.0
                    &&& r.1 == exp2(b.1)
                    &&& forall|c: Block| #[trigger]
                        old(self).used().contains(c) && covers(c, src - old(self).start())
                            ==> final(self).used() == old(self).used().insert(b).remove(c)
                            && moved(
                            old(mem)@,
                            final(mem)@,
                            c.0,
                            b.0,
                            if exp2(c.1) < exp2(b.1) {
                                exp2(c.1)
                            } else {
                                exp2(b.1)
                            },
                        )
                    &&& (forall|c: Block| #[trigger]
                        old(self).used().contains(c) ==> !covers(c, src - old(self).start()))
                        ==> final(self).used() == old(self).used().insert(b) && final(mem)@ == old(
                        mem,
                    )@
                },
            },
    {
        proof {
            self.lemma_wf();
        }
        let ghost s0 = *self;
        let ghost m0 = mem@;
        let ghost off = src - s0.start();
        let found = self.block_at(src);
        let r = self.allocate(size);
        if r.1 == 0 {
            proof {
                if s0.planned(size as nat) is Some {
                    lemma_exp2_pos(s0.planned(size as nat)->Some_0.1);
                }
            }
            return r;
        }
        match found {
            None => r,
            Some(ob) => {
                let ghost l = choose|l: nat|
                    s0.used().contains((ob.0 - s0.start(), l)) && ob.1 == exp2(l) && covers(
                        (ob.0 - s0.start(), l),
                        off,
                    );
                let ghost c: Block = (ob.0 - s0.start(), l);
                let ghost b = s0.planned(size as nat)->Some_0;
                proof {
                    assert(s0.used().contains(c));
                    assert(!overlaps(c, b.0, exp2(b.1)));
                    self.lemma_wf();
                    assert(self.used().contains(b));
                    assert(self.used().contains(c));
                    assert(covers(c, off));
                    lemma_after_free_one(self.used(), c, off);
                    assert forall|d: Block| #[trigger]
                        s0.used().contains(d) && covers(d, off) implies d == c by {
                        if d != c {
                            assert(!overlaps(d, c.0, exp2(c.1)));
                        }
                    }
                }
                let m = if ob.1 < r.1 {
                    ob.1
                } else {
                    r.1
                };
                let from = ob.0 - self.base;
                let to = r.0 - self.base;
                let mut t: usize = 0;
                while t < m
                    invariant
                        t <= m,
                        from + m <= mem@.len(),
                        to + m <= mem@.len(),
                        mem@.len() <= usize::MAX,
                        from + m <= to || to + m <= from,
                        mem@.len() == m0.len(),
                        forall|j: int|
                            0 <= j < mem@.len() ==> mem@[j] == if to <= j < to + t {
                                m0[from + j - to]
                            } else {
                                m0[j]
                            },
                    decreases m - t,
                {
                    let v = mem[from + t];
                    mem.set(to + t, v);
                    t = t + 1;
                }
                self.free(src);
                r
            },
        }
    }

}

/// `new` is `old` with `m` bytes copied from offset `from` to offset `to`.
pub open spec fn moved(old: Seq<u8>, new: Seq<u8>, from: int, to: int, m: nat) -> bool {
    &&& new.len() == old.len()
    &&& forall|j: int|
        0 <= j < old.len() ==> new[j] == if to <= j < to + m {
            old[from + j - to]
        } else {
            old[j]
        }
}

impl BuddyAlloc {
    /// What `planned` gives meets `granted`.
    proof fn lemma_granted(&self, size: nat, r: (usize, usize))
        requires
            self.wf(),
            match self.planned(size) {
                Some(b) => r.0 == self.start() + b.0 && r.1 == exp2(b.1),
                None => r.0 == self.start() && r.1 == 0,
            },
        ensures
            granted(self.used(), self.start(), self.lg_size(), size, r),
            r.1 > 0 ==> self.planned(size) == Some((r.0 - self.start(), level_for(size))),
            r.1 == 0 ==> self.planned(size) is None,
    {
        lemma_planned_is_lowest(self, size);
        if self.planned(size) is Some {
            let b = self.planned(size)->Some_0;
            lemma_exp2_pos(b.1);
            assert(r.0 - self.start() == b.0);
        }
    }
}

impl Allocator for BuddyAlloc {
    open spec fn inv(&self) -> bool {
        self.wf()
    }

    open spec fn base_addr(&self) -> int {
        self.start()
    }

    open spec fn lg_region(&self) -> nat {
        self.lg_size()
    }

    open spec fn outstanding(&self) -> Set<Block> {
        self.used()
    }

    fn allocate(&mut self, size: usize) -> (r: (usize, usize)) {
        let ghost s0 = *self;
        let r = BuddyAlloc::allocate(self, size);
        proof {
            s0.lemma_granted(size as nat, r);
        }
        r
    }

    fn zero_alloc(&mut self, size: usize, mem: &mut Vec<u8>) -> (r: (usize, usize)) {
        let ghost s0 = *self;
        let r = BuddyAlloc::zero_alloc(self, size, mem);
        proof {
            s0.lemma_granted(size as nat, r);
        }
        r
    }

    fn realloc(&mut self, ptr: usize, size: usize, mem: &mut Vec<u8>) -> (r: (usize, usize)) {
        let ghost s0 = *self;
        let r = BuddyAlloc::realloc(self, ptr, size, mem);
        proof {
            s0.lemma_granted(size as nat, r);
        }
        r
    }

    fn free(&mut self, ptr: usize) {
        BuddyAlloc::free(self, ptr)
    }
}

} // verus!
