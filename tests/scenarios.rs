use buddy_alloc::{Allocator, Bitv, BuddyAlloc, Node};

fn fresh(base: usize, order: usize) -> BuddyAlloc {
    let cells = 2 * (1usize << order) - 1;
    BuddyAlloc::new(base, order, Bitv::new((cells + 15) / 16))
}

#[test]
fn split_to_smallest() {
    let mut a = fresh(0, 4);
    assert_eq!(a.allocate(1), (0, 1));
    assert_eq!(a.allocate(1), (1, 1));
    assert_eq!(a.allocate(1), (2, 1));
}

#[test]
fn buddy_coalesce() {
    let mut a = fresh(0, 4);
    assert_eq!(a.allocate(1), (0, 1));
    assert_eq!(a.allocate(1), (1, 1));
    assert_eq!(a.allocate(1), (2, 1));
    a.free(0);
    a.free(1);
    assert_eq!(a.allocate(2), (0, 2));
}

#[test]
fn oom_at_saturation() {
    let mut a = fresh(0, 4);
    assert_eq!(a.allocate(16), (0, 16));
    assert_eq!(a.allocate(1), (0, 0));
}

#[test]
fn exact_fit() {
    let mut a = fresh(0, 4);
    assert_eq!(a.allocate(8), (0, 8));
    assert_eq!(a.allocate(8), (8, 8));
    assert_eq!(a.allocate(1), (0, 0));
}

#[test]
fn round_up() {
    let mut a = fresh(0, 4);
    assert_eq!(a.allocate(3), (0, 4));
    assert_eq!(a.allocate(5), (8, 8));
    assert_eq!(a.allocate(4), (4, 4));
}

#[test]
fn out_of_region_free() {
    let mut a = fresh(0, 4);
    assert_eq!(a.allocate(8), (0, 8));
    assert_eq!(a.allocate(8), (8, 8));
    a.free(100);
    assert_eq!(a.allocate(1), (0, 0));
    assert_eq!(a.block_at(0), Some((0, 8)));
    assert_eq!(a.block_at(8), Some((8, 8)));
}

#[test]
fn zero_size_gets_one_byte() {
    let mut a = fresh(0, 4);
    assert_eq!(a.allocate(0), (0, 1));
    assert_eq!(a.allocate(0), (1, 1));
}

#[test]
fn larger_than_region_is_oom() {
    let mut a = fresh(0, 4);
    assert_eq!(a.allocate(17), (0, 0));
    assert_eq!(a.allocate(usize::MAX), (0, 0));
    assert_eq!(a.allocate(16), (0, 16));
}

#[test]
fn granted_sizes_are_least_powers_of_two() {
    let cases: [(usize, usize); 9] =
        [(1, 1), (2, 2), (3, 4), (4, 4), (5, 8), (7, 8), (8, 8), (9, 16), (16, 16)];
    for (want, granted) in cases {
        let mut a = fresh(0, 4);
        assert_eq!(a.allocate(want), (0, granted));
    }
}

#[test]
fn pointers_in_range_aligned_and_disjoint() {
    let base = 0x1000;
    let mut a = fresh(base, 6);
    let sizes = [5usize, 1, 17, 2, 8, 3, 1, 4, 9, 1];
    let mut got: Vec<(usize, usize)> = Vec::new();
    for s in sizes {
        let (p, g) = a.allocate(s);
        if g > 0 {
            assert!(base <= p && p + g <= base + 64);
            assert_eq!((p - base) % g, 0);
            got.push((p, g));
        }
    }
    for i in 0..got.len() {
        for j in i + 1..got.len() {
            let (p, g) = got[i];
            let (q, h) = got[j];
            assert!(p + g <= q || q + h <= p);
        }
    }
}

#[test]
fn full_cycle_reclaims_region() {
    let base = 0x40;
    let mut a = fresh(base, 5);
    let mut got: Vec<usize> = Vec::new();
    for s in [1usize, 3, 2, 8, 1, 4, 1] {
        let (p, g) = a.allocate(s);
        assert!(g > 0);
        got.push(p);
    }
    for p in got {
        a.free(p);
    }
    assert_eq!(a.allocate(32), (base, 32));
}

#[test]
fn double_free_is_single_free() {
    let mut a = fresh(0, 4);
    assert_eq!(a.allocate(4), (0, 4));
    assert_eq!(a.allocate(4), (4, 4));
    a.free(4);
    a.free(4);
    assert_eq!(a.block_at(0), Some((0, 4)));
    assert_eq!(a.block_at(4), None);
    assert_eq!(a.allocate(4), (4, 4));
    assert_eq!(a.allocate(8), (8, 8));
    assert_eq!(a.allocate(1), (0, 0));
}

#[test]
fn free_below_base_is_ignored() {
    let mut a = fresh(0x100, 4);
    assert_eq!(a.allocate(16), (0x100, 16));
    a.free(0xff);
    a.free(0x110);
    assert_eq!(a.block_at(0x100), Some((0x100, 16)));
    assert_eq!(a.allocate(1), (0x100, 0));
}

#[test]
fn free_inside_block_frees_block() {
    let mut a = fresh(0, 4);
    assert_eq!(a.allocate(8), (0, 8));
    a.free(5);
    assert_eq!(a.block_at(5), None);
    assert_eq!(a.allocate(16), (0, 16));
}

#[test]
fn free_after_merge_keeps_neighbours() {
    let mut a = fresh(0, 4);
    assert_eq!(a.allocate(2), (0, 2));
    assert_eq!(a.allocate(2), (2, 2));
    assert_eq!(a.allocate(4), (4, 4));
    a.free(2);
    a.free(0);
    assert_eq!(a.allocate(4), (0, 4));
    assert_eq!(a.allocate(8), (8, 8));
    assert_eq!(a.allocate(1), (0, 0));
}

#[test]
fn zero_alloc_clears_block_only() {
    let mut a = fresh(0, 4);
    let mut mem: Vec<u8> = vec![7; 16];
    assert_eq!(a.zero_alloc(2, &mut mem), (0, 2));
    assert_eq!(a.zero_alloc(3, &mut mem), (4, 4));
    assert_eq!(mem, vec![0, 0, 7, 7, 0, 0, 0, 0, 7, 7, 7, 7, 7, 7, 7, 7]);
}

#[test]
fn zero_alloc_oom_leaves_memory() {
    let mut a = fresh(0, 4);
    let mut mem: Vec<u8> = vec![9; 16];
    assert_eq!(a.allocate(16), (0, 16));
    assert_eq!(a.zero_alloc(1, &mut mem), (0, 0));
    assert_eq!(mem, vec![9; 16]);
}

#[test]
fn realloc_grows_and_copies() {
    let mut a = fresh(0, 4);
    let mut mem: Vec<u8> = (0u8..16).collect();
    assert_eq!(a.allocate(2), (0, 2));
    assert_eq!(a.realloc(0, 4, &mut mem), (4, 4));
    assert_eq!(&mem[4..8], &[0, 1, 6, 7]);
    assert_eq!(a.block_at(0), None);
    assert_eq!(a.block_at(4), Some((4, 4)));
}

#[test]
fn realloc_shrinks_and_copies() {
    let mut a = fresh(0, 4);
    let mut mem: Vec<u8> = (0u8..16).collect();
    assert_eq!(a.allocate(4), (0, 4));
    assert_eq!(a.allocate(8), (8, 8));
    assert_eq!(a.realloc(8, 2, &mut mem), (4, 2));
    assert_eq!(&mem[4..6], &[8, 9]);
    assert_eq!(a.block_at(8), None);
    assert_eq!(a.allocate(8), (8, 8));
}

#[test]
fn realloc_oom_keeps_old_block() {
    let mut a = fresh(0, 4);
    let mut mem: Vec<u8> = vec![1; 16];
    assert_eq!(a.allocate(8), (0, 8));
    assert_eq!(a.realloc(0, 16, &mut mem), (0, 0));
    assert_eq!(a.block_at(3), Some((0, 8)));
    assert_eq!(mem, vec![1; 16]);
}

#[test]
fn realloc_of_unknown_pointer_allocates() {
    let mut a = fresh(0, 4);
    let mut mem: Vec<u8> = vec![3; 16];
    assert_eq!(a.realloc(200, 3, &mut mem), (0, 4));
    assert_eq!(mem, vec![3; 16]);
    assert_eq!(a.block_at(0), Some((0, 4)));
}

#[test]
fn generic_client_of_allocator() {
    fn use_it<A: Allocator>(x: &mut A) -> (usize, usize) {
        let r = Allocator::allocate(x, 5);
        Allocator::free(x, r.0);
        Allocator::allocate(x, 16)
    }
    let mut a = fresh(0, 4);
    assert_eq!(use_it(&mut a), (0, 16));
}

#[test]
fn bitv_cells_are_independent() {
    let mut v = Bitv::new(2);
    v.set(0, Node::Full);
    v.set(1, Node::Used);
    v.set(15, Node::Split);
    v.set(16, Node::Full);
    v.set(31, Node::Used);
    assert_eq!(v.get(0), Node::Full);
    assert_eq!(v.get(1), Node::Used);
    assert_eq!(v.get(2), Node::Unused);
    assert_eq!(v.get(15), Node::Split);
    assert_eq!(v.get(16), Node::Full);
    assert_eq!(v.get(31), Node::Used);
    v.set(0, Node::Unused);
    assert_eq!(v.get(0), Node::Unused);
    assert_eq!(v.get(1), Node::Used);
    v.clear();
    assert_eq!(v.get(31), Node::Unused);
}

#[test]
fn new_clears_storage() {
    let mut v = Bitv::new(2);
    for i in 0..32 {
        v.set(i, Node::Full);
    }
    let mut a = BuddyAlloc::new(0, 4, v);
    assert_eq!(a.allocate(16), (0, 16));
    assert_eq!(a.base(), 0);
    assert_eq!(a.order(), 4);
}

#[test]
fn generic_client_moves_and_clears() {
    fn run<A: Allocator>(x: &mut A, mem: &mut Vec<u8>) -> ((usize, usize), (usize, usize)) {
        let z = Allocator::zero_alloc(x, 3, mem);
        let m = Allocator::realloc(x, z.0, 8, mem);
        (z, m)
    }
    let mut a = fresh(0, 4);
    let mut mem: Vec<u8> = (1u8..17).collect();
    let (z, m) = run(&mut a, &mut mem);
    assert_eq!(z, (0, 4));
    assert_eq!(m, (8, 8));
    assert_eq!(&mem[0..4], &[0, 0, 0, 0]);
    assert_eq!(&mem[8..16], &[0, 0, 0, 0, 13, 14, 15, 16]);
    assert_eq!(a.block_at(0), None);
}
