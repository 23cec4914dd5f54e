//! A packed vector of two-bit node states.
use vstd::prelude::*;

verus! {

/// The state of one node of the block tree.
#[derive(Clone, Copy, PartialEq, Eq, Structural, Debug)]
pub enum Node {
    /// The whole block is free and not split.
    Unused,
    /// The whole block is handed out.
    Used,
    /// The block is halved, and something below it is handed out.
    Split,
    /// The block is halved, and nothing below it is left.
    Full,
}

/// The state that two bits encode.
pub open spec fn node_of(bits: u32) -> Node {
    if bits == 0 {
        Node::Unused
    } else if bits == 1 {
        Node::Used
    } else if bits == 2 {
        Node::Split
    } else {
        Node::Full
    }
}

/// The two bits that encode a state.
pub open spec fn bits_of(x: Node) -> u32 {
    match x {
        Node::Unused => 0,
        Node::Used => 1,
        Node::Split => 2,
        Node::Full => 3,
    }
}

/// The two bits of cell `k` (below 16) of a word.
pub open spec fn cell(w: u32, k: nat) -> u32 {
    (w >> ((2 * k) as u32)) & 3
}

/// A vector of two-bit cells, sixteen to a 32-bit word.
pub struct Bitv {
    storage: Vec<u32>,
}

impl View for Bitv {
    type V = Seq<Node>;

    closed spec fn view(&self) -> Seq<Node> {
        Seq::new(
            (16 * self.storage@.len()) as nat,
            |i: int| node_of(cell(self.storage@[i / 16], (i % 16) as nat)),
        )
    }
}

proof fn lemma_bits_round_trip(x: Node)
    ensures
        bits_of(x) < 4,
        node_of(bits_of(x)) == x,
{
}

proof fn lemma_cell_update(w: u32, x: u32, b: u32, c: u32)
    requires
        x < 4,
        b < 32,
        c < 32,
        b % 2 == 0,
        c % 2 == 0,
    ensures
        ((((w & !(3u32 << b)) | (x << b)) >> c) & 3) == if b == c {
            x
        } else {
            (w >> c) & 3
        },
{
    assert(((((w & !(3u32 << b)) | (x << b)) >> c) & 3) == if b == c {
        x
    } else {
        (w >> c) & 3
    }) by (bit_vector)
        requires
            x < 4,
            b < 32,
            c < 32,
            b % 2 == 0,
            c % 2 == 0,
    ;
}

proof fn lemma_zero_cell(k: nat)
    requires
        k < 16,
    ensures
        cell(0u32, k) == 0,
{
    let c = (2 * k) as u32;
    assert((0u32 >> c) & 3 == 0) by (bit_vector);
}

impl Bitv {
    /// A vector of `words` zeroed words, that is `16 * words` cells, each
    /// `Unused`.
    pub fn new(words: usize) -> (r: Bitv)
        ensures
            r@.len() == 16 * words,
            forall|i: int| 0 <= i < r@.len() ==> r@[i] == Node::Unused,
    {
        let mut storage: Vec<u32> = Vec::new();
        let mut n: usize = 0;
        while n < words
            invariant
                n <= words,
                storage@.len() == n,
                forall|j: int| 0 <= j < n ==> storage@[j] == 0,
            decreases words - n,
        {
            storage.push(0);
            n = n + 1;
        }
        let r = Bitv { storage };
        assert forall|i: int| 0 <= i < r@.len() implies r@[i] == Node::Unused by {
            lemma_zero_cell((i % 16) as nat);
        }
        r
    }

    /// The state of cell `i`.
    pub fn get(&self, i: usize) -> (r: Node)
        requires
            i < self@.len(),
        ensures
            r == self@[i as int],
    {
        let w = i / 16;
        let b = ((i % 16) * 2) as u32;
        let bits = (self.storage[w] >> b) & 3;
        if bits == 0 {
            Node::Unused
        } else if bits == 1 {
            Node::Used
        } else if bits == 2 {
            Node::Split
        } else {
            Node::Full
        }
    }

    /// Overwrites cell `i` with `x`.
    pub fn set(&mut self, i: usize, x: Node)
        requires
            i < old(self)@.len(),
        ensures
            final(self)@ == old(self)@.update(i as int, x),
    {
        let w = i / 16;
        let b = ((i % 16) * 2) as u32;
        let v: u32 = match x {
            Node::Unused => 0,
            Node::Used => 1,
            Node::Split => 2,
            Node::Full => 3,
        };
        let old_word = self.storage[w];
        let new_word = (old_word & !(3u32 << b)) | (v << b);
        self.storage.set(w, new_word);
        proof {
            lemma_bits_round_trip(x);
            assert forall|j: int| 0 <= j < self@.len() implies self@[j] == old(self)@.update(
                i as int,
                x,
            )[j] by {
                let c = ((j % 16) * 2) as u32;
                if j / 16 == w as int {
                    lemma_cell_update(old_word, v, b, c);
                    if j != i as int {
                        assert(b != c);
                    }
                }
            }
            assert(self@ =~= old(self)@.update(i as int, x));
        }
    }

    /// Sets every cell to `Unused`.
    pub fn clear(&mut self)
        ensures
            final(self)@.len() == old(self)@.len(),
            forall|i: int| 0 <= i < final(self)@.len() ==> final(self)@[i] == Node::Unused,
    {
        let n = self.storage.len();
        let mut k: usize = 0;
        while k < n
            invariant
                k <= n,
                self.storage@.len() == n,
                n == old(self).storage@.len(),
                forall|j: int| 0 <= j < k ==> self.storage@[j] == 0,
            decreases n - k,
        {
            self.storage.set(k, 0);
            k = k + 1;
        }
        assert forall|i: int| 0 <= i < self@.len() implies self@[i] == Node::Unused by {
            lemma_zero_cell((i % 16) as nat);
        }
    }
}

} // verus!
