//! A small bit-set over the digits of a Sudoku group.
use vstd::prelude::*;

verus! {

/// A set of digit indexes `0..9`, one bit each in a `u16`.
#[derive(Clone, Copy, Debug)]
pub struct BitMask(u16);

impl BitMask {
    /// Whether bit `b` is set.
    pub closed spec fn has(self, b: u16) -> bool {
        self.0 & (1u16 << b) != 0
    }

    /// No bit at or above 9 is set.
    pub closed spec fn wf(self) -> bool {
        self.0 < 512
    }

    /// Two well-formed masks with the same digit bits are the same mask.
    pub proof fn lemma_same_bits(a: Self, b: Self)
        requires
            a.wf(),
            b.wf(),
            forall|d: u16| d < 9 ==> #[trigger] a.has(d) == b.has(d),
        ensures
            a == b,
    {
        let x = a.0;
        let y = b.0;
        assert(a.has(0) == b.has(0) && a.has(1) == b.has(1) && a.has(2) == b.has(2));
        assert(a.has(3) == b.has(3) && a.has(4) == b.has(4) && a.has(5) == b.has(5));
        assert(a.has(6) == b.has(6) && a.has(7) == b.has(7) && a.has(8) == b.has(8));
        assert(x == y) by (bit_vector)
            requires
                x < 512,
                y < 512,
                (x & (1u16 << 0u16) != 0) == (y & (1u16 << 0u16) != 0),
                (x & (1u16 << 1u16) != 0) == (y & (1u16 << 1u16) != 0),
                (x & (1u16 << 2u16) != 0) == (y & (1u16 << 2u16) != 0),
                (x & (1u16 << 3u16) != 0) == (y & (1u16 << 3u16) != 0),
                (x & (1u16 << 4u16) != 0) == (y & (1u16 << 4u16) != 0),
                (x & (1u16 << 5u16) != 0) == (y & (1u16 << 5u16) != 0),
                (x & (1u16 << 6u16) != 0) == (y & (1u16 << 6u16) != 0),
                (x & (1u16 << 7u16) != 0) == (y & (1u16 << 7u16) != 0),
                (x & (1u16 << 8u16) != 0) == (y & (1u16 << 8u16) != 0),
        ;
    }

    /// The empty mask.
    pub fn new() -> (r: Self)
        ensures
            r.wf(),
            forall|b: u16| b < 16 ==> !#[trigger] r.has(b),
    {
        assert(forall|b: u16| b < 16 ==> (0u16 & (1u16 << b)) == 0) by (bit_vector);
        BitMask(0)
    }

    /// Sets bit `bit`.
    pub fn set(&mut self, bit: u8)
        requires
            bit < 9,
            old(self).wf(),
        ensures
            final(self).wf(),
            forall|b: u16| b < 16 ==> #[trigger] final(self).has(b) == (b == bit || old(self).has(b)),
    {
        let x = self.0;
        let bb = bit as u16;
        assert(forall|b: u16| b < 16 ==> ((x | (1u16 << bb)) & (1u16 << b) != 0) == (b == bb || x & (1u16 << b) != 0)) by (bit_vector)
            requires bb < 16;
        assert((x | (1u16 << bb)) < 512) by (bit_vector)
            requires x < 512, bb < 9;
        self.0 = x | (1u16 << bb);
    }

    /// Clears bit `bit`.
    pub fn clear(&mut self, bit: u8)
        requires
            bit < 9,
            old(self).wf(),
        ensures
            final(self).wf(),
            forall|b: u16| b < 16 ==> #[trigger] final(self).has(b) == (b != bit && old(self).has(b)),
    {
        let x = self.0;
        let bb = bit as u16;
        assert(forall|b: u16| b < 16 ==> ((x & !(1u16 << bb)) & (1u16 << b) != 0) == (b != bb && x & (1u16 << b) != 0)) by (bit_vector)
            requires bb < 16;
        assert((x & !(1u16 << bb)) < 512) by (bit_vector)
            requires x < 512;
        self.0 = x & !(1u16 << bb);
    }

    /// Whether bit `bit` is set.
    pub fn is_set(&self, bit: u8) -> (r: bool)
        requires
            bit < 9,
        ensures
            r == self.has(bit as u16),
    {
        (self.0 & (1u16 << bit)) != 0
    }
}

} // verus!
