use vstd::prelude::*;

verus! {

/// Whether bit `i` of `x` is set.
pub open spec fn bit_of(x: u64, i: u64) -> bool {
    (x >> i) & 1u64 == 1u64
}

/// A row of 64 flags packed into one word.
#[derive(Debug, Copy, Clone, PartialEq, Eq, Structural)]
pub struct BitMap {
    pub inner: u64,
}

impl Default for BitMap {
    fn default() -> (r: Self)
        ensures
            r.inner == 0,
            forall|i: int| 0 <= i < 64 ==> !#[trigger] r.spec_get(i),
    {
        assert(forall|j: u64| j < 64 ==> !bit_of(0u64, j)) by (bit_vector);
        let r = BitMap { inner: 0 };
        assert forall|i: int| 0 <= i < 64 implies !#[trigger] r.spec_get(i) by {
            assert(!bit_of(0u64, i as u64));
        }
        r
    }
}

impl BitMap {
    /// The flag at index `i`, for `0 <= i < 64`.
    pub open spec fn spec_get(self, i: int) -> bool {
        bit_of(self.inner, i as u64)
    }

    fn get_mask(i: u64) -> (r: u64)
        requires
            i < 64,
        ensures
            r == 1u64 << i,
    {
        0x01 << i
    }

    pub fn get(self, i: i32) -> (r: bool)
        requires
            0 <= i < 64,
        ensures
            r == self.spec_get(i as int),
    {
        let mask = Self::get_mask(i as u64);
        let x = self.inner;
        let j = i as u64;
        assert((x & (1u64 << j) != 0) == bit_of(x, j)) by (bit_vector)
            requires
                j < 64,
        ;
        self.inner & mask != 0
    }

    pub fn set(&mut self, i: i32, value: bool)
        requires
            0 <= i < 64,
        ensures
            final(self).spec_get(i as int) == value,
            forall|j: int| 0 <= j < 64 && j != i ==> final(self).spec_get(j) == old(self).spec_get(j),
    {
        if value {
            self.set_bit(i);
        } else {
            self.unset_bit(i);
        }
    }

    pub fn set_bit(&mut self, i: i32)
        requires
            0 <= i < 64,
        ensures
            final(self).spec_get(i as int),
            forall|j: int| 0 <= j < 64 && j != i ==> final(self).spec_get(j) == old(self).spec_get(j),
            final(self).inner == old(self).inner | (1u64 << (i as u64)),
    {
        let mask = Self::get_mask(i as u64);
        let x = self.inner;
        let k = i as u64;
        assert(bit_of(x | (1u64 << k), k)) by (bit_vector)
            requires
                k < 64,
        ;
        assert(forall|j: u64| j < 64 && j != k ==> bit_of(x | (1u64 << k), j) == bit_of(x, j))
            by (bit_vector)
            requires
                k < 64,
        ;
        self.inner = self.inner | mask;
    }

    pub fn unset_bit(&mut self, i: i32)
        requires
            0 <= i < 64,
        ensures
            !final(self).spec_get(i as int),
            forall|j: int| 0 <= j < 64 && j != i ==> final(self).spec_get(j) == old(self).spec_get(j),
            final(self).inner == old(self).inner & (old(self).inner ^ (1u64 << (i as u64))),
    {
        let mask = Self::get_mask(i as u64);
        let x = self.inner;
        let k = i as u64;
        assert(!bit_of(x & (x ^ (1u64 << k)), k)) by (bit_vector)
            requires
                k < 64,
        ;
        assert(forall|j: u64| j < 64 && j != k ==> bit_of(x & (x ^ (1u64 << k)), j) == bit_of(x, j))
            by (bit_vector)
            requires
                k < 64,
        ;
        self.inner = self.inner & (self.inner ^ mask);
    }
}

} // verus!
