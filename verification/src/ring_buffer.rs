use vstd::prelude::*;

verus! {

/// A fixed number of slots written round-robin; the newest value sits at the current position.
#[derive(Debug)]
pub struct RingBuffer<T> {
    buffer: Vec<Option<T>>,
    current_pos: usize,
}

impl<T> Default for RingBuffer<T> {
    fn default() -> (r: Self)
        ensures
            r.slots().len() == 0,
            r.pos() == 0,
    {
        Self::new(0)
    }
}

/// `a` reduced into `0..m`, for `m > 0`.
pub open spec fn wrap(a: int, m: int) -> int {
    a % m
}

impl<T> RingBuffer<T> {
    #[verifier::type_invariant]
    closed spec fn inv(self) -> bool {
        self.buffer@.len() > 0 ==> self.current_pos < self.buffer@.len()
    }

    /// The slots; `None` where nothing has been written yet.
    pub closed spec fn slots(&self) -> Seq<Option<T>> {
        self.buffer@
    }

    /// The slot that the most recent push wrote.
    pub closed spec fn pos(&self) -> int {
        self.current_pos as int
    }

    pub open spec fn spec_pos_wrapping(&self, offset: int) -> int {
        wrap(self.pos() + offset, self.slots().len() as int)
    }

    /// The value `offset` slots away from the current position.
    pub open spec fn spec_get(&self, offset: int) -> T {
        self.slots()[self.spec_pos_wrapping(offset)]->0
    }

    pub open spec fn valid_offset(&self, offset: int) -> bool {
        &&& 0 < self.slots().len() <= i32::MAX
        &&& -(self.slots().len() as int) <= offset <= self.slots().len()
        &&& self.pos() + offset <= i32::MAX
    }

    pub fn new(size: usize) -> (r: Self)
        ensures
            r.slots().len() == size,
            forall|i: int| 0 <= i < size ==> #[trigger] r.slots()[i] is None,
            r.pos() == 0,
    {
        let mut buffer: Vec<Option<T>> = Vec::with_capacity(size);
        let mut i: usize = 0;
        while i < size
            invariant
                i <= size,
                buffer@.len() == i,
                forall|k: int| 0 <= k < i ==> #[trigger] buffer@[k] is None,
            decreases size - i,
        {
            buffer.push(None);
            i += 1;
        }
        RingBuffer { buffer, current_pos: 0 }
    }

    /// Advances the current position by one, wrapping to the start after the last slot.
    pub fn incr_current_pos(&mut self)
        requires
            old(self).slots().len() > 0 || old(self).pos() < usize::MAX,
        ensures
            final(self).slots() == old(self).slots(),
            final(self).pos() == if old(self).pos() + 1 == old(self).slots().len() {
                0
            } else {
                old(self).pos() + 1
            },
    {
        proof { use_type_invariant(&*self); }
        let len = self.buffer.len();
        let mut next = self.current_pos + 1;
        if next == len {
            next = 0;
        }
        self.current_pos = next;
    }

    /// Writes `x` into the slot after the current one and makes that slot current.
    pub fn push(&mut self, x: T)
        requires
            old(self).slots().len() > 0,
        ensures
            final(self).slots().len() == old(self).slots().len(),
            final(self).pos() == wrap(old(self).pos() + 1, old(self).slots().len() as int),
            final(self).slots() == old(self).slots().update(final(self).pos(), Some(x)),
    {
        proof { use_type_invariant(&*self); }
        self.incr_current_pos();
        proof {
            let m = old(self).slots().len() as int;
            let a = old(self).pos() + 1;
            if a == m {
                assert(0 == a % m) by (nonlinear_arith)
                    requires a == m, m > 0;
            } else {
                assert(a == a % m) by (nonlinear_arith)
                    requires 0 <= a < m, m > 0;
            }
        }
        let pos = self.current_pos;
        let mut buffer: Vec<Option<T>> = Vec::new();
        std::mem::swap(&mut buffer, &mut self.buffer);
        buffer.set(pos, Some(x));
        self.buffer = buffer;
    }

    pub fn get(&self, offset: i32) -> (r: &T)
        requires
            self.valid_offset(offset as int),
            self.slots()[self.spec_pos_wrapping(offset as int)] is Some,
        ensures
            *r == self.spec_get(offset as int),
    {
        let pos = self.pos_wrapping(offset);
        match &self.buffer[pos] {
            Some(x) => x,
            None => vstd::pervasive::unreached(),
        }
    }

    pub fn size(&self) -> (r: usize)
        ensures
            r == self.slots().len(),
    {
        self.buffer.len()
    }

    /// The slot `offset` steps from the current one, for offsets of at most one lap.
    pub fn pos_wrapping(&self, offset: i32) -> (r: usize)
        requires
            self.valid_offset(offset as int),
        ensures
            r == self.spec_pos_wrapping(offset as int),
            r < self.slots().len(),
    {
        proof { use_type_invariant(self); }
        let size = self.buffer.len() as i32;
        let mut pos = self.current_pos as i32 + offset;
        if pos < 0 {
            pos += size;
        } else if pos >= size {
            pos -= size;
        }
        proof {
            let m = size as int;
            let a = self.current_pos + offset;
            if a < 0 {
                assert(a + m == a % m) by (nonlinear_arith)
                    requires -m <= a < 0, m > 0;
            } else if a >= m {
                assert(a - m == a % m) by (nonlinear_arith)
                    requires m <= a < 2 * m, m > 0;
            } else {
                assert(a == a % m) by (nonlinear_arith)
                    requires 0 <= a < m, m > 0;
            }
        }
        pos as usize
    }
}

impl<T: Clone> RingBuffer<T> {
    /// A buffer of `size` slots, each holding a clone of `value`.
    pub fn new_with_value(size: usize, value: T) -> (r: Self)
        ensures
            r.slots().len() == size,
            forall|i: int| 0 <= i < size ==> (#[trigger] r.slots()[i] matches Some(v) && cloned::<T>(value, v)),
            r.pos() == 0,
    {
        let mut buffer: Vec<Option<T>> = Vec::new();
        let mut i: usize = 0;
        while i < size
            invariant
                i <= size,
                buffer@.len() == i,
                forall|k: int| 0 <= k < i ==> (#[trigger] buffer@[k] matches Some(v) && cloned::<T>(value, v)),
            decreases size - i,
        {
            buffer.push(Some(value.clone()));
            i += 1;
        }
        RingBuffer { buffer, current_pos: 0 }
    }
}


/// After a push of `x` the value at offset 0 is `x`, and what was at offset `-(k - 1)` is now at
/// offset `-k`, for every `k` short of the size: the buffer keeps the latest values, newest at
/// offset 0.
pub proof fn law_push_then_get<T>(before: RingBuffer<T>, after: RingBuffer<T>, x: T, k: int)
    requires
        before.slots().len() > 0,
        after.slots().len() == before.slots().len(),
        after.pos() == wrap(before.pos() + 1, before.slots().len() as int),
        after.slots() == before.slots().update(after.pos(), Some(x)),
        0 <= before.pos() < before.slots().len(),
        0 < k < before.slots().len(),
    ensures
        after.spec_get(0) == x,
        after.spec_get(-k) == before.spec_get(-(k - 1)),
{
    let m = before.slots().len() as int;
    let p = before.pos();
    let q = after.pos();
    assert(0 <= q < m) by (nonlinear_arith)
        requires
            q == wrap(p + 1, m),
            m > 0,
    {
        assert(q == (p + 1) % m);
    }
    assert(wrap(q + 0, m) == q) by (nonlinear_arith)
        requires
            0 <= q < m,
    {
        assert(wrap(q + 0, m) == q % m);
    }
    assert(wrap(q - k, m) == wrap(p - (k - 1), m) && wrap(q - k, m) != q) by (nonlinear_arith)
        requires
            q == wrap(p + 1, m),
            0 <= p < m,
            0 < k < m,
            m > 0,
    {
        assert(q == (p + 1) % m);
        assert(wrap(q - k, m) == (q - k) % m);
        assert(wrap(p - (k - 1), m) == (p - (k - 1)) % m);
    }
}


/// Where the current position stands after `k` calls of `incr_current_pos` from `p`, on a
/// buffer of `size` slots, as that function's contract describes one call.
pub open spec fn pos_after_incrs(p: int, size: int, k: nat) -> int
    decreases k,
{
    if k == 0 {
        p
    } else {
        let q = pos_after_incrs(p, size, (k - 1) as nat);
        if q + 1 == size {
            0
        } else {
            q + 1
        }
    }
}

/// Advancing the position `k` times moves it `k` slots on, wrapping around; after as many
/// advances as there are slots it is back where it started.
pub proof fn law_incr_cycles(p: int, size: int, k: nat)
    requires
        0 <= p < size,
    ensures
        pos_after_incrs(p, size, k) == wrap(p + k, size),
        pos_after_incrs(p, size, size as nat) == p,
{
    lemma_incr_full(p, size, k);
    lemma_incr_full(p, size, size as nat);
    assert(wrap(p + size, size) == p) by (nonlinear_arith)
        requires
            0 <= p < size,
    {
        assert(wrap(p + size, size) == (p + size) % size);
    }
}

proof fn lemma_incr_full(p: int, size: int, k: nat)
    requires
        0 <= p < size,
    ensures
        pos_after_incrs(p, size, k) == wrap(p + k, size),
    decreases k,
{
    if k > 0 {
        lemma_incr_full(p, size, (k - 1) as nat);
        let a = p + k - 1;
        let r = wrap(a, size);
        assert(wrap(a + 1, size) == if r + 1 == size { 0 } else { r + 1 }) by (nonlinear_arith)
            requires
                r == wrap(a, size),
                a >= 0,
                size > 0,
        {
            assert(r == a % size);
            assert(wrap(a + 1, size) == (a + 1) % size);
        }
    } else {
        assert(wrap(p, size) == p) by (nonlinear_arith)
            requires
                0 <= p < size,
        {
            assert(wrap(p, size) == p % size);
        }
    }
}

} // verus!
