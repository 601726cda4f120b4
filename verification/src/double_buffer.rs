use vstd::prelude::*;

verus! {

/// Which of the two buffers of a [`DoubleBuffer`] is the one being read.
#[derive(Clone, Copy, Debug, PartialEq, Eq, Structural)]
pub enum BufferState {
    Primary,
    Secondary,
}

/// The other buffer.
pub open spec fn flipped(s: BufferState) -> BufferState {
    match s {
        BufferState::Primary => BufferState::Secondary,
        BufferState::Secondary => BufferState::Primary,
    }
}

/// Two values of the same type: one is read (the front), the other is written
/// (the back), and `finish_write` swaps their roles.
pub struct DoubleBuffer<T> {
    cells_primary: T,
    cells_secondary: T,
    active_buffer: BufferState,
}

impl<T> DoubleBuffer<T> {
    /// The buffer that `read` gives.
    pub closed spec fn front(&self) -> T {
        match self.active_buffer {
            BufferState::Primary => self.cells_primary,
            BufferState::Secondary => self.cells_secondary,
        }
    }

    /// The buffer that `write` gives.
    pub closed spec fn back(&self) -> T {
        match self.active_buffer {
            BufferState::Primary => self.cells_secondary,
            BufferState::Secondary => self.cells_primary,
        }
    }

    /// Which buffer is the front.
    pub closed spec fn active(&self) -> BufferState {
        self.active_buffer
    }

    /// This buffer is `before` with front and back swapped.
    pub open spec fn is_swap_of(&self, before: &Self) -> bool {
        &&& self.front() == before.back()
        &&& self.back() == before.front()
        &&& self.active() == flipped(before.active())
    }

    /// The front is the first value, the back the second.
    pub fn new(cells_primary: T, cells_secondary: T) -> (b: DoubleBuffer<T>)
        ensures
            b.front() == cells_primary,
            b.back() == cells_secondary,
            b.active() == BufferState::Primary,
    {
        DoubleBuffer { cells_primary, cells_secondary, active_buffer: BufferState::Primary }
    }

    /// The front buffer.
    pub fn read(&self) -> (r: &T)
        ensures
            *r == self.front(),
    {
        match self.active_buffer {
            BufferState::Primary => &self.cells_primary,
            BufferState::Secondary => &self.cells_secondary,
        }
    }

    /// The front buffer, to change in place.
    pub fn read_mut(&mut self) -> (r: &mut T)
        ensures
            *r == old(self).front(),
            final(self).front() == *final(r),
            final(self).back() == old(self).back(),
            final(self).active() == old(self).active(),
    {
        match self.active_buffer {
            BufferState::Primary => &mut self.cells_primary,
            BufferState::Secondary => &mut self.cells_secondary,
        }
    }

    /// The back buffer, to fill in.
    pub fn write(&mut self) -> (r: &mut T)
        ensures
            *r == old(self).back(),
            final(self).back() == *final(r),
            final(self).front() == old(self).front(),
            final(self).active() == old(self).active(),
    {
        match self.active_buffer {
            BufferState::Primary => &mut self.cells_secondary,
            BufferState::Secondary => &mut self.cells_primary,
        }
    }

    /// Swaps the roles of the two buffers.
    pub fn finish_write(&mut self)
        ensures
            final(self).is_swap_of(old(self)),
    {
        self.active_buffer = match self.active_buffer {
            BufferState::Primary => BufferState::Secondary,
            BufferState::Secondary => BufferState::Primary,
        };
    }
}

/// Swapping twice gives the buffers back: the same front, back and active
/// buffer.
pub proof fn lemma_swap_twice<T>(a: &DoubleBuffer<T>, b: &DoubleBuffer<T>, c: &DoubleBuffer<T>)
    requires
        b.is_swap_of(a),
        c.is_swap_of(b),
    ensures
        c.front() == a.front(),
        c.back() == a.back(),
        c.active() == a.active(),
{
}

/// What was written to the back buffer is what is read once the write is
/// finished, and the old front is then the back.
pub proof fn lemma_write_then_swap<T>(a: &DoubleBuffer<T>, b: &DoubleBuffer<T>, written: T)
    requires
        a.back() == written,
        b.is_swap_of(a),
    ensures
        b.front() == written,
        b.back() == a.front(),
{
}

/// After a run of swaps from a buffer made of `a` (front) and `b` (back),
/// each buffer in the run reads `a` after an even number of swaps and `b`
/// after an odd one, and writes the other.
pub proof fn lemma_swap_parity<T>(bs: Seq<DoubleBuffer<T>>, a: T, b: T)
    requires
        bs.len() >= 1,
        bs[0].front() == a,
        bs[0].back() == b,
        forall|i: int| 0 <= i < bs.len() - 1 ==> #[trigger] bs[i + 1].is_swap_of(&bs[i]),
    ensures
        forall|k: int|
            0 <= k < bs.len() ==> {
                &&& #[trigger] bs[k].front() == if k % 2 == 0 {
                    a
                } else {
                    b
                }
                &&& bs[k].back() == if k % 2 == 0 {
                    b
                } else {
                    a
                }
            },
    decreases bs.len(),
{
    if bs.len() > 1 {
        let prefix = bs.drop_last();
        assert forall|i: int| 0 <= i < prefix.len() - 1 implies #[trigger] prefix[i + 1].is_swap_of(&prefix[i]) by {
            assert(prefix[i] == bs[i]);
            assert(prefix[i + 1] == bs[i + 1]);
        }
        lemma_swap_parity(prefix, a, b);
        let last = bs.len() - 1;
        let before = last - 1;
        assert(bs[before + 1].is_swap_of(&bs[before]));
        assert(prefix[last - 1] == bs[last - 1]);
        assert forall|k: int| 0 <= k < bs.len() implies {
            &&& #[trigger] bs[k].front() == if k % 2 == 0 {
                a
            } else {
                b
            }
            &&& bs[k].back() == if k % 2 == 0 {
                b
            } else {
                a
            }
        } by {
            if k < last {
                assert(prefix[k] == bs[k]);
            }
        }
    }
}

} // verus!
