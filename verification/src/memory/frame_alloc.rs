//! The frame allocator: one flag per frame of physical memory.

use vstd::prelude::*;
use crate::memory::addr::PhysFrame;

verus! {

/// The largest number of frames that physical addresses can name.
pub const MAX_FRAMES: u64 = 0x100_0000_0000;

/// How many frames of `used` are free.
pub open spec fn free_frames(used: Seq<bool>) -> nat
    decreases used.len(),
{
    if used.len() == 0 {
        0
    } else {
        free_frames(used.drop_last()) + if used.last() {
            0nat
        } else {
            1nat
        }
    }
}

/// Whether frame `frame` is marked as used in `used`.
pub open spec fn is_used(used: Seq<bool>, frame: int) -> bool {
    0 <= frame < used.len() && used[frame]
}

/// Whether `frame` is the free frame with the lowest address.
pub open spec fn lowest_free(used: Seq<bool>, frame: int) -> bool {
    &&& 0 <= frame < used.len()
    &&& !used[frame]
    &&& forall|i: int| 0 <= i < frame ==> used[i]
}

/// Whether `after` marks as used every frame that `before` does, over the same
/// frames.
pub open spec fn grows(before: Seq<bool>, after: Seq<bool>) -> bool {
    &&& after.len() == before.len()
    &&& forall|frame: int| 0 <= frame < before.len() && before[frame] ==> #[trigger] after[frame]
}

/// Hands out and takes back the frames of physical memory.
pub struct BitmapFrameAllocator {
    used: Vec<bool>,
}

impl View for BitmapFrameAllocator {
    type V = Seq<bool>;

    /// For each frame, whether it is in use.
    closed spec fn view(&self) -> Seq<bool> {
        self.used@
    }
}

impl BitmapFrameAllocator {
    /// The frames are no more than physical addresses can name.
    #[verifier::type_invariant]
    closed spec fn inv(self) -> bool {
        self.used@.len() <= MAX_FRAMES
    }

    /// An allocator over `frames` frames, of which the first `reserved` are
    /// never handed out; `None` for more frames than `MAX_FRAMES`.
    pub fn new(frames: usize, reserved: usize) -> (r: Option<BitmapFrameAllocator>)
        ensures
            r.is_some() <==> frames <= MAX_FRAMES,
            r.is_some() ==> r.unwrap()@.len() == frames && forall|i: int|
                0 <= i < frames ==> r.unwrap()@[i] == (i < reserved),
    {
        if frames as u64 > MAX_FRAMES {
            return None;
        }
        let mut used: Vec<bool> = Vec::new();
        let mut index: usize = 0;
        while index < frames
            invariant
                index <= frames <= MAX_FRAMES,
                used@.len() == index,
                forall|i: int| 0 <= i < index ==> used@[i] == (i < reserved),
            decreases frames - index,
        {
            used.push(index < reserved);
            index += 1;
        }
        Some(BitmapFrameAllocator { used })
    }

    /// How many frames the allocator manages.
    pub fn frame_count(&self) -> (n: usize)
        ensures
            n == self@.len(),
            n <= MAX_FRAMES,
    {
        proof {
            use_type_invariant(self);
        }
        self.used.len()
    }

    /// How many frames are free.
    pub fn free_count(&self) -> (n: usize)
        ensures
            n == free_frames(self@),
    {
        let mut free: usize = 0;
        let mut index: usize = 0;
        while index < self.used.len()
            invariant
                index <= self.used@.len(),
                free == free_frames(self.used@.take(index as int)),
                free <= index,
            decreases self.used@.len() - index,
        {
            assert(self.used@.take(index + 1).drop_last() == self.used@.take(index as int));
            if !self.used[index] {
                free += 1;
            }
            index += 1;
        }
        assert(self.used@.take(index as int) == self.used@);
        free
    }

    /// Whether `frame` is managed by the allocator and marked as used.
    pub fn is_used(&self, frame: PhysFrame) -> (r: bool)
        ensures
            r == is_used(self@, frame.spec_number()),
    {
        let number = frame.number();
        if number < self.used.len() as u64 {
            self.used[number as usize]
        } else {
            false
        }
    }

    /// Hands out the free frame with the lowest address and marks it as used;
    /// `None` when no frame is free.
    pub fn allocate_frame(&mut self) -> (r: Option<PhysFrame>)
        ensures
            r.is_none() <==> free_frames(old(self)@) == 0,
            r.is_none() ==> final(self)@ == old(self)@,
            r.is_some() ==> {
                let n = r.unwrap().spec_number();
                &&& r.unwrap().inv()
                &&& lowest_free(old(self)@, n)
                &&& n <= usize::MAX
                &&& final(self)@ == old(self)@.update(n, true)
                &&& free_frames(final(self)@) == free_frames(old(self)@) - 1
            },
    {
        proof {
            use_type_invariant(&*self);
        }
        let mut index: usize = 0;
        while index < self.used.len()
            invariant
                index <= self.used@.len() <= MAX_FRAMES,
                forall|i: int| 0 <= i < index ==> self.used@[i],
                self.used@ == old(self).used@,
            decreases self.used@.len() - index,
        {
            if !self.used[index] {
                proof {
                    lemma_free_frames_update(self.used@, index as int, true);
                    lemma_free_frames_none(self.used@);
                }
                self.used[index] = true;
                let frame = PhysFrame::from_number(index as u64);
                return frame;
            }
            index += 1;
        }
        proof {
            lemma_free_frames_none(self.used@);
        }
        None
    }

    /// Takes `frame` back: marks it as free. A frame that the allocator does
    /// not manage is left alone.
    pub fn deallocate_frame(&mut self, frame: PhysFrame)
        ensures
            final(self)@ == if 0 <= frame.spec_number() < old(self)@.len() {
                old(self)@.update(frame.spec_number(), false)
            } else {
                old(self)@
            },
    {
        proof {
            use_type_invariant(&*self);
        }
        let number = frame.number();
        if number < self.used.len() as u64 {
            let index = number as usize;
            self.used[index] = false;
        }
    }
}

/// When no frame is free, every frame is used.
pub proof fn lemma_free_frames_none(used: Seq<bool>)
    ensures
        free_frames(used) == 0 <==> forall|i: int| 0 <= i < used.len() ==> used[i],
    decreases used.len(),
{
    if used.len() > 0 {
        let front = used.drop_last();
        lemma_free_frames_none(front);
        if free_frames(used) == 0 {
            assert forall|i: int| 0 <= i < used.len() implies used[i] by {
                if i < front.len() {
                    assert(front[i] == used[i]);
                }
            }
        }
        if forall|i: int| 0 <= i < used.len() ==> used[i] {
            assert forall|i: int| 0 <= i < front.len() implies front[i] by {
                assert(front[i] == used[i]);
            }
            assert(used.last());
        }
    }
}

/// Changing the mark of one frame changes the number of free frames by at most
/// one.
pub proof fn lemma_free_frames_update(used: Seq<bool>, frame: int, mark: bool)
    requires
        0 <= frame < used.len(),
    ensures
        free_frames(used.update(frame, mark)) == free_frames(used) + (if used[frame] {
            1int
        } else {
            0int
        }) - (if mark {
            1int
        } else {
            0int
        }),
    decreases used.len(),
{
    let after = used.update(frame, mark);
    if frame == used.len() - 1 {
        assert(after.drop_last() == used.drop_last());
    } else {
        lemma_free_frames_update(used.drop_last(), frame, mark);
        assert(after.drop_last() == used.drop_last().update(frame, mark));
    }
}

} // verus!
