//! The window of physical memory: an arena of 4 KiB frames, each of 512 words,
//! through which every table and every data page is reached.

use vstd::prelude::*;
use crate::memory::entry::PageTableEntry;

verus! {

/// Number of 64-bit words in one frame.
pub const WORDS_PER_FRAME: usize = 512;

/// How many whole frames the memory `mem` holds.
pub open spec fn frame_count(mem: Seq<u64>) -> int {
    mem.len() as int / 512
}

/// The word that frame `frame` holds at position `index`.
pub open spec fn entry_at(mem: Seq<u64>, frame: int, index: int) -> u64 {
    mem[frame * 512 + index]
}

/// Whether the byte at physical address `addr` lies in the memory `mem`.
pub open spec fn in_window(mem: Seq<u64>, addr: int) -> bool {
    0 <= addr && addr / 8 < mem.len()
}

/// The eight bits of `word` that start at bit `shift`.
pub open spec fn lane(word: u64, shift: u64) -> u64 {
    (word >> shift) & 0xff
}

/// `word` with the eight bits that start at bit `shift` replaced by `byte`.
pub open spec fn with_lane(word: u64, shift: u64, byte: u8) -> u64 {
    (word & !(0xffu64 << shift)) | ((byte as u64) << shift)
}

/// The byte at physical address `addr`; bytes lie in their word lowest first.
pub open spec fn byte_at(mem: Seq<u64>, addr: int) -> u8 {
    lane(mem[addr / 8], (8 * (addr % 8)) as u64) as u8
}

/// The memory `mem` with the byte at physical address `addr` replaced.
pub open spec fn store_byte(mem: Seq<u64>, addr: int, byte: u8) -> Seq<u64> {
    mem.update(addr / 8, with_lane(mem[addr / 8], (8 * (addr % 8)) as u64, byte))
}

/// Whether two memories of one size hold the same words in frame `frame`.
pub open spec fn same_frame(a: Seq<u64>, b: Seq<u64>, frame: int) -> bool {
    forall|index: int| 0 <= index < 512 ==> #[trigger] entry_at(a, frame, index) == entry_at(b, frame, index)
}

/// Physical memory as the kernel sees it through its fixed offset.
pub struct PhysMemory {
    words: Vec<u64>,
}

impl View for PhysMemory {
    type V = Seq<u64>;

    /// The words of the memory, frame by frame.
    closed spec fn view(&self) -> Seq<u64> {
        self.words@
    }
}

impl PhysMemory {
    /// A memory of `frames` frames, all bytes zero; `None` where that many
    /// words cannot be counted.
    pub fn new(frames: usize) -> (r: Option<PhysMemory>)
        ensures
            r.is_some() <==> frames * 512 <= usize::MAX,
            r.is_some() ==> r.unwrap()@.len() == frames * 512 && frame_count(r.unwrap()@) == frames
                && forall|i: int| 0 <= i < frames * 512 ==> r.unwrap()@[i] == 0,
    {
        if frames > usize::MAX / WORDS_PER_FRAME {
            return None;
        }
        let words: Vec<u64> = vec![0u64; frames * WORDS_PER_FRAME];
        Some(PhysMemory { words })
    }

    /// How many whole frames the memory holds.
    pub fn frame_count(&self) -> (n: usize)
        ensures
            n == frame_count(self@),
    {
        self.words.len() / WORDS_PER_FRAME
    }

    /// How many words the memory holds.
    pub fn word_count(&self) -> (n: usize)
        ensures
            n == self@.len(),
    {
        self.words.len()
    }

    /// The entry that frame `frame` holds at position `index`.
    pub fn read_entry(&self, frame: usize, index: usize) -> (e: PageTableEntry)
        requires
            frame < frame_count(self@),
            index < 512,
        ensures
            e@ == entry_at(self@, frame as int, index as int),
    {
        let words = self.words.len();
        proof {
            lemma_frame_words(self@, frame as int);
            assert(frame * 512 + 512 <= words);
        }
        PageTableEntry::from_bits(self.words[frame * WORDS_PER_FRAME + index])
    }

    /// Stores `entry` in frame `frame` at position `index`.
    pub fn write_entry(&mut self, frame: usize, index: usize, entry: PageTableEntry)
        requires
            frame < frame_count(old(self)@),
            index < 512,
        ensures
            final(self)@ == old(self)@.update(frame * 512 + index, entry@),
    {
        let words = self.words.len();
        proof {
            lemma_frame_words(self@, frame as int);
            assert(frame * 512 + 512 <= words);
        }
        self.words[frame * WORDS_PER_FRAME + index] = entry.bits();
    }

    /// Clears every word of frame `frame`.
    pub fn zero_frame(&mut self, frame: usize)
        requires
            frame < frame_count(old(self)@),
        ensures
            final(self)@.len() == old(self)@.len(),
            forall|index: int| 0 <= index < 512 ==> #[trigger] entry_at(final(self)@, frame as int, index) == 0,
            forall|i: int|
                0 <= i < old(self)@.len() && !(frame * 512 <= i < frame * 512 + 512)
                    ==> final(self)@[i] == old(self)@[i],
    {
        let words = self.words.len();
        proof {
            lemma_frame_words(self@, frame as int);
            assert(frame * 512 + 512 <= words);
        }
        let base = frame * WORDS_PER_FRAME;
        let mut index: usize = 0;
        while index < WORDS_PER_FRAME
            invariant
                index <= 512,
                base == frame * 512,
                base + 512 <= self@.len(),
                self@.len() == old(self)@.len(),
                forall|j: int| 0 <= j < index ==> #[trigger] entry_at(self@, frame as int, j) == 0,
                forall|i: int|
                    0 <= i < self@.len() && !(base <= i < base + 512) ==> self@[i] == old(self)@[i],
            decreases 512 - index,
        {
            let ghost before = self@;
            self.words[base + index] = 0;
            assert forall|j: int| 0 <= j < index + 1 implies #[trigger] entry_at(
                self@,
                frame as int,
                j,
            ) == 0 by {
                if j < index {
                    assert(entry_at(before, frame as int, j) == 0);
                }
            }
            index += 1;
        }
    }

    /// The byte at physical address `addr`, `None` outside the memory.
    pub fn read_byte(&self, addr: u64) -> (r: Option<u8>)
        ensures
            r.is_some() <==> in_window(self@, addr as int),
            r.is_some() ==> r.unwrap() == byte_at(self@, addr as int),
    {
        let word_index = addr / 8;
        if word_index >= self.words.len() as u64 {
            return None;
        }
        let word = self.words[word_index as usize];
        let shift = 8 * (addr % 8);
        proof {
            lemma_lane(word, shift, 0);
        }
        Some(((word >> shift) & 0xff) as u8)
    }

    /// Stores `byte` at physical address `addr`; `false`, and nothing stored,
    /// outside the memory.
    pub fn write_byte(&mut self, addr: u64, byte: u8) -> (ok: bool)
        ensures
            ok == in_window(old(self)@, addr as int),
            ok ==> final(self)@ == store_byte(old(self)@, addr as int, byte),
            !ok ==> final(self)@ == old(self)@,
    {
        let word_index = addr / 8;
        if word_index >= self.words.len() as u64 {
            return false;
        }
        let word = self.words[word_index as usize];
        let shift = 8 * (addr % 8);
        self.words[word_index as usize] = (word & !(0xffu64 << shift)) | ((byte as u64) << shift);
        true
    }
}

/// A frame inside the memory has all its 512 words inside it.
pub proof fn lemma_frame_words(mem: Seq<u64>, frame: int)
    requires
        0 <= frame < frame_count(mem),
    ensures
        frame * 512 + 512 <= mem.len(),
{
}

/// A lane is a byte, and replacing one lane shows in that lane and in no other.
pub proof fn lemma_lane(word: u64, shift: u64, byte: u8)
    requires
        shift == 0 || shift == 8 || shift == 16 || shift == 24 || shift == 32 || shift == 40
            || shift == 48 || shift == 56,
    ensures
        lane(word, shift) < 256,
        lane(with_lane(word, shift, byte), shift) == byte,
        forall|other: u64|
            (other == 0 || other == 8 || other == 16 || other == 24 || other == 32 || other == 40
                || other == 48 || other == 56) && other != shift ==> #[trigger] lane(
                with_lane(word, shift, byte),
                other,
            ) == lane(word, other),
{
    assert((shift == 0 || shift == 8 || shift == 16 || shift == 24 || shift == 32 || shift == 40
        || shift == 48 || shift == 56) ==> ((word >> shift) & 0xff) < 256 && ((((word & !(0xffu64
        << shift)) | ((byte as u64) << shift)) >> shift) & 0xff) == byte as u64) by (bit_vector);
    assert forall|other: u64|
        (other == 0 || other == 8 || other == 16 || other == 24 || other == 32 || other == 40
            || other == 48 || other == 56) && other != shift implies #[trigger] lane(
        with_lane(word, shift, byte),
        other,
    ) == lane(word, other) by {
        assert((shift == 0 || shift == 8 || shift == 16 || shift == 24 || shift == 32 || shift
            == 40 || shift == 48 || shift == 56) && (other == 0 || other == 8 || other == 16
            || other == 24 || other == 32 || other == 40 || other == 48 || other == 56) && other
            != shift ==> ((((word & !(0xffu64 << shift)) | ((byte as u64) << shift)) >> other)
            & 0xff) == ((word >> other) & 0xff)) by (bit_vector);
    }
}

/// A stored byte is read back, and no other byte of the memory changes.
pub proof fn lemma_store_byte(mem: Seq<u64>, addr: int, byte: u8)
    requires
        in_window(mem, addr),
    ensures
        store_byte(mem, addr, byte).len() == mem.len(),
        byte_at(store_byte(mem, addr, byte), addr) == byte,
        forall|other: int|
            in_window(mem, other) && other != addr ==> #[trigger] byte_at(
                store_byte(mem, addr, byte),
                other,
            ) == byte_at(mem, other),
        forall|i: int|
            0 <= i < mem.len() && i != addr / 8 ==> #[trigger] store_byte(mem, addr, byte)[i]
                == mem[i],
{
    let shift = (8 * (addr % 8)) as u64;
    lemma_lane(mem[addr / 8], shift, byte);
    assert forall|other: int| in_window(mem, other) && other != addr implies #[trigger] byte_at(
        store_byte(mem, addr, byte),
        other,
    ) == byte_at(mem, other) by {
        if other / 8 == addr / 8 {
            let other_shift = (8 * (other % 8)) as u64;
            assert(other % 8 != addr % 8);
            assert(other_shift != shift);
            assert(lane(with_lane(mem[addr / 8], shift, byte), other_shift) == lane(
                mem[addr / 8],
                other_shift,
            ));
        }
    }
}

} // verus!
