//! The arena that owns the aggregate states, and the handles into it.
//!
//! The arena is a bump allocator over one growing byte buffer. A handle is the
//! index of a block's first byte, so a handle stays valid however the buffer
//! grows, and a block is only ever written through its own handle. No block
//! starts at index 0, which leaves 0 free to mean "no state".

use crate::layout::{align_up, lemma_align_up, StateLayout};
use vstd::bytes::{
    lemma_auto_spec_u64_to_from_le_bytes, spec_u64_from_le_bytes, spec_u64_to_le_bytes,
    u64_from_le_bytes, u64_to_le_bytes,
};
use vstd::prelude::*;
use vstd::slice::slice_subrange;

verus! {

/// Handle of a state in the arena: the index of its first byte.
#[derive(Clone, Copy, Debug, PartialEq, Eq, Structural)]
pub struct StateAddr {
    pub addr: usize,
}

impl StateAddr {
    pub fn new(addr: usize) -> (place: StateAddr)
        ensures
            place.addr == addr,
    {
        StateAddr { addr }
    }

    /// The handle that means "no state".
    pub fn null() -> (place: StateAddr)
        ensures
            place.addr == 0,
    {
        StateAddr { addr: 0 }
    }

    pub fn addr(&self) -> (addr: usize)
        ensures
            addr == self.addr,
    {
        self.addr
    }

    /// The handle `offset` bytes further on.
    pub fn next(&self, offset: usize) -> (place: StateAddr)
        requires
            self.addr + offset <= usize::MAX,
        ensures
            place.addr == self.addr + offset,
    {
        StateAddr { addr: self.addr + offset }
    }
}

/// `s` with the bytes from index `at` on replaced by `data`.
pub open spec fn splice(s: Seq<u8>, at: int, data: Seq<u8>) -> Seq<u8> {
    Seq::new(
        s.len(),
        |i: int|
            if at <= i < at + data.len() {
                data[i - at]
            } else {
                s[i]
            },
    )
}

/// `n` zero bytes.
pub open spec fn zeros(n: nat) -> Seq<u8> {
    Seq::new(n, |i: int| 0u8)
}

/// Owner of every state block of one aggregation.
pub struct Arena {
    bytes: Vec<u8>,
}

impl View for Arena {
    type V = Seq<u8>;

    closed spec fn view(&self) -> Seq<u8> {
        self.bytes@
    }
}

impl Arena {
    /// The bytes of the region of `size` bytes at `place`.
    pub open spec fn spec_region(&self, place: StateAddr, size: int) -> Seq<u8> {
        self@.subrange(place.addr as int, place.addr + size)
    }

    /// Whether the region of `size` bytes at `place` lies inside the arena.
    pub open spec fn spec_contains(&self, place: StateAddr, size: int) -> bool {
        size >= 0 && place.addr + size <= self@.len()
    }

    /// Where the next block of `layout` will start: the first aligned index
    /// that is neither 0 nor in use.
    pub open spec fn spec_next_addr(&self, layout: StateLayout) -> int {
        align_up(if self@.len() == 0 { 1 } else { self@.len() as int }, layout.align as int)
    }

    /// An empty arena.
    pub fn new() -> (arena: Arena)
        ensures
            arena@ == Seq::<u8>::empty(),
    {
        Arena { bytes: Vec::new() }
    }

    /// Bytes in use.
    pub fn len(&self) -> (len: usize)
        ensures
            len == self@.len(),
    {
        self.bytes.len()
    }

    /// Allocates a zeroed block of `layout` at the first aligned index past
    /// everything allocated before, and returns its handle.
    ///
    /// The bytes that the arena held before keep their index and their value.
    pub fn alloc_layout(&mut self, layout: StateLayout) -> (place: StateAddr)
        requires
            layout.align > 0,
            old(self)@.len() + layout.align + layout.size < usize::MAX,
        ensures
            place.addr == old(self).spec_next_addr(layout),
            place.addr % layout.align == 0,
            place.addr > 0,
            place.addr >= old(self)@.len(),
            place.addr + layout.size < old(self)@.len() + layout.align + layout.size + 1,
            final(self)@ == old(self)@ + zeros((place.addr + layout.size - old(self)@.len()) as nat),
    {
        let len = self.bytes.len();
        let base = if len == 0 {
            1
        } else {
            len
        };
        proof {
            lemma_align_up(base as int, layout.align as int);
        }
        let rem = base % layout.align;
        let start = if rem == 0 {
            base
        } else {
            base + (layout.align - rem)
        };
        let end = start + layout.size;
        let ghost before = self.bytes@;
        let mut i = len;
        while i < end
            invariant
                len <= i <= end,
                self.bytes@ == before + zeros((i - len) as nat),
                before.len() == len,
            decreases end - i,
        {
            self.bytes.push(0u8);
            i += 1;
            assert(self.bytes@ =~= before + zeros((i - len) as nat));
        }
        StateAddr { addr: start }
    }

    /// Copies the `size` bytes at `place` out of the arena.
    pub fn read(&self, place: StateAddr, size: usize) -> (data: Vec<u8>)
        requires
            place.addr + size <= self@.len(),
        ensures
            data@ == self.spec_region(place, size as int),
    {
        let total = self.bytes.len();
        let mut data: Vec<u8> = Vec::new();
        assert(data@ =~= self.bytes@.subrange(place.addr as int, place.addr as int));
        let mut i: usize = 0;
        while i < size
            invariant
                0 <= i <= size,
                place.addr + size <= self.bytes@.len() == total,
                data@ == self.bytes@.subrange(place.addr as int, place.addr + i),
            decreases size - i,
        {
            data.push(self.bytes[place.addr + i]);
            i += 1;
            assert(data@ =~= self.bytes@.subrange(place.addr as int, place.addr + i));
        }
        data
    }

    /// Overwrites the bytes at `place` with `data`; every other byte stays.
    pub fn write(&mut self, place: StateAddr, data: &Vec<u8>)
        requires
            place.addr + data.len() <= old(self)@.len(),
        ensures
            final(self)@ == splice(old(self)@, place.addr as int, data@),
    {
        let ghost before = self.bytes@;
        let total = self.bytes.len();
        assert(self.bytes@ =~= splice(before, place.addr as int, data@.take(0)));
        let mut i: usize = 0;
        while i < data.len()
            invariant
                0 <= i <= data.len(),
                place.addr + data.len() <= before.len() == total,
                self.bytes@ == splice(before, place.addr as int, data@.take(i as int)),
            decreases data.len() - i,
        {
            self.bytes[place.addr + i] = data[i];
            i += 1;
            assert(self.bytes@ =~= splice(before, place.addr as int, data@.take(i as int)));
        }
        assert(data@.take(data.len() as int) =~= data@);
    }

    /// Reads the little-endian `u64` at `place`.
    pub fn read_u64(&self, place: StateAddr) -> (value: u64)
        requires
            place.addr + 8 <= self@.len(),
        ensures
            value == spec_u64_from_le_bytes(self.spec_region(place, 8)),
    {
        let total = self.bytes.len();
        let region = slice_subrange(self.bytes.as_slice(), place.addr, place.addr + 8);
        u64_from_le_bytes(region)
    }

    /// Writes `value` at `place` as a little-endian `u64`.
    pub fn write_u64(&mut self, place: StateAddr, value: u64)
        requires
            place.addr + 8 <= old(self)@.len(),
        ensures
            final(self)@ == splice(old(self)@, place.addr as int, spec_u64_to_le_bytes(value)),
            final(self).spec_region(place, 8) == spec_u64_to_le_bytes(value),
    {
        let data = u64_to_le_bytes(value);
        proof {
            lemma_auto_spec_u64_to_from_le_bytes();
        }
        self.write(place, &data);
        proof {
            lemma_splice_region(old(self)@, place.addr as int, data@);
        }
    }
}

/// What `splice` leaves of a sequence: its length, the spliced bytes where
/// they were put, and every region that the spliced bytes do not touch.
pub proof fn lemma_splice_region(s: Seq<u8>, at: int, data: Seq<u8>)
    requires
        0 <= at,
        at + data.len() <= s.len(),
    ensures
        splice(s, at, data).len() == s.len(),
        splice(s, at, data).subrange(at, at + data.len()) == data,
        forall|from: int, to: int|
            0 <= from <= to <= s.len() && (to <= at || at + data.len() <= from) ==> #[trigger] splice(
                s,
                at,
                data,
            ).subrange(from, to) == s.subrange(from, to),
{
    let t = splice(s, at, data);
    assert(t.subrange(at, at + data.len()) =~= data);
    assert forall|from: int, to: int|
        0 <= from <= to <= s.len() && (to <= at || at + data.len() <= from) implies #[trigger] t.subrange(
        from,
        to,
    ) == s.subrange(from, to) by {
        assert(t.subrange(from, to) =~= s.subrange(from, to));
    }
}

} // verus!
