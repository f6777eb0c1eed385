//! The arena: one owned buffer and a cursor that only moves forward.

use crate::error::ArenaError;
use crate::layout::{
    array_size, fits, lemma_pow2_positive, lemma_round_up_aligned, lemma_round_up_bounds, max_size,
    representable, round_up, Layout,
};
use vstd::layout::{align_of, size_of};
use vstd::prelude::*;

verus! {

/// The alignment that every backing buffer is asked for.
pub const BUFFER_ALIGN: usize = 8;

/// What an arena is, for contracts: the bytes of its buffer and the number
/// of them that are taken. The taken bytes are the first `used` ones.
pub struct ArenaState {
    pub bytes: Seq<u8>,
    pub used: nat,
}

impl ArenaState {
    /// The size of the buffer in bytes.
    pub open spec fn capacity(self) -> nat {
        self.bytes.len()
    }

    /// The number of bytes that are not taken.
    pub open spec fn remaining(self) -> nat {
        (self.capacity() - self.used) as nat
    }

    /// An arena of `size` zero bytes of which none is taken.
    pub open spec fn fresh(size: nat) -> ArenaState {
        ArenaState { bytes: Seq::new(size, |i: int| 0u8), used: 0 }
    }

    /// The offset at which the next region of alignment `align` starts.
    pub open spec fn start(self, align: nat) -> nat {
        round_up(self.used, align)
    }

    /// The offset behind the next region of `size` bytes at alignment `align`.
    pub open spec fn end(self, size: nat, align: nat) -> nat {
        self.start(align) + size
    }

    /// Whether the next region of `size` bytes at alignment `align` has room.
    pub open spec fn has_room(self, size: nat, align: nat) -> bool {
        fits(self.used, self.capacity(), size, align)
    }

    /// The bytes that the next region of `size` bytes at alignment `align`
    /// covers.
    pub open spec fn region(self, size: nat, align: nat) -> Seq<u8> {
        self.bytes.subrange(self.start(align) as int, self.end(size, align) as int)
    }

    /// The arena after that region was handed out and `contents` was left in
    /// it: the cursor stands behind the region, and no byte outside the
    /// region has changed.
    pub open spec fn allocated(self, size: nat, align: nat, contents: Seq<u8>) -> ArenaState {
        ArenaState {
            bytes: self.bytes.subrange(0, self.start(align) as int) + contents
                + self.bytes.subrange(self.end(size, align) as int, self.capacity() as int),
            used: self.end(size, align),
        }
    }

    /// The arena after a reset: nothing is taken, and the bytes are as they
    /// were.
    pub open spec fn rewound(self) -> ArenaState {
        ArenaState { bytes: self.bytes, used: 0 }
    }
}

/// A bump arena over an owned buffer of fixed size.
pub struct Arena {
    memory: Vec<u8>,
    size: usize,
    offset: usize,
}

impl View for Arena {
    type V = ArenaState;

    closed spec fn view(&self) -> ArenaState {
        ArenaState { bytes: self.memory@, used: self.offset as nat }
    }
}

/// The bytes of `memory` from `start` up to `end`, borrowed for writing.
///
/// Stands for std's indexing of a `Vec` by a range, `&mut memory[start..end]`.
/// The contract claims of it: the borrow shows those bytes; it keeps its
/// length for as long as it lives; and when it ends, `memory` holds what was
/// left in the borrow at that place and its former bytes everywhere else.
/// Within the stated bounds the indexing does not panic.
#[verifier::external_body]
fn window(memory: &mut Vec<u8>, start: usize, end: usize) -> (region: &mut [u8])
    requires
        start <= end <= old(memory)@.len(),
    ensures
        region@ == old(memory)@.subrange(start as int, end as int),
        final(region)@.len() == region@.len(),
        final(memory)@ == old(memory)@.subrange(0, start as int) + final(region)@ + old(
            memory,
        )@.subrange(end as int, old(memory)@.len() as int),
    no_unwind
{
    &mut memory[start..end]
}

/// A buffer of `size` zero bytes, or `None` where the system has no memory
/// for it. A buffer of no bytes asks the system for nothing, and is granted.
fn acquire(size: usize) -> (r: Option<Vec<u8>>)
    ensures
        r matches Some(memory) ==> memory@ == ArenaState::fresh(size as nat).bytes,
        size == 0 ==> r is Some,
{
    let mut memory: Vec<u8> = Vec::new();
    let granted: bool = if size == 0 {
        true
    } else {
        memory.try_reserve(size).is_ok()
    };
    zeroed(memory, size, granted)
}

/// What becomes of the empty buffer `memory` once the system has answered
/// the request to reserve `size` bytes for it: where the request was
/// granted, the buffer with `size` zero bytes in it; where it was refused,
/// nothing.
fn zeroed(memory: Vec<u8>, size: usize, granted: bool) -> (r: Option<Vec<u8>>)
    requires
        memory@.len() == 0,
    ensures
        match r {
            Some(filled) => granted && filled@ == ArenaState::fresh(size as nat).bytes,
            None => !granted,
        },
{
    if granted {
        let mut filled = memory;
        filled.resize(size, 0u8);
        assert(filled@ =~= ArenaState::fresh(size as nat).bytes);
        Some(filled)
    } else {
        None
    }
}

impl Arena {
    #[verifier::type_invariant]
    spec fn inv(&self) -> bool {
        &&& self.memory@.len() == self.size
        &&& self.offset <= self.size
        &&& self.size > 0
        &&& representable(self.size as nat, BUFFER_ALIGN as nat)
    }

    /// The failure that a buffer of `size` bytes meets before any memory is
    /// asked for, if there is one.
    pub open spec fn size_error(size: nat) -> Option<ArenaError> {
        if size == 0 {
            Some(ArenaError::InvalidSize)
        } else if !representable(size, BUFFER_ALIGN as nat) {
            Some(ArenaError::InvalidAlignment)
        } else {
            None
        }
    }

    /// Tells whether a buffer of `size` bytes can back an arena.
    fn check_size(size: usize) -> (r: Option<ArenaError>)
        ensures
            r == Self::size_error(size as nat),
    {
        if size == 0 {
            return Some(ArenaError::InvalidSize);
        }
        match Layout::from_size_align(size, BUFFER_ALIGN) {
            Some(_) => None,
            None => Some(ArenaError::InvalidAlignment),
        }
    }

    /// An arena over `memory`, of which nothing is taken.
    ///
    /// Fails with `InvalidSize` where `memory` is empty, and with
    /// `InvalidAlignment` where its length is not representable at
    /// `BUFFER_ALIGN`.
    pub fn from_buffer(memory: Vec<u8>) -> (r: Result<Arena, ArenaError>)
        ensures
            match r {
                Ok(arena) => {
                    &&& Self::size_error(memory@.len()) is None
                    &&& arena@ == (ArenaState { bytes: memory@, used: 0 })
                },
                Err(e) => Self::size_error(memory@.len()) == Some(e),
            },
    {
        let size: usize = memory.len();
        match Self::check_size(size) {
            Some(e) => Err(e),
            None => Ok(Arena { memory, size, offset: 0 }),
        }
    }

    /// An arena of `size` zero bytes, of which nothing is taken.
    ///
    /// Fails with `InvalidSize` where `size` is zero, with `InvalidAlignment`
    /// where `size` is not representable at `BUFFER_ALIGN`, and with
    /// `AllocationFailed` where the system has no memory for the buffer.
    pub fn new(size: usize) -> (r: Result<Arena, ArenaError>)
        ensures
            match r {
                Ok(arena) => {
                    &&& Self::size_error(size as nat) is None
                    &&& arena@ == ArenaState::fresh(size as nat)
                    &&& arena@.capacity() == size
                    &&& arena@.used == 0
                    &&& arena@.remaining() == size
                },
                Err(e) => e == match Self::size_error(size as nat) {
                    Some(refusal) => refusal,
                    None => ArenaError::AllocationFailed,
                },
            },
    {
        match Self::check_size(size) {
            Some(e) => Err(e),
            None => match acquire(size) {
                Some(memory) => Self::from_buffer(memory),
                None => Err(ArenaError::AllocationFailed),
            },
        }
    }

    /// Hands out the next region of the given layout.
    ///
    /// The region starts at the cursor rounded up to the layout's alignment,
    /// and the cursor moves behind it. Where the region would end beyond the
    /// buffer, the call fails with `OutOfMemory` and changes nothing.
    pub fn alloc_layout(&mut self, layout: Layout) -> (r: Result<&mut [u8], ArenaError>)
        ensures
            match r {
                Ok(region) => {
                    &&& old(self)@.has_room(layout.size() as nat, layout.align() as nat)
                    &&& region@ == old(self)@.region(layout.size() as nat, layout.align() as nat)
                    &&& final(region)@.len() == layout.size()
                    &&& final(self)@ == old(self)@.allocated(
                        layout.size() as nat,
                        layout.align() as nat,
                        final(region)@,
                    )
                    &&& final(self)@.capacity() == old(self)@.capacity()
                    &&& old(self)@.start(layout.align() as nat) % (layout.align() as nat) == 0
                    &&& old(self)@.used + layout.size() <= final(self)@.used <= old(self)@.used
                        + layout.size() + layout.align() - 1
                },
                Err(e) => {
                    &&& e == ArenaError::OutOfMemory
                    &&& !old(self)@.has_room(layout.size() as nat, layout.align() as nat)
                    &&& final(self)@ == old(self)@
                },
            },
    {
        let align: usize = layout.align();
        proof {
            use_type_invariant(&*self);
            lemma_pow2_positive(align as nat);
            lemma_round_up_aligned(self.offset as nat, align as nat);
            lemma_round_up_bounds(self.offset as nat, align as nat);
        }
        match layout.place(self.offset, self.size) {
            Some((start, end)) => {
                self.offset = end;
                Ok(window(&mut self.memory, start, end))
            },
            None => Err(ArenaError::OutOfMemory),
        }
    }

    /// Hands out the next region for one value of type `T`: `size_of::<T>()`
    /// bytes at an offset that is a multiple of `align_of::<T>()`.
    ///
    /// Fails with `OutOfMemory`, and changes nothing, where the region would
    /// end beyond the buffer.
    pub fn alloc_one<T>(&mut self) -> (r: Result<&mut [u8], ArenaError>)
        ensures
            match r {
                Ok(region) => {
                    &&& old(self)@.has_room(size_of::<T>(), align_of::<T>())
                    &&& region@ == old(self)@.region(size_of::<T>(), align_of::<T>())
                    &&& final(region)@.len() == size_of::<T>()
                    &&& final(self)@ == old(self)@.allocated(
                        size_of::<T>(),
                        align_of::<T>(),
                        final(region)@,
                    )
                    &&& final(self)@.capacity() == old(self)@.capacity()
                    &&& old(self)@.start(align_of::<T>()) % align_of::<T>() == 0
                    &&& old(self)@.used + size_of::<T>() <= final(self)@.used <= old(self)@.used
                        + size_of::<T>() + align_of::<T>() - 1
                },
                Err(e) => {
                    &&& e == ArenaError::OutOfMemory
                    &&& !old(self)@.has_room(size_of::<T>(), align_of::<T>())
                    &&& final(self)@ == old(self)@
                },
            },
    {
        let layout = Layout::new::<T>();
        self.alloc_layout(layout)
    }

    /// Hands out the next region for `count` values of type `T` in a row.
    ///
    /// For a `count` of zero the region is empty and nothing changes. Fails
    /// with `InvalidSize` where the total size exceeds `max_size()`, and with
    /// `OutOfMemory` where the region would end beyond the buffer; a failure
    /// changes nothing.
    pub fn alloc_array<T>(&mut self, count: usize) -> (r: Result<&mut [u8], ArenaError>)
        ensures
            match r {
                Ok(region) => if count == 0 {
                    &&& region@.len() == 0
                    &&& final(self)@ == old(self)@
                } else {
                    &&& array_size::<T>(count as nat) <= max_size()
                    &&& old(self)@.has_room(array_size::<T>(count as nat), align_of::<T>())
                    &&& region@ == old(self)@.region(array_size::<T>(count as nat), align_of::<T>())
                    &&& final(region)@.len() == array_size::<T>(count as nat)
                    &&& final(self)@ == old(self)@.allocated(
                        array_size::<T>(count as nat),
                        align_of::<T>(),
                        final(region)@,
                    )
                    &&& final(self)@.capacity() == old(self)@.capacity()
                    &&& old(self)@.start(align_of::<T>()) % align_of::<T>() == 0
                },
                Err(e) => {
                    &&& count > 0
                    &&& final(self)@ == old(self)@
                    &&& if array_size::<T>(count as nat) > max_size() {
                        e == ArenaError::InvalidSize
                    } else {
                        &&& e == ArenaError::OutOfMemory
                        &&& !old(self)@.has_room(array_size::<T>(count as nat), align_of::<T>())
                    }
                },
            },
    {
        if count == 0 {
            return Ok(&mut []);
        }
        match Layout::array::<T>(count) {
            Some(layout) => self.alloc_layout(layout),
            None => Err(ArenaError::InvalidSize),
        }
    }

    /// Rewinds the cursor: nothing is taken any more. The buffer keeps its
    /// bytes.
    pub fn reset(&mut self)
        ensures
            final(self)@ == old(self)@.rewound(),
    {
        proof {
            use_type_invariant(&*self);
        }
        self.offset = 0;
    }

    /// The number of bytes that are not taken.
    pub fn remaining(&self) -> (r: usize)
        ensures
            r == self@.remaining(),
            r + self@.used == self@.capacity(),
    {
        proof {
            use_type_invariant(self);
        }
        self.size - self.offset
    }

    /// The number of bytes that are taken, padding included.
    pub fn used(&self) -> (r: usize)
        ensures
            r == self@.used,
            r <= self@.capacity(),
    {
        proof {
            use_type_invariant(self);
        }
        self.offset
    }

    /// The size of the buffer in bytes.
    pub fn capacity(&self) -> (r: usize)
        ensures
            r == self@.capacity(),
            Self::size_error(r as nat) is None,
    {
        proof {
            use_type_invariant(self);
        }
        self.size
    }

    /// The whole buffer, taken bytes and free ones.
    pub fn as_bytes(&self) -> (r: &[u8])
        ensures
            r@ == self@.bytes,
    {
        self.memory.as_slice()
    }
}

} // verus!
