//! What holds of every arena, whatever was asked of it before.
//!
//! The laws are stated over `ArenaState`, the value that the contracts of
//! `Arena` speak of, so each of them applies to every call of those functions.

use crate::arena::ArenaState;
use crate::layout::{
    fits, lemma_round_up_aligned, lemma_round_up_bounds, lemma_round_up_fixed, round_up,
};
use vstd::arithmetic::div_mod::*;
use vstd::prelude::*;

verus! {

/// A successful allocation moves the cursor forward by the size of the region
/// and by padding of less than the alignment.
pub proof fn lemma_cursor_advance(state: ArenaState, size: nat, align: nat, contents: Seq<u8>)
    requires
        align > 0,
    ensures
        state.used + size <= state.allocated(size, align, contents).used <= state.used + size
            + align - 1,
{
    lemma_round_up_bounds(state.used, align);
}

/// Every region starts at a multiple of its alignment; so where the buffer
/// itself lies at an address that is a multiple of the alignment, so does
/// the region.
pub proof fn lemma_region_aligned(state: ArenaState, align: nat, base: nat)
    requires
        align > 0,
        base % align == 0,
    ensures
        state.start(align) % align == 0,
        (base + state.start(align)) % align == 0,
{
    lemma_round_up_aligned(state.used, align);
    lemma_mod_adds(base as int, state.start(align) as int, align as int);
}

/// An allocation leaves every byte outside its region as it was, and the
/// region holds what was written to it.
pub proof fn lemma_allocation_frame(
    state: ArenaState,
    size: nat,
    align: nat,
    contents: Seq<u8>,
    i: int,
)
    requires
        align > 0,
        state.has_room(size, align),
        contents.len() == size,
        0 <= i < state.capacity(),
    ensures
        state.allocated(size, align, contents).capacity() == state.capacity(),
        state.start(align) <= i < state.end(size, align) ==> state.allocated(
            size,
            align,
            contents,
        ).bytes[i] == contents[i - state.start(align)],
        !(state.start(align) <= i < state.end(size, align)) ==> state.allocated(
            size,
            align,
            contents,
        ).bytes[i] == state.bytes[i],
{
}

/// A region never reaches back into what was taken before it: it starts at
/// or behind the cursor, and the next region starts at or behind its end.
pub proof fn lemma_regions_disjoint(
    state: ArenaState,
    size: nat,
    align: nat,
    contents: Seq<u8>,
    next_align: nat,
)
    requires
        align > 0,
        next_align > 0,
    ensures
        state.used <= state.start(align),
        state.end(size, align) <= state.allocated(size, align, contents).start(next_align),
{
    lemma_round_up_bounds(state.used, align);
    lemma_round_up_bounds(state.end(size, align), next_align);
}

/// After a reset nothing is taken and the whole buffer is free again: a
/// region has room exactly when it is no larger than the buffer, and it
/// starts at the first byte, as in an arena that was never used.
pub proof fn lemma_reset_reclaims(state: ArenaState, size: nat, align: nat)
    requires
        align > 0,
    ensures
        state.rewound().used == 0,
        state.rewound().remaining() == state.capacity(),
        state.rewound().start(align) == 0,
        state.rewound().has_room(size, align) <==> size <= state.capacity(),
{
    lemma_round_up_fixed(0, align);
}

/// A region as large as the whole buffer fits into an arena of which nothing
/// is taken, and leaves nothing free.
pub proof fn lemma_exact_fit(state: ArenaState, align: nat, contents: Seq<u8>)
    requires
        align > 0,
        state.used == 0,
        contents.len() == state.capacity(),
    ensures
        state.has_room(state.capacity(), align),
        state.allocated(state.capacity(), align, contents).remaining() == 0,
{
    lemma_round_up_fixed(0, align);
}

/// A request for a region: its size and its alignment in bytes.
pub struct Request {
    pub size: nat,
    pub align: nat,
}

/// The cursor after `requests` were served in order, starting with the cursor
/// at `offset`, in a buffer without end.
pub open spec fn cursor_after(offset: nat, requests: Seq<Request>) -> nat
    decreases requests.len(),
{
    if requests.len() == 0 {
        offset
    } else {
        round_up(cursor_after(offset, requests.drop_last()), requests.last().align)
            + requests.last().size
    }
}

/// Whether each of `requests`, served in order from `offset`, has room in a
/// buffer of `capacity` bytes at the cursor that those before it left.
pub open spec fn all_fit(offset: nat, capacity: nat, requests: Seq<Request>) -> bool
    decreases requests.len(),
{
    requests.len() == 0 || {
        &&& all_fit(offset, capacity, requests.drop_last())
        &&& fits(
            cursor_after(offset, requests.drop_last()),
            capacity,
            requests.last().size,
            requests.last().align,
        )
    }
}

/// Whether every request names an alignment above zero.
pub open spec fn aligned_requests(requests: Seq<Request>) -> bool {
    forall|i: int| 0 <= i < requests.len() ==> (#[trigger] requests[i]).align > 0
}

/// The cursor never moves back: after more requests it stands no lower.
pub proof fn lemma_cursor_monotone(offset: nat, requests: Seq<Request>, shorter: int, longer: int)
    requires
        aligned_requests(requests),
        0 <= shorter <= longer <= requests.len(),
    ensures
        cursor_after(offset, requests.take(shorter)) <= cursor_after(
            offset,
            requests.take(longer),
        ),
    decreases longer - shorter,
{
    if shorter < longer {
        let prefix = requests.take(longer);
        assert(prefix.drop_last() =~= requests.take(longer - 1));
        assert(prefix.last() == requests[longer - 1]);
        lemma_cursor_monotone(offset, requests, shorter, longer - 1);
        lemma_round_up_bounds(cursor_after(offset, requests.take(longer - 1)), prefix.last().align);
    }
}

/// A run of requests is served in full exactly when the cursor that it
/// leaves in a buffer without end lies within the capacity.
pub proof fn lemma_all_fit_iff_within(offset: nat, capacity: nat, requests: Seq<Request>)
    requires
        aligned_requests(requests),
        offset <= capacity,
    ensures
        all_fit(offset, capacity, requests) <==> cursor_after(offset, requests) <= capacity,
    decreases requests.len(),
{
    if requests.len() > 0 {
        let before = requests.drop_last();
        lemma_all_fit_iff_within(offset, capacity, before);
        lemma_round_up_bounds(cursor_after(offset, before), requests.last().align);
    }
}

/// Exhaustion comes exactly at the request that crosses the capacity: where
/// the first `k` requests leave the cursor within the capacity and the next
/// one would carry it beyond, each of the first `k` has room and the next
/// one has none.
pub proof fn lemma_exhaustion_point(offset: nat, capacity: nat, requests: Seq<Request>, k: int)
    requires
        aligned_requests(requests),
        offset <= capacity,
        0 <= k < requests.len(),
        cursor_after(offset, requests.take(k)) <= capacity,
        cursor_after(offset, requests.take(k + 1)) > capacity,
    ensures
        all_fit(offset, capacity, requests.take(k)),
        !fits(cursor_after(offset, requests.take(k)), capacity, requests[k].size, requests[k].align),
        forall|longer: int|
            k < longer <= requests.len() ==> !all_fit(
                offset,
                capacity,
                #[trigger] requests.take(longer),
            ),
{
    lemma_all_fit_iff_within(offset, capacity, requests.take(k));
    let crossing = requests.take(k + 1);
    assert(crossing.drop_last() =~= requests.take(k));
    assert(crossing.last() == requests[k]);
    assert forall|longer: int| k < longer <= requests.len() implies !all_fit(
        offset,
        capacity,
        #[trigger] requests.take(longer),
    ) by {
        lemma_cursor_monotone(offset, requests, k + 1, longer);
        lemma_all_fit_iff_within(offset, capacity, requests.take(longer));
    }
}

} // verus!
