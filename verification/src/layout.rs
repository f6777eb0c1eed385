//! Sizes, alignments and the arithmetic of rounding a cursor up.

use vstd::arithmetic::div_mod::*;
use vstd::arithmetic::mul::*;
use vstd::arithmetic::power2::*;
use vstd::layout::{align_of, size_of};
use vstd::prelude::*;

verus! {

/// The least multiple of `align` that is not below `offset`.
pub open spec fn round_up(offset: nat, align: nat) -> nat
    recommends
        align > 0,
{
    (((offset + align - 1) / (align as int)) * align) as nat
}

/// The largest size in bytes that any single allocation may have.
pub open spec fn max_size() -> nat {
    isize::MAX as nat
}

/// The total size in bytes of `count` values of type `T` in a row.
pub open spec fn array_size<T>(count: nat) -> nat {
    count * size_of::<T>()
}

/// Whether a region of `size` bytes at alignment `align` can exist at all:
/// the alignment is a power of two, and the size, rounded up to it, does not
/// exceed `max_size()`.
pub open spec fn representable(size: nat, align: nat) -> bool {
    is_pow2(align as int) && round_up(size, align) <= max_size()
}

/// Whether a region of `size` bytes at alignment `align` has room in a buffer
/// of `capacity` bytes whose first `offset` bytes are taken: the region
/// starts at the rounded offset and must end within the buffer.
pub open spec fn fits(offset: nat, capacity: nat, size: nat, align: nat) -> bool {
    round_up(offset, align) + size <= capacity
}

/// A power of two is above zero.
pub proof fn lemma_pow2_positive(align: nat)
    requires
        is_pow2(align as int),
    ensures
        align > 0,
{
    reveal(is_pow2);
}

/// A rounded offset is a multiple of the alignment.
pub proof fn lemma_round_up_aligned(offset: nat, align: nat)
    requires
        align > 0,
    ensures
        round_up(offset, align) % align == 0,
{
    let q = (offset + align - 1) / (align as int);
    lemma_div_pos_is_pos(offset + align - 1, align as int);
    lemma_mul_nonnegative(q, align as int);
    lemma_mod_multiples_basic(q, align as int);
}

/// Rounding never moves an offset down, and moves it up by less than the
/// alignment.
pub proof fn lemma_round_up_bounds(offset: nat, align: nat)
    requires
        align > 0,
    ensures
        offset <= round_up(offset, align) < offset + align,
{
    let x = offset + align - 1;
    lemma_fundamental_div_mod(x, align as int);
    lemma_mod_bound(x, align as int);
    lemma_mul_is_commutative(x / (align as int), align as int);
}

/// Two different multiples of a number lie at least that number apart.
pub proof fn lemma_multiples_apart(low: nat, high: nat, align: nat)
    requires
        align > 0,
        low % align == 0,
        high % align == 0,
        low < high,
    ensures
        low + align <= high,
{
    lemma_fundamental_div_mod(low as int, align as int);
    lemma_fundamental_div_mod(high as int, align as int);
    let ql = (low as int) / (align as int);
    let qh = (high as int) / (align as int);
    assert(ql < qh) by (nonlinear_arith)
        requires
            align * ql < align * qh,
            align > 0,
    ;
    assert(align * qh - align * ql >= align) by (nonlinear_arith)
        requires
            ql < qh,
            align > 0,
    ;
}

/// No multiple of the alignment lies between an offset and its rounding.
pub proof fn lemma_round_up_least(offset: nat, align: nat, multiple: nat)
    requires
        align > 0,
        multiple % align == 0,
        offset <= multiple,
    ensures
        round_up(offset, align) <= multiple,
{
    lemma_round_up_aligned(offset, align);
    lemma_round_up_bounds(offset, align);
    if multiple < round_up(offset, align) {
        lemma_multiples_apart(multiple, round_up(offset, align), align);
    }
}

/// An offset that is already a multiple of the alignment stays where it is.
pub proof fn lemma_round_up_fixed(offset: nat, align: nat)
    requires
        align > 0,
        offset % align == 0,
    ensures
        round_up(offset, align) == offset,
{
    lemma_round_up_least(offset, align, offset);
    lemma_round_up_bounds(offset, align);
}

/// A power of two has a single bit set.
proof fn lemma_pow2_single_bit(align: usize)
    requires
        is_pow2(align as int),
    ensures
        align > 0,
        align & ((align - 1) as usize) == 0,
    decreases align,
{
    reveal(is_pow2);
    if align == 1 {
        assert(1usize & ((1usize - 1) as usize) == 0) by (bit_vector);
    } else {
        let half: usize = align / 2;
        lemma_pow2_single_bit(half);
        assert(align & ((align - 1) as usize) == 0) by (bit_vector)
            requires
                align % 2 == 0,
                align >= 2,
                half == align / 2,
                half & ((half - 1) as usize) == 0,
        ;
    }
}

/// A positive number with a single bit set is a power of two.
proof fn lemma_single_bit_pow2(align: usize)
    requires
        align > 0,
        align & ((align - 1) as usize) == 0,
    ensures
        is_pow2(align as int),
    decreases align,
{
    reveal(is_pow2);
    if align != 1 {
        let half: usize = align / 2;
        assert(align % 2 == 0 && half > 0 && half & ((half - 1) as usize) == 0) by (bit_vector)
            requires
                align > 1,
                align & ((align - 1) as usize) == 0,
                half == align / 2,
        ;
        lemma_single_bit_pow2(half);
    }
}

/// The exponent of a power of two that fits in a machine word.
proof fn lemma_pow2_exponent(align: usize) -> (k: nat)
    requires
        is_pow2(align as int),
    ensures
        pow2(k) == align,
        k < usize::BITS,
{
    is_pow2_equiv(align as int);
    let k = choose|k: nat| vstd::arithmetic::power::pow(2, k) == align as int;
    lemma_pow2(k);
    vstd::layout::unsigned_int_max_values();
    if k >= usize::BITS {
        if k > usize::BITS {
            lemma_pow2_strictly_increases(usize::BITS as nat, k);
        }
        assert(false);
    }
    k
}

/// A power of two that fits in a machine word divides the number of values
/// of the word, and half that number.
proof fn lemma_pow2_divides_word(align: usize)
    requires
        is_pow2(align as int),
    ensures
        0 < align <= max_size() + 1,
        (max_size() + 1) % (align as nat) == 0,
        (usize::MAX + 1) % (align as int) == 0,
{
    let k = lemma_pow2_exponent(align);
    let top = (usize::BITS - 1) as nat;
    vstd::layout::unsigned_int_max_values();
    vstd::layout::signed_int_min_max_values();
    lemma_pow2_pos(k);
    assert(max_size() + 1 == pow2(top));
    assert(usize::MAX + 1 == pow2(usize::BITS as nat));
    let rest = (top - k) as nat;
    lemma_pow2_adds(k, rest);
    lemma_pow2_adds(k, rest + 1);
    lemma_pow2_pos(rest);
    lemma_mul_is_commutative(pow2(k) as int, pow2(rest) as int);
    lemma_mul_is_commutative(pow2(k) as int, pow2(rest + 1) as int);
    lemma_mod_multiples_basic(pow2(rest) as int, align as int);
    lemma_mod_multiples_basic(pow2(rest + 1) as int, align as int);
    lemma_mul_increases(pow2(rest) as int, pow2(k) as int);
}

/// Clearing the bits below a power of two rounds down to a multiple of it.
proof fn lemma_mask_rounds_down(value: usize, align: usize)
    requires
        is_pow2(align as int),
    ensures
        value & !((align - 1) as usize) == value - value % align,
{
    let k = lemma_pow2_exponent(align);
    lemma_pow2_pos(k);
    let mask: usize = (align - 1) as usize;
    assert(mask == vstd::bits::low_bits_mask(k) as usize);
    vstd::bits::lemma_usize_low_bits_mask_is_mod(value, k);
    assert(value & mask == value % align);
    lemma_mod_decreases(value as nat, align as nat);
    assert(value & !mask == (value - (value & mask)) as usize) by (bit_vector);
}

/// For a power of two, rounding up is adding the low mask and clearing the
/// low bits.
proof fn lemma_mask_rounds_up(offset: usize, align: usize)
    requires
        is_pow2(align as int),
        offset + align - 1 <= usize::MAX,
    ensures
        ((offset + align - 1) as usize) & !((align - 1) as usize) == round_up(
            offset as nat,
            align as nat,
        ),
{
    lemma_pow2_divides_word(align);
    let value: usize = (offset + align - 1) as usize;
    lemma_mask_rounds_down(value, align);
    lemma_fundamental_div_mod(value as int, align as int);
    lemma_mul_is_commutative((value as int) / (align as int), align as int);
}

/// Where the low mask cannot be added to an offset without leaving the
/// machine word, the rounded offset lies beyond every machine word.
proof fn lemma_round_up_beyond_word(offset: usize, align: usize)
    requires
        is_pow2(align as int),
        offset + align - 1 > usize::MAX,
    ensures
        round_up(offset as nat, align as nat) > usize::MAX,
{
    lemma_pow2_divides_word(align);
    let a = align as nat;
    let r = round_up(offset as nat, a);
    lemma_round_up_aligned(offset as nat, a);
    lemma_round_up_bounds(offset as nat, a);
    let word = (usize::MAX + 1) as nat;
    if r < word {
        lemma_multiples_apart(r, word, a);
    }
}

/// A size is representable at a power-of-two alignment exactly when the
/// alignment's low mask can be added to it without exceeding `max_size()`.
proof fn lemma_representable_bound(size: usize, align: usize)
    requires
        is_pow2(align as int),
    ensures
        representable(size as nat, align as nat) <==> size + align - 1 <= max_size(),
{
    lemma_pow2_divides_word(align);
    let a = align as nat;
    let r = round_up(size as nat, a);
    let limit = (max_size() + 1) as nat;
    lemma_round_up_aligned(size as nat, a);
    lemma_round_up_bounds(size as nat, a);
    if r < limit {
        lemma_multiples_apart(r, limit, a);
    }
    if size + align - 1 <= max_size() {
        let below = (limit - a) as nat;
        lemma_mod_sub_multiples_vanish(limit as int, a as int);
        lemma_round_up_least(size as nat, a, below);
    }
}

/// The remainder of `max_size()` by a power of two is the power's low mask.
proof fn lemma_max_size_remainder(align: usize)
    requires
        is_pow2(align as int),
    ensures
        max_size() % (align as nat) == align - 1,
{
    lemma_pow2_divides_word(align);
    let whole = (max_size() + 1) as int;
    lemma_fundamental_div_mod(whole, align as int);
    let q = whole / (align as int);
    assert(max_size() == (q - 1) * align + (align - 1)) by (nonlinear_arith)
        requires
            max_size() + 1 == align * q,
    ;
    lemma_fundamental_div_mod_converse(max_size() as int, align as int, q - 1, align - 1);
}

/// Whether `value` is a power of two.
fn is_power_of_two(value: usize) -> (r: bool)
    ensures
        r == is_pow2(value as int),
{
    if value == 0 {
        proof {
            reveal(is_pow2);
        }
        false
    } else {
        let single: bool = value & (value - 1) == 0;
        proof {
            if single {
                lemma_single_bit_pow2(value);
            }
            if is_pow2(value as int) {
                lemma_pow2_single_bit(value);
            }
        }
        single
    }
}

/// The size and alignment of a region of memory.
///
/// Every value is representable: its alignment is a power of two, and its
/// size, rounded up to the alignment, does not exceed `max_size()`.
#[derive(Debug, Clone, Copy, PartialEq, Eq)]
pub struct Layout {
    size: usize,
    align: usize,
}

impl Layout {
    #[verifier::type_invariant]
    spec fn inv(self) -> bool {
        representable(self.size as nat, self.align as nat)
    }

    /// The size in bytes, for contracts.
    pub closed spec fn spec_size(&self) -> usize {
        self.size
    }

    /// The alignment in bytes, for contracts.
    pub closed spec fn spec_align(&self) -> usize {
        self.align
    }

    /// The layout of `size` bytes at alignment `align`, where there is one.
    pub fn from_size_align(size: usize, align: usize) -> (r: Option<Layout>)
        ensures
            r is Some <==> representable(size as nat, align as nat),
            r matches Some(layout) ==> layout.size() == size && layout.align() == align,
    {
        if !is_power_of_two(align) {
            return None;
        }
        proof {
            lemma_pow2_divides_word(align);
            lemma_representable_bound(size, align);
        }
        let limit: usize = (isize::MAX as usize) - (align - 1);
        if size > limit {
            return None;
        }
        Some(Layout { size, align })
    }

    /// The layout of one value of type `T`.
    pub fn new<T>() -> (r: Layout)
        ensures
            r.size() == size_of::<T>(),
            r.align() == align_of::<T>(),
    {
        vstd::layout::layout_for_type_is_valid::<T>();
        let size: usize = core::mem::size_of::<T>();
        let align: usize = core::mem::align_of::<T>();
        proof {
            lemma_max_size_remainder(align);
            lemma_representable_bound(size, align);
        }
        Layout { size, align }
    }

    /// The layout of `count` values of type `T` in a row, where their total
    /// size does not exceed `max_size()`.
    pub fn array<T>(count: usize) -> (r: Option<Layout>)
        ensures
            r is Some <==> array_size::<T>(count as nat) <= max_size(),
            r matches Some(layout) ==> layout.size() == array_size::<T>(count as nat)
                && layout.align() == align_of::<T>(),
    {
        let unit = Layout::new::<T>();
        proof {
            use_type_invariant(&unit);
            broadcast use vstd::layout::align_properties;

        }
        match count.checked_mul(unit.size) {
            None => None,
            Some(total) => {
                proof {
                    lemma_pow2_divides_word(unit.align);
                    lemma_mul_mod_noop_right(count as int, unit.size as int, unit.align as int);
                    lemma_mul_basics(count as int);
                    lemma_round_up_fixed(total as nat, unit.align as nat);
                }
                Layout::from_size_align(total, unit.align)
            },
        }
    }

    /// Where a region of this layout lands in a buffer of `capacity` bytes
    /// whose first `offset` bytes are taken: the offsets of its first byte
    /// and of the byte after its last, or `None` where it has no room.
    ///
    /// The region starts at `offset` rounded up to this layout's alignment.
    pub fn place(&self, offset: usize, capacity: usize) -> (r: Option<(usize, usize)>)
        ensures
            r is Some <==> fits(
                offset as nat,
                capacity as nat,
                self.size() as nat,
                self.align() as nat,
            ),
            r matches Some((start, end)) ==> start == round_up(offset as nat, self.align() as nat)
                && end == start + self.size(),
    {
        proof {
            use_type_invariant(self);
            lemma_pow2_divides_word(self.align);
        }
        let mask: usize = self.align - 1;
        let start: usize = match offset.checked_add(mask) {
            Some(raised) => {
                proof {
                    lemma_mask_rounds_up(offset, self.align);
                }
                raised & !mask
            },
            None => {
                proof {
                    lemma_round_up_beyond_word(offset, self.align);
                }
                return None;
            },
        };
        if start > capacity || self.size > capacity - start {
            return None;
        }
        Some((start, start + self.size))
    }

    /// The size in bytes.
    #[verifier::when_used_as_spec(spec_size)]
    pub fn size(&self) -> (r: usize)
        ensures
            r == self.spec_size(),
            representable(self.spec_size() as nat, self.spec_align() as nat),
    {
        proof {
            use_type_invariant(self);
        }
        self.size
    }

    /// The alignment in bytes: a power of two.
    #[verifier::when_used_as_spec(spec_align)]
    pub fn align(&self) -> (r: usize)
        ensures
            r == self.spec_align(),
            representable(self.spec_size() as nat, self.spec_align() as nat),
    {
        proof {
            use_type_invariant(self);
        }
        self.align
    }
}

} // verus!
