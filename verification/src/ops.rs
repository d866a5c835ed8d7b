//! Alignment arithmetic on addresses.

use vstd::prelude::*;

verus! {

/// `n` is a power of two: a single bit is set.
pub open spec fn spec_is_pow2(n: usize) -> bool {
    n >= 1 && n & ((n - 1) as usize) == 0
}

/// Distance from `adr` up to the next multiple of `align`.
pub open spec fn spec_align_gap(adr: int, align: int) -> int {
    if adr % align == 0 {
        0
    } else {
        align - adr % align
    }
}

/// The smallest multiple of `align` that is not below `adr`.
pub open spec fn spec_up_align(adr: int, align: int) -> int {
    adr + spec_align_gap(adr, align)
}

/// The largest multiple of `align` that is not above `adr`.
pub open spec fn spec_down_align(adr: int, align: int) -> int {
    adr - adr % align
}

pub proof fn lemma_up_align_is_aligned(adr: int, align: int)
    requires
        align >= 1,
        adr >= 0,
    ensures
        spec_up_align(adr, align) % align == 0,
        0 <= spec_align_gap(adr, align) < align,
        adr <= spec_up_align(adr, align) < adr + align,
{
    vstd::arithmetic::div_mod::lemma_mod_bound(adr, align);
    let r = adr % align;
    if r != 0 {
        assert((adr + (align - r)) % align == 0) by (nonlinear_arith)
            requires align >= 1, adr >= 0, r == adr % align, r != 0;
    }
}

pub fn is_pow2(n: usize) -> (r: bool)
    ensures
        r == spec_is_pow2(n),
{
    n >= 1 && n & (n - 1) == 0
}

/// How many bytes lie between `adr` and the next `align`-aligned address.
pub fn align_gap_of(adr: usize, align: usize) -> (gap: usize)
    requires
        align >= 1,
    ensures
        gap == spec_align_gap(adr as int, align as int),
        gap < align,
{
    let rem = adr % align;
    if rem == 0 {
        0
    } else {
        align - rem
    }
}

/// Round `adr` up to the next multiple of `align`.
///
/// `align` must be a power of two, as in every use the allocator makes of
/// alignment.
pub fn up_align(adr: usize, align: usize) -> (r: usize)
    requires
        spec_is_pow2(align),
        spec_up_align(adr as int, align as int) <= usize::MAX,
    ensures
        r == spec_up_align(adr as int, align as int),
        r % align == 0,
        adr <= r < adr + align,
{
    proof {
        lemma_up_align_is_aligned(adr as int, align as int);
    }
    let gap = align_gap_of(adr, align);
    adr + gap
}

/// Round `adr` down to the previous multiple of `align`.
///
/// `align` must be a power of two, as in every use the allocator makes of
/// alignment.
pub fn down_align(adr: usize, align: usize) -> (r: usize)
    requires
        spec_is_pow2(align),
    ensures
        r == spec_down_align(adr as int, align as int),
        r % align == 0,
        r <= adr < r + align,
{
    proof {
        lemma_up_align_is_aligned(adr as int, align as int);
        let a = adr as int;
        let al = align as int;
        assert(0 <= a % al < al);
        assert(a % al <= a) by (nonlinear_arith)
            requires al >= 1, a >= 0;
        assert((a - a % al) % al == 0) by (nonlinear_arith)
            requires al >= 1, a >= 0;
    }
    adr - adr % align
}

} // verus!
