//! Machine constants and address rounding.

use vstd::prelude::*;

verus! {

/// log2 of the page size.
pub const LG_PAGE: usize = 12;

/// log2 of the cache line size.
pub const LG_CACHELINE: usize = 6;

/// Bytes in a page.
pub const PAGE: usize = 4096;

/// Mask of the bits below a page boundary.
pub const PAGE_MASK: usize = 4095;

/// Bytes in a cache line.
pub const CACHELINE: usize = 64;

/// Mask of the bits below a cache line boundary.
pub const CACHELINE_MASK: usize = 63;

/// Bytes in a pointer.
pub const PTR_SZ: usize = 8;

/// Mask of the bits below a pointer boundary.
pub const PTR_MASK: usize = 7;

/// The least multiple of the page size that is at least `s`.
pub open spec fn spec_page_ceiling(s: int) -> int {
    ((s + 4095) / 4096) * 4096
}

/// `x` has exactly one bit set.
pub open spec fn spec_is_power_of_two(x: usize) -> bool {
    x != 0 && x & ((x - 1) as usize) == 0
}

/// The least multiple of `align` that is at least `val`, for `align` a power
/// of two; the same bit formula otherwise.
pub open spec fn spec_align_val(val: usize, align: usize) -> usize {
    ((val + (align - 1)) as usize) & !((align - 1) as usize)
}

/// Rounds `s` up to a whole number of pages.
pub fn page_ceiling(s: usize) -> (r: usize)
    requires
        s + 4095 <= usize::MAX,
    ensures
        r == spec_page_ceiling(s as int),
        r % 4096 == 0,
        s <= r < s + 4096,
{
    let t: usize = s + (PAGE - 1);
    let r: usize = t & !(PAGE - 1);
    assert(t & !4095usize == (t / 4096) * 4096) by (bit_vector);
    r
}

/// Rounds `val` up to the next multiple of `align`.
pub fn align_val(val: usize, align: usize) -> (r: usize)
    requires
        align > 0,
        val + (align - 1) <= usize::MAX,
    ensures
        r == spec_align_val(val, align),
        spec_is_power_of_two(align) ==> val <= r < val + align && r & ((align - 1) as usize)
            == 0 && r % align == 0,
{
    let t: usize = val + (align - 1);
    let m: usize = !(align - 1);
    let r: usize = t & m;
    proof {
        if spec_is_power_of_two(align) {
            lemma_align_val(val, align);
            lemma_round_mask(val, align);
        }
    }
    r
}

/// The least address at or above `addr` that is a multiple of `align`.
pub fn align_addr(addr: usize, align: usize) -> (r: usize)
    requires
        align > 0,
        addr + (align - 1) <= usize::MAX,
    ensures
        r == spec_align_val(addr, align),
        spec_is_power_of_two(align) ==> addr <= r < addr + align && r & ((align - 1) as usize)
            == 0 && r % align == 0,
{
    align_val(addr, align)
}

/// Whether `x` is a power of two.
pub fn is_power_of_two(x: usize) -> (r: bool)
    ensures
        r == spec_is_power_of_two(x),
{
    x != 0 && (x & (x - 1)) == 0
}

/// Rounding up to a power of two gives the least multiple of it that is not
/// less.
pub proof fn lemma_align_val(val: usize, align: usize)
    requires
        spec_is_power_of_two(align),
        val + (align - 1) <= usize::MAX,
    ensures
        val <= spec_align_val(val, align) < val + align,
        spec_align_val(val, align) % align == 0,
        val % align == 0 ==> spec_align_val(val, align) == val,
{
    let t: usize = (val + (align - 1)) as usize;
    let m: usize = !((align - 1) as usize);
    let r: usize = t & m;
    assert(val <= r && r - val < align && r & ((align - 1) as usize) == 0) by (bit_vector)
        requires
            align > 0,
            align & ((align - 1) as usize) == 0,
            val <= t,
            t - val == align - 1,
            m == !((align - 1) as usize),
            r == t & m,
    ;
    lemma_mask_mod(r, align);
    if val % align == 0 && r != val {
        let d = r - val;
        vstd::arithmetic::div_mod::lemma_fundamental_div_mod(r as int, align as int);
        vstd::arithmetic::div_mod::lemma_fundamental_div_mod(val as int, align as int);
        let q1 = r as int / align as int;
        let q2 = val as int / align as int;
        assert(d == (q1 - q2) * align) by (nonlinear_arith)
            requires
                r == align * q1,
                val == align * q2,
                d == r - val,
        ;
        assert(false) by (nonlinear_arith)
            requires
                d == (q1 - q2) * align,
                0 < d < align,
        ;
    }
}

/// What was rounded up to a power of two has its low bits clear.
pub proof fn lemma_round_mask(val: usize, align: usize)
    by (bit_vector)
    requires
        align > 0,
        align & ((align - 1) as usize) == 0,
    ensures
        spec_align_val(val, align) & ((align - 1) as usize) == 0,
{
}

/// Halving a power of two above 1 gives a power of two, and a number whose
/// low bits are clear under the mask of the one has them clear, when
/// halved, under the mask of the other.
proof fn lemma_halve(x: usize, a: usize)
    by (bit_vector)
    requires
        a > 1,
        a & ((a - 1) as usize) == 0,
    ensures
        a % 2 == 0,
        (a / 2) != 0,
        (a / 2) & ((a / 2 - 1) as usize) == 0,
        x & ((a - 1) as usize) == 0 ==> x % 2 == 0 && (x / 2) & ((a / 2 - 1) as usize) == 0,
{
}

/// A number whose low bits are clear under the mask of a power of two is a
/// multiple of it.
pub proof fn lemma_mask_mod(x: usize, a: usize)
    requires
        spec_is_power_of_two(a),
        x & ((a - 1) as usize) == 0,
    ensures
        x % a == 0,
    decreases a,
{
    if a > 1 {
        lemma_halve(x, a);
        let h: usize = a / 2;
        let y: usize = x / 2;
        lemma_mask_mod(y, h);
        let q = y as int / h as int;
        vstd::arithmetic::div_mod::lemma_fundamental_div_mod(y as int, h as int);
        assert(x == q * a) by (nonlinear_arith)
            requires
                y == h * q + 0,
                x == 2 * y,
                a == 2 * h,
        ;
        vstd::arithmetic::div_mod::lemma_mod_multiples_basic(q, a as int);
    }
}

/// A power of two up to the page size divides it.
pub proof fn lemma_divides_page(a: usize)
    requires
        spec_is_power_of_two(a),
        a <= PAGE,
    ensures
        4096int % (a as int) == 0,
{
    assert(4096usize & ((a - 1) as usize) == 0) by (bit_vector)
        requires
            a != 0,
            a <= 4096,
            a & ((a - 1) as usize) == 0,
    ;
    lemma_mask_mod(4096, a);
}

} // verus!
