use vstd::prelude::*;

use vstd::arithmetic::power2::*;
use vstd::bits::*;

verus! {

/// `t` is a multiple of `align`.
pub open spec fn aligned(t: int, align: int) -> bool {
    t % align == 0
}

/// `x` is a power of two.
pub open spec fn is_pow2(x: usize) -> bool {
    exists|n: nat| n < usize::BITS && x == pow2(n)
}

/// Whether `x` is a power of two, found by trying every single-bit value.
pub fn is_power_of_two(x: usize) -> (pow2: bool)
    ensures
        pow2 == is_pow2(x),
{
    let mut n: usize = 0;
    while n < usize::BITS as usize
        invariant
            n <= usize::BITS,
            forall|k: nat| k < n ==> x != #[trigger] pow2(k),
        decreases usize::BITS - n,
    {
        proof {
            lemma_usize_pow2_no_overflow(n as nat);
            lemma_usize_shl_is_mul(1, n);
        }
        if x == 1usize << n {
            assert(x == pow2(n as nat));
            return true;
        }
        n += 1;
    }
    false
}

/// Size and alignment of a block of memory. The alignment is a power of two,
/// and the size rounded up to it stays within `isize::MAX`.
#[derive(Clone, Copy, Debug)]
pub struct Layout {
    size: usize,
    align: usize,
}

impl Layout {
    pub open spec fn valid(size: usize, align: usize) -> bool {
        &&& is_pow2(align)
        &&& size + (align - 1) <= isize::MAX
    }

    pub closed spec fn spec_size(self) -> usize {
        self.size
    }

    pub closed spec fn spec_align(self) -> usize {
        self.align
    }

    #[verifier::type_invariant]
    closed spec fn inv(self) -> bool {
        Self::valid(self.size, self.align)
    }

    /// The layout of `size` bytes aligned to `align`, if that pair is valid.
    pub fn from_size_align(size: usize, align: usize) -> (layout: Option<Layout>)
        ensures
            layout is Some <==> Self::valid(size, align),
            layout matches Some(l) ==> l.spec_size() == size && l.spec_align() == align,
    {
        if !is_power_of_two(align) {
            return None;
        }
        proof {
            lemma_pow2_at_most_half_max(align);
        }
        if size > (isize::MAX as usize) - (align - 1) {
            return None;
        }
        Some(Layout { size, align })
    }

    pub fn size(&self) -> (size: usize)
        ensures
            size == self.spec_size(),
            Self::valid(self.spec_size(), self.spec_align()),
    {
        proof {
            use_type_invariant(self);
        }
        self.size
    }

    pub fn align(&self) -> (align: usize)
        ensures
            align == self.spec_align(),
            Self::valid(self.spec_size(), self.spec_align()),
    {
        proof {
            use_type_invariant(self);
        }
        self.align
    }
}

} // verus!

verus! {

/// A power of two below 2^64 as an exponent of two.
pub proof fn lemma_pow2_exponent(align: usize) -> (n: nat)
    requires
        is_pow2(align),
    ensures
        n < usize::BITS,
        align == pow2(n),
        align > 0,
{
    let n = choose|n: nat| n < usize::BITS && align == pow2(n);
    lemma_pow2_pos(n);
    n
}

/// A `usize` power of two is at most `isize::MAX + 1`, the top bit alone.
pub proof fn lemma_pow2_at_most_half_max(align: usize)
    requires
        is_pow2(align),
    ensures
        0 < align,
        align - 1 <= isize::MAX,
{
    let n = lemma_pow2_exponent(align);
    lemma2_to64();
    lemma_pow2_adds(32, 31);
    if usize::BITS == 64 {
        if n < 63 {
            lemma_pow2_strictly_increases(n, 63);
        }
    } else {
        if n < 31 {
            lemma_pow2_strictly_increases(n, 31);
        }
    }
}

/// For a power-of-two `align`, masking with `align - 1` is taking the remainder.
pub proof fn lemma_mask_is_mod(x: usize, align: usize)
    requires
        is_pow2(align),
    ensures
        x & ((align - 1) as usize) == x % align,
{
    let n = lemma_pow2_exponent(align);
    lemma_usize_low_bits_mask_is_mod(x, n);
}

/// Clearing the bits of a mask subtracts them.
pub proof fn lemma_clear_mask(x: usize, m: usize)
    ensures
        x & !m == x - (x & m),
        x & m <= x,
{
    assert(x & !m == x - (x & m) && x & m <= x) by (bit_vector);
}

/// Rounding up to a power-of-two alignment lands on a multiple of it, no
/// lower than where it started and less than a whole alignment above.
pub proof fn lemma_align_up(addr: usize, align: usize)
    requires
        is_pow2(align),
        addr + (align - 1) <= usize::MAX,
    ensures
        ({
            let r = ((addr + (align - 1)) as usize) & !((align - 1) as usize);
            &&& r % align == 0
            &&& addr <= r
            &&& r < addr + align
        }),
{
    let m = (align - 1) as usize;
    let s = (addr + m) as usize;
    lemma_clear_mask(s, m);
    lemma_mask_is_mod(s, align);
    lemma_pow2_exponent(align);
    vstd::arithmetic::div_mod::lemma_fundamental_div_mod(s as int, align as int);
    vstd::arithmetic::div_mod::lemma_mod_multiples_basic(s as int / align as int, align as int);
    vstd::arithmetic::mul::lemma_mul_is_commutative(s as int / align as int, align as int);
}

/// Rounding down to a power-of-two alignment lands on a multiple of it, no
/// higher than where it started and less than a whole alignment below.
pub proof fn lemma_align_down(addr: usize, align: usize)
    requires
        is_pow2(align),
    ensures
        ({
            let r = addr & !((align - 1) as usize);
            &&& r % align == 0
            &&& r <= addr
            &&& addr < r + align
        }),
{
    let m = (align - 1) as usize;
    lemma_clear_mask(addr, m);
    lemma_mask_is_mod(addr, align);
    lemma_pow2_exponent(align);
    vstd::arithmetic::div_mod::lemma_fundamental_div_mod(addr as int, align as int);
    vstd::arithmetic::div_mod::lemma_mod_multiples_basic(addr as int / align as int, align as int);
    vstd::arithmetic::mul::lemma_mul_is_commutative(addr as int / align as int, align as int);
}

/// Two different multiples of `align` are at least `align` apart.
pub proof fn lemma_multiples_apart(t: int, r: int, align: int)
    requires
        align > 0,
        t % align == 0,
        r % align == 0,
        t < r,
    ensures
        t + align <= r,
{
    vstd::arithmetic::div_mod::lemma_fundamental_div_mod(t, align);
    vstd::arithmetic::div_mod::lemma_fundamental_div_mod(r, align);
    let qt = t / align;
    let qr = r / align;
    assert(qt < qr) by (nonlinear_arith)
        requires
            t == align * qt,
            r == align * qr,
            t < r,
            align > 0,
    ;
    assert(t + align <= r) by (nonlinear_arith)
        requires
            t == align * qt,
            r == align * qr,
            qt + 1 <= qr,
            align > 0,
    ;
}

/// The highest multiple of a power of two that a `usize` can hold leaves
/// room for `align - 1` more.
pub proof fn lemma_aligned_below_max(t: usize, align: usize)
    requires
        is_pow2(align),
        t % align == 0,
    ensures
        t + (align - 1) <= usize::MAX,
{
    let n = lemma_pow2_exponent(align);
    lemma2_to64();
    let bits: nat = if usize::BITS == 64 { 64 } else { 32 };
    lemma_pow2_adds(n, (bits - n) as nat);
    lemma_pow2_pos((bits - n) as nat);
    let top = usize::MAX + 1;
    assert(top == pow2(bits));
    assert(top % (align as int) == 0) by {
        vstd::arithmetic::div_mod::lemma_mod_multiples_basic(pow2((bits - n) as nat) as int, align as int);
        vstd::arithmetic::mul::lemma_mul_is_commutative(pow2((bits - n) as nat) as int, align as int);
    }
    lemma_multiples_apart(t as int, top, align as int);
}

} // verus!
