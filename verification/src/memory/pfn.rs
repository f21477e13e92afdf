use vstd::prelude::*;

verus! {

pub const PAGE_SIZE: usize = 4096;

/// `addr` divided by the page size, rounded up.
pub open spec fn pages_up(addr: int) -> int {
    if addr % (PAGE_SIZE as int) == 0 {
        addr / (PAGE_SIZE as int)
    } else {
        addr / (PAGE_SIZE as int) + 1
    }
}

/// The number of trailing zero bits of `x`; 64 for zero.
pub open spec fn trailing_zeros(x: nat) -> nat
    decreases x,
{
    if x == 0 {
        64
    } else if x % 2 == 1 {
        0
    } else {
        1 + trailing_zeros(x / 2)
    }
}

/// Page Frame Number
#[derive(Debug, Clone, Copy, PartialEq, Eq, PartialOrd, Ord)]
pub struct Pfn(pub usize);

impl Pfn {
    pub fn to_addr(self) -> (addr: usize)
        requires
            self.0 * PAGE_SIZE <= usize::MAX,
        ensures
            addr == self.0 * PAGE_SIZE,
    {
        self.0 * PAGE_SIZE
    }

    pub fn from_addr_down(addr: usize) -> (pfn: Self)
        ensures
            pfn.0 == addr / PAGE_SIZE,
    {
        Self(addr / PAGE_SIZE)
    }

    pub fn from_addr_up(addr: usize) -> (pfn: Self)
        ensures
            pfn.0 == pages_up(addr as int),
    {
        if addr % PAGE_SIZE == 0 {
            Self(addr / PAGE_SIZE)
        } else {
            Self(addr / PAGE_SIZE + 1)
        }
    }

    pub fn offset(self, offset: usize) -> (pfn: Self)
        requires
            self.0 + offset <= usize::MAX,
        ensures
            pfn.0 == self.0 + offset,
    {
        Self(self.0 + offset)
    }

    pub fn pages_until(self, end: Pfn) -> (pages: usize)
        requires
            self.0 <= end.0,
        ensures
            pages == end.0 - self.0,
    {
        end.0 - self.0
    }

    /// The largest order this frame number is aligned to; 64 for frame zero.
    pub fn alignment_order(self) -> (order: usize)
        ensures
            order == trailing_zeros(self.0 as nat),
            self.0 != 0 ==> order < 64,
            self.0 != 0 ==> (self.0 as nat) % vstd::arithmetic::power2::pow2(order as nat) == 0,
    {
        if self.0 == 0 {
            return 64;
        }
        let mut x = self.0;
        let mut order: usize = 0;
        proof {
            vstd::arithmetic::power2::lemma2_to64();
        }
        while x % 2 == 0
            invariant
                x != 0,
                order < 64,
                order + trailing_zeros(x as nat) == trailing_zeros(self.0 as nat),
                x as nat * vstd::arithmetic::power2::pow2(order as nat) == self.0,
            decreases x,
        {
            proof {
                vstd::arithmetic::power2::lemma_pow2_unfold((order + 1) as nat);
                assert(x as nat * vstd::arithmetic::power2::pow2(order as nat) == (x / 2) as nat
                    * vstd::arithmetic::power2::pow2((order + 1) as nat)) by (nonlinear_arith)
                    requires
                        x % 2 == 0,
                        vstd::arithmetic::power2::pow2((order + 1) as nat) == 2
                            * vstd::arithmetic::power2::pow2(order as nat),
                ;
                lemma_pow2_bound_order((x / 2) as usize, (order + 1) as nat, self.0);
            }
            x = x / 2;
            order += 1;
        }
        proof {
            vstd::arithmetic::power2::lemma_pow2_pos(order as nat);
            vstd::arithmetic::div_mod::lemma_mod_multiples_basic(x as int, vstd::arithmetic::power2::pow2(order as nat) as int);
        }
        order
    }

    pub fn index_from(self, base: Pfn) -> (index: usize)
        requires
            base.0 <= self.0,
        ensures
            index == self.0 - base.0,
    {
        self.0 - base.0
    }

    /// Get the buddy PFN for a given order.
    pub fn buddy(self, order: usize) -> (buddy: Self)
        requires
            order < usize::BITS,
        ensures
            buddy.0 == self.0 ^ (1usize << order),
    {
        Self(self.0 ^ (1usize << order))
    }
}

/// A nonzero multiple of `2^order` that fits in a `usize` has `order` below 64.
proof fn lemma_pow2_bound_order(x: usize, order: nat, value: usize)
    requires
        x != 0,
        x as nat * vstd::arithmetic::power2::pow2(order) == value,
    ensures
        order < 64,
{
    vstd::arithmetic::power2::lemma_pow2_pos(order);
    if order >= 64 {
        vstd::arithmetic::power2::lemma2_to64();
        if order > 64 {
            vstd::arithmetic::power2::lemma_pow2_strictly_increases(64, order);
        }
        assert(x as nat * vstd::arithmetic::power2::pow2(order) >= vstd::arithmetic::power2::pow2(
            order,
        )) by (nonlinear_arith)
            requires
                x >= 1,
        ;
    }
}

} // verus!
