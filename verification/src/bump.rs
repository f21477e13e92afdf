use vstd::prelude::*;

use crate::layout::{aligned, lemma_aligned_below_max, lemma_pow2_exponent, Layout};
use crate::memory::map::align_up;
use crate::region::{ranges_overlap, Region};

verus! {

/// `reserve` found every slot already taken.
pub struct Full;

const IMAGE: &'static str = "kernel image";

const DEVICE_TREE: &'static str = "device tree";

pub const RESERVED_LEN: usize = 16;

/// Hands out memory front to back and never takes it back, stepping over the
/// regions it was told to keep away from.
pub struct Bump {
    next: usize,
    end: usize,
    reserved: Vec<Region>,
}

/// How many of `rs` end at or below `n`.
pub open spec fn ended_before(rs: Seq<Region>, n: int) -> nat
    decreases rs.len(),
{
    if rs.len() == 0 {
        0
    } else {
        ended_before(rs.drop_last(), n) + (if rs.last().spec_end() <= n {
            1nat
        } else {
            0nat
        })
    }
}

proof fn lemma_ended_at_most_len(rs: Seq<Region>, n: int)
    ensures
        ended_before(rs, n) <= rs.len(),
    decreases rs.len(),
{
    if rs.len() > 0 {
        lemma_ended_at_most_len(rs.drop_last(), n);
    }
}

proof fn lemma_ended_monotone(rs: Seq<Region>, n1: int, n2: int)
    requires
        n1 <= n2,
    ensures
        ended_before(rs, n1) <= ended_before(rs, n2),
    decreases rs.len(),
{
    if rs.len() > 0 {
        lemma_ended_monotone(rs.drop_last(), n1, n2);
    }
}

proof fn lemma_ended_grows(rs: Seq<Region>, n1: int, n2: int, i: int)
    requires
        n1 <= n2,
        0 <= i < rs.len(),
        n1 < rs[i].spec_end() <= n2,
    ensures
        ended_before(rs, n1) + 1 <= ended_before(rs, n2),
    decreases rs.len(),
{
    if i == rs.len() - 1 {
        lemma_ended_monotone(rs.drop_last(), n1, n2);
    } else {
        lemma_ended_grows(rs.drop_last(), n1, n2, i);
    }
}

impl Bump {
    /// The next address the bump pointer would try.
    pub closed spec fn cursor(self) -> int {
        self.next as int
    }

    /// One past the last address it may hand out.
    pub closed spec fn limit(self) -> int {
        self.end as int
    }

    /// The regions it must never hand out, in the order they were reserved.
    pub closed spec fn reservations(self) -> Seq<Region> {
        self.reserved@
    }

    pub closed spec fn wf(self) -> bool {
        &&& self.reserved@.len() <= RESERVED_LEN
        &&& forall|i: int| 0 <= i < self.reserved@.len() ==> (#[trigger] self.reserved@[i]).wf()
        &&& self.next <= self.end
    }

    /// No reservation shares an address with `[base, base + size)`.
    pub open spec fn clear_of(self, base: int, size: int) -> bool {
        forall|i: int|
            0 <= i < self.reservations().len() ==> !ranges_overlap(
                base,
                size,
                #[trigger] self.reservations()[i].base as int,
                self.reservations()[i].size as int,
            )
    }

    /// A block for `layout` could start at `addr`: aligned, at or past the
    /// pointer, inside memory and clear of every reservation.
    pub open spec fn fits(self, addr: int, layout: Layout) -> bool {
        &&& aligned(addr, layout.spec_align() as int)
        &&& self.cursor() <= addr
        &&& addr + layout.spec_size() <= self.limit()
        &&& self.clear_of(addr, layout.spec_size() as int)
    }

    /// A bump allocator over `memory`, with nothing reserved yet.
    pub fn new(memory: Region) -> (bump: Self)
        requires
            memory.wf(),
        ensures
            bump.wf(),
            bump.cursor() == memory.base,
            bump.limit() == memory.spec_end(),
            bump.reservations() == Seq::<Region>::empty(),
    {
        Self { next: memory.base, end: memory.base + memory.size, reserved: Vec::new() }
    }

    /// A bump allocator over `memory` that steps around the kernel image and
    /// the device tree.
    pub fn discover(memory: Region, image: Region, device_tree: Region) -> (bump: Result<
        Bump,
        &'static str,
    >)
        requires
            memory.wf(),
            image.wf(),
            device_tree.wf(),
        ensures
            bump matches Ok(b) && b.wf() && b.cursor() == memory.base && b.limit()
                == memory.spec_end() && b.reservations() == seq![image, device_tree],
    {
        let mut bump = Bump::new(memory);
        if bump.reserve(image).is_err() {
            return Err(IMAGE);
        }
        if bump.reserve(device_tree).is_err() {
            return Err(DEVICE_TREE);
        }
        assert(bump.reservations() =~= seq![image, device_tree]);
        Ok(bump)
    }

    /// Keep `region` out of every later block, unless all slots are taken.
    pub fn reserve(&mut self, region: Region) -> (result: Result<(), Full>)
        requires
            old(self).wf(),
            region.wf(),
        ensures
            final(self).wf(),
            final(self).cursor() == old(self).cursor(),
            final(self).limit() == old(self).limit(),
            old(self).reservations().len() < RESERVED_LEN ==> result is Ok
                && final(self).reservations() == old(self).reservations().push(region),
            old(self).reservations().len() >= RESERVED_LEN ==> result is Err
                && final(self).reservations() == old(self).reservations(),
    {
        if self.reserved.len() >= RESERVED_LEN {
            return Err(Full);
        }
        self.reserved.push(region);
        Ok(())
    }

    /// An upper bound: reservations ahead of the pointer are not subtracted.
    pub fn remaining(&self) -> (remaining: usize)
        requires
            self.wf(),
        ensures
            remaining == self.limit() - self.cursor(),
    {
        self.end - self.next
    }

    /// The lowest address a block for `layout` fits at, and the pointer moved
    /// past it. `None` when no address fits, and also when the lowest one is
    /// address zero, which is not a usable pointer; the pointer still moves.
    pub fn allocate(&mut self, layout: Layout) -> (block: Option<usize>)
        requires
            old(self).wf(),
        ensures
            final(self).wf(),
            final(self).reservations() == old(self).reservations(),
            final(self).limit() == old(self).limit(),
            match block {
                Some(addr) => {
                    &&& addr != 0
                    &&& old(self).fits(addr as int, layout)
                    &&& forall|t: int| old(self).fits(t, layout) ==> addr <= t
                    &&& final(self).cursor() == addr + layout.spec_size()
                },
                None => {
                    ||| (forall|t: int| !old(self).fits(t, layout)) && final(self).cursor()
                        == old(self).cursor()
                    ||| old(self).fits(0, layout) && final(self).cursor() == layout.spec_size()
                },
            },
    {
        let size = layout.size();
        let align = layout.align();
        proof {
            lemma_pow2_exponent(align);
        }
        let mut count: usize = 0;
        let mut next = self.next;
        loop
            invariant
                self.wf(),
                *self == *old(self),
                size == layout.spec_size(),
                align == layout.spec_align(),
                Layout::valid(size, align),
                align > 0,
                self.cursor() <= next,
                forall|t: int| t < next ==> !#[trigger] self.fits(t, layout),
                count <= ended_before(self.reserved@, next as int),
            decreases self.reserved@.len() + 1 - count,
        {
            proof {
                lemma_ended_at_most_len(self.reserved@, next as int);
            }
            // There could not be more jumps than reserved regions
            if count > self.reserved.len() {
                return None;
            }
            count += 1;
            if next > usize::MAX - (align - 1) {
                proof {
                    assert forall|t: int| !self.fits(t, layout) by {
                        if self.fits(t, layout) {
                            lemma_aligned_below_max(t as usize, align);
                        }
                    }
                }
                return None;
            }
            let start = align_up(next, align);
            if start > self.end || size > self.end - start {
                proof {
                    assert forall|t: int| !self.fits(t, layout) by {
                        if self.fits(t, layout) {
                            assert(t >= next);
                            assert(start <= t);
                        }
                    }
                }
                return None;
            }
            let region = Region { base: start, size };
            match self.intersected_reserved_region(region) {
                Some(r) => {
                    let ghost i = choose|i: int|
                        0 <= i < self.reserved@.len() && self.reserved@[i] == r
                            && region.overlaps(r);
                    let ghost old_next = next;
                    next = r.end();
                    proof {
                        assert forall|t: int| t < next implies !#[trigger] self.fits(t, layout) by {
                            if t >= old_next && self.fits(t, layout) {
                                assert(start <= t);
                                assert(!ranges_overlap(
                                    t,
                                    size as int,
                                    self.reservations()[i].base as int,
                                    self.reservations()[i].size as int,
                                ));
                            }
                        }
                        lemma_ended_grows(self.reserved@, old_next as int, next as int, i);
                    }
                    continue ;
                },
                None => {},
            }
            self.next = start + size;
            if start == 0 {
                return None;
            }
            return Some(start);
        }
    }

    /// The first reservation, in the order they were made, that `region` runs into.
    fn intersected_reserved_region(&self, region: Region) -> (hit: Option<Region>)
        requires
            self.wf(),
            region.wf(),
        ensures
            match hit {
                Some(r) => exists|i: int|
                    0 <= i < self.reserved@.len() && self.reserved@[i] == r && region.overlaps(r),
                None => forall|i: int|
                    0 <= i < self.reserved@.len() ==> !region.overlaps(#[trigger] self.reserved@[i]),
            },
    {
        let mut i: usize = 0;
        while i < self.reserved.len()
            invariant
                self.wf(),
                region.wf(),
                i <= self.reserved@.len(),
                forall|j: int| 0 <= j < i ==> !region.overlaps(#[trigger] self.reserved@[j]),
            decreases self.reserved@.len() - i,
        {
            let r = self.reserved[i];
            if region.is_overlapping(&r) {
                return Some(r);
            }
            i += 1;
        }
        None
    }
}

/// `states` are the allocator before and after each of a run of successful
/// allocations: block `i` fits in the state before it, and the state after
/// it has the pointer just past the block, the same limit and the same
/// reservations.
pub open spec fn allocation_run(states: Seq<Bump>, blocks: Seq<int>, layouts: Seq<Layout>) -> bool {
    &&& states.len() == blocks.len() + 1
    &&& layouts.len() == blocks.len()
    &&& forall|i: int|
        0 <= i < blocks.len() ==> {
            &&& #[trigger] states[i].fits(blocks[i], layouts[i])
            &&& states[i + 1].cursor() == blocks[i] + layouts[i].spec_size()
            &&& states[i + 1].limit() == states[i].limit()
            &&& states[i + 1].reservations() == states[i].reservations()
        }
}

/// The bytes the first `n` layouts ask for.
pub open spec fn total_size(layouts: Seq<Layout>, n: int) -> int
    decreases n,
{
    if n <= 0 {
        0
    } else {
        total_size(layouts, n - 1) + layouts[n - 1].spec_size()
    }
}

/// Along a run, the pointer never moves back, and each state after the
/// first is at or past the end of every earlier block.
proof fn lemma_run_cursor(states: Seq<Bump>, blocks: Seq<int>, layouts: Seq<Layout>, i: int, j: int)
    requires
        allocation_run(states, blocks, layouts),
        0 <= i < j <= blocks.len(),
    ensures
        blocks[i] + layouts[i].spec_size() <= states[j].cursor(),
        states[j].limit() == states[0].limit(),
        states[j].reservations() == states[0].reservations(),
        total_size(layouts, j) <= states[j].cursor() - states[0].cursor(),
    decreases j,
{
    assert(states[j - 1].fits(blocks[j - 1], layouts[j - 1]));
    assert(total_size(layouts, j) == total_size(layouts, j - 1) + layouts[j - 1].spec_size());
    if j - 1 > i {
        lemma_run_cursor(states, blocks, layouts, i, j - 1);
    } else if j - 1 > 0 {
        lemma_run_cursor(states, blocks, layouts, 0, j - 1);
    } else {
        assert(total_size(layouts, 0) == 0);
    }
}

/// However the later blocks are asked for, no two blocks of a run share an
/// address: each ends at or before the next one starts.
pub proof fn lemma_blocks_never_overlap(states: Seq<Bump>, blocks: Seq<int>, layouts: Seq<Layout>)
    requires
        allocation_run(states, blocks, layouts),
    ensures
        forall|i: int, j: int|
            0 <= i < j < blocks.len() ==> #[trigger] blocks[i] + layouts[i].spec_size() <= #[trigger] blocks[j],
{
    assert forall|i: int, j: int| 0 <= i < j < blocks.len() implies #[trigger] blocks[i]
        + layouts[i].spec_size() <= #[trigger] blocks[j] by {
        lemma_run_cursor(states, blocks, layouts, i, j);
        assert(states[j].fits(blocks[j], layouts[j]));
    }
}

/// What `remaining` reports bounds every run that follows: the blocks of a
/// run never add up to more bytes than were left before it.
pub proof fn lemma_remaining_bounds_run(states: Seq<Bump>, blocks: Seq<int>, layouts: Seq<Layout>)
    requires
        allocation_run(states, blocks, layouts),
        states[0].wf(),
    ensures
        total_size(layouts, blocks.len() as int) <= states[0].limit() - states[0].cursor(),
{
    let n = blocks.len() as int;
    if n > 0 {
        lemma_run_cursor(states, blocks, layouts, n - 1, n);
        lemma_run_cursor(states, blocks, layouts, 0, n);
        assert(states[n - 1].fits(blocks[n - 1], layouts[n - 1]));
        if n - 1 > 0 {
            lemma_run_cursor(states, blocks, layouts, 0, n - 1);
        }
    }
}

/// After `discover`, the kernel image and the device tree stay out of every
/// block of every run that follows.
pub proof fn lemma_discovered_regions_kept(
    states: Seq<Bump>,
    blocks: Seq<int>,
    layouts: Seq<Layout>,
    image: Region,
    device_tree: Region,
)
    requires
        allocation_run(states, blocks, layouts),
        states[0].reservations() == seq![image, device_tree],
    ensures
        forall|i: int|
            0 <= i < blocks.len() ==> !ranges_overlap(
                #[trigger] blocks[i],
                layouts[i].spec_size() as int,
                image.base as int,
                image.size as int,
            ) && !ranges_overlap(
                blocks[i],
                layouts[i].spec_size() as int,
                device_tree.base as int,
                device_tree.size as int,
            ),
{
    assert forall|i: int| 0 <= i < blocks.len() implies !ranges_overlap(
        #[trigger] blocks[i],
        layouts[i].spec_size() as int,
        image.base as int,
        image.size as int,
    ) && !ranges_overlap(
        blocks[i],
        layouts[i].spec_size() as int,
        device_tree.base as int,
        device_tree.size as int,
    ) by {
        if i > 0 {
            lemma_run_cursor(states, blocks, layouts, i - 1, i);
        }
        assert(states[i].fits(blocks[i], layouts[i]));
        assert(states[i].reservations()[0] == image);
        assert(states[i].reservations()[1] == device_tree);
    }
}

/// Blocks handed out one after another never overlap: a block ends where
/// the bump pointer then stands, and every later block starts at or past
/// the pointer.
pub proof fn lemma_later_blocks_apart(
    before: Bump,
    a: int,
    la: Layout,
    later: Bump,
    b: int,
    lb: Layout,
)
    requires
        before.fits(a, la),
        later.cursor() >= a + la.spec_size(),
        later.fits(b, lb),
    ensures
        a + la.spec_size() <= b,
{
}

} // verus!
