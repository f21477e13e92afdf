use vstd::prelude::*;

use vstd::arithmetic::power2::{lemma2_to64, lemma_pow2_pos, pow2};

use crate::frames::{apart, block_inside, Frames, MAX_ORDER};
use crate::layout::{is_pow2, Layout};
use crate::memory::gaps::free_frame;
use crate::memory::map::MemoryMap;
use crate::memory::pages::{no_room_for_metadata, Entry, Pages};
use crate::memory::pfn::{Pfn, PAGE_SIZE};
use crate::slab::cache::{is_live, pages_kept, slab_page, Cache};
use crate::slab::{
    class_of, class_shift, class_size, entry_class, fits_class, free_slots, slot_addr, CLASSES_COUNT,
};

verus! {

/// `a` is the first frame of the first free block of `order` frames or
/// more, in order of size, as an address.
pub open spec fn first_block(frames: Frames, order: int, a: int) -> bool {
    exists|k: int|
        order <= k <= MAX_ORDER && #[trigger] frames.free_lists()[k].len() > 0 && (forall|j: int|
            order <= j < k ==> #[trigger] frames.free_lists()[j].len() == 0) && a == frames.free_lists()[k][0]
            * PAGE_SIZE
}

/// `a` is the object of class `class` the heap hands out next: the first
/// free object of the first slab on the class's list, or, with no such
/// slab, the start of a fresh page.
pub open spec fn first_object(heap: Heap, class: int, a: int) -> bool {
    let partial = heap.spec_cache().partial()[class];
    if partial.len() > 0 {
        a == slot_addr(
            partial[0] as int,
            class_shift(class),
            free_slots(heap.spec_pages(), heap.spec_cache().words(), partial[0] as int)[0] as int,
        )
    } else {
        first_block(heap.spec_frames(), 0, a)
    }
}

/// Some size class holds objects of `size` bytes aligned to `align`.
pub open spec fn has_class(size: int, align: int) -> bool {
    exists|c: int| 0 <= c < CLASSES_COUNT && fits_class(size, align, c)
}

/// `a` is the start of a run of frames handed out whole, not as a slab.
pub open spec fn is_page_block(pages: Pages, frames: Frames, a: int) -> bool {
    &&& 0 <= a <= usize::MAX
    &&& a % PAGE_SIZE as int == 0
    &&& frames.allocated().contains_key((a / PAGE_SIZE as int) as usize)
    &&& !(pages.entry_at(a / PAGE_SIZE as int) is Slab)
}

/// The smallest order of a block of frames that holds `n` frames.
pub open spec fn fitting_order(n: int, order: nat) -> bool {
    &&& n <= pow2(order)
    &&& order == 0 || pow2((order - 1) as nat) < n
}

/// The frames a large layout takes: its size in frames, or its alignment in
/// frames, whichever is more.
pub open spec fn frames_for(size: int, align: int) -> int {
    let size_pages = (size + PAGE_SIZE - 1) / PAGE_SIZE as int;
    let align_pages = (align + PAGE_SIZE - 1) / PAGE_SIZE as int;
    if size_pages > align_pages {
        size_pages
    } else {
        align_pages
    }
}

/// The kernel heap: frame metadata, the buddy allocator over the frames, and
/// the slab cache for small objects on top of it.
pub struct Heap {
    pages: Pages,
    frames: Frames,
    cache: Cache,
}

impl Heap {
    pub closed spec fn spec_pages(self) -> Pages {
        self.pages
    }

    pub closed spec fn spec_frames(self) -> Frames {
        self.frames
    }

    pub closed spec fn spec_cache(self) -> Cache {
        self.cache
    }

    pub closed spec fn wf(self) -> bool {
        self.cache.wf(self.pages, self.frames)
    }

    /// `a` is an object from a slab.
    pub open spec fn is_object(self, a: int) -> bool {
        is_live(self.spec_pages(), self.spec_frames(), self.spec_cache().words(), a)
    }

    /// `a` is the start of a block handed out and not given back.
    pub open spec fn live(self, a: int) -> bool {
        self.is_object(a) || is_page_block(self.spec_pages(), self.spec_frames(), a)
    }

    /// How many bytes the block handed out at `a` spans.
    pub open spec fn extent(self, a: int) -> int {
        if self.is_object(a) {
            class_size(entry_class(self.spec_pages().entry_at(a / PAGE_SIZE as int)))
        } else {
            pow2(self.spec_frames().allocated()[(a / PAGE_SIZE as int) as usize]) * PAGE_SIZE
        }
    }

    /// The buddy allocator has a free block of `order` frames or more.
    pub open spec fn frames_free(self, order: nat) -> bool {
        &&& order <= MAX_ORDER
        &&& exists|k: int| order <= k <= MAX_ORDER && #[trigger] self.spec_frames().free_lists()[k].len() > 0
    }

    /// The slab cache can hand out an object of class `class`: a slab of the
    /// class has room, or a fresh page can be had for a new one.
    pub open spec fn object_free(self, class: int) -> bool {
        self.spec_cache().partial()[class].len() > 0 || self.frames_free(0)
    }

    /// Every block live here is still live in `after`, spanning as much.
    pub open spec fn kept_in(self, after: Heap) -> bool {
        forall|x: int| #[trigger] self.live(x) ==> after.live(x) && after.extent(x) == self.extent(x)
    }

    /// A heap over no memory at all.
    pub fn empty() -> (heap: Self)
        ensures
            heap.wf(),
            forall|a: int| !heap.live(a),
    {
        let pages = Pages::empty();
        let frames = Frames::empty();
        let cache = Cache::new();
        let heap = Heap { pages, frames, cache };
        proof {
            assert(heap.frames.wf(heap.pages));
            assert(heap.cache.wf(heap.pages, heap.frames));
        }
        heap
    }

    /// Build the heap over the map's arena, if it has not been built yet:
    /// metadata for every frame, kept in the first free window large enough,
    /// and every free frame given to the buddy allocator. `false` when the
    /// arena cannot hold its own metadata.
    pub fn init(&mut self, map: &mut MemoryMap) -> (ok: bool)
        requires
            old(self).wf(),
            old(map).wf(),
        ensures
            final(self).wf(),
            final(map).wf(),
            old(self).spec_pages().frames() != 0 ==> ok && *final(self) == *old(self) && *final(map)
                == *old(map),
            old(self).spec_pages().frames() == 0 && ok ==> {
                &&& final(self).spec_pages().frames() == (old(map).spec_arena().size / PAGE_SIZE) as int
                &&& final(self).spec_pages().base_frame() == (old(map).spec_arena().base / PAGE_SIZE) as int
                &&& forall|a: int| !final(self).live(a)
                &&& forall|q: int|
                    free_frame(final(map).spec_arena(), final(map).reservations(), q)
                        ==> #[trigger] final(self).spec_frames().holds_free(q)
                &&& forall|p: usize, o: nat| #[trigger] final(self).spec_frames().is_free_block(p, o)
                    ==> forall|q: int|
                    p <= q < p + pow2(o) ==> free_frame(final(map).spec_arena(), final(map).reservations(), q)
            },
            !ok ==> *final(self) == *old(self),
            old(self).spec_pages().frames() == 0 ==> (ok <==> !no_room_for_metadata(
                old(map).spec_arena(),
                old(map).reservations(),
            )),
    {
        if self.pages.len() != 0 {
            // Heap was already initialized, do not reinitialize it.
            return true;
        }
        let mut pages = match Pages::new(map) {
            Some(pages) => pages,
            None => {
                return false;
            },
        };
        let frames = Frames::new(map, &mut pages);
        let cache = Cache::new();
        self.pages = pages;
        self.frames = frames;
        self.cache = cache;
        true
    }

    /// Hand out a block for `layout`: an object of the smallest size class
    /// that fits it, or, for a layout no class fits, a run of frames of the
    /// smallest order that covers its size and its alignment.
    pub fn alloc_layout(&mut self, layout: Layout) -> (addr: Option<usize>)
        requires
            old(self).wf(),
        ensures
            final(self).wf(),
            match addr {
                Some(a) => {
                    &&& !old(self).live(a as int)
                    &&& final(self).live(a as int)
                    &&& final(self).extent(a as int) >= layout.spec_size()
                    &&& a as int % layout.spec_align() as int == 0
                    &&& final(self).is_object(a as int) == has_class(
                        layout.spec_size() as int,
                        layout.spec_align() as int,
                    )
                    &&& forall|x: int| x != a ==> final(self).live(x) == old(self).live(x)
                    &&& forall|x: int|
                        x != a && old(self).live(x) ==> final(self).extent(x) == old(self).extent(x)
                    &&& forall|c: int|
                        #![trigger fits_class(layout.spec_size() as int, layout.spec_align() as int, c)]
                        0 <= c < CLASSES_COUNT && fits_class(
                            layout.spec_size() as int,
                            layout.spec_align() as int,
                            c,
                        ) && (forall|d: int|
                            0 <= d < c ==> !fits_class(
                                layout.spec_size() as int,
                                layout.spec_align() as int,
                                d,
                            )) ==> entry_class(final(self).spec_pages().entry_at(a as int / PAGE_SIZE as int))
                            == c
                    &&& !has_class(layout.spec_size() as int, layout.spec_align() as int) ==> forall|o: nat|
                        #[trigger] fitting_order(
                            frames_for(layout.spec_size() as int, layout.spec_align() as int),
                            o,
                        ) ==> final(self).spec_frames().allocated()[(a / PAGE_SIZE) as usize] == o
                            && first_block(old(self).spec_frames(), o as int, a as int)
                    &&& forall|c: int|
                        #![trigger fits_class(layout.spec_size() as int, layout.spec_align() as int, c)]
                        0 <= c < CLASSES_COUNT && fits_class(
                            layout.spec_size() as int,
                            layout.spec_align() as int,
                            c,
                        ) && (forall|d: int|
                            0 <= d < c ==> !fits_class(
                                layout.spec_size() as int,
                                layout.spec_align() as int,
                                d,
                            )) ==> first_object(*old(self), c, a as int)
                },
                None => *final(self) == *old(self),
            },
            forall|c: int|
                #![trigger fits_class(layout.spec_size() as int, layout.spec_align() as int, c)]
                0 <= c < CLASSES_COUNT && fits_class(layout.spec_size() as int, layout.spec_align() as int, c)
                    && (forall|d: int|
                    0 <= d < c ==> !fits_class(layout.spec_size() as int, layout.spec_align() as int, d))
                    ==> (addr is Some <==> old(self).object_free(c)),
            !has_class(layout.spec_size() as int, layout.spec_align() as int) ==> forall|o: nat|
                #[trigger] fitting_order(frames_for(layout.spec_size() as int, layout.spec_align() as int), o)
                    ==> (addr is Some <==> old(self).frames_free(o)),
    {
        let size = layout.size();
        let align = layout.align();
        let ghost before = *self;
        match class_of(layout) {
            Some(class_idx) => {
                let addr = self.slab_alloc(class_idx);
                proof {
                    if let Some(a) = addr {
                        lemma_object_aligned(*self, a as int, size as int, align);
                        assert(fits_class(size as int, align as int, class_idx as int));
                    }
                }
                addr
            },
            None => {
                proof {
                    crate::layout::lemma_pow2_at_most_half_max(align);
                }
                let size_pages = (size + (PAGE_SIZE - 1)) / PAGE_SIZE;
                let align_pages = (align + (PAGE_SIZE - 1)) / PAGE_SIZE;
                let pages = if size_pages > align_pages {
                    size_pages
                } else {
                    align_pages
                };
                proof {
                    lemma_frames_bound(size, align, pages);
                }
                let order = order_for(pages);
                let addr = self.alloc_pages(order);
                proof {
                    assert forall|o: nat|
                        #[trigger] fitting_order(frames_for(size as int, align as int), o) implies o
                        == order by {
                        lemma_fitting_unique(pages as int, o, order as nat);
                    }
                    if let Some(a) = addr {
                        lemma_block_aligned(a as int, order as nat, pages as int, size as int, align);
                        assert(!self.is_object(a as int));
                    }
                }
                addr
            },
        }
    }

    /// Give back the block at `address`, handed out for `layout`.
    pub fn free_layout(&mut self, address: usize, layout: Layout)
        requires
            old(self).wf(),
            old(self).live(address as int),
            has_class(layout.spec_size() as int, layout.spec_align() as int) == old(self).is_object(
                address as int,
            ),
        ensures
            final(self).wf(),
            !final(self).live(address as int),
            forall|x: int| x != address ==> final(self).live(x) == old(self).live(x),
            forall|x: int|
                x != address && old(self).live(x) ==> final(self).extent(x) == old(self).extent(x),
    {
        proof {
            self.cache.lemma_wf(self.pages, self.frames);
            self.frames.lemma_slab_order(self.pages, address / PAGE_SIZE);
        }
        let entry = self.pages.read(Pfn::from_addr_down(address));
        match entry {
            Entry::Slab { .. } => self.slab_free(address),
            Entry::Buddy { .. } => self.free_pages(address),
        }
    }

    /// A run of `2^order` frames from the buddy allocator, by its address.
    fn alloc_pages(&mut self, order: usize) -> (addr: Option<usize>)
        requires
            old(self).wf(),
        ensures
            final(self).wf(),
            match addr {
                Some(a) => {
                    &&& !old(self).live(a as int)
                    &&& is_page_block(final(self).spec_pages(), final(self).spec_frames(), a as int)
                    &&& final(self).spec_frames().allocated()[(a / PAGE_SIZE) as usize] == order
                    &&& first_block(old(self).spec_frames(), order as int, a as int)
                    &&& (a / PAGE_SIZE) as int % pow2(order as nat) as int == 0
                    &&& a % PAGE_SIZE == 0
                    &&& forall|x: int| x != a ==> final(self).live(x) == old(self).live(x)
                    &&& forall|x: int|
                        x != a && old(self).live(x) ==> final(self).extent(x) == old(self).extent(x)
                },
                None => *final(self) == *old(self),
            },
            addr is Some <==> old(self).frames_free(order as nat),
    {
        proof {
            self.cache.lemma_wf(self.pages, self.frames);
        }
        let ghost before = *self;
        let page_pfn = match self.frames.allocate(&mut self.pages, order) {
            Some(pfn) => pfn,
            None => {
                return None;
            },
        };
        proof {
            before.cache.lemma_after_page(before.pages, before.frames, self.pages, self.frames, page_pfn.0, order as nat);
            self.frames.lemma_pages_wf(self.pages);
            self.pages.lemma_wf();
            lemma_pow2_pos(order as nat);
        }
        let addr = page_pfn.to_addr();
        proof {
            let p = page_pfn.0;
            vstd::arithmetic::div_mod::lemma_div_by_multiple(p as int, PAGE_SIZE as int);
            vstd::arithmetic::div_mod::lemma_mod_multiples_basic(p as int, PAGE_SIZE as int);
            assert(addr / PAGE_SIZE == p);
            assert(!before.live(addr as int)) by {
                if before.is_object(addr as int) {
                    assert(slab_page(before.pages, before.frames, p));
                }
            }
            assert forall|x: int| x != addr implies self.live(x) == before.live(x) by {
                if 0 <= x <= usize::MAX {
                    let q = (x / PAGE_SIZE as int) as usize;
                    if q != p && before.frames.allocated().contains_key(q) {
                        assert(self.frames.allocated().contains_key(q));
                    }
                    if q == p && x % PAGE_SIZE as int == 0 {
                        vstd::arithmetic::div_mod::lemma_fundamental_div_mod(x, PAGE_SIZE as int);
                    }
                }
            }
            assert forall|x: int| x != addr && before.live(x) implies self.extent(x) == before.extent(x) by {
                let q = (x / PAGE_SIZE as int) as usize;
                if before.is_object(x) {
                    assert(slab_page(before.pages, before.frames, q));
                    assert(q != p);
                } else {
                    assert(q != p);
                }
            }
        }
        Some(addr)
    }

    /// Give back the run of frames at `address`.
    fn free_pages(&mut self, address: usize)
        requires
            old(self).wf(),
            is_page_block(old(self).spec_pages(), old(self).spec_frames(), address as int),
        ensures
            final(self).wf(),
            !final(self).live(address as int),
            forall|x: int| x != address ==> final(self).live(x) == old(self).live(x),
            forall|x: int|
                x != address && old(self).live(x) ==> final(self).extent(x) == old(self).extent(x),
    {
        proof {
            self.cache.lemma_wf(self.pages, self.frames);
        }
        let ghost before = *self;
        let pfn = Pfn::from_addr_down(address);
        self.frames.free(&mut self.pages, pfn);
        proof {
            before.cache.lemma_after_page_free(before.pages, before.frames, self.pages, self.frames, pfn.0);
            let p = pfn.0;
            assert(!self.live(address as int)) by {
                if self.is_object(address as int) {
                    assert(slab_page(self.pages, self.frames, p));
                }
            }
            assert forall|x: int| x != address implies self.live(x) == before.live(x) by {
                if 0 <= x <= usize::MAX {
                    let q = (x / PAGE_SIZE as int) as usize;
                    if q == p && x % PAGE_SIZE as int == 0 {
                        vstd::arithmetic::div_mod::lemma_fundamental_div_mod(x, PAGE_SIZE as int);
                        vstd::arithmetic::div_mod::lemma_fundamental_div_mod(address as int, PAGE_SIZE as int);
                    }
                    if q != p && self.frames.allocated().contains_key(q) {
                        assert(before.frames.allocated().contains_key(q));
                    }
                }
            }
            assert forall|x: int| x != address && before.live(x) implies self.extent(x) == before.extent(x) by {
                let q = (x / PAGE_SIZE as int) as usize;
                if before.is_object(x) {
                    assert(slab_page(before.pages, before.frames, q));
                } else {
                    if q == p {
                        vstd::arithmetic::div_mod::lemma_fundamental_div_mod(x, PAGE_SIZE as int);
                        vstd::arithmetic::div_mod::lemma_fundamental_div_mod(address as int, PAGE_SIZE as int);
                    }
                    assert(self.frames.allocated().contains_key(q));
                }
            }
        }
    }

    /// An object of class `class_idx` from the slab cache.
    fn slab_alloc(&mut self, class_idx: usize) -> (addr: Option<usize>)
        requires
            old(self).wf(),
            class_idx < CLASSES_COUNT,
        ensures
            final(self).wf(),
            match addr {
                Some(a) => {
                    &&& !old(self).live(a as int)
                    &&& final(self).is_object(a as int)
                    &&& entry_class(final(self).spec_pages().entry_at(a as int / PAGE_SIZE as int)) == class_idx
                    &&& first_object(*old(self), class_idx as int, a as int)
                    &&& forall|x: int| x != a ==> final(self).live(x) == old(self).live(x)
                    &&& forall|x: int|
                        x != a && old(self).live(x) ==> final(self).extent(x) == old(self).extent(x)
                },
                None => *final(self) == *old(self),
            },
            addr is Some <==> old(self).object_free(class_idx as int),
    {
        let ghost before = *self;
        let addr = self.cache.allocate(&mut self.pages, &mut self.frames, class_idx);
        proof {
            if let Some(a) = addr {
                let p = (a / PAGE_SIZE) as usize;
                assert(!before.live(a as int)) by {
                    if is_page_block(before.pages, before.frames, a as int) {
                        assert(self.frames.allocated().contains_key(p));
                        assert(slab_page(self.pages, self.frames, p));
                    }
                }
                assert forall|x: int| x != a implies self.live(x) == before.live(x) by {
                    if 0 <= x <= usize::MAX {
                        let q = (x / PAGE_SIZE as int) as usize;
                        if before.frames.allocated().contains_key(q) && !(before.pages.entry_at(q as int) is Slab) {
                        }
                        if self.frames.allocated().contains_key(q) && !(self.pages.entry_at(q as int) is Slab) {
                        }
                    }
                }
                assert forall|x: int| x != a && before.live(x) implies self.extent(x) == before.extent(x) by {
                    let q = (x / PAGE_SIZE as int) as usize;
                    if before.is_object(x) {
                        assert(slab_page(before.pages, before.frames, q));
                    } else {
                        assert(before.frames.allocated().contains_key(q) && !(before.pages.entry_at(q as int) is Slab));
                    }
                }
            }
        }
        addr
    }

    /// Give back the object at `address` to the slab cache.
    fn slab_free(&mut self, address: usize)
        requires
            old(self).wf(),
            old(self).is_object(address as int),
        ensures
            final(self).wf(),
            !final(self).live(address as int),
            forall|x: int| x != address ==> final(self).live(x) == old(self).live(x),
            forall|x: int|
                x != address && old(self).live(x) ==> final(self).extent(x) == old(self).extent(x),
    {
        let ghost before = *self;
        self.cache.free(&mut self.pages, &mut self.frames, address);
        proof {
            let p = (address / PAGE_SIZE) as usize;
            assert(slab_page(before.pages, before.frames, p));
            assert(!self.live(address as int)) by {
                if is_page_block(self.pages, self.frames, address as int) {
                    assert(before.frames.allocated().contains_key(p));
                }
            }
            assert forall|x: int| x != address implies self.live(x) == before.live(x) by {
                if 0 <= x <= usize::MAX {
                    let q = (x / PAGE_SIZE as int) as usize;
                    if before.frames.allocated().contains_key(q) && !(before.pages.entry_at(q as int) is Slab) {
                    }
                    if self.frames.allocated().contains_key(q) && !(self.pages.entry_at(q as int) is Slab) {
                    }
                }
            }
            assert forall|x: int| x != address && before.live(x) implies self.extent(x) == before.extent(x) by {
                let q = (x / PAGE_SIZE as int) as usize;
                if before.is_object(x) {
                    assert(slab_page(before.pages, before.frames, q));
                    assert(self.is_object(x));
                    assert(slab_page(self.pages, self.frames, q));
                } else {
                    assert(before.frames.allocated().contains_key(q) && !(before.pages.entry_at(q as int) is Slab));
                }
            }
        }
    }

    /// The buddy allocator underneath.
    pub fn frames(&self) -> (frames: &Frames)
        ensures
            *frames == self.spec_frames(),
    {
        &self.frames
    }
}

/// An object lies inside its slab's page, at a multiple of its size from
/// the page's start.
proof fn lemma_object_inside(heap: Heap, a: int)
    requires
        heap.wf(),
        heap.is_object(a),
    ensures
        ({
            let p = a / PAGE_SIZE as int;
            let size = heap.extent(a);
            let k = (a - p * PAGE_SIZE) / size;
            &&& p * PAGE_SIZE <= a
            &&& a + size <= (p + 1) * PAGE_SIZE
            &&& size > 0
            &&& a - p * PAGE_SIZE == k * size
        }),
{
    let pages = heap.spec_pages();
    let p = a / PAGE_SIZE as int;
    let class = entry_class(pages.entry_at(p));
    let size = class_size(class);
    heap.spec_cache().lemma_wf(pages, heap.spec_frames());
    crate::slab::lemma_classes();
    assert(slab_page(pages, heap.spec_frames(), p as usize));
    assert(crate::slab::slab_wf(pages, heap.spec_cache().words(), p));
    assert(size * crate::slab::slot_count(class) == PAGE_SIZE);
    crate::slab::cache::lemma_slot_index_bounds(p, class, a);
    let k = (a - p * PAGE_SIZE) / size;
    vstd::arithmetic::div_mod::lemma_fundamental_div_mod(a, PAGE_SIZE as int);
    vstd::arithmetic::div_mod::lemma_fundamental_div_mod(a - p * PAGE_SIZE, size);
    vstd::arithmetic::mul::lemma_mul_is_commutative(k, size);
    let n = crate::slab::slot_count(class);
    assert(k * size + size <= n * size) by (nonlinear_arith)
        requires
            k < n,
            size > 0,
    ;
    vstd::arithmetic::mul::lemma_mul_is_commutative(n, size);
}

/// Two different blocks handed out by the heap share no byte.
pub proof fn lemma_blocks_apart(heap: Heap, a: int, b: int)
    requires
        heap.wf(),
        heap.live(a),
        heap.live(b),
        a != b,
    ensures
        a + heap.extent(a) <= b || b + heap.extent(b) <= a,
{
    let pages = heap.spec_pages();
    let frames = heap.spec_frames();
    let pa = a / PAGE_SIZE as int;
    let pb = b / PAGE_SIZE as int;
    heap.spec_cache().lemma_wf(pages, frames);
    vstd::arithmetic::div_mod::lemma_fundamental_div_mod(a, PAGE_SIZE as int);
    vstd::arithmetic::div_mod::lemma_fundamental_div_mod(b, PAGE_SIZE as int);
    if heap.is_object(a) && heap.is_object(b) {
        lemma_object_inside(heap, a);
        lemma_object_inside(heap, b);
        if pa == pb {
            let size = heap.extent(a);
            assert(heap.extent(b) == size);
            let ka = (a - pa * PAGE_SIZE) / size;
            let kb = (b - pb * PAGE_SIZE) / size;
            if ka < kb {
                assert(ka * size + size <= kb * size) by (nonlinear_arith)
                    requires
                        ka < kb,
                        size > 0,
                ;
            } else {
                assert(kb < ka);
                assert(kb * size + size <= ka * size) by (nonlinear_arith)
                    requires
                        kb < ka,
                        size > 0,
                ;
            }
        } else if pa < pb {
            assert((pa + 1) * PAGE_SIZE <= pb * PAGE_SIZE) by (nonlinear_arith)
                requires
                    pa + 1 <= pb,
            ;
        } else {
            assert((pb + 1) * PAGE_SIZE <= pa * PAGE_SIZE) by (nonlinear_arith)
                requires
                    pb + 1 <= pa,
            ;
        }
    } else if heap.is_object(a) || heap.is_object(b) {
        let (o, g) = if heap.is_object(a) {
            (a, b)
        } else {
            (b, a)
        };
        let po = o / PAGE_SIZE as int;
        let pg = g / PAGE_SIZE as int;
        lemma_object_inside(heap, o);
        assert(slab_page(pages, frames, po as usize));
        assert(po != pg);
        frames.lemma_allocated_apart(pages, po as usize, pg as usize);
        frames.lemma_slab_order(pages, po as usize);
        lemma2_to64();
        let og = frames.allocated()[pg as usize];
        lemma_pow2_pos(og);
        if po + 1 <= pg {
            assert((po + 1) * PAGE_SIZE <= pg * PAGE_SIZE) by (nonlinear_arith)
                requires
                    po + 1 <= pg,
            ;
        } else {
            assert(pg + pow2(og) <= po);
            assert(g + pow2(og) * PAGE_SIZE <= po * PAGE_SIZE) by (nonlinear_arith)
                requires
                    pg + pow2(og) <= po,
                    g == pg * PAGE_SIZE,
            ;
        }
    } else {
        let oa = frames.allocated()[pa as usize];
        let ob = frames.allocated()[pb as usize];
        assert(pa != pb);
        frames.lemma_allocated_apart(pages, pa as usize, pb as usize);
        if pa + pow2(oa) <= pb {
            assert(a + pow2(oa) * PAGE_SIZE <= b) by (nonlinear_arith)
                requires
                    pa + pow2(oa) <= pb,
                    a == pa * PAGE_SIZE,
                    b == pb * PAGE_SIZE,
            ;
        } else {
            assert(b + pow2(ob) * PAGE_SIZE <= a) by (nonlinear_arith)
                requires
                    pb + pow2(ob) <= pa,
                    a == pa * PAGE_SIZE,
                    b == pb * PAGE_SIZE,
            ;
        }
    }
}

/// The smallest order of a block of frames holding `n` frames.
fn order_for(n: usize) -> (order: usize)
    requires
        1 <= n <= pow2((usize::BITS - 1) as nat),
    ensures
        fitting_order(n as int, order as nat),
        order < usize::BITS,
{
    let mut order: usize = 0;
    proof {
        lemma2_to64();
    }
    while order + 1 < usize::BITS as usize && (1usize << order) < n
        invariant
            order < usize::BITS,
            1 <= n <= pow2((usize::BITS - 1) as nat),
            order == 0 || pow2((order - 1) as nat) < n,
        decreases usize::BITS - order,
    {
        proof {
            vstd::bits::lemma_usize_pow2_no_overflow(order as nat);
            vstd::bits::lemma_usize_shl_is_mul(1, order);
        }
        order += 1;
    }
    proof {
        vstd::bits::lemma_usize_pow2_no_overflow(order as nat);
        vstd::bits::lemma_usize_shl_is_mul(1, order);
        if order + 1 >= usize::BITS {
            assert(order == usize::BITS - 1);
        }
    }
    order
}

/// Giving back a block just handed out leaves live exactly the blocks that
/// were live before it was handed out.
pub proof fn lemma_free_undoes_alloc(before: Heap, allocated: Heap, after: Heap, a: int)
    requires
        !before.live(a),
        allocated.live(a),
        forall|x: int| x != a ==> #[trigger] allocated.live(x) == before.live(x),
        !after.live(a),
        forall|x: int| x != a ==> #[trigger] after.live(x) == allocated.live(x),
    ensures
        forall|x: int| #[trigger] after.live(x) == before.live(x),
{
    assert forall|x: int| #[trigger] after.live(x) == before.live(x) by {
        if x != a {
            assert(allocated.live(x) == before.live(x));
        }
    }
}

/// A block handed out ends below the top of the address space.
pub proof fn lemma_block_below_top(heap: Heap, a: int)
    requires
        heap.wf(),
        heap.live(a),
    ensures
        a + heap.extent(a) <= usize::MAX,
{
    let pages = heap.spec_pages();
    let frames = heap.spec_frames();
    heap.spec_cache().lemma_wf(pages, frames);
    frames.lemma_pages_wf(pages);
    pages.lemma_wf();
    let p = a / PAGE_SIZE as int;
    vstd::arithmetic::div_mod::lemma_fundamental_div_mod(a, PAGE_SIZE as int);
    frames.lemma_allocated_inside(pages, p as usize);
    let n = pages.base_frame() + pages.frames();
    if heap.is_object(a) {
        lemma_object_inside(heap, a);
        assert((p + 1) * PAGE_SIZE <= n * PAGE_SIZE) by (nonlinear_arith)
            requires
                p + 1 <= n,
        ;
    } else {
        let o = frames.allocated()[p as usize];
        assert(a + pow2(o) * PAGE_SIZE <= n * PAGE_SIZE) by (nonlinear_arith)
            requires
                p + pow2(o) <= n,
                a == p * PAGE_SIZE,
        ;
    }
}

/// A number of frames has one fitting order.
proof fn lemma_fitting_unique(n: int, a: nat, b: nat)
    requires
        fitting_order(n, a),
        fitting_order(n, b),
    ensures
        a == b,
{
    if a < b {
        if a < (b - 1) as nat {
            vstd::arithmetic::power2::lemma_pow2_strictly_increases(a, (b - 1) as nat);
        }
    }
    if b < a {
        if b < (a - 1) as nat {
            vstd::arithmetic::power2::lemma_pow2_strictly_increases(b, (a - 1) as nat);
        }
    }
}

/// The frames a large layout needs are far from overflowing anything.
proof fn lemma_frames_bound(size: usize, align: usize, pages: usize)
    requires
        Layout::valid(size, align),
        pages == frames_for(size as int, align as int),
    ensures
        1 <= pages <= pow2((usize::BITS - 1) as nat),
        pages * PAGE_SIZE >= size,
        pages * PAGE_SIZE >= align,
{
    crate::layout::lemma_pow2_at_most_half_max(align);
    lemma2_to64();
    let s = (size + PAGE_SIZE - 1) / PAGE_SIZE as int;
    let a = (align + PAGE_SIZE - 1) / PAGE_SIZE as int;
    vstd::arithmetic::div_mod::lemma_fundamental_div_mod(size + PAGE_SIZE - 1, PAGE_SIZE as int);
    vstd::arithmetic::div_mod::lemma_fundamental_div_mod(align + PAGE_SIZE - 1, PAGE_SIZE as int);
    assert(usize::BITS == 32 || usize::BITS == 64);
    if usize::BITS == 64 {
        vstd::arithmetic::power2::lemma2_to64_rest();
        assert(pow2(63) == 0x8000_0000_0000_0000);
    } else {
        assert(pow2(31) == 0x8000_0000);
    }
}

/// A power of two at most another one divides it.
proof fn lemma_pow2_divides(k: nat, m: nat)
    requires
        pow2(k) <= pow2(m),
    ensures
        k <= m,
        pow2(m) % pow2(k) == 0,
{
    if k > m {
        vstd::arithmetic::power2::lemma_pow2_strictly_increases(m, k);
    }
    vstd::arithmetic::power2::lemma_pow2_adds(k, (m - k) as nat);
    lemma_pow2_pos(k);
    vstd::arithmetic::div_mod::lemma_mod_multiples_basic(pow2((m - k) as nat) as int, pow2(k) as int);
    vstd::arithmetic::mul::lemma_mul_is_commutative(pow2(k) as int, pow2((m - k) as nat) as int);
}

/// A run of `2^order` frames aligned to its size, covering a large layout,
/// is large enough for it and aligned as it asks.
proof fn lemma_block_aligned(a: int, order: nat, pages: int, size: int, align: usize)
    requires
        a >= 0,
        a % PAGE_SIZE as int == 0,
        (a / PAGE_SIZE as int) % pow2(order) as int == 0,
        fitting_order(pages, order),
        pages * PAGE_SIZE >= size,
        pages * PAGE_SIZE >= align,
        is_pow2(align),
    ensures
        pow2(order) * PAGE_SIZE >= size,
        a % align as int == 0,
{
    lemma2_to64();
    let k = crate::layout::lemma_pow2_exponent(align);
    vstd::arithmetic::power2::lemma_pow2_adds(order, 12);
    assert(pow2(order) * PAGE_SIZE >= pages * PAGE_SIZE) by (nonlinear_arith)
        requires
            pow2(order) >= pages,
    ;
    lemma_pow2_divides(k, order + 12);
    let m = a / PAGE_SIZE as int;
    vstd::arithmetic::div_mod::lemma_fundamental_div_mod(a, PAGE_SIZE as int);
    vstd::arithmetic::div_mod::lemma_fundamental_div_mod(m, pow2(order) as int);
    let t = m / pow2(order) as int;
    assert(a == t * pow2(order + 12)) by (nonlinear_arith)
        requires
            a == PAGE_SIZE * m,
            m == pow2(order) * t,
            pow2(order + 12) == pow2(order) * pow2(12),
            pow2(12) == PAGE_SIZE,
    ;
    let big = pow2(order + 12) as int;
    let small = pow2(k) as int;
    lemma_pow2_pos(k);
    vstd::arithmetic::div_mod::lemma_fundamental_div_mod(big, small);
    let r = big / small;
    assert(a == (t * r) * small) by (nonlinear_arith)
        requires
            a == t * big,
            big == small * r,
    ;
    vstd::arithmetic::div_mod::lemma_mod_multiples_basic(t * r, small);
}

/// An object of a class that fits a layout is large enough for it and
/// aligned as it asks.
proof fn lemma_object_aligned(heap: Heap, a: int, size: int, align: usize)
    requires
        heap.wf(),
        heap.is_object(a),
        fits_class(size, align as int, entry_class(heap.spec_pages().entry_at(a / PAGE_SIZE as int))),
        is_pow2(align),
    ensures
        heap.extent(a) >= size,
        a % align as int == 0,
{
    lemma_object_inside(heap, a);
    let p = a / PAGE_SIZE as int;
    let class = entry_class(heap.spec_pages().entry_at(p));
    let csize = class_size(class);
    let k = (a - p * PAGE_SIZE) / csize;
    heap.spec_cache().lemma_wf(heap.spec_pages(), heap.spec_frames());
    assert(slab_page(heap.spec_pages(), heap.spec_frames(), p as usize));
    crate::slab::lemma_classes();
    let n = crate::slab::slot_count(class);
    assert(csize * n == PAGE_SIZE);
    crate::layout::lemma_pow2_at_most_half_max(align);
    let q = csize / align as int;
    vstd::arithmetic::div_mod::lemma_fundamental_div_mod(csize, align as int);
    assert(a == (q * (p * n + k)) * align) by (nonlinear_arith)
        requires
            a - p * PAGE_SIZE == k * csize,
            csize * n == PAGE_SIZE,
            csize == align * q,
    ;
    vstd::arithmetic::div_mod::lemma_mod_multiples_basic(q * (p * n + k), align as int);
}

} // verus!
