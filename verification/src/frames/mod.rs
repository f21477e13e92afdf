pub mod lists;

use vstd::prelude::*;

use vstd::arithmetic::power2::{lemma2_to64, lemma_pow2_pos, pow2};

use crate::frames::lists::{
    lemma_shl_one, lemma_total_bounded, lemma_total_pop, lemma_total_push, lemma_total_unlink,
    total_pages, FreeLists, ORDERS,
};
use crate::memory::gaps::{exact_gaps, first_frame, free_frame, in_runs, last_frame};
use crate::memory::map::MemoryMap;
use crate::memory::pages::{Entry, Pages};
use crate::memory::pfn::{Pfn, PAGE_SIZE};

verus! {

pub const MAX_ORDER: usize = 10;

/// The frames `[p, p + 2^o)` and `[q, q + 2^r)` share none.
pub open spec fn apart(p: int, o: nat, q: int, r: nat) -> bool {
    p + pow2(o) <= q || q + pow2(r) <= p
}

/// The block of `2^o` frames at `p` lies among the frames `pages` describes,
/// aligned to its own size.
pub open spec fn block_inside(pages: Pages, p: int, o: nat) -> bool {
    &&& pages.base_frame() <= p
    &&& p + pow2(o) <= pages.base_frame() + pages.frames()
    &&& p % (pow2(o) as int) == 0
}

/// The free lists after the head of list `a` was taken and split down to a
/// block of `2^order` frames at `p`: each order from `order` below `a` gained
/// the upper half split away at that order.
pub open spec fn split_lists(lists: Seq<Seq<usize>>, p: usize, order: int, a: int) -> Seq<
    Seq<usize>,
> {
    Seq::new(
        lists.len(),
        |k: int|
            if k == a {
                lists[a].drop_first()
            } else if order <= k < a {
                seq![(p + pow2(k as nat)) as usize] + lists[k]
            } else {
                lists[k]
            },
    )
}

/// The block of the same order that a block at `p` of order `o` pairs with.
pub open spec fn buddy_of(p: usize, o: usize) -> usize {
    p ^ (1usize << o)
}

/// The buddy allocator: power-of-two blocks of frames, one free list per order.
pub struct Frames {
    lists: FreeLists,
    total: usize,
    allocated: Ghost<Map<usize, nat>>,
}

impl Frames {
    /// The free blocks of each order, most recently freed first.
    pub closed spec fn free_lists(self) -> Seq<Seq<usize>> {
        self.lists.spec_lists()
    }

    /// The blocks handed out and not yet given back, with their orders.
    pub closed spec fn allocated(self) -> Map<usize, nat> {
        self.allocated@
    }

    /// How many frames the allocator was seeded over.
    pub closed spec fn spec_total(self) -> int {
        self.total as int
    }

    pub open spec fn is_free_block(self, p: usize, o: nat) -> bool {
        o < ORDERS && self.free_lists()[o as int].contains(p)
    }

    pub open spec fn is_used_block(self, p: usize, o: nat) -> bool {
        self.allocated().contains_key(p) && self.allocated()[p] == o
    }

    pub open spec fn is_block(self, p: usize, o: nat) -> bool {
        self.is_free_block(p, o) || self.is_used_block(p, o)
    }

    /// Some free block holds frame `q`.
    pub open spec fn holds_free(self, q: int) -> bool {
        exists|p: usize, o: nat| #[trigger] self.is_free_block(p, o) && p <= q < p + pow2(o)
    }

    /// Pages held by the free blocks.
    pub open spec fn spec_free_pages(self) -> int {
        total_pages(self.free_lists())
    }

    /// The free lists are well linked.
    pub closed spec fn lists_ok(self) -> bool {
        self.lists.wf()
    }

    pub proof fn lemma_lists_ok(self, pages: Pages)
        requires
            self.wf(pages),
        ensures
            self.lists_ok(),
    {
    }

    /// Every block, free or handed out, lies inside the arena aligned to its
    /// size, no two blocks share a frame, the metadata says of each block's
    /// first frame whether it is free and its order (a page handed out whole
    /// to a slab says so instead), a free block is never also handed out,
    /// and the free lists are well linked.
    pub closed spec fn wf(self, pages: Pages) -> bool {
        &&& self.lists.wf()
        &&& pages.wf()
        &&& self.total == pages.frames()
        &&& forall|p: usize, o: nat|
            #[trigger] self.is_free_block(p, o) ==> {
                &&& block_inside(pages, p as int, o)
                &&& pages.entry_at(p as int) == Entry::Buddy { free: true, order: o as u8 }
                &&& !self.allocated().contains_key(p)
            }
        &&& forall|p: usize|
            #[trigger] self.allocated().contains_key(p) ==> {
                &&& self.allocated()[p] <= MAX_ORDER
                &&& block_inside(pages, p as int, self.allocated()[p])
                &&& (pages.entry_at(p as int) == Entry::Buddy {
                    free: false,
                    order: self.allocated()[p] as u8,
                } || (self.allocated()[p] == 0 && pages.entry_at(p as int) is Slab))
            }
        &&& forall|p1: usize, o1: nat, p2: usize, o2: nat|
            #[trigger] self.is_block(p1, o1) && #[trigger] self.is_block(p2, o2) && (p1 != p2 || o1
                != o2) ==> apart(p1 as int, o1, p2 as int, o2)
    }

    /// A block of `2^o` frames at `p` that shares no frame with any block.
    pub open spec fn hole(self, pages: Pages, p: usize, o: nat) -> bool {
        &&& o <= MAX_ORDER
        &&& block_inside(pages, p as int, o)
        &&& forall|q: usize, r: nat| #[trigger] self.is_block(q, r) ==> apart(p as int, o, q as int, r)
    }

    /// An allocator over no frames.
    pub fn empty() -> (frames: Self)
        ensures
            forall|pages: Pages| pages.wf() && pages.frames() == 0 ==> #[trigger] frames.wf(pages),
            frames.allocated() == Map::<usize, nat>::empty(),
            frames.spec_total() == 0,
    {
        Frames { lists: FreeLists::empty(), total: 0, allocated: Ghost(Map::empty()) }
    }

    /// Seed the free lists with every frame of the map's unreserved runs, as
    /// the largest aligned blocks that fit.
    pub fn new(map: &MemoryMap, pages: &mut Pages) -> (frames: Frames)
        requires
            map.wf(),
            old(pages).wf(),
            old(pages).base_frame() == (map.spec_arena().base / PAGE_SIZE) as int,
            old(pages).frames() == (map.spec_arena().size / PAGE_SIZE) as int,
        ensures
            frames.wf(*final(pages)),
            frames.allocated() == Map::<usize, nat>::empty(),
            final(pages).base_frame() == old(pages).base_frame(),
            final(pages).frames() == old(pages).frames(),
            final(pages).spec_region() == old(pages).spec_region(),
            forall|p: usize, o: nat| #[trigger] frames.is_free_block(p, o) ==> forall|q: int|
                p <= q < p + pow2(o) ==> free_frame(map.spec_arena(), map.reservations(), q),
            forall|q: int|
                free_frame(map.spec_arena(), map.reservations(), q) ==> #[trigger] frames.holds_free(q),
    {
        let mut frames = Frames {
            lists: FreeLists::empty(),
            total: pages.len(),
            allocated: Ghost(Map::empty()),
        };
        frames.seed(map, pages);
        frames
    }

    /// How many blocks of `order` are free.
    pub fn free_blocks(&self, order: usize) -> (count: usize)
        requires
            self.lists_ok(),
        ensures
            order < ORDERS ==> count == self.free_lists()[order as int].len(),
            order >= ORDERS ==> count == 0,
    {
        self.lists.blocks(order)
    }

    /// Pages held by the free blocks.
    pub fn free_pages(&self) -> (pages: usize)
        requires
            self.lists_ok(),
        ensures
            pages == self.spec_free_pages(),
    {
        self.lists.pages()
    }

    /// How many frames the allocator was seeded over.
    pub fn total(&self) -> (total: usize)
        ensures
            total == self.spec_total(),
    {
        self.total
    }

    /// Hand out a block of `2^order` frames, split off the smallest free
    /// block that is large enough; the halves split away go back on their
    /// lists, largest first.
    pub fn allocate(&mut self, pages: &mut Pages, order: usize) -> (pfn: Option<Pfn>)
        requires
            old(self).wf(*old(pages)),
        ensures
            final(self).wf(*final(pages)),
            final(self).spec_total() == old(self).spec_total(),
            final(pages).base_frame() == old(pages).base_frame(),
            final(pages).frames() == old(pages).frames(),
            final(pages).spec_region() == old(pages).spec_region(),
            forall|q: usize|
                #[trigger] old(self).allocated().contains_key(q) ==> final(pages).entry_at(q as int)
                    == old(pages).entry_at(q as int),
            match pfn {
                Some(p) => {
                    &&& order <= MAX_ORDER
                    &&& !old(self).allocated().contains_key(p.0)
                    &&& final(self).allocated() == old(self).allocated().insert(p.0, order as nat)
                    &&& forall|o: nat| !#[trigger] final(self).is_free_block(p.0, o)
                    &&& block_inside(*final(pages), p.0 as int, order as nat)
                    &&& final(pages).entry_at(p.0 as int) == (Entry::Buddy {
                        free: false,
                        order: order as u8,
                    })
                    &&& final(self).spec_free_pages() == old(self).spec_free_pages() - pow2(
                        order as nat,
                    )
                    &&& exists|a: int|
                        order <= a <= MAX_ORDER && old(self).free_lists()[a].len() > 0 && (forall|
                            k: int,
                        |
                            order <= k < a ==> #[trigger] old(self).free_lists()[k].len() == 0) && p.0
                            == old(self).free_lists()[a][0] && final(self).free_lists() == split_lists(
                            old(self).free_lists(),
                            p.0,
                            order as int,
                            a,
                        )
                },
                None => {
                    &&& *final(self) == *old(self)
                    &&& *final(pages) == *old(pages)
                    &&& order > MAX_ORDER || forall|k: int|
                        order <= k <= MAX_ORDER ==> #[trigger] old(self).free_lists()[k].len() == 0
                },
            },
    {
        proof {
            self.lists.lemma_wf();
        }
        if order > MAX_ORDER {
            return None;
        }
        let mut available_order = order;
        while available_order <= MAX_ORDER && self.lists.head(available_order).is_none()
            invariant
                self.lists.wf(),
                self.lists.spec_lists().len() == ORDERS,
                order <= available_order <= MAX_ORDER + 1,
                forall|k: int| order <= k < available_order ==> #[trigger] self.free_lists()[k].len() == 0,
            decreases MAX_ORDER + 1 - available_order,
        {
            available_order += 1;
        }
        if available_order > MAX_ORDER {
            return None;
        }
        let ghost a0 = available_order as int;
        let ghost old_lists = self.free_lists();
        let ghost old_total = self.spec_free_pages();
        let ghost before = *self;
        let pfn = match self.lists.pop(available_order) {
            Some(pfn) => pfn,
            None => {
                return None;
            },
        };
        proof {
            before.lists.lemma_wf();
            self.lists.lemma_wf();
            assert(old_lists[a0].contains(pfn.0)) by {
                assert(old_lists[a0][0] == pfn.0);
            }
            assert(before.is_free_block(pfn.0, a0 as nat));
            lemma_total_pop(old_lists, a0);
            assert forall|p: usize, o: nat| #[trigger] self.is_free_block(p, o) implies before.is_free_block(
                p,
                o,
            ) && !(p == pfn.0 && o == a0) by {
                let j = choose|j: int|
                    0 <= j < self.free_lists()[o as int].len() && self.free_lists()[o as int][j] == p;
                if o == a0 {
                    assert(old_lists[o as int][j + 1] == p);
                    assert(old_lists[o as int][j + 1] != old_lists[o as int][0]);
                } else {
                    assert(old_lists[o as int][j] == p);
                    if p == pfn.0 {
                        assert(old_lists[o as int][j] == old_lists[a0][0]);
                    }
                }
            }
            assert forall|p: usize, o: nat| #[trigger] self.is_block(p, o) implies before.is_block(p, o)
                && !(p == pfn.0 && o == a0) by {
                if self.is_free_block(p, o) {
                } else {
                    assert(before.is_used_block(p, o));
                    if p == pfn.0 {
                        assert(!before.allocated().contains_key(pfn.0));
                    }
                }
            }
            assert forall|q: usize, r: nat| #[trigger] self.is_block(q, r) implies apart(
                pfn.0 as int,
                a0 as nat,
                q as int,
                r,
            ) by {
                assert(before.is_block(q, r));
                assert(before.is_block(pfn.0, a0 as nat));
            }
            assert(self.wf(*pages));
        }
        while available_order > order
            invariant
                self.wf(*pages),
                self.hole(*pages, pfn.0, available_order as nat),
                order <= available_order <= a0,
                a0 <= MAX_ORDER,
                self.allocated() == old(self).allocated(),
                self.spec_total() == old(self).spec_total(),
                pages.base_frame() == old(pages).base_frame(),
                pages.frames() == old(pages).frames(),
                pages.spec_region() == old(pages).spec_region(),
                forall|q: usize|
                    #[trigger] old(self).allocated().contains_key(q) ==> pages.entry_at(q as int)
                        == old(pages).entry_at(q as int),
                self.free_lists() == Seq::new(
                    ORDERS as nat,
                    |k: int|
                        if k == a0 {
                            old_lists[a0].drop_first()
                        } else if available_order <= k < a0 {
                            seq![(pfn.0 + pow2(k as nat)) as usize] + old_lists[k]
                        } else {
                            old_lists[k]
                        },
                ),
                old_lists == old(self).free_lists(),
                old_lists.len() == ORDERS,
                self.spec_free_pages() + pow2(available_order as nat) == old_total,
                old_total == old(self).spec_free_pages(),
            decreases available_order,
        {
            available_order -= 1;
            let ghost a = available_order as nat;
            let ghost mid = *self;
            let ghost lists_before = self.free_lists();
            proof {
                vstd::arithmetic::power2::lemma_pow2_unfold((a + 1) as nat);
                lemma_pow2_pos(a);
                lemma_shl_one(available_order);
                lemma_aligned_lower(pfn.0 as nat, (a + 1) as nat, a);
                let h = pfn.0 + pow2(a);
                vstd::arithmetic::div_mod::lemma_mod_adds(pfn.0 as int, pow2(a) as int, pow2(a) as int);
                vstd::arithmetic::div_mod::lemma_mod_self_0(pow2(a) as int);
                assert forall|q: usize, r: nat| #[trigger] self.is_block(q, r) implies apart(
                    h,
                    a,
                    q as int,
                    r,
                ) by {}
                self.lists.lemma_wf();
                pages.lemma_wf();
            }
            let ghost pages_before = *pages;
            self.push(pages, pfn.offset(1usize << available_order), available_order);
            proof {
                assert forall|q: usize| #[trigger] old(self).allocated().contains_key(q) implies pages.entry_at(
                    q as int,
                ) == old(pages).entry_at(q as int) by {
                    assert(mid.is_used_block(q, mid.allocated()[q]));
                    assert(mid.is_block(q, mid.allocated()[q]));
                    lemma_pow2_pos(mid.allocated()[q]);
                    lemma_pow2_pos(a);
                    assert(pages_before.describes(q as int));
                }
                self.lists.lemma_wf();
                assert forall|q: usize, r: nat| #[trigger] self.is_block(q, r) implies apart(
                    pfn.0 as int,
                    a,
                    q as int,
                    r,
                ) by {
                    if q == (pfn.0 + pow2(a)) as usize && r == a {
                    } else {
                        if self.is_free_block(q, r) {
                            let j = choose|j: int|
                                0 <= j < self.free_lists()[r as int].len() && self.free_lists()[r as int][j] == q;
                            if r == a {
                                assert(lists_before[r as int][j - 1] == q);
                            } else {
                                assert(lists_before[r as int][j] == q);
                            }
                            assert(mid.is_free_block(q, r));
                        }
                        assert(mid.is_block(q, r));
                    }
                }
                assert(self.free_lists() =~= Seq::new(
                    ORDERS as nat,
                    |k: int|
                        if k == a0 {
                            old_lists[a0].drop_first()
                        } else if available_order <= k < a0 {
                            seq![(pfn.0 + pow2(k as nat)) as usize] + old_lists[k]
                        } else {
                            old_lists[k]
                        },
                ));
                lemma_total_push(lists_before, a as int, (pfn.0 + pow2(a)) as usize);
            }
        }
        let ghost mid = *self;
        let ghost mid_pages = *pages;
        proof {
            lemma_pow2_pos(order as nat);
            mid_pages.lemma_wf();
        }
        pages.write(pfn, Entry::Buddy { free: false, order: order as u8 });
        proof {
            self.allocated@ = self.allocated@.insert(pfn.0, order as nat);
            assert forall|q: int| q != pfn.0 && mid_pages.describes(q) implies #[trigger] pages.entry_at(q)
                == mid_pages.entry_at(q) by {
                assert(pages.entries()[q - pages.base_frame()] == mid_pages.entries()[q
                    - mid_pages.base_frame()]);
            }
            assert forall|q: usize| #[trigger] old(self).allocated().contains_key(q) implies pages.entry_at(
                q as int,
            ) == old(pages).entry_at(q as int) by {
                assert(mid.is_used_block(q, mid.allocated()[q]));
                assert(mid.is_block(q, mid.allocated()[q]));
                lemma_pow2_pos(mid.allocated()[q]);
                assert(mid_pages.describes(q as int));
            }
            assert forall|p: usize, o: nat| #[trigger] self.is_block(p, o) implies (p == pfn.0 && o
                == order) || mid.is_block(p, o) by {}
            assert forall|p1: usize, o1: nat, p2: usize, o2: nat|
                #[trigger] self.is_block(p1, o1) && #[trigger] self.is_block(p2, o2) && (p1 != p2 || o1
                    != o2) implies apart(p1 as int, o1, p2 as int, o2) by {
                if p1 == pfn.0 && o1 == order {
                    assert(mid.is_block(p2, o2));
                } else if p2 == pfn.0 && o2 == order {
                    assert(mid.is_block(p1, o1));
                } else {
                    assert(mid.is_block(p1, o1));
                    assert(mid.is_block(p2, o2));
                }
            }
            assert forall|p: usize, o: nat| #[trigger] self.is_free_block(p, o) implies {
                &&& block_inside(*pages, p as int, o)
                &&& pages.entry_at(p as int) == Entry::Buddy { free: true, order: o as u8 }
                &&& !self.allocated().contains_key(p)
            } by {
                assert(mid.is_free_block(p, o));
                assert(mid.is_block(p, o));
                lemma_pow2_pos(o);
            }
            assert forall|p: usize| #[trigger] self.allocated().contains_key(p) implies {
                &&& self.allocated()[p] <= MAX_ORDER
                &&& block_inside(*pages, p as int, self.allocated()[p])
                &&& (pages.entry_at(p as int) == Entry::Buddy {
                    free: false,
                    order: self.allocated()[p] as u8,
                } || (self.allocated()[p] == 0 && pages.entry_at(p as int) is Slab))
            } by {
                if p != pfn.0 {
                    assert(mid.allocated().contains_key(p));
                    assert(mid.is_block(p, self.allocated()[p]));
                    lemma_pow2_pos(self.allocated()[p]);
                }
            }
            assert(self.free_lists() =~= split_lists(old_lists, pfn.0, order as int, a0));
            assert(pfn.0 == old_lists[a0][0]);
        }
        Some(pfn)
    }

    /// Give back the block at `pfn`, merging it with its buddy for as long as
    /// the buddy is free and whole, then listing what results.
    pub fn free(&mut self, pages: &mut Pages, pfn: Pfn)
        requires
            old(self).wf(*old(pages)),
            old(self).allocated().contains_key(pfn.0),
        ensures
            final(self).wf(*final(pages)),
            final(self).allocated() == old(self).allocated().remove(pfn.0),
            final(self).spec_free_pages() == old(self).spec_free_pages() + pow2(
                old(self).allocated()[pfn.0],
            ),
            final(self).spec_total() == old(self).spec_total(),
            final(pages).base_frame() == old(pages).base_frame(),
            final(pages).frames() == old(pages).frames(),
            final(pages).spec_region() == old(pages).spec_region(),
            forall|q: usize|
                #[trigger] final(self).allocated().contains_key(q) ==> final(pages).entry_at(q as int)
                    == old(pages).entry_at(q as int),
            exists|p: usize, o: usize|
                #![trigger final(self).is_free_block(p, o as nat)]
                {
                    &&& final(self).is_free_block(p, o as nat)
                    &&& final(pages).entry_at(p as int) == (Entry::Buddy { free: true, order: o as u8 })
                    &&& old(self).allocated()[pfn.0] <= o <= MAX_ORDER
                    &&& p <= pfn.0 < p + pow2(o as nat)
                    &&& (o == MAX_ORDER || !final(self).is_free_block(buddy_of(p, o), o as nat))
                    &&& forall|q: usize, r: nat| #[trigger] final(self).is_free_block(q, r) ==> (q == p
                        && r == o) || old(self).is_free_block(q, r)
                    &&& forall|q: usize, r: nat|
                        #[trigger] old(self).is_free_block(q, r) ==> final(self).is_free_block(q, r)
                            || (p <= q && q + pow2(r) <= p + pow2(o as nat))
                },
    {
        let ghost order0 = self.allocated@[pfn.0];
        let ghost pfn0 = pfn.0;
        let ghost old_total = self.spec_free_pages();
        proof {
            lemma_pow2_pos(order0);
            pages.lemma_wf();
        }
        let mut order = match pages.read(pfn) {
            Entry::Buddy { free, order } => {
                proof {
                    assert(!free);
                }
                order as usize
            },
            Entry::Slab { .. } => 0,
        };
        let ghost before = *self;
        proof {
            assert(order == order0);
            self.allocated@ = self.allocated@.remove(pfn.0);
            assert forall|p: usize, o: nat| #[trigger] self.is_block(p, o) implies before.is_block(p, o) by {
                if self.is_used_block(p, o) {
                    assert(before.is_used_block(p, o));
                }
            }
            assert forall|q: usize, r: nat| #[trigger] self.is_block(q, r) implies apart(
                pfn.0 as int,
                order as nat,
                q as int,
                r,
            ) by {
                assert(before.is_block(q, r));
                assert(before.is_block(pfn.0, order as nat));
                if q == pfn.0 {
                    assert(before.is_free_block(q, r));
                }
            }
            assert forall|p1: usize, o1: nat, p2: usize, o2: nat|
                #[trigger] self.is_block(p1, o1) && #[trigger] self.is_block(p2, o2) && (p1 != p2 || o1
                    != o2) implies apart(p1 as int, o1, p2 as int, o2) by {
                assert(before.is_block(p1, o1));
                assert(before.is_block(p2, o2));
            }
            assert forall|p: usize, o: nat| #[trigger] self.is_free_block(p, o) implies {
                &&& block_inside(*pages, p as int, o)
                &&& pages.entry_at(p as int) == Entry::Buddy { free: true, order: o as u8 }
                &&& !self.allocated().contains_key(p)
            } by {
                assert(before.is_free_block(p, o));
            }
            assert forall|p: usize| #[trigger] self.allocated().contains_key(p) implies before.allocated().contains_key(p)
                && self.allocated()[p] == before.allocated()[p] by {}
        }
        let mut pfn = pfn;
        while order < MAX_ORDER
            invariant
                self.wf(*pages),
                self.hole(*pages, pfn.0, order as nat),
                self.allocated() == old(self).allocated().remove(pfn0),
                self.spec_total() == old(self).spec_total(),
                pages.base_frame() == old(pages).base_frame(),
                pages.frames() == old(pages).frames(),
                pages.spec_region() == old(pages).spec_region(),
                *pages == *old(pages),
                self.spec_free_pages() + pow2(order as nat) == old_total + pow2(order0),
                old_total == old(self).spec_free_pages(),
                order0 <= order <= MAX_ORDER,
                order0 == old(self).allocated()[pfn0],
                pfn.0 <= pfn0 < pfn.0 + pow2(order as nat),
                forall|q: usize, r: nat| #[trigger] self.is_free_block(q, r) ==> old(self).is_free_block(q, r),
                forall|q: usize, r: nat| #[trigger] old(self).is_free_block(q, r) ==> self.is_free_block(q, r)
                    || (pfn.0 <= q && q + pow2(r) <= pfn.0 + pow2(order as nat)),
            ensures
                self.wf(*pages),
                self.hole(*pages, pfn.0, order as nat),
                self.spec_free_pages() + pow2(order as nat) == old_total + pow2(order0),
                order0 <= order <= MAX_ORDER,
                pfn.0 <= pfn0 < pfn.0 + pow2(order as nat),
                forall|q: usize, r: nat| #[trigger] self.is_free_block(q, r) ==> old(self).is_free_block(q, r),
                forall|q: usize, r: nat| #[trigger] old(self).is_free_block(q, r) ==> self.is_free_block(q, r)
                    || (pfn.0 <= q && q + pow2(r) <= pfn.0 + pow2(order as nat)),
                order == MAX_ORDER || !self.is_free_block(buddy_of(pfn.0, order), order as nat),
            decreases MAX_ORDER - order,
        {
            let buddy = pfn.buddy(order);
            let covers = pages.covers();
            proof {
                self.lists.lemma_wf();
                pages.lemma_wf();
                if self.is_free_block(buddy.0, order as nat) {
                    lemma_pow2_pos(order as nat);
                }
            }
            if !covers.contains(buddy) {
                break;
            }
            let buddy_order = match pages.read(buddy) {
                Entry::Buddy { free: true, order: buddy_order } => buddy_order,
                _ => {
                    break;
                },
            };
            if buddy_order != order as u8 {
                break;
            }
            if !self.lists.holds(buddy, order) {
                break;
            }
            let ghost mid = *self;
            proof {
                mid.lists.lemma_wf();
                assert(mid.is_free_block(buddy.0, order as nat));
                assert(mid.is_block(buddy.0, order as nat));
                lemma_buddy(pfn.0, order);
                lemma_shl_one(order);
                vstd::arithmetic::power2::lemma_pow2_unfold((order + 1) as nat);
            }
            self.lists.unlink(buddy, order);
            proof {
                self.lists.lemma_wf();
                let list = mid.free_lists()[order as int];
                let i = list.index_of(buddy.0);
                list.index_of_first_ensures(buddy.0);
                lemma_total_unlink(mid.free_lists(), order as int, i);
                assert forall|p: usize, o: nat| #[trigger] self.is_free_block(p, o) implies mid.is_free_block(
                    p,
                    o,
                ) && !(p == buddy.0 && o == order) by {
                    let j = choose|j: int|
                        0 <= j < self.free_lists()[o as int].len() && self.free_lists()[o as int][j] == p;
                    if o == order {
                        let k = if j < i {
                            j
                        } else {
                            j + 1
                        };
                        assert(list[k] == p);
                        assert(list[k] != list[i]);
                    } else {
                        assert(mid.free_lists()[o as int][j] == p);
                        if p == buddy.0 {
                            assert(mid.free_lists()[o as int][j] == list[i]);
                        }
                    }
                }
                assert forall|p: usize, o: nat| #[trigger] self.is_block(p, o) implies mid.is_block(p, o)
                    && !(p == buddy.0 && o == order) by {
                    if self.is_free_block(p, o) {
                    } else {
                        assert(mid.is_used_block(p, o));
                        if p == buddy.0 {
                            assert(!mid.allocated().contains_key(buddy.0));
                        }
                    }
                }
                assert forall|p: usize, o: nat|
                    #[trigger] mid.is_free_block(p, o) && !(p == buddy.0 && o == order) implies self.is_free_block(
                    p,
                    o,
                ) by {
                    let j = choose|j: int|
                        0 <= j < mid.free_lists()[o as int].len() && mid.free_lists()[o as int][j] == p;
                    if o == order {
                        let k = if j < i {
                            j
                        } else {
                            j - 1
                        };
                        assert(self.free_lists()[o as int][k] == p);
                    } else {
                        assert(self.free_lists()[o as int][j] == p);
                    }
                }
            }
            let ghost old_pfn = pfn.0;
            let ghost old_order = order;
            if buddy.0 < pfn.0 {
                pfn = buddy;
            }
            order += 1;
            proof {
                assert(old(self).is_free_block(buddy.0, old_order as nat));
                assert forall|q: usize, r: nat| #[trigger] old(self).is_free_block(q, r) implies self.is_free_block(q, r)
                    || (pfn.0 <= q && q + pow2(r) <= pfn.0 + pow2(order as nat)) by {
                    if !self.is_free_block(q, r) {
                        if !mid.is_free_block(q, r) {
                            assert(old_pfn <= q && q + pow2(r) <= old_pfn + pow2(old_order as nat));
                        } else {
                            assert(q == buddy.0 && r == old_order);
                        }
                    }
                }
                assert forall|q: usize, r: nat| #[trigger] self.is_block(q, r) implies apart(
                    pfn.0 as int,
                    order as nat,
                    q as int,
                    r,
                ) by {
                    assert(mid.is_block(q, r));
                    lemma_pow2_pos(r);
                }
            }
        }
        let ghost lists_before = self.free_lists();
        let ghost before_push = *self;
        proof {
            self.lists.lemma_wf();
        }
        self.push(pages, pfn, order);
        proof {
            let pp = pfn.0;
            let oo = order;
            if oo != MAX_ORDER {
                lemma_buddy(pp, oo);
                lemma_shl_one(oo);
                lemma_pow2_pos(oo as nat);
                if self.is_free_block(buddy_of(pp, oo), oo as nat) {
                    assert(before_push.is_free_block(buddy_of(pp, oo), oo as nat));
                }
            }
            assert forall|q: usize, r: nat| #[trigger] old(self).is_free_block(q, r) implies self.is_free_block(q, r)
                || (pp <= q && q + pow2(r) <= pp + pow2(oo as nat)) by {
                if before_push.is_free_block(q, r) {
                }
            }
            assert forall|q: usize, r: nat| #[trigger] self.is_free_block(q, r) implies (q == pp
                && r == oo) || old(self).is_free_block(q, r) by {
                if !(q == pp && r == oo) {
                    assert(before_push.is_free_block(q, r));
                }
            }
            assert(self.is_free_block(pp, oo as nat));
            lemma_total_push(lists_before, order as int, pfn.0);
            assert forall|q: usize| #[trigger] self.allocated().contains_key(q) implies pages.entry_at(
                q as int,
            ) == old(pages).entry_at(q as int) by {
                assert(before_push.is_used_block(q, before_push.allocated()[q]));
                assert(before_push.is_block(q, before_push.allocated()[q]));
                lemma_pow2_pos(before_push.allocated()[q]);
                lemma_pow2_pos(order as nat);
                assert(old(pages).describes(q as int));
            }
            assert({
                &&& self.is_free_block(pp, oo as nat)
                &&& pages.entry_at(pp as int) == (Entry::Buddy { free: true, order: oo as u8 })
                &&& old(self).allocated()[pfn0] <= oo <= MAX_ORDER
                &&& pp <= pfn0 < pp + pow2(oo as nat)
                &&& (oo == MAX_ORDER || !self.is_free_block(buddy_of(pp, oo), oo as nat))
                &&& forall|q: usize, r: nat| #[trigger] self.is_free_block(q, r) ==> (q == pp
                    && r == oo) || old(self).is_free_block(q, r)
                &&& forall|q: usize, r: nat|
                    #[trigger] old(self).is_free_block(q, r) ==> self.is_free_block(q, r)
                        || (pp <= q && q + pow2(r) <= pp + pow2(oo as nat))
            });
        }
    }

    /// Two blocks handed out lie inside the arena, aligned to their sizes,
    /// and share no frame.
    pub proof fn lemma_allocated_apart(self, pages: Pages, p: usize, q: usize)
        requires
            self.wf(pages),
            self.allocated().contains_key(p),
            self.allocated().contains_key(q),
            p != q,
        ensures
            apart(p as int, self.allocated()[p], q as int, self.allocated()[q]),
            block_inside(pages, p as int, self.allocated()[p]),
            block_inside(pages, q as int, self.allocated()[q]),
            self.allocated()[p] <= MAX_ORDER,
            self.allocated()[q] <= MAX_ORDER,
    {
        assert(self.is_block(p, self.allocated()[p]));
        assert(self.is_block(q, self.allocated()[q]));
    }

    /// A block handed out lies inside the arena, aligned to its size, and
    /// its order is at most the largest.
    pub proof fn lemma_allocated_inside(self, pages: Pages, p: usize)
        requires
            self.wf(pages),
            self.allocated().contains_key(p),
        ensures
            block_inside(pages, p as int, self.allocated()[p]),
            self.allocated()[p] <= MAX_ORDER,
            pages.entry_at(p as int) is Slab || pages.entry_at(p as int) == (Entry::Buddy {
                free: false,
                order: self.allocated()[p] as u8,
            }),
    {
    }

    /// The metadata of a well-formed allocator is well formed.
    pub proof fn lemma_pages_wf(self, pages: Pages)
        requires
            self.wf(pages),
        ensures
            pages.wf(),
    {
    }

    /// A block handed out whose page the metadata calls a slab is a single
    /// frame inside the arena.
    pub proof fn lemma_slab_order(self, pages: Pages, p: usize)
        requires
            self.wf(pages),
            self.allocated().contains_key(p),
        ensures
            pages.entry_at(p as int) is Slab ==> self.allocated()[p] == 0,
            pages.describes(p as int),
            pages.wf(),
    {
        lemma_pow2_pos(self.allocated()[p]);
    }

    /// Rewriting the entry of a slab page with another slab entry leaves the
    /// allocator well formed.
    pub proof fn lemma_slab_rewrite(self, pages: Pages, after: Pages, p: usize)
        requires
            self.wf(pages),
            self.allocated().contains_key(p),
            self.allocated()[p] == 0,
            pages.same_except(after, p as int),
            after.entry_at(p as int) is Slab,
        ensures
            self.wf(after),
    {
        assert forall|q: usize, o: nat| #[trigger] self.is_free_block(q, o) implies {
            &&& block_inside(after, q as int, o)
            &&& after.entry_at(q as int) == Entry::Buddy { free: true, order: o as u8 }
            &&& !self.allocated().contains_key(q)
        } by {
            lemma_pow2_pos(o);
        }
        assert forall|q: usize| #[trigger] self.allocated().contains_key(q) implies {
            &&& self.allocated()[q] <= MAX_ORDER
            &&& block_inside(after, q as int, self.allocated()[q])
            &&& (after.entry_at(q as int) == Entry::Buddy {
                free: false,
                order: self.allocated()[q] as u8,
            } || (self.allocated()[q] == 0 && after.entry_at(q as int) is Slab))
        } by {
            lemma_pow2_pos(self.allocated()[q]);
        }
    }

    /// No block starts where a hole does.
    proof fn lemma_hole_unlisted(self, pages: Pages, p: usize, o: nat)
        requires
            self.hole(pages, p, o),
        ensures
            forall|r: nat| !#[trigger] self.is_block(p, r),
            self.lists.unlisted(p),
    {
        assert forall|r: nat| !#[trigger] self.is_block(p, r) by {
            if self.is_block(p, r) {
                lemma_pow2_pos(o);
                lemma_pow2_pos(r);
            }
        }
        assert forall|r: int| 0 <= r < ORDERS implies !#[trigger] self.lists.listed_at(p, r) by {
            if self.lists.listed_at(p, r) {
                assert(self.is_block(p, r as nat));
            }
        }
    }

    /// The free pages stay far below the top of a `usize`.
    proof fn lemma_free_pages_bounded(self, pages: Pages)
        requires
            self.wf(pages),
        ensures
            self.spec_free_pages() + pow2(MAX_ORDER as nat) <= usize::MAX,
    {
        let lists = self.free_lists();
        pages.lemma_wf();
        self.lists.lemma_wf();
        assert forall|o: int, i: int|
            0 <= o < lists.len() && 0 <= i < lists[o].len() implies pages.base_frame()
            <= #[trigger] lists[o][i] < pages.base_frame() + pages.frames() by {
            assert(lists[o].contains(lists[o][i]));
            assert(self.is_free_block(lists[o][i], o as nat));
            lemma_pow2_pos(o as nat);
        }
        lemma_total_bounded(lists, pages.base_frame(), pages.frames());
        lemma2_to64();
        assert(pages.frames() * pow2(MAX_ORDER as nat) <= 0x7FFFF * 1024) by (nonlinear_arith)
            requires
                pages.frames() <= 0x7FFFF,
                pow2(MAX_ORDER as nat) == 1024,
        ;
    }

    /// Put the hole at `pfn` on the free list for `order`, marked free in the
    /// metadata.
    fn push(&mut self, pages: &mut Pages, pfn: Pfn, order: usize)
        requires
            old(self).wf(*old(pages)),
            old(self).hole(*old(pages), pfn.0, order as nat),
        ensures
            final(self).wf(*final(pages)),
            final(self).free_lists() == old(self).free_lists().update(
                order as int,
                seq![pfn.0] + old(self).free_lists()[order as int],
            ),
            final(self).allocated() == old(self).allocated(),
            final(self).spec_total() == old(self).spec_total(),
            final(pages).base_frame() == old(pages).base_frame(),
            final(pages).frames() == old(pages).frames(),
            final(pages).spec_region() == old(pages).spec_region(),
            final(pages).entry_at(pfn.0 as int) == (Entry::Buddy { free: true, order: order as u8 }),
            forall|q: int|
                q != pfn.0 && old(pages).describes(q) ==> #[trigger] final(pages).entry_at(q) == old(
                    pages,
                ).entry_at(q),
            final(self).is_free_block(pfn.0, order as nat),
            forall|p: usize, o: nat| #[trigger] final(self).is_free_block(p, o) ==> (p == pfn.0 && o
                == order) || old(self).is_free_block(p, o),
            forall|p: usize, o: nat| #[trigger] old(self).is_free_block(p, o) ==> final(self).is_free_block(p, o),
    {
        proof {
            self.lemma_hole_unlisted(*pages, pfn.0, order as nat);
            self.lemma_free_pages_bounded(*pages);
            lemma_shl_one(order);
            lemma_pow2_pos(order as nat);
        }
        let ghost old_self = *self;
        let ghost old_pages = *pages;
        proof {
            old_self.lists.lemma_wf();
            old_pages.lemma_wf();
        }
        self.lists.push(pfn, order);
        pages.write(pfn, Entry::Buddy { free: true, order: order as u8 });
        proof {
            assert forall|q: int| q != pfn.0 && old_pages.describes(q) implies #[trigger] pages.entry_at(q)
                == old_pages.entry_at(q) by {
                assert(pages.entries()[q - pages.base_frame()] == old_pages.entries()[q
                    - old_pages.base_frame()]);
            }
            assert forall|p: usize, o: nat| #[trigger] self.is_free_block(p, o) implies (p == pfn.0
                && o == order) || old_self.is_free_block(p, o) by {
                if p != pfn.0 || o != order {
                    if o == order {
                        assert(self.free_lists()[o as int] == seq![pfn.0] + old_self.free_lists()[o as int]);
                        let j = choose|j: int|
                            0 <= j < self.free_lists()[o as int].len() && self.free_lists()[o as int][j] == p;
                        assert(old_self.free_lists()[o as int][j - 1] == p);
                    } else {
                        assert(self.free_lists()[o as int] == old_self.free_lists()[o as int]);
                    }
                }
            }
            assert forall|p: usize, o: nat| old_self.is_free_block(p, o) implies #[trigger] self.is_free_block(p, o) by {
                let j = choose|j: int|
                    0 <= j < old_self.free_lists()[o as int].len() && old_self.free_lists()[o as int][j] == p;
                if o == order {
                    assert(self.free_lists()[o as int][j + 1] == p);
                } else {
                    assert(self.free_lists()[o as int][j] == p);
                }
            }
            assert(self.is_free_block(pfn.0, order as nat)) by {
                assert(self.free_lists()[order as int][0] == pfn.0);
            }
            assert forall|p: usize, o: nat| #[trigger] self.is_block(p, o) implies (p == pfn.0 && o
                == order) || old_self.is_block(p, o) by {}
            assert forall|p1: usize, o1: nat, p2: usize, o2: nat|
                #[trigger] self.is_block(p1, o1) && #[trigger] self.is_block(p2, o2) && (p1 != p2 || o1
                    != o2) implies apart(p1 as int, o1, p2 as int, o2) by {
                if p1 == pfn.0 && o1 == order {
                    assert(old_self.is_block(p2, o2));
                } else if p2 == pfn.0 && o2 == order {
                    assert(old_self.is_block(p1, o1));
                } else {
                    assert(old_self.is_block(p1, o1));
                    assert(old_self.is_block(p2, o2));
                }
            }
            assert forall|p: usize| #[trigger] self.allocated().contains_key(p) implies p != pfn.0 by {
                assert(old_self.is_block(p, self.allocated()[p]));
                lemma_pow2_pos(self.allocated()[p]);
            }
            assert forall|p: usize, o: nat| #[trigger] self.is_free_block(p, o) implies {
                &&& block_inside(*pages, p as int, o)
                &&& pages.entry_at(p as int) == Entry::Buddy { free: true, order: o as u8 }
                &&& !self.allocated().contains_key(p)
            } by {
                if !(p == pfn.0 && o == order) {
                    assert(old_self.is_free_block(p, o));
                    assert(old_self.is_block(p, o));
                    lemma_pow2_pos(o);
                }
            }
            assert forall|p: usize| #[trigger] self.allocated().contains_key(p) implies {
                &&& self.allocated()[p] <= MAX_ORDER
                &&& block_inside(*pages, p as int, self.allocated()[p])
                &&& (pages.entry_at(p as int) == Entry::Buddy {
                    free: false,
                    order: self.allocated()[p] as u8,
                } || (self.allocated()[p] == 0 && pages.entry_at(p as int) is Slab))
            } by {
                assert(old_self.allocated().contains_key(p));
                assert(old_self.is_block(p, self.allocated()[p]));
                lemma_pow2_pos(self.allocated()[p]);
                lemma_pow2_pos(order as nat);
                assert(p != pfn.0);
                assert(old_pages.describes(p as int));
            }
        }
    }

    /// Seed the free lists with the map's unreserved runs.
    fn seed(&mut self, map: &MemoryMap, pages: &mut Pages)
        requires
            map.wf(),
            old(self).wf(*old(pages)),
            old(self).allocated() == Map::<usize, nat>::empty(),
            forall|p: usize, o: nat| !#[trigger] old(self).is_free_block(p, o),
            old(pages).base_frame() == (map.spec_arena().base / PAGE_SIZE) as int,
            old(pages).frames() == (map.spec_arena().size / PAGE_SIZE) as int,
        ensures
            final(self).wf(*final(pages)),
            final(self).allocated() == Map::<usize, nat>::empty(),
            final(self).spec_total() == old(self).spec_total(),
            final(pages).base_frame() == old(pages).base_frame(),
            final(pages).frames() == old(pages).frames(),
            final(pages).spec_region() == old(pages).spec_region(),
            forall|p: usize, o: nat| #[trigger] final(self).is_free_block(p, o) ==> forall|q: int|
                p <= q < p + pow2(o) ==> free_frame(map.spec_arena(), map.reservations(), q),
            forall|q: int|
                free_frame(map.spec_arena(), map.reservations(), q) ==> #[trigger] final(self).holds_free(q),
    {
        let arena = map.arena();
        let runs = map.unreserved();
        let ghost taken = map.reservations();
        proof {
            assert(first_frame(arena) == pages.base_frame());
            assert(last_frame(arena) == pages.base_frame() + pages.frames());
        }
        let mut r: usize = 0;
        while r < runs.len()
            invariant
                exact_gaps(arena, taken, runs@),
                arena == map.spec_arena(),
                taken == map.reservations(),
                r <= runs@.len(),
                self.wf(*pages),
                self.allocated() == Map::<usize, nat>::empty(),
                self.spec_total() == old(self).spec_total(),
                pages.base_frame() == old(pages).base_frame(),
                pages.frames() == old(pages).frames(),
                pages.spec_region() == old(pages).spec_region(),
                first_frame(arena) == pages.base_frame(),
                last_frame(arena) == pages.base_frame() + pages.frames(),
                forall|p: usize, o: nat| #[trigger] self.is_free_block(p, o) ==> forall|q: int|
                    p <= q < p + pow2(o) ==> free_frame(arena, taken, q),
                r < runs@.len() ==> forall|p: usize, o: nat| #[trigger] self.is_free_block(p, o) ==> p
                    + pow2(o) <= runs@[r as int].start.0,
                forall|i: int, q: int| 0 <= i < r && #[trigger] runs@[i].has(q) ==> self.holds_free(q),
            decreases runs@.len() - r,
        {
            let run = &runs[r];
            let mut block = run.start;
            proof {
                assert(runs@[r as int].has(run.start.0 as int));
                assert(in_runs(runs@, run.start.0 as int));
                assert(runs@[r as int].has(run.end.0 - 1));
                assert(in_runs(runs@, run.end.0 - 1));
            }
            while block.0 < run.end.0
                invariant
                    exact_gaps(arena, taken, runs@),
                    arena == map.spec_arena(),
                    taken == map.reservations(),
                    r < runs@.len(),
                    *run == runs@[r as int],
                    run.start.0 <= block.0 <= run.end.0,
                    first_frame(arena) <= run.start.0,
                    run.end.0 <= last_frame(arena),
                    self.wf(*pages),
                    self.allocated() == Map::<usize, nat>::empty(),
                    self.spec_total() == old(self).spec_total(),
                    pages.base_frame() == old(pages).base_frame(),
                    pages.frames() == old(pages).frames(),
                    pages.spec_region() == old(pages).spec_region(),
                    first_frame(arena) == pages.base_frame(),
                    last_frame(arena) == pages.base_frame() + pages.frames(),
                    forall|p: usize, o: nat| #[trigger] self.is_free_block(p, o) ==> forall|q: int|
                        p <= q < p + pow2(o) ==> free_frame(arena, taken, q),
                    forall|p: usize, o: nat| #[trigger] self.is_free_block(p, o) ==> p + pow2(o)
                        <= block.0,
                    forall|i: int, q: int| 0 <= i < r && #[trigger] runs@[i].has(q) ==> self.holds_free(q),
                    forall|q: int| run.start.0 <= q < block.0 ==> #[trigger] self.holds_free(q),
                decreases run.end.0 - block.0,
            {
                let aligned = block.alignment_order();
                let fits = ilog2(block.pages_until(run.end));
                // find largest power-of-2 block that fits in this run and is aligned
                let mut order = MAX_ORDER;
                if aligned < order {
                    order = aligned;
                }
                if fits < order {
                    order = fits;
                }
                proof {
                    lemma_shl_one(order);
                    lemma2_to64();
                    if block.0 != 0 {
                        lemma_aligned_lower(block.0 as nat, aligned as nat, order as nat);
                    } else {
                        lemma_pow2_pos(order as nat);
                        vstd::arithmetic::div_mod::lemma_mod_self_0(pow2(order as nat) as int);
                        vstd::arithmetic::div_mod::lemma_small_mod(0, pow2(order as nat));
                    }
                    if order < fits {
                        vstd::arithmetic::power2::lemma_pow2_strictly_increases(order as nat, fits as nat);
                    }
                    assert forall|q: usize, o: nat| #[trigger] self.is_block(q, o) implies apart(
                        block.0 as int,
                        order as nat,
                        q as int,
                        o,
                    ) by {
                        assert(self.is_free_block(q, o));
                    }
                }
                let ghost before = *self;
                self.push(pages, block, order);
                proof {
                    before.lists.lemma_wf();
                    assert forall|p: usize, o: nat| #[trigger] self.is_free_block(p, o) implies forall|q: int|
                        p <= q < p + pow2(o) ==> free_frame(arena, taken, q) by {
                        if p == block.0 && o == order {
                            assert forall|q: int| p <= q < p + pow2(o) implies free_frame(arena, taken, q) by {
                                assert(runs@[r as int].has(q));
                                assert(in_runs(runs@, q));
                            }
                        } else {
                            if o == order {
                                let j = choose|j: int|
                                    0 <= j < self.free_lists()[o as int].len() && self.free_lists()[o as int][j] == p;
                                assert(before.free_lists()[o as int][j - 1] == p);
                            } else {
                                assert(self.free_lists()[o as int] == before.free_lists()[o as int]);
                            }
                            assert(before.is_free_block(p, o));
                        }
                    }
                    assert forall|p: usize, o: nat| #[trigger] self.is_free_block(p, o) implies p + pow2(o)
                        <= block.0 + pow2(order as nat) by {
                        if !(p == block.0 && o == order) {
                            if o == order {
                                let j = choose|j: int|
                                    0 <= j < self.free_lists()[o as int].len() && self.free_lists()[o as int][j] == p;
                                assert(before.free_lists()[o as int][j - 1] == p);
                            } else {
                                assert(self.free_lists()[o as int] == before.free_lists()[o as int]);
                            }
                            assert(before.is_free_block(p, o));
                        }
                    }
                    assert forall|q: int| #[trigger] before.holds_free(q) implies self.holds_free(q) by {
                        let (p, o) = choose|p: usize, o: nat|
                            #[trigger] before.is_free_block(p, o) && p <= q < p + pow2(o);
                        assert(self.is_free_block(p, o));
                    }
                    assert forall|q: int| block.0 <= q < block.0 + pow2(order as nat) implies #[trigger] self.holds_free(
                        q,
                    ) by {
                        assert(self.is_free_block(block.0, order as nat));
                    }
                }
                let ghost old_block = block.0;
                block = block.offset(1usize << order);
                proof {
                    assert forall|q: int| run.start.0 <= q < block.0 implies #[trigger] self.holds_free(q) by {
                        if q < old_block {
                            assert(before.holds_free(q));
                        }
                    }
                }
            }
            proof {
                if r + 1 < runs@.len() {
                    assert(runs@[r as int].end.0 < runs@[r + 1].start.0);
                }
                assert forall|i: int, q: int| 0 <= i < r + 1 && #[trigger] runs@[i].has(q) implies self.holds_free(
                    q,
                ) by {
                    if i == r {
                        assert(run.start.0 <= q < block.0);
                    }
                }
            }
            r += 1;
        }
        proof {
            assert forall|q: int| free_frame(arena, taken, q) implies #[trigger] self.holds_free(q) by {
                assert(in_runs(runs@, q));
                let i = choose|i: int| 0 <= i < runs@.len() && (#[trigger] runs@[i]).has(q);
                assert(runs@[i].has(q));
            }
        }
    }
}

/// The buddy of a block aligned to its order is aligned to it too, and the
/// lower of the two is aligned to the next order up and starts the pair.
pub proof fn lemma_buddy(p: usize, o: usize)
    requires
        o < MAX_ORDER,
        p as int % pow2(o as nat) as int == 0,
    ensures
        ({
            let b = (p ^ (1usize << o)) as int;
            let size = pow2(o as nat) as int;
            let pair = pow2((o + 1) as nat) as int;
            &&& b % size == 0
            &&& (p as int % pair == 0 && b == p + size) || (b % pair == 0 && p == b + size)
        }),
{
    lemma2_to64();
    if o == 0 {
        assert(1usize << 0usize == 1usize && (p % 1 == 0 ==> (p ^ 1usize) % 1 == 0 && ((p % 2 == 0 && (p ^ 1usize) == p + 1) || ((p ^ 1usize) % 2 == 0 && p == (p ^ 1usize) + 1)))) by (bit_vector);
    } else if o == 1 {
        assert(1usize << 1usize == 2usize && (p % 2 == 0 ==> (p ^ 2usize) % 2 == 0 && ((p % 4 == 0 && (p ^ 2usize) == p + 2) || ((p ^ 2usize) % 4 == 0 && p == (p ^ 2usize) + 2)))) by (bit_vector);
    } else if o == 2 {
        assert(1usize << 2usize == 4usize && (p % 4 == 0 ==> (p ^ 4usize) % 4 == 0 && ((p % 8 == 0 && (p ^ 4usize) == p + 4) || ((p ^ 4usize) % 8 == 0 && p == (p ^ 4usize) + 4)))) by (bit_vector);
    } else if o == 3 {
        assert(1usize << 3usize == 8usize && (p % 8 == 0 ==> (p ^ 8usize) % 8 == 0 && ((p % 16 == 0 && (p ^ 8usize) == p + 8) || ((p ^ 8usize) % 16 == 0 && p == (p ^ 8usize) + 8)))) by (bit_vector);
    } else if o == 4 {
        assert(1usize << 4usize == 16usize && (p % 16 == 0 ==> (p ^ 16usize) % 16 == 0 && ((p % 32 == 0 && (p ^ 16usize) == p + 16) || ((p ^ 16usize) % 32 == 0 && p == (p ^ 16usize) + 16)))) by (bit_vector);
    } else if o == 5 {
        assert(1usize << 5usize == 32usize && (p % 32 == 0 ==> (p ^ 32usize) % 32 == 0 && ((p % 64 == 0 && (p ^ 32usize) == p + 32) || ((p ^ 32usize) % 64 == 0 && p == (p ^ 32usize) + 32)))) by (bit_vector);
    } else if o == 6 {
        assert(1usize << 6usize == 64usize && (p % 64 == 0 ==> (p ^ 64usize) % 64 == 0 && ((p % 128 == 0 && (p ^ 64usize) == p + 64) || ((p ^ 64usize) % 128 == 0 && p == (p ^ 64usize) + 64)))) by (bit_vector);
    } else if o == 7 {
        assert(1usize << 7usize == 128usize && (p % 128 == 0 ==> (p ^ 128usize) % 128 == 0 && ((p % 256 == 0 && (p ^ 128usize) == p + 128) || ((p ^ 128usize) % 256 == 0 && p == (p ^ 128usize) + 128)))) by (bit_vector);
    } else if o == 8 {
        assert(1usize << 8usize == 256usize && (p % 256 == 0 ==> (p ^ 256usize) % 256 == 0 && ((p % 512 == 0 && (p ^ 256usize) == p + 256) || ((p ^ 256usize) % 512 == 0 && p == (p ^ 256usize) + 256)))) by (bit_vector);
    } else if o == 9 {
        assert(1usize << 9usize == 512usize && (p % 512 == 0 ==> (p ^ 512usize) % 512 == 0 && ((p % 1024 == 0 && (p ^ 512usize) == p + 512) || ((p ^ 512usize) % 1024 == 0 && p == (p ^ 512usize) + 512)))) by (bit_vector);
    }
}

/// A multiple of `2^a` is a multiple of every smaller power of two.
proof fn lemma_aligned_lower(x: nat, a: nat, b: nat)
    requires
        b <= a,
        x % pow2(a) == 0,
    ensures
        x % pow2(b) == 0,
{
    lemma_pow2_pos(a);
    lemma_pow2_pos(b);
    vstd::arithmetic::power2::lemma_pow2_adds(b, (a - b) as nat);
    lemma_pow2_pos((a - b) as nat);
    vstd::arithmetic::div_mod::lemma_fundamental_div_mod(x as int, pow2(a) as int);
    let k = x as int / pow2(a) as int;
    assert(x == (k * pow2((a - b) as nat)) * pow2(b)) by (nonlinear_arith)
        requires
            x == pow2(a) * k,
            pow2(a) == pow2(b) * pow2((a - b) as nat),
    ;
    vstd::arithmetic::div_mod::lemma_mod_multiples_basic(k * pow2((a - b) as nat), pow2(b) as int);
}

/// The largest power of two at most `x`, as an exponent.
fn ilog2(x: usize) -> (log: usize)
    requires
        x > 0,
    ensures
        log < 64,
        pow2(log as nat) <= x,
{
    let mut log: usize = 0;
    let mut v = x;
    proof {
        lemma2_to64();
    }
    while v > 1
        invariant
            v >= 1,
            v * pow2(log as nat) <= x,
            log < 64,
        decreases v,
    {
        proof {
            vstd::arithmetic::power2::lemma_pow2_unfold((log + 1) as nat);
            lemma_pow2_pos(log as nat);
            assert((v / 2) * pow2((log + 1) as nat) <= v * pow2(log as nat)) by (nonlinear_arith)
                requires
                    pow2((log + 1) as nat) == 2 * pow2(log as nat),
                    v >= 2,
            ;
            assert(pow2((log + 1) as nat) <= x) by (nonlinear_arith)
                requires
                    (v / 2) * pow2((log + 1) as nat) <= x,
                    v >= 2,
            ;
            lemma2_to64();
            if log + 1 >= 64 {
                if log + 1 > 64 {
                    vstd::arithmetic::power2::lemma_pow2_strictly_increases(64, (log + 1) as nat);
                }
            }
        }
        v = v / 2;
        log += 1;
    }
    proof {
        assert(pow2(log as nat) <= x) by (nonlinear_arith)
            requires
                v * pow2(log as nat) <= x,
                v >= 1,
        ;
    }
    log
}

/// Giving back a block just handed out undoes the hand-out: the record of
/// the blocks handed out and the count of free pages are what they were.
pub proof fn lemma_free_undoes_allocate(
    before: Frames,
    allocated: Frames,
    after: Frames,
    p: usize,
    order: nat,
)
    requires
        !before.allocated().contains_key(p),
        allocated.allocated() == before.allocated().insert(p, order),
        allocated.spec_free_pages() == before.spec_free_pages() - pow2(order),
        after.allocated() == allocated.allocated().remove(p),
        after.spec_free_pages() == allocated.spec_free_pages() + pow2(allocated.allocated()[p]),
    ensures
        after.allocated() == before.allocated(),
        after.spec_free_pages() == before.spec_free_pages(),
{
    assert(after.allocated() =~= before.allocated());
}

} // verus!
