use vstd::prelude::*;

use crate::frames::lists::distinct;
use crate::frames::Frames;
use crate::memory::pages::{ArenaIndex, Entry, Pages};
use crate::frames::MAX_ORDER;
use crate::memory::pfn::PAGE_SIZE;
use crate::slab::{
    agree, chain, class_shift, class_size, entry_class, entry_head, entry_in_use, entry_next,
    entry_prev, free_slots, lemma_chain_frame, lemma_slot_geometry, linked, object_in_use,
    same_outside, slab_pfn, slab_wf, slot_addr, slot_count, Slab, SlotWords, CLASSES_COUNT,
};

verus! {

/// The link that names the page `p`, if there is one.
pub open spec fn link_to(pages: Pages, p: Option<usize>) -> Option<ArenaIndex> {
    match p {
        Some(q) => Some(ArenaIndex::spec_new((q - pages.base_frame()) as u32)),
        None => None,
    }
}

/// The page before position `i` of `list`.
pub open spec fn prev_in(list: Seq<usize>, i: int) -> Option<usize> {
    if i == 0 {
        None
    } else {
        Some(list[i - 1])
    }
}

/// The page after position `i` of `list`.
pub open spec fn next_in(list: Seq<usize>, i: int) -> Option<usize> {
    if i + 1 >= list.len() {
        None
    } else {
        Some(list[i + 1])
    }
}

/// `p` is on one of the partial lists.
pub open spec fn listed(partial: Seq<Seq<usize>>, p: usize) -> bool {
    exists|c: int, i: int| 0 <= c < partial.len() && 0 <= i < partial[c].len() && partial[c][i] == p
}

/// The page at `p` is a slab: handed out by the buddy allocator and marked
/// as a slab in the metadata.
pub open spec fn slab_page(pages: Pages, frames: Frames, p: usize) -> bool {
    frames.allocated().contains_key(p) && pages.entry_at(p as int) is Slab
}

/// Two entries agree on everything but their partial-list links.
pub open spec fn same_state(e1: Entry, e2: Entry) -> bool {
    &&& (e1 is Slab) == (e2 is Slab)
    &&& entry_class(e1) == entry_class(e2)
    &&& entry_head(e1) == entry_head(e2)
    &&& entry_in_use(e1) == entry_in_use(e2)
}

/// `after` is `before` with, at most, the partial-list links of some entries
/// changed.
pub open spec fn links_rewritten(before: Pages, after: Pages) -> bool {
    &&& after.wf()
    &&& after.base_frame() == before.base_frame()
    &&& after.frames() == before.frames()
    &&& after.spec_region() == before.spec_region()
    &&& forall|q: int| before.describes(q) ==> same_state(#[trigger] before.entry_at(q), after.entry_at(q))
    &&& forall|q: int|
        before.describes(q) && !(before.entry_at(q) is Slab) ==> #[trigger] after.entry_at(q)
            == before.entry_at(q)
}

/// The partial lists, one per class, each linked through its slabs' entries
/// in both directions, with the heads kept at hand.
pub open spec fn lists_ok(heads: Seq<Option<Slab>>, partial: Seq<Seq<usize>>, pages: Pages, frames: Frames) -> bool {
    &&& heads.len() == CLASSES_COUNT
    &&& partial.len() == CLASSES_COUNT
    &&& distinct(partial)
    &&& forall|c: int|
        0 <= c < CLASSES_COUNT ==> slab_pfn(#[trigger] heads[c]) == if partial[c].len() > 0 {
            Some(partial[c][0] as int)
        } else {
            None
        }
    &&& forall|c: int, i: int|
        0 <= c < CLASSES_COUNT && 0 <= i < partial[c].len() ==> {
            let p = #[trigger] partial[c][i];
            let e = pages.entry_at(p as int);
            &&& slab_page(pages, frames, p)
            &&& entry_class(e) == c
            &&& entry_prev(e) == link_to(pages, prev_in(partial[c], i))
            &&& entry_next(e) == link_to(pages, next_in(partial[c], i))
        }
}

/// Every slab page is well formed, and it is on a partial list exactly when
/// it has a free object.
pub open spec fn slabs_ok(partial: Seq<Seq<usize>>, pages: Pages, frames: Frames, words: Map<usize, u16>) -> bool {
    forall|p: usize|
        #[trigger] slab_page(pages, frames, p) ==> {
            &&& slab_wf(pages, words, p as int)
            &&& (entry_head(pages.entry_at(p as int)) is Some <==> listed(partial, p))
        }
}

/// The small-object allocator: for each size class, the slabs that still
/// have a free object.
pub struct Cache {
    heads: Vec<Option<Slab>>,
    words: SlotWords,
    partial: Ghost<Seq<Seq<usize>>>,
}

impl Cache {
    /// The slabs with a free object, per class, head first.
    pub closed spec fn partial(self) -> Seq<Seq<usize>> {
        self.partial@
    }

    /// The first words of the objects, where free objects keep their links.
    pub closed spec fn words(self) -> Map<usize, u16> {
        self.words@
    }

    pub closed spec fn wf(self, pages: Pages, frames: Frames) -> bool {
        &&& frames.wf(pages)
        &&& lists_ok(self.heads@, self.partial@, pages, frames)
        &&& slabs_ok(self.partial@, pages, frames, self.words@)
    }

    /// A well-formed cache sits on a well-formed buddy allocator, and every
    /// slab in it is well formed.
    pub proof fn lemma_wf(self, pages: Pages, frames: Frames)
        requires
            self.wf(pages, frames),
        ensures
            frames.wf(pages),
            slabs_ok(self.partial(), pages, frames, self.words()),
    {
    }

    /// A cache with no slab at all.
    pub fn new() -> (cache: Self)
        ensures
            forall|pages: Pages, frames: Frames|
                frames.wf(pages) && frames.allocated() == Map::<usize, nat>::empty()
                    ==> #[trigger] cache.wf(pages, frames),
            cache.partial() == Seq::new(CLASSES_COUNT as nat, |c: int| Seq::<usize>::empty()),
    {
        let mut heads: Vec<Option<Slab>> = Vec::new();
        let mut c: usize = 0;
        while c < CLASSES_COUNT
            invariant
                c <= CLASSES_COUNT,
                heads@.len() == c,
                forall|k: int| 0 <= k < c ==> heads@[k] is None,
            decreases CLASSES_COUNT - c,
        {
            heads.push(None);
            c += 1;
        }
        let ghost partial = Seq::new(CLASSES_COUNT as nat, |c: int| Seq::<usize>::empty());
        Cache { heads, words: SlotWords::new(), partial: Ghost(partial) }
    }
}

/// `addr` is an object that a slab has handed out and that has not come
/// back.
pub open spec fn is_live(pages: Pages, frames: Frames, words: Map<usize, u16>, addr: int) -> bool {
    &&& 0 <= addr <= usize::MAX
    &&& slab_page(pages, frames, (addr / PAGE_SIZE as int) as usize)
    &&& object_in_use(pages, words, addr / PAGE_SIZE as int, addr)
}

/// `w1` and `w2` hold the same words on the page at `q`.
pub open spec fn same_page_words(w1: Map<usize, u16>, w2: Map<usize, u16>, q: int) -> bool {
    forall|b: usize| b / PAGE_SIZE == q ==> #[trigger] agree(w1, w2, b)
}

/// A slab page whose entry and words stay as they were stays well formed,
/// with the same free objects.
pub proof fn lemma_slab_same_page(
    pg1: Pages,
    w1: Map<usize, u16>,
    pg2: Pages,
    w2: Map<usize, u16>,
    q: int,
)
    requires
        slab_wf(pg1, w1, q),
        pg2.wf(),
        pg2.base_frame() == pg1.base_frame(),
        pg2.frames() == pg1.frames(),
        same_state(pg1.entry_at(q), pg2.entry_at(q)),
        same_page_words(w1, w2, q),
    ensures
        slab_wf(pg2, w2, q),
        free_slots(pg2, w2, q) == free_slots(pg1, w1, q),
{
    let e = pg1.entry_at(q);
    let class = entry_class(e);
    let sh = class_shift(class);
    let n = slot_count(class);
    let free = free_slots(pg1, w1, q);
    crate::slab::lemma_classes();
    assert(class_size(class) * slot_count(class) == PAGE_SIZE);
    pg1.lemma_wf();
    assert forall|i: int| 0 <= i < free.len() implies agree(
        w1,
        w2,
        crate::slab::slot_addr(q, sh, #[trigger] free[i] as int) as usize,
    ) by {
        assert((free[i] as int) < n);
        vstd::arithmetic::power2::lemma2_to64();
        assert((12 - sh) as nat == (9 - class) as nat);
        lemma_slot_geometry(q, sh, free[i] as int);
        let a = crate::slab::slot_addr(q, sh, free[i] as int);
        let b = a as usize;
        assert(0 <= a <= usize::MAX);
        assert(b as int == a);
        assert(b / PAGE_SIZE == q);
    }
    lemma_chain_frame(w1, w2, q, sh, entry_head(e), n as nat);
}

/// Whether an address is live depends only on its own page.
pub proof fn lemma_live_same_page(
    pg1: Pages,
    fr1: Frames,
    w1: Map<usize, u16>,
    pg2: Pages,
    fr2: Frames,
    w2: Map<usize, u16>,
    a: int,
)
    requires
        0 <= a <= usize::MAX,
        slab_page(pg1, fr1, (a / PAGE_SIZE as int) as usize) == slab_page(pg2, fr2, (a / PAGE_SIZE as int) as usize),
        slab_page(pg1, fr1, (a / PAGE_SIZE as int) as usize) ==> {
            &&& slab_wf(pg1, w1, a / PAGE_SIZE as int)
            &&& pg2.wf()
            &&& pg2.base_frame() == pg1.base_frame()
            &&& pg2.frames() == pg1.frames()
            &&& same_state(pg1.entry_at(a / PAGE_SIZE as int), pg2.entry_at(a / PAGE_SIZE as int))
            &&& same_page_words(w1, w2, a / PAGE_SIZE as int)
        },
    ensures
        is_live(pg1, fr1, w1, a) == is_live(pg2, fr2, w2, a),
{
    let q = a / PAGE_SIZE as int;
    if slab_page(pg1, fr1, q as usize) {
        lemma_slab_same_page(pg1, w1, pg2, w2, q);
    }
}

/// A slab page's state rewritten, its links and class kept, leaves the
/// partial lists as they were.
#[verifier::rlimit(40)]
proof fn lemma_lists_state(
    heads: Seq<Option<Slab>>,
    partial: Seq<Seq<usize>>,
    pg1: Pages,
    pg2: Pages,
    frames: Frames,
    p: usize,
)
    requires
        lists_ok(heads, partial, pg1, frames),
        pg1.same_except(pg2, p as int),
        pg2.entry_at(p as int) is Slab,
        entry_class(pg2.entry_at(p as int)) == entry_class(pg1.entry_at(p as int)),
        entry_next(pg2.entry_at(p as int)) == entry_next(pg1.entry_at(p as int)),
        entry_prev(pg2.entry_at(p as int)) == entry_prev(pg1.entry_at(p as int)),
        frames.wf(pg1),
    ensures
        lists_ok(heads, partial, pg2, frames),
{
    assert forall|c: int, i: int|
        0 <= c < CLASSES_COUNT && 0 <= i < partial[c].len() implies {
        let r = #[trigger] partial[c][i];
        let e = pg2.entry_at(r as int);
        &&& slab_page(pg2, frames, r)
        &&& entry_class(e) == c
        &&& entry_prev(e) == link_to(pg2, prev_in(partial[c], i))
        &&& entry_next(e) == link_to(pg2, next_in(partial[c], i))
    } by {
        let r = partial[c][i];
        let e1 = pg1.entry_at(r as int);
        assert(slab_page(pg1, frames, r));
        assert(entry_class(e1) == c);
        assert(entry_prev(e1) == link_to(pg1, prev_in(partial[c], i)));
        assert(entry_next(e1) == link_to(pg1, next_in(partial[c], i)));
        if r != p {
            frames.lemma_slab_order(pg1, r);
            assert(pg2.entry_at(r as int) == e1);
        }
    }
}

/// The pages handed out whole, not as slabs, and their entries, are the
/// same before and after.
pub open spec fn pages_kept(f1: Frames, f2: Frames, p1: Pages, p2: Pages) -> bool {
    &&& forall|q: usize|
        #[trigger] f1.allocated().contains_key(q) && !(p1.entry_at(q as int) is Slab) ==> {
            &&& f2.allocated().contains_key(q)
            &&& f2.allocated()[q] == f1.allocated()[q]
            &&& p2.entry_at(q as int) == p1.entry_at(q as int)
        }
    &&& forall|q: usize|
        #[trigger] f2.allocated().contains_key(q) && !(p2.entry_at(q as int) is Slab) ==> {
            &&& f1.allocated().contains_key(q)
            &&& !(p1.entry_at(q as int) is Slab)
        }
}

/// An address on a slab page of a class falls in one of the page's slots.
pub proof fn lemma_slot_index_bounds(pfn: int, class: int, x: int)
    requires
        0 <= class < CLASSES_COUNT,
        x / PAGE_SIZE as int == pfn,
    ensures
        0 <= crate::slab::slot_index(pfn, class, x) < slot_count(class),
{
    crate::slab::lemma_classes();
    let size = class_size(class);
    let n = slot_count(class);
    assert(size * n == PAGE_SIZE);
    let off = x - pfn * PAGE_SIZE;
    vstd::arithmetic::div_mod::lemma_fundamental_div_mod(x, PAGE_SIZE as int);
    assert(0 <= off < PAGE_SIZE);
    vstd::arithmetic::div_mod::lemma_div_pos_is_pos(off, size);
    assert(PAGE_SIZE as int == n * size) by {
        vstd::arithmetic::mul::lemma_mul_is_commutative(n, size);
    }
    vstd::arithmetic::div_mod::lemma_div_by_multiple_is_strongly_ordered(off, PAGE_SIZE as int, n, size);
    vstd::arithmetic::div_mod::lemma_div_by_multiple(n, size);
}

/// Rewriting links alone keeps every slab well formed, the same objects in
/// use, and the same slab pages.
pub proof fn lemma_links_keep_slabs(
    partial: Seq<Seq<usize>>,
    pg1: Pages,
    pg2: Pages,
    frames: Frames,
    words: Map<usize, u16>,
)
    requires
        slabs_ok(partial, pg1, frames, words),
        frames.wf(pg1),
        links_rewritten(pg1, pg2),
    ensures
        slabs_ok(partial, pg2, frames, words),
        forall|x: int| is_live(pg2, frames, words, x) == is_live(pg1, frames, words, x),
        forall|q: usize| slab_page(pg2, frames, q) == slab_page(pg1, frames, q),
{
    assert forall|q: usize| slab_page(pg2, frames, q) == slab_page(pg1, frames, q) by {
        if frames.allocated().contains_key(q) {
            frames.lemma_slab_order(pg1, q);
            if pg1.describes(q as int) {
                assert(same_state(pg1.entry_at(q as int), pg2.entry_at(q as int)));
            }
        }
    }
    assert forall|q: usize| #[trigger] slab_page(pg2, frames, q) implies {
        &&& slab_wf(pg2, words, q as int)
        &&& (entry_head(pg2.entry_at(q as int)) is Some <==> listed(partial, q))
    } by {
        assert(slab_page(pg1, frames, q));
        frames.lemma_slab_order(pg1, q);
        assert(same_state(pg1.entry_at(q as int), pg2.entry_at(q as int)));
        lemma_slab_same_page(pg1, words, pg2, words, q as int);
    }
    assert forall|x: int| is_live(pg2, frames, words, x) == is_live(pg1, frames, words, x) by {
        if 0 <= x <= usize::MAX {
            let q = (x / PAGE_SIZE as int) as usize;
            if slab_page(pg1, frames, q) {
                frames.lemma_slab_order(pg1, q);
                assert(same_state(pg1.entry_at(q as int), pg2.entry_at(q as int)));
            }
            lemma_live_same_page(pg1, frames, words, pg2, frames, words, x);
        }
    }
}

/// Every slab stays a slab, of the same class.
pub open spec fn slabs_kept(f1: Frames, f2: Frames, p1: Pages, p2: Pages) -> bool {
    forall|q: usize|
        #[trigger] slab_page(p1, f1, q) ==> slab_page(p2, f2, q) && entry_class(p2.entry_at(q as int))
            == entry_class(p1.entry_at(q as int))
}

/// Every slab that is still a slab has kept its class.
pub open spec fn classes_kept(f1: Frames, f2: Frames, p1: Pages, p2: Pages) -> bool {
    forall|q: usize|
        #[trigger] slab_page(p1, f1, q) && slab_page(p2, f2, q) ==> entry_class(p2.entry_at(q as int))
            == entry_class(p1.entry_at(q as int))
}

/// Keeping the whole-page blocks twice keeps them.
pub proof fn lemma_kept_trans(f0: Frames, f1: Frames, f2: Frames, p0: Pages, p1: Pages, p2: Pages)
    requires
        pages_kept(f0, f1, p0, p1),
        pages_kept(f1, f2, p1, p2),
    ensures
        pages_kept(f0, f2, p0, p2),
{
    assert forall|q: usize|
        #[trigger] f0.allocated().contains_key(q) && !(p0.entry_at(q as int) is Slab) implies {
        &&& f2.allocated().contains_key(q)
        &&& f2.allocated()[q] == f0.allocated()[q]
        &&& p2.entry_at(q as int) == p0.entry_at(q as int)
    } by {
        assert(f1.allocated().contains_key(q));
    }
    assert forall|q: usize| #[trigger] f2.allocated().contains_key(q) && !(p2.entry_at(q as int) is Slab) implies {
        &&& f0.allocated().contains_key(q)
        &&& !(p0.entry_at(q as int) is Slab)
    } by {
        assert(f1.allocated().contains_key(q));
    }
}

/// Rewriting links leaves every block handed out whole as it was.
pub proof fn lemma_links_kept(f: Frames, p1: Pages, p2: Pages)
    requires
        f.wf(p1),
        links_rewritten(p1, p2),
    ensures
        pages_kept(f, f, p1, p2),
{
    assert forall|q: usize| #[trigger] f.allocated().contains_key(q) && !(p1.entry_at(q as int) is Slab) implies p2.entry_at(
        q as int,
    ) == p1.entry_at(q as int) by {
        f.lemma_slab_order(p1, q);
    }
    assert forall|q: usize| #[trigger] f.allocated().contains_key(q) && !(p2.entry_at(q as int) is Slab) implies !(p1.entry_at(
        q as int,
    ) is Slab) by {
        f.lemma_slab_order(p1, q);
        assert(same_state(p1.entry_at(q as int), p2.entry_at(q as int)));
    }
}

/// Metadata is its own link rewrite.
pub proof fn lemma_links_refl(pages: Pages)
    requires
        pages.wf(),
    ensures
        links_rewritten(pages, pages),
{
}

/// Every slab but `p` was in order with the old lists and is listed the same
/// way on the new ones, and `p` is in order with the new ones: then, with
/// links rewritten, every slab is in order with the new lists.
pub proof fn lemma_slabs_fix(
    partial_old: Seq<Seq<usize>>,
    partial_new: Seq<Seq<usize>>,
    pg1: Pages,
    pg2: Pages,
    fr: Frames,
    w: Map<usize, u16>,
    p: usize,
)
    requires
        fr.wf(pg1),
        links_rewritten(pg1, pg2),
        forall|q: usize|
            #[trigger] slab_page(pg1, fr, q) && q != p ==> {
                &&& slab_wf(pg1, w, q as int)
                &&& (entry_head(pg1.entry_at(q as int)) is Some <==> listed(partial_old, q))
            },
        forall|q: usize| q != p ==> listed(partial_new, q) == listed(partial_old, q),
        slab_page(pg1, fr, p),
        slab_wf(pg1, w, p as int),
        entry_head(pg1.entry_at(p as int)) is Some <==> listed(partial_new, p),
    ensures
        slabs_ok(partial_new, pg2, fr, w),
        forall|x: int| is_live(pg2, fr, w, x) == is_live(pg1, fr, w, x),
        forall|q: usize| slab_page(pg2, fr, q) == slab_page(pg1, fr, q),
{
    assert(slabs_ok(partial_new, pg1, fr, w)) by {
        assert forall|q: usize| #[trigger] slab_page(pg1, fr, q) implies {
            &&& slab_wf(pg1, w, q as int)
            &&& (entry_head(pg1.entry_at(q as int)) is Some <==> listed(partial_new, q))
        } by {
            if q != p {
                assert(listed(partial_new, q) == listed(partial_old, q));
            }
        }
    }
    lemma_links_keep_slabs(partial_new, pg1, pg2, fr, w);
}

/// One rewrite of a slab page's links keeps the buddy allocator well formed
/// and changes no slab's state.
proof fn lemma_link_write(frames: Frames, before: Pages, after: Pages, p: usize)
    requires
        frames.wf(before),
        slab_page(before, frames, p),
        before.same_except(after, p as int),
        after.entry_at(p as int) is Slab,
        same_state(before.entry_at(p as int), after.entry_at(p as int)),
    ensures
        frames.wf(after),
        links_rewritten(before, after),
{
    frames.lemma_slab_order(before, p);
    frames.lemma_slab_rewrite(before, after, p);
}

/// Rewriting links twice is rewriting links.
proof fn lemma_links_trans(a: Pages, b: Pages, c: Pages)
    requires
        links_rewritten(a, b),
        links_rewritten(b, c),
    ensures
        links_rewritten(a, c),
{
    assert forall|q: int| a.describes(q) implies same_state(#[trigger] a.entry_at(q), c.entry_at(q)) by {
        assert(same_state(a.entry_at(q), b.entry_at(q)));
        assert(b.describes(q));
        assert(same_state(b.entry_at(q), c.entry_at(q)));
    }
    assert forall|q: int| a.describes(q) && !(a.entry_at(q) is Slab) implies #[trigger] c.entry_at(q)
        == a.entry_at(q) by {
        assert(same_state(a.entry_at(q), b.entry_at(q)));
        assert(b.describes(q));
    }
}

impl Cache {
    /// Put `slab`, of class `class_idx` and off every list, at the head of
    /// its class's partial list.
    fn push(&mut self, pages: &mut Pages, frames: &Frames, class_idx: usize, slab: Slab)
        requires
            frames.wf(*old(pages)),
            lists_ok(old(self).heads@, old(self).partial@, *old(pages), *frames),
            class_idx < CLASSES_COUNT,
            slab_page(*old(pages), *frames, slab.spec_pfn() as usize),
            entry_class(old(pages).entry_at(slab.spec_pfn())) == class_idx,
            !listed(old(self).partial@, slab.spec_pfn() as usize),
        ensures
            frames.wf(*final(pages)),
            lists_ok(final(self).heads@, final(self).partial@, *final(pages), *frames),
            final(self).partial@ == old(self).partial@.update(
                class_idx as int,
                seq![slab.spec_pfn() as usize] + old(self).partial@[class_idx as int],
            ),
            final(self).words@ == old(self).words@,
            links_rewritten(*old(pages), *final(pages)),
    {
        let ghost p = slab.spec_pfn() as usize;
        let ghost c = class_idx as int;
        let ghost list = self.partial@[c];
        let ghost p0 = *pages;
        proof {
            slab.lemma_pfn();
            frames.lemma_slab_order(p0, p);
            assert forall|q: int, j: int| 0 <= q < CLASSES_COUNT && 0 <= j < self.partial@[q].len() implies self.partial@[q][j] != p by {
                if self.partial@[q][j] == p {
                    assert(listed(self.partial@, p));
                }
            }
        }
        let old_slab = self.heads[class_idx];
        proof {
            assert(slab_pfn(self.heads@[c]) == if list.len() > 0 {
                Some(list[0] as int)
            } else {
                None
            });
            if list.len() > 0 {
                assert(slab_page(p0, *frames, list[0]));
                frames.lemma_slab_order(p0, list[0]);
            }
        }
        slab.set_next(pages, old_slab);
        let ghost p1 = *pages;
        proof {
            lemma_link_write(*frames, p0, p1, p);
        }
        slab.set_prev(pages, None);
        let ghost p2 = *pages;
        proof {
            assert(slab_page(p1, *frames, p));
            lemma_link_write(*frames, p1, p2, p);
            lemma_links_trans(p0, p1, p2);
        }
        match old_slab {
            Some(old) => {
                proof {
                    old.lemma_pfn();
                    assert(old.spec_pfn() == list[0]);
                    assert(slab_page(p2, *frames, list[0]));
                }
                old.set_prev(pages, Some(slab));
                proof {
                    lemma_link_write(*frames, p2, *pages, list[0]);
                    lemma_links_trans(p0, p2, *pages);
                }
            },
            None => {},
        }
        self.heads.set(class_idx, Some(slab));
        proof {
            self.partial@ = self.partial@.update(c, seq![p] + list);
            let new_list = seq![p] + list;
            assert forall|q: int, j: int|
                0 <= q < CLASSES_COUNT && 0 <= j < self.partial@[q].len() implies {
                let r = #[trigger] self.partial@[q][j];
                let e = pages.entry_at(r as int);
                &&& slab_page(*pages, *frames, r)
                &&& entry_class(e) == q
                &&& entry_prev(e) == link_to(*pages, prev_in(self.partial@[q], j))
                &&& entry_next(e) == link_to(*pages, next_in(self.partial@[q], j))
            } by {
                if q == c && j == 0 {
                    if list.len() > 0 {
                        ArenaIndex::lemma_new_view((list[0] - p0.base_frame()) as u32);
                    }
                } else if q == c {
                    let r = list[j - 1];
                    assert(r != p);
                    assert(p0.describes(r as int)) by {
                        frames.lemma_slab_order(p0, r);
                    }
                    if j == 1 {
                        assert(r == list[0]);
                        slab.lemma_pfn();
                        assert(slab_pfn(Some(slab)) == Some(p as int));
                    } else {
                        assert(r != list[0]) by {
                            assert(list[j - 1] != list[0]);
                        }
                    }
                } else {
                    let r = self.partial@[q][j];
                    assert(r == old(self).partial@[q][j]);
                    assert(r != p);
                    assert(p0.describes(r as int)) by {
                        frames.lemma_slab_order(p0, r);
                    }
                    if list.len() > 0 {
                        assert(r != list[0]);
                    }
                }
            }
            assert forall|o1: int, i1: int, o2: int, i2: int|
                0 <= o1 < self.partial@.len() && 0 <= o2 < self.partial@.len() && 0 <= i1
                    < self.partial@[o1].len() && 0 <= i2 < self.partial@[o2].len()
                    && #[trigger] self.partial@[o1][i1] == #[trigger] self.partial@[o2][i2] implies o1
                == o2 && i1 == i2 by {
                let a = if o1 == c {
                    i1 - 1
                } else {
                    i1
                };
                let b = if o2 == c {
                    i2 - 1
                } else {
                    i2
                };
                if o1 == c && i1 == 0 {
                    if !(o2 == c && i2 == 0) {
                        assert(old(self).partial@[o2][b] == p);
                    }
                } else if o2 == c && i2 == 0 {
                    assert(old(self).partial@[o1][a] == p);
                } else {
                    assert(old(self).partial@[o1][a] == old(self).partial@[o2][b]);
                }
            }
            assert forall|q: int| 0 <= q < CLASSES_COUNT implies slab_pfn(#[trigger] self.heads@[q])
                == if self.partial@[q].len() > 0 {
                Some(self.partial@[q][0] as int)
            } else {
                None
            } by {
                if q == c {
                    slab.lemma_pfn();
                }
            }
        }
    }

    /// Take `slab` off its class's partial list, linking its neighbours to
    /// each other; its own links are cleared.
    #[verifier::rlimit(100)]
    #[verifier::spinoff_prover]
    fn unlink(&mut self, pages: &mut Pages, frames: &Frames, slab: Slab)
        requires
            frames.wf(*old(pages)),
            lists_ok(old(self).heads@, old(self).partial@, *old(pages), *frames),
            listed(old(self).partial@, slab.spec_pfn() as usize),
        ensures
            frames.wf(*final(pages)),
            lists_ok(final(self).heads@, final(self).partial@, *final(pages), *frames),
            ({
                let p = slab.spec_pfn() as usize;
                let c = entry_class(old(pages).entry_at(p as int));
                let list = old(self).partial@[c];
                &&& 0 <= c < CLASSES_COUNT
                &&& list.contains(p)
                &&& final(self).partial@ == old(self).partial@.update(c, list.remove(list.index_of(p)))
            }),
            entry_next(final(pages).entry_at(slab.spec_pfn())) is None,
            entry_prev(final(pages).entry_at(slab.spec_pfn())) is None,
            final(self).words@ == old(self).words@,
            links_rewritten(*old(pages), *final(pages)),
    {
        let ghost p = slab.spec_pfn() as usize;
        let ghost p0 = *pages;
        let ghost partial = self.partial@;
        let ghost (c, i) = choose|c: int, i: int|
            0 <= c < partial.len() && 0 <= i < partial[c].len() && partial[c][i] == p;
        let ghost list = partial[c];
        proof {
            slab.lemma_pfn();
            assert(partial[c][i] == p);
            frames.lemma_slab_order(p0, p);
            p0.lemma_wf();
            if i > 0 {
                assert(slab_page(p0, *frames, list[i - 1]));
                frames.lemma_slab_order(p0, list[i - 1]);
                let x = list[i - 1] - p0.base_frame();
                assert(0 <= x < 0x7FFFF);
                ArenaIndex::lemma_new_view(x as u32);
                assert(ArenaIndex::spec_new(x as u32)@ == x);
                assert(linked(p0, link_to(p0, Some(list[i - 1]))) == Some(list[i - 1] as int));
            }
            if i + 1 < list.len() {
                assert(slab_page(p0, *frames, list[i + 1]));
                frames.lemma_slab_order(p0, list[i + 1]);
                let x = list[i + 1] - p0.base_frame();
                assert(0 <= x < 0x7FFFF);
                ArenaIndex::lemma_new_view(x as u32);
                assert(ArenaIndex::spec_new(x as u32)@ == x);
                assert(linked(p0, link_to(p0, Some(list[i + 1]))) == Some(list[i + 1] as int));
            }
            assert(list.index_of(p) == i) by {
                list.index_of_first_ensures(p);
                assert(list.contains(p));
                let k = list.index_of(p);
                assert(list[k] == p);
            }
        }
        let class_idx = slab.class(pages);
        let (next, prev) = slab.links(pages);
        match prev {
            Some(prev_slab) => {
                proof {
                    prev_slab.lemma_pfn();
                    if let Some(n) = next {
                        n.lemma_pfn();
                    }
                    assert(i > 0);
                    assert(prev_slab.spec_pfn() == list[i - 1]);
                    assert(slab_page(p0, *frames, list[i - 1]));
                }
                prev_slab.set_next(pages, next);
                proof {
                    lemma_link_write(*frames, p0, *pages, list[i - 1]);
                }
            },
            None => {
                self.heads.set(class_idx, next);
            },
        }
        let ghost p1 = *pages;
        proof {
            if i == 0 {
                assert(p1 == p0);
            }
        }
        match next {
            Some(next_slab) => {
                proof {
                    next_slab.lemma_pfn();
                    if let Some(pr) = prev {
                        pr.lemma_pfn();
                    }
                    assert(slab_page(p1, *frames, list[i + 1]));
                }
                next_slab.set_prev(pages, prev);
                proof {
                    lemma_link_write(*frames, p1, *pages, list[i + 1]);
                    lemma_links_trans(p0, p1, *pages);
                }
            },
            None => {},
        }
        let ghost p2 = *pages;
        proof {
            assert(slab_page(p2, *frames, p));
        }
        slab.set_next(pages, None);
        let ghost p3 = *pages;
        proof {
            lemma_link_write(*frames, p2, p3, p);
            lemma_links_trans(p0, p2, p3);
            assert(slab_page(p3, *frames, p));
        }
        slab.set_prev(pages, None);
        proof {
            lemma_link_write(*frames, p3, *pages, p);
            lemma_links_trans(p0, p3, *pages);
            let new_list = list.remove(i);
            self.partial@ = partial.update(c, new_list);
            assert forall|q: int, j: int|
                0 <= q < CLASSES_COUNT && 0 <= j < self.partial@[q].len() implies {
                let r = #[trigger] self.partial@[q][j];
                let e = pages.entry_at(r as int);
                &&& slab_page(*pages, *frames, r)
                &&& entry_class(e) == q
                &&& entry_prev(e) == link_to(*pages, prev_in(self.partial@[q], j))
                &&& entry_next(e) == link_to(*pages, next_in(self.partial@[q], j))
            } by {
                let k = if q == c && j >= i {
                    j + 1
                } else {
                    j
                };
                let r = partial[q][k];
                assert(self.partial@[q][j] == r);
                assert(r != p) by {
                    assert(partial[q][k] != partial[c][i]);
                }
                assert(p0.describes(r as int)) by {
                    frames.lemma_slab_order(p0, r);
                }
                if q == c {
                    if i > 0 {
                        assert(r == list[i - 1] <==> k == i - 1) by {
                            if r == list[i - 1] {
                                assert(partial[c][k] == partial[c][i - 1]);
                            }
                        }
                    }
                    if i + 1 < list.len() {
                        assert(r == list[i + 1] <==> k == i + 1) by {
                            if r == list[i + 1] {
                                assert(partial[c][k] == partial[c][i + 1]);
                            }
                        }
                    }
                } else {
                    if i > 0 {
                        assert(r != list[i - 1]) by {
                            assert(partial[q][k] != partial[c][i - 1]);
                        }
                    }
                    if i + 1 < list.len() {
                        assert(r != list[i + 1]) by {
                            assert(partial[q][k] != partial[c][i + 1]);
                        }
                    }
                }
            }
            assert forall|o1: int, i1: int, o2: int, i2: int|
                0 <= o1 < self.partial@.len() && 0 <= o2 < self.partial@.len() && 0 <= i1
                    < self.partial@[o1].len() && 0 <= i2 < self.partial@[o2].len()
                    && #[trigger] self.partial@[o1][i1] == #[trigger] self.partial@[o2][i2] implies o1
                == o2 && i1 == i2 by {
                let a = if o1 == c && i1 >= i {
                    i1 + 1
                } else {
                    i1
                };
                let b = if o2 == c && i2 >= i {
                    i2 + 1
                } else {
                    i2
                };
                assert(partial[o1][a] == partial[o2][b]);
            }
            assert forall|q: int| 0 <= q < CLASSES_COUNT implies slab_pfn(#[trigger] self.heads@[q])
                == if self.partial@[q].len() > 0 {
                Some(self.partial@[q][0] as int)
            } else {
                None
            } by {
                if q == c && i == 0 {
                    if new_list.len() > 0 {
                        assert(new_list[0] == list[1]);
                    }
                }
            }
        }
    }

    /// Take the head off class `class_idx`'s partial list.
    fn pop(&mut self, pages: &mut Pages, frames: &Frames, class_idx: usize)
        requires
            frames.wf(*old(pages)),
            lists_ok(old(self).heads@, old(self).partial@, *old(pages), *frames),
            class_idx < CLASSES_COUNT,
            old(self).partial@[class_idx as int].len() > 0,
        ensures
            frames.wf(*final(pages)),
            lists_ok(final(self).heads@, final(self).partial@, *final(pages), *frames),
            final(self).partial@ == old(self).partial@.update(
                class_idx as int,
                old(self).partial@[class_idx as int].drop_first(),
            ),
            entry_next(final(pages).entry_at(old(self).partial@[class_idx as int][0] as int)) is None,
            entry_prev(final(pages).entry_at(old(self).partial@[class_idx as int][0] as int)) is None,
            final(self).words@ == old(self).words@,
            links_rewritten(*old(pages), *final(pages)),
    {
        let ghost list = self.partial@[class_idx as int];
        let head = match self.heads[class_idx] {
            Some(head) => head,
            None => {
                proof {
                    assert(slab_pfn(self.heads@[class_idx as int]) == Some(list[0] as int));
                }
                return;
            },
        };
        proof {
            assert(slab_pfn(self.heads@[class_idx as int]) == Some(list[0] as int));
            head.lemma_pfn();
            assert(listed(self.partial@, list[0]));
            assert(list[0] == head.spec_pfn());
            let p = list[0];
            assert(entry_class(pages.entry_at(p as int)) == class_idx);
            assert(list.index_of(p) == 0) by {
                list.index_of_first_ensures(p);
                assert(list.contains(p));
                let k = list.index_of(p);
                if k != 0 {
                    assert(list[k] == list[0]);
                    assert(self.partial@[class_idx as int][k] == self.partial@[class_idx as int][0]);
                }
            }
            assert(list.remove(0) =~= list.drop_first());
        }
        self.unlink(pages, frames, head);
    }

    /// Hand out an object of class `class_idx`: from the first slab on the
    /// class's partial list, or from a fresh slab on a page taken from the
    /// buddy allocator when the list is empty. A slab left with no free
    /// object leaves the list.
    #[verifier::rlimit(100)]
    #[verifier::spinoff_prover]
    pub fn allocate(&mut self, pages: &mut Pages, frames: &mut Frames, class_idx: usize) -> (addr:
        Option<usize>)
        requires
            old(self).wf(*old(pages), *old(frames)),
        ensures
            final(self).wf(*final(pages), *final(frames)),
            pages_kept(*old(frames), *final(frames), *old(pages), *final(pages)),
            slabs_kept(*old(frames), *final(frames), *old(pages), *final(pages)),
            match addr {
                Some(a) => {
                    &&& class_idx < CLASSES_COUNT
                    &&& (old(self).partial()[class_idx as int].len() > 0 || exists|k: int|
                        0 <= k <= MAX_ORDER && #[trigger] old(frames).free_lists()[k].len() > 0)
                    &&& !is_live(*old(pages), *old(frames), old(self).words(), a as int)
                    &&& is_live(*final(pages), *final(frames), final(self).words(), a as int)
                    &&& forall|x: int|
                        x != a ==> (is_live(*final(pages), *final(frames), final(self).words(), x)
                            == is_live(*old(pages), *old(frames), old(self).words(), x))
                    &&& entry_class(final(pages).entry_at(a as int / PAGE_SIZE as int)) == class_idx
                    &&& old(self).partial()[class_idx as int].len() > 0 ==> {
                        let p = old(self).partial()[class_idx as int][0];
                        a == slot_addr(
                            p as int,
                            class_shift(class_idx as int),
                            free_slots(*old(pages), old(self).words(), p as int)[0] as int,
                        )
                    }
                    &&& old(self).partial()[class_idx as int].len() == 0 ==> exists|k: int|
                        0 <= k <= MAX_ORDER && #[trigger] old(frames).free_lists()[k].len() > 0 && (forall|
                            j: int,
                        | 0 <= j < k ==> #[trigger] old(frames).free_lists()[j].len() == 0) && a
                            == old(frames).free_lists()[k][0] * PAGE_SIZE
                },
                None => {
                    &&& class_idx >= CLASSES_COUNT || (old(self).partial()[class_idx as int].len()
                        == 0 && forall|k: int|
                        0 <= k <= MAX_ORDER ==> #[trigger] old(frames).free_lists()[k].len() == 0)
                    &&& *final(self) == *old(self)
                    &&& *final(pages) == *old(pages)
                    &&& *final(frames) == *old(frames)
                },
            },
    {
        if class_idx >= CLASSES_COUNT {
            return None;
        }
        let ghost c = class_idx as int;
        let ghost pg0 = *pages;
        let ghost fr0 = *frames;
        let ghost w0 = self.words@;
        let slab = match self.heads[class_idx] {
            Some(slab) => slab,
            None => {
                let page_pfn = match frames.allocate(pages, 0) {
                    Some(pfn) => pfn,
                    None => {
                        return None;
                    },
                };
                let ghost pg1 = *pages;
                let ghost fr1 = *frames;
                proof {
                    self.lemma_after_page(pg0, fr0, pg1, fr1, page_pfn.0, 0);
                    fr1.lemma_pages_wf(pg1);
                    pg1.lemma_wf();
                    vstd::arithmetic::power2::lemma2_to64();
                }
                let slab = match Slab::init(pages, &mut self.words, page_pfn, class_idx) {
                    Some(slab) => slab,
                    None => {
                        return None;
                    },
                };
                let ghost before = *self;
                self.heads.set(class_idx, Some(slab));
                proof {
                    self.partial@ = self.partial@.update(c, seq![page_pfn.0]);
                    slab.lemma_pfn();
                    before.lemma_after_init(pg1, fr1, w0, *pages, page_pfn.0, c, slab, *self);
                    let pg2 = *pages;
                    let pfn = page_pfn.0;
                    assert forall|q: usize|
                        #[trigger] fr0.allocated().contains_key(q) && !(pg0.entry_at(q as int) is Slab) implies {
                        &&& fr1.allocated().contains_key(q)
                        &&& fr1.allocated()[q] == fr0.allocated()[q]
                        &&& pg2.entry_at(q as int) == pg0.entry_at(q as int)
                    } by {
                        fr0.lemma_slab_order(pg0, q);
                        assert(q != pfn);
                    }
                    assert forall|q: usize|
                        #[trigger] fr1.allocated().contains_key(q) && !(pg2.entry_at(q as int) is Slab) implies {
                        &&& fr0.allocated().contains_key(q)
                        &&& !(pg0.entry_at(q as int) is Slab)
                    } by {
                        if q != pfn {
                            fr0.lemma_slab_order(pg0, q);
                        }
                    }
                    assert forall|q: usize| #[trigger] slab_page(pg0, fr0, q) implies slab_page(pg2, fr1, q)
                        && entry_class(pg2.entry_at(q as int)) == entry_class(pg0.entry_at(q as int)) by {
                        fr0.lemma_slab_order(pg0, q);
                        assert(q != pfn);
                    }
                }
                slab
            },
        };
        let ghost pg_a = *pages;
        proof {
            assert(self.partial@[c].len() > 0);
            assert(slab.spec_pfn() == self.partial@[c][0]);
            assert(slab_page(pg_a, *frames, self.partial@[c][0]));
            assert(listed(self.partial@, self.partial@[c][0]));
            frames.lemma_slab_order(pg_a, self.partial@[c][0]);
        }
        let address = match slab.allocate(pages, &self.words) {
            Some(address) => address,
            None => {
                return None;
            },
        };
        proof {
            self.lemma_after_take(pg_a, *frames, *pages, c, address as int);
            lemma_kept_trans(fr0, *frames, *frames, pg0, pg_a, *pages);
            assert(slabs_kept(fr0, *frames, pg0, *pages));
        }
        if slab.is_full(pages) {
            let ghost pg_b = *pages;
            let ghost before = self.partial@;
            self.pop(pages, frames, class_idx);
            proof {
                lemma_links_keep_slabs(self.partial@, pg_b, *pages, *frames, self.words@);
                lemma_links_kept(*frames, pg_b, *pages);
                lemma_kept_trans(fr0, *frames, *frames, pg0, pg_b, *pages);
                assert forall|q: usize| #[trigger] slab_page(pg0, fr0, q) implies slab_page(*pages, *frames, q)
                    && entry_class(pages.entry_at(q as int)) == entry_class(pg0.entry_at(q as int)) by {
                    assert(slab_page(pg_b, *frames, q));
                    frames.lemma_slab_order(pg_b, q);
                    assert(same_state(pg_b.entry_at(q as int), pages.entry_at(q as int)));
                }
            }
        }
        Some(address)
    }

    /// A block taken from the buddy allocator changes no slab and no list:
    /// it is not a slab, at least not yet.
    pub proof fn lemma_after_page(self, pg0: Pages, fr0: Frames, pg1: Pages, fr1: Frames, pfn: usize, order: nat)
        requires
            self.wf(pg0, fr0),
            fr1.wf(pg1),
            !fr0.allocated().contains_key(pfn),
            fr1.allocated() == fr0.allocated().insert(pfn, order),
            !(pg1.entry_at(pfn as int) is Slab),
            pg1.base_frame() == pg0.base_frame(),
            pg1.frames() == pg0.frames(),
            forall|q: usize|
                #[trigger] fr0.allocated().contains_key(q) ==> pg1.entry_at(q as int) == pg0.entry_at(
                    q as int,
                ),
        ensures
            self.wf(pg1, fr1),
            !listed(self.partial(), pfn),
            forall|x: int| is_live(pg1, fr1, self.words(), x) == is_live(pg0, fr0, self.words(), x),
            forall|q: usize| slab_page(pg1, fr1, q) == slab_page(pg0, fr0, q),
    {
        assert forall|q: usize| slab_page(pg1, fr1, q) == slab_page(pg0, fr0, q) by {
            if q == pfn {
            } else if fr0.allocated().contains_key(q) {
            }
        }
        assert forall|c: int, i: int|
            0 <= c < CLASSES_COUNT && 0 <= i < self.partial@[c].len() implies {
            let r = #[trigger] self.partial@[c][i];
            let e = pg1.entry_at(r as int);
            &&& slab_page(pg1, fr1, r)
            &&& entry_class(e) == c
            &&& entry_prev(e) == link_to(pg1, prev_in(self.partial@[c], i))
            &&& entry_next(e) == link_to(pg1, next_in(self.partial@[c], i))
        } by {
            let r = self.partial@[c][i];
            assert(slab_page(pg0, fr0, r));
        }
        fr1.lemma_pages_wf(pg1);
        assert forall|q: usize| #[trigger] slab_page(pg1, fr1, q) implies {
            &&& slab_wf(pg1, self.words@, q as int)
            &&& (entry_head(pg1.entry_at(q as int)) is Some <==> listed(self.partial@, q))
        } by {
            assert(slab_page(pg0, fr0, q));
            fr0.lemma_slab_order(pg0, q);
            lemma_slab_same_page(pg0, self.words@, pg1, self.words@, q as int);
        }
        assert(!listed(self.partial@, pfn)) by {
            if listed(self.partial@, pfn) {
                let (c, i) = choose|c: int, i: int|
                    0 <= c < self.partial@.len() && 0 <= i < self.partial@[c].len() && self.partial@[c][i]
                        == pfn;
                assert(slab_page(pg0, fr0, self.partial@[c][i]));
            }
        }
        assert forall|x: int| is_live(pg1, fr1, self.words(), x) == is_live(pg0, fr0, self.words(), x) by {
            if 0 <= x <= usize::MAX {
                let q = (x / PAGE_SIZE as int) as usize;
                if slab_page(pg0, fr0, q) {
                    fr0.lemma_slab_order(pg0, q);
                }
                lemma_live_same_page(pg0, fr0, self.words@, pg1, fr1, self.words@, x);
            }
        }
    }

    /// A page set up as an empty slab of class `c` and put on the class's
    /// list, which was empty, leaves the cache well formed with no object
    /// handed out on that page.
    #[verifier::rlimit(100)]
    #[verifier::spinoff_prover]
    proof fn lemma_after_init(
        self,
        pg1: Pages,
        fr: Frames,
        w0: Map<usize, u16>,
        pg2: Pages,
        pfn: usize,
        c: int,
        slab: Slab,
        after: Cache,
    )
        requires
            lists_ok(self.heads@, self.partial@, pg1, fr),
            slabs_ok(self.partial@, pg1, fr, w0),
            fr.wf(pg1),
            !listed(self.partial@, pfn),
            0 <= c < CLASSES_COUNT,
            self.heads@[c] is None,
            fr.allocated().contains_key(pfn),
            fr.allocated()[pfn] == 0,
            !(pg1.entry_at(pfn as int) is Slab),
            pg1.same_except(pg2, pfn as int),
            pg2.entry_at(pfn as int) == (Entry::Slab {
                class: c as u8,
                free_head: Some(crate::memory::pages::Slot::spec_new(0)),
                in_use: 0,
                next_partial: None,
                prev_partial: None,
            }),
            slab_wf(pg2, self.words@, pfn as int),
            free_slots(pg2, self.words@, pfn as int) == Seq::new(
                slot_count(c) as nat,
                |i: int| i as u16,
            ),
            same_outside(w0, self.words@, pfn as int),
            slab.spec_pfn() == pfn,
            after.heads@ == self.heads@.update(c, Some(slab)),
            after.partial@ == self.partial@.update(c, seq![pfn]),
            after.words@ == self.words@,
        ensures
            after.wf(pg2, fr),
            forall|x: int| is_live(pg2, fr, after.words(), x) == is_live(pg1, fr, w0, x),
    {
        fr.lemma_slab_rewrite(pg1, pg2, pfn);
        assert(self.partial@[c].len() == 0) by {
            assert(slab_pfn(self.heads@[c]) == if self.partial@[c].len() > 0 {
                Some(self.partial@[c][0] as int)
            } else {
                None
            });
        }
        let partial = after.partial@;
        assert forall|q: int| 0 <= q < CLASSES_COUNT implies slab_pfn(#[trigger] after.heads@[q])
            == if partial[q].len() > 0 {
            Some(partial[q][0] as int)
        } else {
            None
        } by {}
        assert forall|o1: int, i1: int, o2: int, i2: int|
            0 <= o1 < partial.len() && 0 <= o2 < partial.len() && 0 <= i1 < partial[o1].len() && 0
                <= i2 < partial[o2].len() && #[trigger] partial[o1][i1] == #[trigger] partial[o2][i2] implies o1
            == o2 && i1 == i2 by {
            if o1 == c && o2 != c {
                assert(listed(self.partial@, self.partial@[o2][i2]));
            } else if o2 == c && o1 != c {
                assert(listed(self.partial@, self.partial@[o1][i1]));
            } else if o1 != c && o2 != c {
                assert(self.partial@[o1][i1] == self.partial@[o2][i2]);
            }
        }
        assert forall|q: int, i: int| 0 <= q < CLASSES_COUNT && 0 <= i < partial[q].len() implies {
            let r = #[trigger] partial[q][i];
            let e = pg2.entry_at(r as int);
            &&& slab_page(pg2, fr, r)
            &&& entry_class(e) == q
            &&& entry_prev(e) == link_to(pg2, prev_in(partial[q], i))
            &&& entry_next(e) == link_to(pg2, next_in(partial[q], i))
        } by {
            if q != c {
                let r = partial[q][i];
                assert(slab_page(pg1, fr, r));
                fr.lemma_slab_order(pg1, r);
                assert(r != pfn) by {
                    assert(listed(self.partial@, r));
                }
            }
        }
        assert forall|q: usize| #[trigger] slab_page(pg2, fr, q) implies {
            &&& slab_wf(pg2, after.words@, q as int)
            &&& (entry_head(pg2.entry_at(q as int)) is Some <==> listed(partial, q))
        } by {
            if q == pfn {
                assert(partial[c][0] == pfn);
            } else {
                fr.lemma_slab_order(pg2, q);
                assert(slab_page(pg1, fr, q));
                lemma_slab_same_page(pg1, w0, pg2, after.words@, q as int);
                assert(listed(partial, q) == listed(self.partial@, q)) by {
                    if listed(partial, q) {
                        let (o, i) = choose|o: int, i: int|
                            0 <= o < partial.len() && 0 <= i < partial[o].len() && partial[o][i] == q;
                        assert(o != c);
                        assert(self.partial@[o][i] == q);
                    }
                    if listed(self.partial@, q) {
                        let (o, i) = choose|o: int, i: int|
                            0 <= o < self.partial@.len() && 0 <= i < self.partial@[o].len()
                                && self.partial@[o][i] == q;
                        assert(partial[o][i] == q);
                    }
                }
            }
        }
        assert forall|x: int| is_live(pg2, fr, after.words(), x) == is_live(pg1, fr, w0, x) by {
            if 0 <= x <= usize::MAX {
                let q = (x / PAGE_SIZE as int) as usize;
                if q == pfn {
                    if is_live(pg2, fr, after.words(), x) {
                        let class = entry_class(pg2.entry_at(pfn as int));
                        let k = crate::slab::slot_index(pfn as int, class, x);
                        crate::slab::lemma_classes();
                        assert(class_size(class) * slot_count(class) == PAGE_SIZE);
                        assert(0 <= k < slot_count(class)) by {
                            lemma_slot_index_bounds(pfn as int, class, x);
                        }
                        assert(free_slots(pg2, self.words@, pfn as int)[k] == k as u16);
                        assert(free_slots(pg2, self.words@, pfn as int).contains(k as u16));
                    }
                } else {
                    if slab_page(pg1, fr, q) {
                        fr.lemma_slab_order(pg1, q);
                    }
                    lemma_live_same_page(pg1, fr, w0, pg2, fr, after.words@, x);
                }
            }
        }
    }

    /// The object at the head of the first slab on list `c` handed out: the
    /// lists stay linked, and the slab leaves its list exactly when it has no
    /// free object left.
    #[verifier::rlimit(100)]
    #[verifier::spinoff_prover]
    proof fn lemma_after_take(self, pg1: Pages, fr: Frames, pg2: Pages, c: int, a: int)
        requires
            self.wf(pg1, fr),
            0 <= c < CLASSES_COUNT,
            self.partial@[c].len() > 0,
            ({
                let p = self.partial@[c][0] as int;
                let e = pg1.entry_at(p);
                let free = free_slots(pg1, self.words@, p);
                &&& free.len() > 0
                &&& a == crate::slab::slot_addr(p, class_shift(entry_class(e)), free[0] as int)
                &&& pg2.entry_at(p) == (Entry::Slab {
                    class: entry_class(e) as u8,
                    free_head: crate::memory::pages::Slot::spec_from_raw(self.words@[a as usize]),
                    in_use: (entry_in_use(e) + 1) as u16,
                    next_partial: entry_next(e),
                    prev_partial: entry_prev(e),
                })
                &&& pg1.same_except(pg2, p)
                &&& slab_wf(pg2, self.words@, p)
                &&& free_slots(pg2, self.words@, p) == free.drop_first()
            }),
        ensures
            fr.wf(pg2),
            lists_ok(self.heads@, self.partial@, pg2, fr),
            ({
                let p = self.partial@[c][0];
                let full = entry_head(pg2.entry_at(p as int)) is None;
                let after = if full {
                    self.partial@.update(c, self.partial@[c].drop_first())
                } else {
                    self.partial@
                };
                slabs_ok(after, pg2, fr, self.words@)
            }),
            0 <= a <= usize::MAX,
            !is_live(pg1, fr, self.words@, a),
            is_live(pg2, fr, self.words@, a),
            forall|x: int| x != a ==> is_live(pg2, fr, self.words@, x) == is_live(pg1, fr, self.words@, x),
            entry_class(pg2.entry_at(a / PAGE_SIZE as int)) == c,
            forall|q: usize| slab_page(pg2, fr, q) == slab_page(pg1, fr, q),
            pages_kept(fr, fr, pg1, pg2),
            slabs_kept(fr, fr, pg1, pg2),
    {
        let partial = self.partial@;
        let w = self.words@;
        let p = partial[c][0];
        let e = pg1.entry_at(p as int);
        let class = entry_class(e);
        let sh = class_shift(class);
        let free = free_slots(pg1, w, p as int);
        assert(slab_page(pg1, fr, p));
        fr.lemma_slab_order(pg1, p);
        fr.lemma_slab_rewrite(pg1, pg2, p);
        lemma_lists_state(self.heads@, partial, pg1, pg2, fr, p);
        assert(slab_wf(pg1, w, p as int));
        assert(class == c);
        crate::slab::lemma_classes();
        assert(class_size(class) * slot_count(class) == PAGE_SIZE);
        assert((free[0] as int) < slot_count(class));
        vstd::arithmetic::power2::lemma2_to64();
        assert((12 - sh) as nat == (9 - class) as nat);
        lemma_slot_geometry(p as int, sh, free[0] as int);
        pg1.lemma_wf();
        assert(a / PAGE_SIZE as int == p);
        assert(slab_page(pg2, fr, p));
        // the slot handed out was free and is in use now
        let k = free[0];
        assert((a - p * PAGE_SIZE) == k * class_size(class));
        assert(crate::slab::slot_index(p as int, class, a) == k) by {
            vstd::arithmetic::div_mod::lemma_div_by_multiple(k as int, class_size(class));
        }
        assert((a - p * PAGE_SIZE) % class_size(class) == 0) by {
            vstd::arithmetic::div_mod::lemma_mod_multiples_basic(k as int, class_size(class));
        }
        assert(free.contains(k));
        assert(!free.drop_first().contains(k)) by {
            if free.drop_first().contains(k) {
                let j = choose|j: int| 0 <= j < free.drop_first().len() && free.drop_first()[j] == k;
                assert(free[j + 1] == free[0]);
            }
        }
        let after = if entry_head(pg2.entry_at(p as int)) is None {
            partial.update(c, partial[c].drop_first())
        } else {
            partial
        };
        assert forall|q: usize| slab_page(pg2, fr, q) == slab_page(pg1, fr, q) by {
            if q != p && fr.allocated().contains_key(q) {
                fr.lemma_slab_order(pg1, q);
            }
        }
        assert forall|q: usize| #[trigger] fr.allocated().contains_key(q) && !(pg1.entry_at(q as int) is Slab) implies pg2.entry_at(
            q as int,
        ) == pg1.entry_at(q as int) by {
            fr.lemma_slab_order(pg1, q);
        }
        assert forall|q: usize| #[trigger] fr.allocated().contains_key(q) && !(pg2.entry_at(q as int) is Slab) implies !(pg1.entry_at(
            q as int,
        ) is Slab) by {
            fr.lemma_slab_order(pg1, q);
            assert(slab_page(pg2, fr, q) == slab_page(pg1, fr, q));
        }
        assert forall|q: usize| #[trigger] slab_page(pg1, fr, q) implies slab_page(pg2, fr, q)
            && entry_class(pg2.entry_at(q as int)) == entry_class(pg1.entry_at(q as int)) by {
            fr.lemma_slab_order(pg1, q);
        }
        assert forall|q: usize| #[trigger] slab_page(pg2, fr, q) implies {
            &&& slab_wf(pg2, w, q as int)
            &&& (entry_head(pg2.entry_at(q as int)) is Some <==> listed(after, q))
        } by {
            if q == p {
                if entry_head(pg2.entry_at(p as int)) is None {
                    assert(!listed(after, p)) by {
                        if listed(after, p) {
                            let (o, i) = choose|o: int, i: int|
                                0 <= o < after.len() && 0 <= i < after[o].len() && after[o][i] == p;
                            if o == c {
                                assert(partial[c][i + 1] == partial[c][0]);
                            } else {
                                assert(partial[o][i] == partial[c][0]);
                            }
                        }
                    }
                } else {
                    assert(listed(after, p)) by {
                        assert(after[c][0] == p);
                    }
                }
            } else {
                assert(slab_page(pg1, fr, q));
                fr.lemma_slab_order(pg1, q);
                lemma_slab_same_page(pg1, w, pg2, w, q as int);
                assert(listed(after, q) == listed(partial, q)) by {
                    if listed(partial, q) {
                        let (o, i) = choose|o: int, i: int|
                            0 <= o < partial.len() && 0 <= i < partial[o].len() && partial[o][i] == q;
                        if o == c && entry_head(pg2.entry_at(p as int)) is None {
                            assert(i != 0);
                            assert(after[o][i - 1] == q);
                        } else {
                            assert(after[o][i] == q);
                        }
                    }
                    if listed(after, q) {
                        let (o, i) = choose|o: int, i: int|
                            0 <= o < after.len() && 0 <= i < after[o].len() && after[o][i] == q;
                        if o == c && entry_head(pg2.entry_at(p as int)) is None {
                            assert(partial[o][i + 1] == q);
                        } else {
                            assert(partial[o][i] == q);
                        }
                    }
                }
            }
        }
        assert forall|x: int| x != a implies is_live(pg2, fr, w, x) == is_live(pg1, fr, w, x) by {
            if 0 <= x <= usize::MAX {
                let q = (x / PAGE_SIZE as int) as usize;
                if q == p {
                    let kx = crate::slab::slot_index(p as int, class, x);
                    if (x - p * PAGE_SIZE) % class_size(class) == 0 {
                        lemma_slot_index_bounds(p as int, class, x);
                        assert(kx != k) by {
                            vstd::arithmetic::div_mod::lemma_fundamental_div_mod(
                                x - p * PAGE_SIZE,
                                class_size(class),
                            );
                            vstd::arithmetic::mul::lemma_mul_is_commutative(kx, class_size(class));
                            assert(x - p * PAGE_SIZE == kx * class_size(class));
                        }
                        assert((kx as u16) != k);
                        assert(free.drop_first().contains(kx as u16) == free.contains(kx as u16)) by {
                            if free.contains(kx as u16) {
                                let j = choose|j: int| 0 <= j < free.len() && free[j] == kx as u16;
                                assert(j != 0);
                                assert(free.drop_first()[j - 1] == kx as u16);
                            }
                        }
                    }
                } else {
                    if slab_page(pg1, fr, q) {
                        fr.lemma_slab_order(pg1, q);
                    }
                    lemma_live_same_page(pg1, fr, w, pg2, fr, w, x);
                }
            }
        }
    }

    /// An object given back to the slab at `p`: every other slab is as it
    /// was, the object is no longer in use, and the slab is on its list
    /// unless it was full.
    #[verifier::rlimit(100)]
    #[verifier::spinoff_prover]
    proof fn lemma_after_release(
        self,
        pg1: Pages,
        fr: Frames,
        pg2: Pages,
        w2: Map<usize, u16>,
        p: usize,
        addr: int,
    )
        requires
            self.wf(pg1, fr),
            0 <= addr <= usize::MAX,
            is_live(pg1, fr, self.words@, addr),
            p == addr / PAGE_SIZE as int,
            ({
                let e = pg1.entry_at(p as int);
                let free = free_slots(pg1, self.words@, p as int);
                let index = crate::slab::slot_index(p as int, entry_class(e), addr);
                &&& w2 == self.words@.insert(addr as usize, crate::memory::pages::Slot::spec_to_raw(entry_head(e)))
                &&& pg2.entry_at(p as int) == (Entry::Slab {
                    class: entry_class(e) as u8,
                    free_head: Some(crate::memory::pages::Slot::spec_new(index as u16)),
                    in_use: (entry_in_use(e) - 1) as u16,
                    next_partial: entry_next(e),
                    prev_partial: entry_prev(e),
                })
                &&& pg1.same_except(pg2, p as int)
                &&& slab_wf(pg2, w2, p as int)
                &&& free_slots(pg2, w2, p as int) == seq![index as u16] + free
            }),
        ensures
            fr.wf(pg2),
            lists_ok(self.heads@, self.partial@, pg2, fr),
            slab_page(pg2, fr, p),
            entry_head(pg2.entry_at(p as int)) is Some,
            listed(self.partial@, p) == (entry_head(pg1.entry_at(p as int)) is Some),
            forall|q: usize|
                #[trigger] slab_page(pg2, fr, q) && q != p ==> {
                    &&& slab_wf(pg2, w2, q as int)
                    &&& (entry_head(pg2.entry_at(q as int)) is Some <==> listed(self.partial@, q))
                },
            slab_wf(pg2, w2, p as int),
            !is_live(pg2, fr, w2, addr),
            forall|x: int| x != addr ==> is_live(pg2, fr, w2, x) == is_live(pg1, fr, self.words@, x),
            pages_kept(fr, fr, pg1, pg2),
            forall|q: usize| slab_page(pg2, fr, q) == slab_page(pg1, fr, q),
            slabs_kept(fr, fr, pg1, pg2),
    {
        let partial = self.partial@;
        let w1 = self.words@;
        let e = pg1.entry_at(p as int);
        let class = entry_class(e);
        assert(slab_page(pg1, fr, p));
        fr.lemma_slab_order(pg1, p);
        fr.lemma_slab_rewrite(pg1, pg2, p);
        lemma_lists_state(self.heads@, partial, pg1, pg2, fr, p);
        assert forall|q: usize| slab_page(pg2, fr, q) == slab_page(pg1, fr, q) by {
            if q != p && fr.allocated().contains_key(q) {
                fr.lemma_slab_order(pg1, q);
            }
        }
        assert forall|q: usize| #[trigger] fr.allocated().contains_key(q) && !(pg1.entry_at(q as int) is Slab) implies pg2.entry_at(
            q as int,
        ) == pg1.entry_at(q as int) by {
            fr.lemma_slab_order(pg1, q);
        }
        assert forall|q: usize| #[trigger] fr.allocated().contains_key(q) && !(pg2.entry_at(q as int) is Slab) implies !(pg1.entry_at(
            q as int,
        ) is Slab) by {
            fr.lemma_slab_order(pg1, q);
        }
        assert forall|q: usize| #[trigger] slab_page(pg1, fr, q) implies slab_page(pg2, fr, q)
            && entry_class(pg2.entry_at(q as int)) == entry_class(pg1.entry_at(q as int)) by {
            fr.lemma_slab_order(pg1, q);
        }
        assert forall|q: usize|
            #[trigger] slab_page(pg2, fr, q) && q != p implies {
            &&& slab_wf(pg2, w2, q as int)
            &&& (entry_head(pg2.entry_at(q as int)) is Some <==> listed(partial, q))
        } by {
            assert(slab_page(pg1, fr, q));
            fr.lemma_slab_order(pg1, q);
            assert forall|b: usize| b / PAGE_SIZE == q implies #[trigger] agree(w1, w2, b) by {
                assert(b != addr as usize);
            }
            lemma_slab_same_page(pg1, w1, pg2, w2, q as int);
        }
        assert(slab_wf(pg1, w1, p as int));
        assert(listed(partial, p) == (entry_head(e) is Some));
        let index = crate::slab::slot_index(p as int, class, addr);
        assert(0 <= index < slot_count(class)) by {
            lemma_slot_index_bounds(p as int, class, addr);
        }
        assert(!is_live(pg2, fr, w2, addr)) by {
            assert(free_slots(pg2, w2, p as int)[0] == index as u16);
        }
        assert forall|x: int| x != addr implies is_live(pg2, fr, w2, x) == is_live(pg1, fr, w1, x) by {
            if 0 <= x <= usize::MAX {
                let q = (x / PAGE_SIZE as int) as usize;
                if q == p {
                    if (x - p * PAGE_SIZE) % class_size(class) == 0 {
                        let kx = crate::slab::slot_index(p as int, class, x);
                        lemma_slot_index_bounds(p as int, class, x);
                        crate::slab::lemma_classes();
                        assert(class_size(class) * slot_count(class) == PAGE_SIZE);
                        assert(kx != index) by {
                            vstd::arithmetic::div_mod::lemma_fundamental_div_mod(
                                x - p * PAGE_SIZE,
                                class_size(class),
                            );
                            vstd::arithmetic::div_mod::lemma_fundamental_div_mod(
                                addr - p * PAGE_SIZE,
                                class_size(class),
                            );
                            vstd::arithmetic::mul::lemma_mul_is_commutative(kx, class_size(class));
                            vstd::arithmetic::mul::lemma_mul_is_commutative(index, class_size(class));
                        }
                        let f1 = free_slots(pg1, w1, p as int);
                        assert(free_slots(pg2, w2, p as int).contains(kx as u16) == f1.contains(kx as u16)) by {
                            let f2 = free_slots(pg2, w2, p as int);
                            if f1.contains(kx as u16) {
                                let j = choose|j: int| 0 <= j < f1.len() && f1[j] == kx as u16;
                                assert(f2[j + 1] == kx as u16);
                            }
                            if f2.contains(kx as u16) {
                                let j = choose|j: int| 0 <= j < f2.len() && f2[j] == kx as u16;
                                if j == 0 {
                                    assert((kx as u16) == (index as u16));
                                } else {
                                    assert(f1[j - 1] == kx as u16);
                                }
                            }
                        }
                    }
                } else {
                    if slab_page(pg1, fr, q) {
                        fr.lemma_slab_order(pg1, q);
                        assert forall|b: usize| b / PAGE_SIZE == q implies #[trigger] agree(w1, w2, b) by {
                            assert(b != addr as usize);
                        }
                    }
                    lemma_live_same_page(pg1, fr, w1, pg2, fr, w2, x);
                }
            }
        }
    }

    /// Give back the object at `address` to its slab. A slab that was full
    /// goes back on its list; a slab left with nothing in use comes off its
    /// list and its page goes back to the buddy allocator.
    #[verifier::rlimit(100)]
    #[verifier::spinoff_prover]
    pub fn free(&mut self, pages: &mut Pages, frames: &mut Frames, address: usize)
        requires
            old(self).wf(*old(pages), *old(frames)),
            is_live(*old(pages), *old(frames), old(self).words(), address as int),
        ensures
            final(self).wf(*final(pages), *final(frames)),
            pages_kept(*old(frames), *final(frames), *old(pages), *final(pages)),
            classes_kept(*old(frames), *final(frames), *old(pages), *final(pages)),
            !is_live(*final(pages), *final(frames), final(self).words(), address as int),
            forall|x: int|
                x != address ==> (is_live(*final(pages), *final(frames), final(self).words(), x)
                    == is_live(*old(pages), *old(frames), old(self).words(), x)),
            ({
                let p = address as int / PAGE_SIZE as int;
                let left = entry_in_use(old(pages).entry_at(p)) - 1;
                &&& left == 0 ==> !final(frames).allocated().contains_key(p as usize)
                    && final(frames).spec_free_pages() == old(frames).spec_free_pages() + 1
                &&& left > 0 ==> slab_page(*final(pages), *final(frames), p as usize) && entry_in_use(
                    final(pages).entry_at(p),
                ) == left && *final(frames) == *old(frames)
            }),
    {
        let ghost pg0 = *pages;
        let ghost fr0 = *frames;
        let ghost w0 = self.words@;
        let ghost p = address / PAGE_SIZE;
        proof {
            fr0.lemma_slab_order(pg0, p);
            pg0.lemma_wf();
        }
        let slab = match Slab::from_addr(pages, address) {
            Some(slab) => slab,
            None => {
                return;
            },
        };
        let class_idx = slab.class(pages);
        let was_full = slab.is_full(pages);
        let ghost before = *self;
        proof {
            assert(slab_wf(pg0, w0, p as int));
        }
        slab.free(pages, &mut self.words, address);
        proof {
            before.lemma_after_release(pg0, fr0, *pages, self.words@, p as usize, address as int);
        }
        let ghost pg1 = *pages;
        self.relist(pages, frames, slab, class_idx, was_full, Ghost(before.partial@), Ghost(address as int));
        let ghost pg2 = *pages;
        proof {
            lemma_kept_trans(fr0, fr0, fr0, pg0, pg1, pg2);
        }
        self.retire(pages, frames, slab);
        proof {
            lemma_kept_trans(fr0, fr0, *frames, pg0, pg2, *pages);
            assert forall|q: usize| #[trigger] slab_page(pg0, fr0, q) && slab_page(*pages, *frames, q) implies entry_class(
                pages.entry_at(q as int),
            ) == entry_class(pg0.entry_at(q as int)) by {
                assert(slab_page(pg1, fr0, q));
                assert(slab_page(pg2, fr0, q));
            }
        }
    }

    /// Put a slab that was full back on its list, now that it has a free
    /// object again.
    #[verifier::rlimit(100)]
    #[verifier::spinoff_prover]
    fn relist(
        &mut self,
        pages: &mut Pages,
        frames: &Frames,
        slab: Slab,
        class_idx: usize,
        was_full: bool,
        Ghost(partial): Ghost<Seq<Seq<usize>>>,
        Ghost(addr): Ghost<int>,
    )
        requires
            ({
                let p = slab.spec_pfn() as usize;
                let pg1 = *old(pages);
                let fr = *frames;
                let w = old(self).words@;
                &&& old(self).partial@ == partial
                &&& entry_class(pg1.entry_at(p as int)) == class_idx
                &&& was_full == !listed(partial, p)
                &&& fr.wf(pg1)
                &&& lists_ok(old(self).heads@, partial, pg1, fr)
                &&& slab_page(pg1, fr, p)
                &&& entry_head(pg1.entry_at(p as int)) is Some
                &&& forall|q: usize|
                    #[trigger] slab_page(pg1, fr, q) && q != p ==> {
                        &&& slab_wf(pg1, w, q as int)
                        &&& (entry_head(pg1.entry_at(q as int)) is Some <==> listed(partial, q))
                    }
                &&& slab_wf(pg1, w, p as int)
            }),
        ensures
            final(self).wf(*final(pages), *frames),
            final(self).words@ == old(self).words@,
            pages_kept(*frames, *frames, *old(pages), *final(pages)),
            forall|x: int|
                is_live(*final(pages), *frames, final(self).words@, x) == is_live(
                    *old(pages),
                    *frames,
                    old(self).words@,
                    x,
                ),
            slab_page(*final(pages), *frames, slab.spec_pfn() as usize),
            entry_head(final(pages).entry_at(slab.spec_pfn())) is Some,
            entry_in_use(final(pages).entry_at(slab.spec_pfn())) == entry_in_use(
                old(pages).entry_at(slab.spec_pfn()),
            ),
            slabs_kept(*frames, *frames, *old(pages), *final(pages)),
    {
        let ghost p = slab.spec_pfn() as usize;
        let ghost pg1 = *pages;
        let ghost w1 = self.words@;
        proof {
            slab.lemma_pfn();
            frames.lemma_slab_order(pg1, p);
        }
        if was_full {
            self.push(pages, frames, class_idx, slab);
            proof {
                lemma_links_kept(*frames, pg1, *pages);
                assert(listed(self.partial@, p)) by {
                    assert(self.partial@[class_idx as int][0] == p);
                }
                assert forall|q: usize| q != p implies listed(self.partial@, q) == listed(partial, q) by {
                    let c = class_idx as int;
                    if listed(self.partial@, q) {
                        let (o, i) = choose|o: int, i: int|
                            0 <= o < self.partial@.len() && 0 <= i < self.partial@[o].len()
                                && self.partial@[o][i] == q;
                        if o == c {
                            assert(partial[o][i - 1] == q);
                        } else {
                            assert(partial[o][i] == q);
                        }
                    }
                    if listed(partial, q) {
                        let (o, i) = choose|o: int, i: int|
                            0 <= o < partial.len() && 0 <= i < partial[o].len() && partial[o][i] == q;
                        if o == c {
                            assert(self.partial@[o][i + 1] == q);
                        } else {
                            assert(self.partial@[o][i] == q);
                        }
                    }
                }
                lemma_slabs_fix(partial, self.partial@, pg1, *pages, *frames, w1, p);
                assert forall|q: usize| #[trigger] slab_page(pg1, *frames, q) implies slab_page(*pages, *frames, q)
                    && entry_class(pages.entry_at(q as int)) == entry_class(pg1.entry_at(q as int)) by {
                    frames.lemma_slab_order(pg1, q);
                    assert(same_state(pg1.entry_at(q as int), pages.entry_at(q as int)));
                }
            }
        } else {
            proof {
                frames.lemma_pages_wf(pg1);
                lemma_links_refl(pg1);
                lemma_slabs_fix(partial, partial, pg1, pg1, *frames, w1, p);
                lemma_links_kept(*frames, pg1, pg1);
            }
        }
    }

    /// Give the page of a slab with nothing in use back to the buddy
    /// allocator, after taking the slab off its list.
    #[verifier::rlimit(100)]
    #[verifier::spinoff_prover]
    fn retire(&mut self, pages: &mut Pages, frames: &mut Frames, slab: Slab)
        requires
            old(self).wf(*old(pages), *old(frames)),
            slab_page(*old(pages), *old(frames), slab.spec_pfn() as usize),
            entry_head(old(pages).entry_at(slab.spec_pfn())) is Some,
        ensures
            final(self).wf(*final(pages), *final(frames)),
            final(self).words@ == old(self).words@,
            pages_kept(*old(frames), *final(frames), *old(pages), *final(pages)),
            forall|x: int|
                is_live(*final(pages), *final(frames), final(self).words@, x) == is_live(
                    *old(pages),
                    *old(frames),
                    old(self).words@,
                    x,
                ),
            classes_kept(*old(frames), *final(frames), *old(pages), *final(pages)),
            entry_in_use(old(pages).entry_at(slab.spec_pfn())) == 0 ==> {
                &&& final(frames).allocated() == old(frames).allocated().remove(
                    slab.spec_pfn() as usize,
                )
                &&& final(frames).spec_free_pages() == old(frames).spec_free_pages() + 1
            },
            entry_in_use(old(pages).entry_at(slab.spec_pfn())) != 0 ==> *final(frames) == *old(
                frames,
            ) && *final(pages) == *old(pages),
    {
        let ghost p = slab.spec_pfn() as usize;
        let ghost pg2 = *pages;
        let ghost fr2 = *frames;
        proof {
            slab.lemma_pfn();
            frames.lemma_slab_order(pg2, p);
        }
        if slab.is_empty(pages) {
            let ghost old_partial = self.partial@;
            proof {
                assert(listed(old_partial, p));
            }
            self.unlink(pages, frames, slab);
            let ghost pg3 = *pages;
            let ghost fr3 = *frames;
            proof {
                lemma_links_kept(*frames, pg2, pg3);
                let c = entry_class(pg2.entry_at(p as int));
                let list = old_partial[c];
                let i = list.index_of(p);
                list.index_of_first_ensures(p);
                assert forall|q: usize| q != p implies listed(self.partial@, q) == listed(old_partial, q) by {
                    if listed(self.partial@, q) {
                        let (o, j) = choose|o: int, j: int|
                            0 <= o < self.partial@.len() && 0 <= j < self.partial@[o].len()
                                && self.partial@[o][j] == q;
                        if o == c && j >= i {
                            assert(old_partial[o][j + 1] == q);
                        } else {
                            assert(old_partial[o][j] == q);
                        }
                    }
                    if listed(old_partial, q) {
                        let (o, j) = choose|o: int, j: int|
                            0 <= o < old_partial.len() && 0 <= j < old_partial[o].len()
                                && old_partial[o][j] == q;
                        if o == c {
                            assert(j != i);
                            if j > i {
                                assert(self.partial@[o][j - 1] == q);
                            } else {
                                assert(self.partial@[o][j] == q);
                            }
                        } else {
                            assert(self.partial@[o][j] == q);
                        }
                    }
                }
                assert(!listed(self.partial@, p)) by {
                    if listed(self.partial@, p) {
                        let (o, j) = choose|o: int, j: int|
                            0 <= o < self.partial@.len() && 0 <= j < self.partial@[o].len()
                                && self.partial@[o][j] == p;
                        if o == c && j >= i {
                            assert(old_partial[o][j + 1] == old_partial[c][i]);
                        } else {
                            assert(old_partial[o][j] == old_partial[c][i]);
                        }
                    }
                }
            }
            frames.free(pages, slab.pfn());
            proof {
                vstd::arithmetic::power2::lemma2_to64();
                self.lemma_after_slab_free(old_partial, pg2, pg3, fr3, *pages, *frames, p);
                lemma_kept_trans(fr2, fr3, *frames, pg2, pg3, *pages);
                assert forall|q: usize| #[trigger] slab_page(pg2, fr2, q) && slab_page(*pages, *frames, q) implies entry_class(
                    pages.entry_at(q as int),
                ) == entry_class(pg2.entry_at(q as int)) by {
                    fr2.lemma_slab_order(pg2, q);
                    assert(same_state(pg2.entry_at(q as int), pg3.entry_at(q as int)));
                    assert(frames.allocated().contains_key(q));
                }
            }
        } else {
            proof {
                frames.lemma_pages_wf(pg2);
                lemma_links_refl(pg2);
                lemma_links_kept(*frames, pg2, pg2);
            }
        }
    }

    /// A slab with nothing in use, taken off its list, whose page went back
    /// to the buddy allocator: the cache stays well formed and no object
    /// changes hands.
    #[verifier::rlimit(100)]
    #[verifier::spinoff_prover]
    proof fn lemma_after_slab_free(
        self,
        listed_before: Seq<Seq<usize>>,
        pg2: Pages,
        pg3: Pages,
        fr3: Frames,
        pg4: Pages,
        fr4: Frames,
        p: usize,
    )
        requires
            slabs_ok(listed_before, pg2, fr3, self.words@),
            fr3.wf(pg2),
            links_rewritten(pg2, pg3),
            lists_ok(self.heads@, self.partial@, pg3, fr3),
            !listed(self.partial@, p),
            forall|q: usize| q != p ==> listed(self.partial@, q) == listed(listed_before, q),
            slab_page(pg2, fr3, p),
            entry_in_use(pg2.entry_at(p as int)) == 0,
            fr3.wf(pg3),
            fr4.wf(pg4),
            fr4.allocated() == fr3.allocated().remove(p),
            pg4.base_frame() == pg3.base_frame(),
            pg4.frames() == pg3.frames(),
            forall|q: usize|
                #[trigger] fr4.allocated().contains_key(q) ==> pg4.entry_at(q as int) == pg3.entry_at(
                    q as int,
                ),
        ensures
            self.wf(pg4, fr4),
            forall|x: int| is_live(pg4, fr4, self.words@, x) == is_live(pg2, fr3, self.words@, x),
            pages_kept(fr3, fr4, pg3, pg4),
    {
        let w = self.words@;
        lemma_links_keep_slabs(listed_before, pg2, pg3, fr3, w);
        assert forall|c: int, i: int|
            0 <= c < CLASSES_COUNT && 0 <= i < self.partial@[c].len() implies {
            let r = #[trigger] self.partial@[c][i];
            let e = pg4.entry_at(r as int);
            &&& slab_page(pg4, fr4, r)
            &&& entry_class(e) == c
            &&& entry_prev(e) == link_to(pg4, prev_in(self.partial@[c], i))
            &&& entry_next(e) == link_to(pg4, next_in(self.partial@[c], i))
        } by {
            let r = self.partial@[c][i];
            assert(slab_page(pg3, fr3, r));
            assert(r != p) by {
                assert(listed(self.partial@, r));
            }
            assert(fr4.allocated().contains_key(r));
        }
        assert forall|q: usize| #[trigger] slab_page(pg4, fr4, q) implies {
            &&& slab_wf(pg4, w, q as int)
            &&& (entry_head(pg4.entry_at(q as int)) is Some <==> listed(self.partial@, q))
        } by {
            assert(q != p);
            assert(slab_page(pg3, fr3, q));
            fr3.lemma_slab_order(pg3, q);
            fr4.lemma_pages_wf(pg4);
            lemma_slab_same_page(pg3, w, pg4, w, q as int);
        }
        // nothing on the freed page was in use
        let e = pg2.entry_at(p as int);
        let class = entry_class(e);
        let free = free_slots(pg2, w, p as int);
        assert(slab_wf(pg2, w, p as int));
        assert forall|x: int| is_live(pg4, fr4, w, x) == is_live(pg2, fr3, w, x) by {
            if 0 <= x <= usize::MAX {
                let q = (x / PAGE_SIZE as int) as usize;
                if q == p {
                    if is_live(pg2, fr3, w, x) {
                        let k = crate::slab::slot_index(p as int, class, x);
                        lemma_slot_index_bounds(p as int, class, x);
                        crate::slab::lemma_fewer_slots(free, slot_count(class), k as u16);
                    }
                } else {
                    assert(is_live(pg3, fr3, w, x) == is_live(pg2, fr3, w, x));
                    assert(slab_page(pg3, fr3, q) == slab_page(pg4, fr4, q)) by {
                        if fr4.allocated().contains_key(q) {
                            assert(fr3.allocated().contains_key(q));
                        }
                    }
                    if slab_page(pg3, fr3, q) {
                        fr3.lemma_slab_order(pg3, q);
                        fr4.lemma_pages_wf(pg4);
                    }
                    lemma_live_same_page(pg3, fr3, w, pg4, fr4, w, x);
                }
            }
        }
        assert forall|q: usize|
            #[trigger] fr3.allocated().contains_key(q) && !(pg3.entry_at(q as int) is Slab) implies {
            &&& fr4.allocated().contains_key(q)
            &&& fr4.allocated()[q] == fr3.allocated()[q]
            &&& pg4.entry_at(q as int) == pg3.entry_at(q as int)
        } by {
            assert(q != p) by {
                assert(slab_page(pg2, fr3, p));
                fr3.lemma_slab_order(pg2, p);
                assert(same_state(pg2.entry_at(p as int), pg3.entry_at(p as int)));
            }
        }
    }

    /// A block handed out whole and given back changes no slab and no list.
    pub proof fn lemma_after_page_free(self, pg0: Pages, fr0: Frames, pg1: Pages, fr1: Frames, pfn: usize)
        requires
            self.wf(pg0, fr0),
            fr1.wf(pg1),
            fr0.allocated().contains_key(pfn),
            !(pg0.entry_at(pfn as int) is Slab),
            fr1.allocated() == fr0.allocated().remove(pfn),
            pg1.base_frame() == pg0.base_frame(),
            pg1.frames() == pg0.frames(),
            forall|q: usize|
                #[trigger] fr1.allocated().contains_key(q) ==> pg1.entry_at(q as int) == pg0.entry_at(
                    q as int,
                ),
        ensures
            self.wf(pg1, fr1),
            forall|x: int| is_live(pg1, fr1, self.words(), x) == is_live(pg0, fr0, self.words(), x),
            forall|q: usize| slab_page(pg1, fr1, q) == slab_page(pg0, fr0, q),
    {
        assert forall|q: usize| slab_page(pg1, fr1, q) == slab_page(pg0, fr0, q) by {
            if fr1.allocated().contains_key(q) {
            }
        }
        assert forall|c: int, i: int|
            0 <= c < CLASSES_COUNT && 0 <= i < self.partial@[c].len() implies {
            let r = #[trigger] self.partial@[c][i];
            let e = pg1.entry_at(r as int);
            &&& slab_page(pg1, fr1, r)
            &&& entry_class(e) == c
            &&& entry_prev(e) == link_to(pg1, prev_in(self.partial@[c], i))
            &&& entry_next(e) == link_to(pg1, next_in(self.partial@[c], i))
        } by {
            let r = self.partial@[c][i];
            assert(slab_page(pg0, fr0, r));
            assert(fr1.allocated().contains_key(r));
        }
        fr1.lemma_pages_wf(pg1);
        assert forall|q: usize| #[trigger] slab_page(pg1, fr1, q) implies {
            &&& slab_wf(pg1, self.words@, q as int)
            &&& (entry_head(pg1.entry_at(q as int)) is Some <==> listed(self.partial@, q))
        } by {
            assert(slab_page(pg0, fr0, q));
            fr0.lemma_slab_order(pg0, q);
            lemma_slab_same_page(pg0, self.words@, pg1, self.words@, q as int);
        }
        assert forall|x: int| is_live(pg1, fr1, self.words(), x) == is_live(pg0, fr0, self.words(), x) by {
            if 0 <= x <= usize::MAX {
                let q = (x / PAGE_SIZE as int) as usize;
                if slab_page(pg0, fr0, q) {
                    fr0.lemma_slab_order(pg0, q);
                }
                lemma_live_same_page(pg0, fr0, self.words@, pg1, fr1, self.words@, x);
            }
        }
    }
}

} // verus!
