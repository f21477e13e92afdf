use vstd::prelude::*;

use crate::memory::gaps::{exact_gaps, free_frame};
use crate::memory::map::MemoryMap;
use crate::memory::pfn::{Pfn, PAGE_SIZE};
use crate::memory::region::{PageRange, Region};

verus! {

pub const ENTRY_SIZE: usize = 8;

/// The raw value that stands for "no arena index".
pub const ARENA_INDEX_NONE: u32 = 0x7FFFF;

/// The raw value that stands for "no slot".
pub const SLOT_NONE: u16 = 0x3FF;

/// Indexes of Pages in the arena. 19 bits is enough until 2GiB
#[derive(Clone, Copy, PartialEq, Eq)]
pub struct ArenaIndex(u32);

impl View for ArenaIndex {
    type V = u32;

    closed spec fn view(&self) -> u32 {
        self.0
    }
}

impl ArenaIndex {
    pub const MAX_PAGES: usize = 0x7FFFF;

    pub open spec fn spec_to_raw(value: Option<ArenaIndex>) -> u32 {
        match value {
            Some(index) => index@,
            None => ARENA_INDEX_NONE,
        }
    }

    pub open spec fn spec_from_raw(raw: u32) -> Option<ArenaIndex> {
        if raw != ARENA_INDEX_NONE {
            Some(ArenaIndex::spec_new(raw))
        } else {
            None
        }
    }

    pub closed spec fn spec_new(raw: u32) -> ArenaIndex {
        ArenaIndex(raw)
    }

    pub proof fn lemma_new_view(raw: u32)
        ensures
            ArenaIndex::spec_new(raw)@ == raw,
            forall|i: ArenaIndex| #[trigger] ArenaIndex::spec_new(i@) == i,
    {
    }

    fn to_raw(value: Option<ArenaIndex>) -> (raw: u32)
        ensures
            raw == Self::spec_to_raw(value),
    {
        match value {
            Some(index) => index.0,
            None => ARENA_INDEX_NONE,
        }
    }

    fn from_raw(raw: u32) -> (index: Option<ArenaIndex>)
        ensures
            index == Self::spec_from_raw(raw),
    {
        if raw != ARENA_INDEX_NONE {
            Some(ArenaIndex(raw))
        } else {
            None
        }
    }
}

/// A slot's position inside one slab page, counted from that page's base.
#[derive(Clone, Copy, PartialEq, Eq)]
pub struct Slot(u16);

impl View for Slot {
    type V = u16;

    closed spec fn view(&self) -> u16 {
        self.0
    }
}

impl Slot {
    pub open spec fn spec_to_raw(value: Option<Slot>) -> u16 {
        match value {
            Some(slot) => slot@,
            None => SLOT_NONE,
        }
    }

    pub open spec fn spec_from_raw(raw: u16) -> Option<Slot> {
        if raw != SLOT_NONE {
            Some(Slot::spec_new(raw))
        } else {
            None
        }
    }

    pub closed spec fn spec_new(raw: u16) -> Slot {
        Slot(raw)
    }

    pub proof fn lemma_new_view(raw: u16)
        ensures
            Slot::spec_new(raw)@ == raw,
            forall|s: Slot| #[trigger] Slot::spec_new(s@) == s,
    {
    }

    /// The slot at `index`, if `index` is below the "no slot" value.
    pub fn new(index: usize) -> (slot: Option<Slot>)
        ensures
            index < SLOT_NONE ==> (slot matches Some(s) && s@ == index),
            index >= SLOT_NONE ==> slot is None,
    {
        if index < SLOT_NONE as usize {
            Some(Slot(index as u16))
        } else {
            None
        }
    }

    pub fn index(self) -> (index: usize)
        ensures
            index == self@,
    {
        self.0 as usize
    }

    pub fn to_raw(value: Option<Slot>) -> (raw: u16)
        ensures
            raw == Self::spec_to_raw(value),
    {
        match value {
            Some(slot) => slot.0,
            None => SLOT_NONE,
        }
    }

    pub fn from_raw(raw: u16) -> (slot: Option<Slot>)
        ensures
            slot == Self::spec_from_raw(raw),
    {
        if raw != SLOT_NONE {
            Some(Slot(raw))
        } else {
            None
        }
    }
}

// 1 extra bit reserved to distinguish between buddy and slab entries
#[derive(Clone, Copy)]
pub enum Entry {
    Buddy {
        free: bool,  // 1 bit
        order: u8,  // 4 bits
    },
    Slab {
        class: u8,  // 4 bits
        free_head: Option<Slot>,  // 10 bits
        in_use: u16,  // 10 bits
        next_partial: Option<ArenaIndex>,  // 19 bits
        prev_partial: Option<ArenaIndex>,  // 19 bits
    },
}

pub open spec fn bool_bit(b: bool) -> u64 {
    if b {
        1
    } else {
        0
    }
}

impl Entry {
    /// Every field fits the bits it is packed into, and no present link uses
    /// the raw value that means "none".
    pub open spec fn fits(self) -> bool {
        match self {
            Entry::Buddy { order, .. } => order < 16,
            Entry::Slab { class, free_head, in_use, next_partial, prev_partial } => {
                &&& class < 16
                &&& in_use < 1024
                &&& free_head matches Some(s) ==> s@ < SLOT_NONE
                &&& next_partial matches Some(n) ==> n@ < ARENA_INDEX_NONE
                &&& prev_partial matches Some(p) ==> p@ < ARENA_INDEX_NONE
            },
        }
    }

    /// The packed form: bit 0 tells the kinds apart, the fields follow it.
    pub open spec fn spec_to_u64(self) -> u64 {
        match self {
            Entry::Buddy { free, order } => (bool_bit(free) << 1u64) | (((order as u64) & 0xF)
                << 2u64),
            Entry::Slab { class, free_head, in_use, next_partial, prev_partial } => 1u64 | (((
            class as u64) & 0xF) << 1u64) | (((Slot::spec_to_raw(free_head) as u64) & 0x3FF)
                << 5u64) | (((in_use as u64) & 0x3FF) << 15u64) | (((ArenaIndex::spec_to_raw(
                next_partial,
            ) as u64) & 0x7FFFF) << 25u64) | (((ArenaIndex::spec_to_raw(prev_partial) as u64)
                & 0x7FFFF) << 44u64),
        }
    }

    /// The entry a packed value stands for.
    pub open spec fn spec_from_u64(val: u64) -> Entry {
        if val & 1 != 0 {
            Entry::Slab {
                class: ((val >> 1u64) & 0xF) as u8,
                free_head: Slot::spec_from_raw(((val >> 5u64) & 0x3FF) as u16),
                in_use: ((val >> 15u64) & 0x3FF) as u16,
                next_partial: ArenaIndex::spec_from_raw(((val >> 25u64) & 0x7FFFF) as u32),
                prev_partial: ArenaIndex::spec_from_raw(((val >> 44u64) & 0x7FFFF) as u32),
            }
        } else {
            Entry::Buddy { free: val & 2 != 0, order: ((val >> 2u64) & 0xF) as u8 }
        }
    }

    fn to_u64(&self) -> (val: u64)
        ensures
            val == self.spec_to_u64(),
    {
        match self {
            Entry::Buddy { free, order } => {
                let f: u64 = if *free {
                    1
                } else {
                    0
                };
                (f << 1u64) | ((*order as u64 & 0xF) << 2u64)
            },
            Entry::Slab { class, free_head, in_use, next_partial, prev_partial } => {
                1u64 | ((*class as u64 & 0xF) << 1u64) | ((Slot::to_raw(*free_head) as u64 & 0x3FF)
                    << 5u64) | ((*in_use as u64 & 0x3FF) << 15u64) | ((ArenaIndex::to_raw(
                    *next_partial,
                ) as u64 & 0x7FFFF) << 25u64) | ((ArenaIndex::to_raw(*prev_partial) as u64 & 0x7FFFF)
                    << 44u64)
            },
        }
    }

    fn from_u64(val: u64) -> (entry: Self)
        ensures
            entry == Self::spec_from_u64(val),
    {
        let is_slab = (val & 1) != 0;

        if is_slab {
            Self::Slab {
                class: ((val >> 1u64) & 0xF) as u8,
                free_head: Slot::from_raw(((val >> 5u64) & 0x3FF) as u16),
                in_use: ((val >> 15u64) & 0x3FF) as u16,
                next_partial: ArenaIndex::from_raw(((val >> 25u64) & 0x7FFFF) as u32),
                prev_partial: ArenaIndex::from_raw(((val >> 44u64) & 0x7FFFF) as u32),
            }
        } else {
            Self::Buddy { free: (val & 2) != 0, order: ((val >> 2u64) & 0xF) as u8 }
        }
    }
}

/// Every packed value stands for an entry whose fields fit their bits.
pub proof fn lemma_decoded_fits(val: u64)
    ensures
        Entry::spec_from_u64(val).fits(),
{
    assert((val >> 1u64) & 0xF < 16 && (val >> 15u64) & 0x3FF < 1024 && (val >> 2u64) & 0xF < 16
        && (val >> 5u64) & 0x3FF <= 0x3FF && (val >> 25u64) & 0x7FFFF <= 0x7FFFF && (val >> 44u64)
        & 0x7FFFF <= 0x7FFFF) by (bit_vector);
    Slot::lemma_new_view(((val >> 5u64) & 0x3FF) as u16);
    ArenaIndex::lemma_new_view(((val >> 25u64) & 0x7FFFF) as u32);
    ArenaIndex::lemma_new_view(((val >> 44u64) & 0x7FFFF) as u32);
}

/// Reading back a packed entry gives the entry that was packed, whenever its
/// fields fit their bits.
pub proof fn lemma_entry_roundtrip(entry: Entry)
    requires
        entry.fits(),
    ensures
        Entry::spec_from_u64(entry.spec_to_u64()) == entry,
{
    match entry {
        Entry::Buddy { free, order } => {
            let f = bool_bit(free);
            let o = order as u64;
            let v = (f << 1u64) | ((o & 0xF) << 2u64);
            assert(v & 1 == 0 && ((v & 2 != 0) == (f == 1)) && ((v >> 2u64) & 0xF) == o) by (
            bit_vector)
                requires
                    v == (f << 1u64) | ((o & 0xF) << 2u64),
                    f <= 1,
                    o < 16,
            ;
        },
        Entry::Slab { class, free_head, in_use, next_partial, prev_partial } => {
            let c = class as u64;
            let h = Slot::spec_to_raw(free_head) as u64;
            let u = in_use as u64;
            let n = ArenaIndex::spec_to_raw(next_partial) as u64;
            let p = ArenaIndex::spec_to_raw(prev_partial) as u64;
            let v = 1u64 | ((c & 0xF) << 1u64) | ((h & 0x3FF) << 5u64) | ((u & 0x3FF) << 15u64) | ((n
                & 0x7FFFF) << 25u64) | ((p & 0x7FFFF) << 44u64);
            assert(v & 1 != 0 && ((v >> 1u64) & 0xF) == c && ((v >> 5u64) & 0x3FF) == h && ((v
                >> 15u64) & 0x3FF) == u && ((v >> 25u64) & 0x7FFFF) == n && ((v >> 44u64)
                & 0x7FFFF) == p) by (bit_vector)
                requires
                    v == 1u64 | ((c & 0xF) << 1u64) | ((h & 0x3FF) << 5u64) | ((u & 0x3FF)
                        << 15u64) | ((n & 0x7FFFF) << 25u64) | ((p & 0x7FFFF) << 44u64),
                    c < 16,
                    h < 1024,
                    u < 1024,
                    n < 0x80000,
                    p < 0x80000,
            ;
            Slot::lemma_new_view(0);
            ArenaIndex::lemma_new_view(0);
        },
    }
}

} // verus!

verus! {

/// The frames `[start, start + count)` are all free in `arena` once `taken` is
/// kept out of it.
pub open spec fn free_window(arena: Region, taken: Seq<Region>, start: int, count: int) -> bool {
    forall|pfn: int| start <= pfn < start + count ==> #[trigger] free_frame(arena, taken, pfn)
}

/// A window of free frames lies inside one of the maximal runs.
proof fn lemma_window_in_run(
    arena: Region,
    taken: Seq<Region>,
    runs: Seq<PageRange>,
    start: int,
    count: int,
) -> (i: int)
    requires
        exact_gaps(arena, taken, runs),
        count > 0,
        free_window(arena, taken, start, count),
    ensures
        0 <= i < runs.len(),
        runs[i].start.0 <= start,
        start + count <= runs[i].end.0,
{
    assert(free_frame(arena, taken, start));
    assert(crate::memory::gaps::in_runs(runs, start));
    let i = choose|i: int| 0 <= i < runs.len() && (#[trigger] runs[i]).has(start);
    if runs[i].end.0 < start + count {
        assert(free_frame(arena, taken, runs[i].end.0 as int));
    }
    i
}

/// The arena cannot hold the metadata of its own frames: it has no frame, or
/// more than an index reaches, or no free window of the pages the metadata
/// needs, or the first such window starts at address zero, or no
/// reservation is left to record it.
pub open spec fn no_room_for_metadata(arena: Region, taken: Seq<Region>) -> bool {
    let len = arena.size / PAGE_SIZE;
    let needed = Pages::spec_required_size(arena);
    ||| len == 0
    ||| len > ArenaIndex::MAX_PAGES
    ||| forall|s: int| !free_window(arena, taken, s, needed)
    ||| free_window(arena, taken, 0, needed) && forall|s: int|
        s < 0 ==> !free_window(arena, taken, s, needed)
    ||| taken.len() >= crate::memory::map::RESERVED
}

/// The page metadata: one packed [`Entry`] per frame of the arena.
pub struct Pages {
    region: Region,
    base: Pfn,
    len: usize,
    entries: Vec<u64>,
}

impl Pages {
    /// Where the metadata itself is kept.
    pub closed spec fn spec_region(self) -> Region {
        self.region
    }

    /// The first frame the metadata describes.
    pub closed spec fn base_frame(self) -> int {
        self.base.0 as int
    }

    /// How many frames the metadata describes.
    pub closed spec fn frames(self) -> int {
        self.len as int
    }

    /// The packed entries, frame by frame from the first.
    pub closed spec fn entries(self) -> Seq<u64> {
        self.entries@
    }

    pub closed spec fn wf(self) -> bool {
        &&& self.entries@.len() == self.len
        &&& self.len <= ArenaIndex::MAX_PAGES
        &&& (self.base.0 + self.len) * PAGE_SIZE <= usize::MAX
    }

    pub proof fn lemma_wf(self)
        requires
            self.wf(),
        ensures
            self.frames() <= ArenaIndex::MAX_PAGES,
            self.base_frame() >= 0,
            self.frames() >= 0,
            self.base_frame() + self.frames() <= usize::MAX,
            (self.base_frame() + self.frames()) * PAGE_SIZE <= usize::MAX,
            self.entries().len() == self.frames(),
    {
    }

    /// `after` is `self` with at most the entry of frame `pfn` rewritten.
    pub open spec fn same_except(self, after: Pages, pfn: int) -> bool {
        &&& after.wf()
        &&& after.base_frame() == self.base_frame()
        &&& after.frames() == self.frames()
        &&& after.spec_region() == self.spec_region()
        &&& forall|q: int|
            q != pfn && self.describes(q) ==> #[trigger] after.entry_at(q) == self.entry_at(q)
    }

    /// Every entry of well-formed metadata fits its bits.
    pub proof fn lemma_entries_fit(self, pfn: int)
        requires
            self.wf(),
            self.describes(pfn),
        ensures
            self.entry_at(pfn).fits(),
    {
        lemma_decoded_fits(self.entries()[pfn - self.base_frame()]);
    }

    /// The metadata describes frame `pfn`.
    pub open spec fn describes(self, pfn: int) -> bool {
        self.base_frame() <= pfn < self.base_frame() + self.frames()
    }

    /// The entry recorded for frame `pfn`.
    pub open spec fn entry_at(self, pfn: int) -> Entry {
        Entry::spec_from_u64(self.entries()[pfn - self.base_frame()])
    }

    /// No metadata at all, describing no frame.
    pub fn empty() -> (pages: Pages)
        ensures
            pages.wf(),
            pages.frames() == 0,
            pages.base_frame() == 0,
    {
        Pages { region: Region { base: 0, size: 0 }, base: Pfn(0), len: 0, entries: Vec::new() }
    }

    /// Metadata for every frame of the map's arena, kept in the lowest window
    /// of free frames large enough for it, which is then reserved. Every entry
    /// starts as a used buddy block of order zero.
    pub fn new(map: &mut MemoryMap) -> (pages: Option<Pages>)
        requires
            old(map).wf(),
        ensures
            final(map).wf(),
            final(map).spec_arena() == old(map).spec_arena(),
            ({
                let arena = old(map).spec_arena();
                let taken = old(map).reservations();
                let len = arena.size / PAGE_SIZE;
                let needed = Self::spec_required_size(arena);
                match pages {
                    Some(p) => {
                        &&& p.wf()
                        &&& p.frames() == len
                        &&& p.base_frame() == (arena.base / PAGE_SIZE) as int
                        &&& forall|i: int| 0 <= i < len ==> p.entries()[i] == 0
                        &&& p.spec_region().size == needed * PAGE_SIZE
                        &&& p.spec_region().base % PAGE_SIZE == 0
                        &&& p.spec_region().base != 0
                        &&& free_window(
                            arena,
                            taken,
                            (p.spec_region().base / PAGE_SIZE) as int,
                            needed,
                        )
                        &&& forall|s: int|
                            s < (p.spec_region().base / PAGE_SIZE) as int ==> !free_window(
                                arena,
                                taken,
                                s,
                                needed,
                            )
                        &&& final(map).reservations() == taken.push(p.spec_region())
                    },
                    None => {
                        &&& final(map).reservations() == taken
                        &&& no_room_for_metadata(arena, taken)
                    },
                }
            }),
            pages is None <==> no_room_for_metadata(old(map).spec_arena(), old(map).reservations()),
    {
        let arena = map.arena();
        let len = arena.size / PAGE_SIZE;

        if len == 0 || len > ArenaIndex::MAX_PAGES {
            return None;
        }

        let needed = Self::required_size(arena);
        let runs = map.unreserved();
        let ghost taken = map.reservations();
        let mut k: usize = 0;
        while k < runs.len()
            invariant
                k <= runs@.len(),
                exact_gaps(arena, taken, runs@),
                forall|j: int| 0 <= j < k ==> (#[trigger] runs@[j]).end.0 - runs@[j].start.0 < needed,
            ensures
                k <= runs@.len(),
                forall|j: int| 0 <= j < k ==> (#[trigger] runs@[j]).end.0 - runs@[j].start.0 < needed,
                k < runs@.len() ==> runs@[k as int].end.0 - runs@[k as int].start.0 >= needed,
            decreases runs@.len() - k,
        {
            if runs[k].pages() >= needed {
                break;
            }
            k += 1;
        }
        if k == runs.len() {
            proof {
                assert forall|s: int| !free_window(arena, taken, s, needed as int) by {
                    if free_window(arena, taken, s, needed as int) {
                        let i = lemma_window_in_run(arena, taken, runs@, s, needed as int);
                        assert(runs@[i].end.0 - runs@[i].start.0 < needed);
                    }
                }
            }
            return None;
        }
        let run = &runs[k];
        proof {
            assert forall|s: int| s < run.start.0 implies !free_window(
                arena,
                taken,
                s,
                needed as int,
            ) by {
                if free_window(arena, taken, s, needed as int) {
                    let i = lemma_window_in_run(arena, taken, runs@, s, needed as int);
                    if i >= k {
                        if i > k {
                            assert(runs@[k as int].end.0 < runs@[i].start.0);
                        }
                    } else {
                        assert(runs@[i].end.0 - runs@[i].start.0 < needed);
                    }
                }
            }
            assert forall|pfn: int| run.start.0 <= pfn < run.start.0 + needed implies #[trigger] free_frame(
                arena,
                taken,
                pfn,
            ) by {
                assert(runs@[k as int].has(pfn));
                assert(crate::memory::gaps::in_runs(runs@, pfn));
            }
            assert(run.start.0 < crate::memory::gaps::last_frame(arena)) by {
                assert(runs@[k as int].has(run.start.0 as int));
                assert(crate::memory::gaps::in_runs(runs@, run.start.0 as int));
            }
            let last = run.end.0 - 1;
            assert(runs@[k as int].has(last));
            assert(crate::memory::gaps::in_runs(runs@, last));
            assert(free_frame(arena, taken, last));
            let st = run.start.0 as int;
            let e = arena.spec_end();
            assert(st * PAGE_SIZE + needed * PAGE_SIZE <= e) by (nonlinear_arith)
                requires
                    st + needed <= e / (PAGE_SIZE as int),
                    e >= 0,
                    st >= 0,
                    needed >= 0,
            ;
        }

        let region = Region { base: run.start.to_addr(), size: needed * PAGE_SIZE };
        if region.base == 0 {
            return None;
        }
        if map.reserve(region).is_err() {
            return None;
        }

        let mut entries: Vec<u64> = Vec::new();
        let mut i: usize = 0;
        while i < len
            invariant
                i <= len,
                entries@.len() == i,
                forall|j: int| 0 <= j < i ==> entries@[j] == 0,
            decreases len - i,
        {
            entries.push(0);
            i += 1;
        }

        proof {
            let b = arena.base as int;
            let z = arena.size as int;
            vstd::arithmetic::div_mod::lemma_fundamental_div_mod(b, PAGE_SIZE as int);
            vstd::arithmetic::div_mod::lemma_fundamental_div_mod(z, PAGE_SIZE as int);
            assert((b / 4096 + z / 4096) * 4096 == b + z) by (nonlinear_arith)
                requires
                    b == 4096 * (b / 4096) + b % 4096,
                    z == 4096 * (z / 4096) + z % 4096,
                    b % 4096 == 0,
                    z % 4096 == 0,
            ;
            let st = (region.base / PAGE_SIZE) as int;
            assert(free_window(arena, taken, st, needed as int));
            assert(st != 0);
            assert(!free_window(arena, taken, 0, needed as int));
        }
        Some(Pages { region, base: Pfn::from_addr_down(arena.base), len, entries })
    }

    pub fn len(&self) -> (len: usize)
        ensures
            len == self.frames(),
    {
        self.len
    }

    pub fn index_of(&self, pfn: Pfn) -> (index: ArenaIndex)
        requires
            self.wf(),
            self.describes(pfn.0 as int),
        ensures
            index@ == pfn.0 - self.base_frame(),
            index@ < ARENA_INDEX_NONE,
    {
        ArenaIndex(pfn.index_from(self.base) as u32)
    }

    pub fn pfn_of(&self, index: ArenaIndex) -> (pfn: Pfn)
        requires
            self.wf(),
            index@ < self.frames(),
        ensures
            pfn.0 == self.base_frame() + index@,
    {
        self.base.offset(index.0 as usize)
    }

    /// The frames the metadata describes.
    pub fn covers(&self) -> (range: PageRange)
        requires
            self.wf(),
        ensures
            range.start.0 == self.base_frame(),
            range.end.0 == self.base_frame() + self.frames(),
    {
        PageRange { start: self.base, end: self.base.offset(self.len) }
    }

    pub fn read(&self, pfn: Pfn) -> (entry: Entry)
        requires
            self.wf(),
            self.describes(pfn.0 as int),
        ensures
            entry == self.entry_at(pfn.0 as int),
    {
        Entry::from_u64(self.entries[pfn.index_from(self.base)])
    }

    pub fn write(&mut self, pfn: Pfn, entry: Entry)
        requires
            old(self).wf(),
            old(self).describes(pfn.0 as int),
        ensures
            final(self).wf(),
            final(self).base_frame() == old(self).base_frame(),
            final(self).frames() == old(self).frames(),
            final(self).spec_region() == old(self).spec_region(),
            final(self).entries() == old(self).entries().update(
                pfn.0 - old(self).base_frame(),
                entry.spec_to_u64(),
            ),
            entry.fits() ==> final(self).entry_at(pfn.0 as int) == entry,
            old(self).same_except(*final(self), pfn.0 as int),
    {
        let index = pfn.index_from(self.base);
        self.entries.set(index, entry.to_u64());
        proof {
            if entry.fits() {
                lemma_entry_roundtrip(entry);
            }
            assert forall|q: int| q != pfn.0 && old(self).describes(q) implies #[trigger] self.entry_at(q)
                == old(self).entry_at(q) by {
                assert(self.entries()[q - self.base_frame()] == old(self).entries()[q
                    - old(self).base_frame()]);
            }
        }
    }

    pub open spec fn spec_required_size(arena: Region) -> int {
        crate::memory::pfn::pages_up((arena.size / PAGE_SIZE * ENTRY_SIZE) as int)
    }

    /// How many pages the metadata for `arena` takes.
    pub fn required_size(arena: Region) -> (pages: usize)
        ensures
            pages == Self::spec_required_size(arena),
    {
        let bytes = arena.size / PAGE_SIZE * ENTRY_SIZE;
        if bytes % PAGE_SIZE == 0 {
            bytes / PAGE_SIZE
        } else {
            bytes / PAGE_SIZE + 1
        }
    }
}

} // verus!
