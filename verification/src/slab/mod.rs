pub mod cache;


use vstd::prelude::*;

use std::collections::HashMap;
use vstd::arithmetic::power2::{lemma2_to64, pow2};

use crate::layout::{is_pow2, lemma_mask_is_mod, lemma_pow2_at_most_half_max, Layout};
use crate::memory::pages::{ArenaIndex, Entry, Pages, Slot, SLOT_NONE};
use crate::memory::pfn::{Pfn, PAGE_SIZE};

pub use crate::slab::cache::Cache;



verus! {

/// How many size classes there are: 8, 16, 32, ... 2048 bytes.
pub const CLASSES_COUNT: usize = 9;

/// Objects of class `class` are `2^(class + 3)` bytes: this is the exponent.
pub open spec fn class_shift(class: int) -> nat {
    (class + 3) as nat
}

/// The object size of class `class`.
pub open spec fn class_size(class: int) -> int {
    pow2(class_shift(class)) as int
}

/// How many objects a slab page of class `class` holds.
pub open spec fn slot_count(class: int) -> int {
    pow2((9 - class) as nat) as int
}

/// A class whose objects are large enough for `size` bytes and whose object
/// size is a multiple of `align`.
pub open spec fn fits_class(size: int, align: int, class: int) -> bool {
    size <= class_size(class) && class_size(class) % align == 0
}

/// The sizes and shifts of the classes, with the page arithmetic they obey.
pub proof fn lemma_classes()
    ensures
        forall|c: int|
            0 <= c < CLASSES_COUNT ==> {
                &&& #[trigger] class_size(c) * slot_count(c) == PAGE_SIZE
                &&& 8 <= class_size(c) <= 2048
                &&& 2 <= slot_count(c) <= 512
            },
{
    lemma2_to64();
    assert forall|c: int| 0 <= c < CLASSES_COUNT implies {
        &&& #[trigger] class_size(c) * slot_count(c) == PAGE_SIZE
        &&& 8 <= class_size(c) <= 2048
        &&& 2 <= slot_count(c) <= 512
    } by {
        if c == 0 {
            assert(class_size(0) == 8 && slot_count(0) == 512);
        } else if c == 1 {
            assert(class_size(1) == 16 && slot_count(1) == 256);
        } else if c == 2 {
            assert(class_size(2) == 32 && slot_count(2) == 128);
        } else if c == 3 {
            assert(class_size(3) == 64 && slot_count(3) == 64);
        } else if c == 4 {
            assert(class_size(4) == 128 && slot_count(4) == 32);
        } else if c == 5 {
            assert(class_size(5) == 256 && slot_count(5) == 16);
        } else if c == 6 {
            assert(class_size(6) == 512 && slot_count(6) == 8);
        } else if c == 7 {
            assert(class_size(7) == 1024 && slot_count(7) == 4);
        } else {
            assert(class_size(8) == 2048 && slot_count(8) == 2);
        }
    }
}

/// The object size of a class, in bytes.
fn class_bytes(class: usize) -> (bytes: usize)
    requires
        class < CLASSES_COUNT,
    ensures
        bytes == class_size(class as int),
{
    proof {
        lemma2_to64();
    }
    match class {
        0 => 8,
        1 => 16,
        2 => 32,
        3 => 64,
        4 => 128,
        5 => 256,
        6 => 512,
        7 => 1024,
        _ => 2048,
    }
}

/// The object size of a class as a power of two: `None` for no class.
fn shift_of(class: usize) -> (shift: Option<u32>)
    ensures
        class < CLASSES_COUNT ==> shift == Some((class + 3) as u32),
        class >= CLASSES_COUNT ==> shift is None,
{
    if class < CLASSES_COUNT {
        Some((class + 3) as u32)
    } else {
        None
    }
}

/// The smallest class that holds objects of the layout, if any does.
pub fn class_of(layout: Layout) -> (class: Option<usize>)
    ensures
        match class {
            Some(c) => {
                &&& c < CLASSES_COUNT
                &&& fits_class(layout.spec_size() as int, layout.spec_align() as int, c as int)
                &&& forall|d: int|
                    0 <= d < c ==> !fits_class(
                        layout.spec_size() as int,
                        layout.spec_align() as int,
                        d,
                    )
            },
            None => forall|d: int|
                0 <= d < CLASSES_COUNT ==> !fits_class(
                    layout.spec_size() as int,
                    layout.spec_align() as int,
                    d,
                ),
        },
{
    let size = layout.size();
    let align = layout.align();
    let mut i: usize = 0;
    while i < CLASSES_COUNT
        invariant
            i <= CLASSES_COUNT,
            size == layout.spec_size(),
            align == layout.spec_align(),
            is_pow2(align),
            forall|d: int| 0 <= d < i ==> !fits_class(size as int, align as int, d),
        decreases CLASSES_COUNT - i,
    {
        let c = class_bytes(i);
        if c >= size && is_multiple_of_pow2(c, align) {
            return Some(i);
        }
        i += 1;
    }
    None
}

/// `value` is a multiple of the power of two `multiple`.
fn is_multiple_of_pow2(value: usize, multiple: usize) -> (is: bool)
    requires
        is_pow2(multiple),
    ensures
        is == (value % multiple == 0),
{
    proof {
        lemma_pow2_at_most_half_max(multiple);
        lemma_mask_is_mod(value, multiple);
    }
    value & (multiple - 1) == 0
}

/// The address of slot `i` of the page at `pfn` holding objects of
/// `2^shift` bytes.
pub open spec fn slot_addr(pfn: int, shift: nat, i: int) -> int {
    pfn * PAGE_SIZE + i * pow2(shift)
}

/// The first word of each free object, where it keeps the link to the next
/// free object of its page.
pub struct SlotWords {
    words: HashMap<usize, u16>,
}

impl View for SlotWords {
    type V = Map<usize, u16>;

    closed spec fn view(&self) -> Map<usize, u16> {
        self.words@
    }
}

impl SlotWords {
    /// No word written yet.
    pub fn new() -> (words: SlotWords)
        ensures
            words@ == Map::<usize, u16>::empty(),
    {
        SlotWords { words: HashMap::new() }
    }

    /// The word at `addr`, which must have been written.
    pub fn read(&self, addr: usize) -> (word: u16)
        requires
            self@.contains_key(addr),
        ensures
            word == self@[addr],
    {
        *self.words.get(&addr).unwrap()
    }

    /// Write `word` at `addr`.
    pub fn write(&mut self, addr: usize, word: u16)
        ensures
            final(self)@ == old(self)@.insert(addr, word),
    {
        self.words.insert(addr, word);
    }
}

/// The free slots of a slab page found by following the links from `head`,
/// at most `fuel` of them.
pub open spec fn chain(
    words: Map<usize, u16>,
    pfn: int,
    shift: nat,
    head: Option<Slot>,
    fuel: nat,
) -> Seq<u16>
    decreases fuel,
{
    match head {
        None => Seq::empty(),
        Some(s) => if fuel == 0 {
            Seq::empty()
        } else {
            seq![s@] + chain(
                words,
                pfn,
                shift,
                Slot::spec_from_raw(words[slot_addr(pfn, shift, s@ as int) as usize]),
                (fuel - 1) as nat,
            )
        },
    }
}

/// Following the links from `head` meets the end of the list within `fuel`
/// steps, every link on the way having been written.
pub open spec fn chain_ends(
    words: Map<usize, u16>,
    pfn: int,
    shift: nat,
    head: Option<Slot>,
    fuel: nat,
) -> bool
    decreases fuel,
{
    match head {
        None => true,
        Some(s) => {
            &&& fuel > 0
            &&& words.contains_key(slot_addr(pfn, shift, s@ as int) as usize)
            &&& chain_ends(
                words,
                pfn,
                shift,
                Slot::spec_from_raw(words[slot_addr(pfn, shift, s@ as int) as usize]),
                (fuel - 1) as nat,
            )
        },
    }
}

/// The class an entry records, zero for a buddy entry.
pub open spec fn entry_class(e: Entry) -> int {
    match e {
        Entry::Slab { class, .. } => class as int,
        Entry::Buddy { .. } => 0,
    }
}

/// The first free slot an entry records.
pub open spec fn entry_head(e: Entry) -> Option<Slot> {
    match e {
        Entry::Slab { free_head, .. } => free_head,
        Entry::Buddy { .. } => None,
    }
}

/// How many objects an entry records as handed out.
pub open spec fn entry_in_use(e: Entry) -> int {
    match e {
        Entry::Slab { in_use, .. } => in_use as int,
        Entry::Buddy { .. } => 0,
    }
}

/// The next slab on the partial list, as an entry records it.
pub open spec fn entry_next(e: Entry) -> Option<ArenaIndex> {
    match e {
        Entry::Slab { next_partial, .. } => next_partial,
        Entry::Buddy { .. } => None,
    }
}

/// The previous slab on the partial list, as an entry records it.
pub open spec fn entry_prev(e: Entry) -> Option<ArenaIndex> {
    match e {
        Entry::Slab { prev_partial, .. } => prev_partial,
        Entry::Buddy { .. } => None,
    }
}

/// The free slots of the slab page at `pfn`, from its head.
pub open spec fn free_slots(pages: Pages, words: Map<usize, u16>, pfn: int) -> Seq<u16> {
    let e = pages.entry_at(pfn);
    chain(
        words,
        pfn,
        class_shift(entry_class(e)),
        entry_head(e),
        slot_count(entry_class(e)) as nat,
    )
}

/// The page at `pfn` is a slab of a known class whose free objects are
/// linked from its head without a cycle, each once, and whose count of
/// objects in use makes up the rest of the page.
pub open spec fn slab_wf(pages: Pages, words: Map<usize, u16>, pfn: int) -> bool {
    let e = pages.entry_at(pfn);
    let class = entry_class(e);
    let free = free_slots(pages, words, pfn);
    &&& pages.wf()
    &&& pages.describes(pfn)
    &&& (pfn + 1) * PAGE_SIZE <= usize::MAX
    &&& e is Slab
    &&& 0 <= class < CLASSES_COUNT
    &&& chain_ends(words, pfn, class_shift(class), entry_head(e), slot_count(class) as nat)
    &&& free.no_duplicates()
    &&& forall|i: int| 0 <= i < free.len() ==> (#[trigger] free[i] as int) < slot_count(class)
    &&& entry_in_use(e) + free.len() == slot_count(class)
}

/// `before` and `after` hold the same word at `addr`, or neither holds one.
pub open spec fn agree(before: Map<usize, u16>, after: Map<usize, u16>, addr: usize) -> bool {
    before.contains_key(addr) == after.contains_key(addr) && before[addr] == after[addr]
}

/// `before` and `after` hold the same words outside the page at `pfn`.
pub open spec fn same_outside(before: Map<usize, u16>, after: Map<usize, u16>, pfn: int) -> bool {
    forall|a: usize| a / PAGE_SIZE != pfn ==> #[trigger] agree(before, after, a)
}

/// The chain from `head` reads only the words of its own slots.
pub proof fn lemma_chain_frame(
    w1: Map<usize, u16>,
    w2: Map<usize, u16>,
    pfn: int,
    shift: nat,
    head: Option<Slot>,
    fuel: nat,
)
    requires
        forall|i: int|
            0 <= i < chain(w1, pfn, shift, head, fuel).len() ==> agree(
                w1,
                w2,
                slot_addr(pfn, shift, #[trigger] chain(w1, pfn, shift, head, fuel)[i] as int) as usize,
            ),
    ensures
        chain(w2, pfn, shift, head, fuel) == chain(w1, pfn, shift, head, fuel),
        chain_ends(w2, pfn, shift, head, fuel) == chain_ends(w1, pfn, shift, head, fuel),
    decreases fuel,
{
    match head {
        None => {},
        Some(s) => {
            if fuel > 0 {
                let c = chain(w1, pfn, shift, head, fuel);
                assert(c[0] == s@);
                let a = slot_addr(pfn, shift, s@ as int) as usize;
                assert(agree(w1, w2, a));
                let next = Slot::spec_from_raw(w1[a]);
                let rest = chain(w1, pfn, shift, next, (fuel - 1) as nat);
                assert forall|i: int| 0 <= i < rest.len() implies agree(
                    w1,
                    w2,
                    slot_addr(pfn, shift, #[trigger] rest[i] as int) as usize,
                ) by {
                    assert(c[i + 1] == rest[i]);
                }
                lemma_chain_frame(w1, w2, pfn, shift, next, (fuel - 1) as nat);
            }
        },
    }
}

/// A chain that ends within `fuel` steps is the same with more fuel.
pub proof fn lemma_chain_fuel(
    words: Map<usize, u16>,
    pfn: int,
    shift: nat,
    head: Option<Slot>,
    fuel: nat,
    more: nat,
)
    requires
        chain_ends(words, pfn, shift, head, fuel),
        fuel <= more,
    ensures
        chain(words, pfn, shift, head, more) == chain(words, pfn, shift, head, fuel),
        chain_ends(words, pfn, shift, head, more),
        chain(words, pfn, shift, head, fuel).len() <= fuel,
    decreases fuel,
{
    match head {
        None => {},
        Some(s) => {
            let next = Slot::spec_from_raw(words[slot_addr(pfn, shift, s@ as int) as usize]);
            lemma_chain_fuel(words, pfn, shift, next, (fuel - 1) as nat, (more - 1) as nat);
        },
    }
}

/// Slots linked in order, each to the next and the last to none, chain from
/// slot `k` to the end.
proof fn lemma_linked_chain(words: Map<usize, u16>, pfn: int, shift: nat, n: int, k: int, fuel: nat)
    requires
        0 <= k < n,
        n < SLOT_NONE,
        fuel >= n - k,
        forall|i: int|
            0 <= i < n ==> {
                &&& words.contains_key(#[trigger] slot_addr(pfn, shift, i) as usize)
                &&& words[slot_addr(pfn, shift, i) as usize] == if i + 1 < n {
                    (i + 1) as u16
                } else {
                    SLOT_NONE
                }
            },
    ensures
        chain(words, pfn, shift, Some(Slot::spec_new(k as u16)), fuel) == Seq::new(
            (n - k) as nat,
            |j: int| (k + j) as u16,
        ),
        chain_ends(words, pfn, shift, Some(Slot::spec_new(k as u16)), fuel),
    decreases n - k,
{
    Slot::lemma_new_view(k as u16);
    let s = Slot::spec_new(k as u16);
    assert(s@ as int == k);
    let a = slot_addr(pfn, shift, k);
    assert(slot_addr(pfn, shift, s@ as int) == a);
    assert(words.contains_key(a as usize));
    if k + 1 < n {
        Slot::lemma_new_view((k + 1) as u16);
        assert(Slot::spec_from_raw(words[a as usize]) == Some(Slot::spec_new((k + 1) as u16)));
        lemma_linked_chain(words, pfn, shift, n, k + 1, (fuel - 1) as nat);
        assert(chain(words, pfn, shift, Some(Slot::spec_new(k as u16)), fuel) =~= Seq::new(
            (n - k) as nat,
            |j: int| (k + j) as u16,
        ));
    } else {
        assert(words[a as usize] == SLOT_NONE);
        assert(Slot::spec_from_raw(words[a as usize]) is None);
        assert(chain_ends(words, pfn, shift, None, (fuel - 1) as nat));
        assert(chain(words, pfn, shift, None, (fuel - 1) as nat) == Seq::<u16>::empty());
        assert(chain(words, pfn, shift, Some(s), fuel) == seq![s@] + chain(words, pfn, shift, None, (fuel - 1) as nat));
        assert(chain(words, pfn, shift, Some(Slot::spec_new(k as u16)), fuel) =~= Seq::new(
            (n - k) as nat,
            |j: int| (k + j) as u16,
        ));
    }
}

/// The slot of a slab page of class `class` that `addr` falls in.
pub open spec fn slot_index(pfn: int, class: int, addr: int) -> int {
    (addr - pfn * PAGE_SIZE) / class_size(class)
}

/// `addr` is the start of an object of the slab at `pfn` that is handed
/// out, not free.
pub open spec fn object_in_use(pages: Pages, words: Map<usize, u16>, pfn: int, addr: int) -> bool {
    let class = entry_class(pages.entry_at(pfn));
    &&& addr / (PAGE_SIZE as int) == pfn
    &&& (addr - pfn * PAGE_SIZE) % class_size(class) == 0
    &&& !free_slots(pages, words, pfn).contains(slot_index(pfn, class, addr) as u16)
}

/// The slots of a page of objects of `2^shift` bytes lie inside it, one
/// after another.
pub proof fn lemma_slot_geometry(pfn: int, shift: nat, i: int)
    requires
        3 <= shift <= 11,
        0 <= i < pow2((12 - shift) as nat),
        pfn >= 0,
    ensures
        pow2(shift) * pow2((12 - shift) as nat) == PAGE_SIZE,
        0 <= i * pow2(shift),
        i * pow2(shift) + pow2(shift) <= PAGE_SIZE,
        slot_addr(pfn, shift, i) / (PAGE_SIZE as int) == pfn,
        pfn * PAGE_SIZE <= slot_addr(pfn, shift, i),
        slot_addr(pfn, shift, i) + pow2(shift) <= (pfn + 1) * PAGE_SIZE,
{
    vstd::arithmetic::power2::lemma_pow2_adds(shift, (12 - shift) as nat);
    lemma2_to64();
    let p = pow2(shift) as int;
    let m = pow2((12 - shift) as nat) as int;
    assert(i * p + p <= m * p) by (nonlinear_arith)
        requires
            i < m,
            p > 0,
    ;
    assert(0 <= i * p) by (nonlinear_arith)
        requires
            i >= 0,
            p > 0,
    ;
    vstd::arithmetic::div_mod::lemma_fundamental_div_mod_converse(
        pfn * PAGE_SIZE + i * p,
        PAGE_SIZE as int,
        pfn,
        i * p,
    );
}

/// Two slots of one page are at one address only if they are one slot.
proof fn lemma_slot_addr_injective(pfn: int, shift: nat, i: int, j: int)
    requires
        slot_addr(pfn, shift, i) == slot_addr(pfn, shift, j),
    ensures
        i == j,
{
    vstd::arithmetic::power2::lemma_pow2_pos(shift);
    let p = pow2(shift) as int;
    assert(i * p == j * p ==> i == j) by (nonlinear_arith)
        requires
            p > 0,
    ;
}

/// A chain that ends within `fuel` steps ends within as many steps as it
/// has slots.
proof fn lemma_chain_shrink(words: Map<usize, u16>, pfn: int, shift: nat, head: Option<Slot>, fuel: nat)
    requires
        chain_ends(words, pfn, shift, head, fuel),
    ensures
        ({
            let len = chain(words, pfn, shift, head, fuel).len();
            &&& chain_ends(words, pfn, shift, head, len)
            &&& chain(words, pfn, shift, head, len) == chain(words, pfn, shift, head, fuel)
        }),
    decreases fuel,
{
    match head {
        None => {},
        Some(s) => {
            let next = Slot::spec_from_raw(words[slot_addr(pfn, shift, s@ as int) as usize]);
            lemma_chain_shrink(words, pfn, shift, next, (fuel - 1) as nat);
        },
    }
}

/// Distinct slots below `n` that leave one out number fewer than `n`.
pub proof fn lemma_fewer_slots(free: Seq<u16>, n: int, out: u16)
    requires
        free.no_duplicates(),
        forall|i: int| 0 <= i < free.len() ==> (#[trigger] free[i] as int) < n,
        !free.contains(out),
        (out as int) < n,
    ensures
        free.len() < n,
{
    let ints = free.map_values(|x: u16| x as int);
    assert(ints.no_duplicates()) by {
        assert forall|a: int, b: int| 0 <= a < ints.len() && 0 <= b < ints.len() && a != b implies ints[a]
            != ints[b] by {
            assert(free[a] != free[b]);
        }
    }
    ints.unique_seq_to_set();
    let range = vstd::set_lib::set_int_range(0, n).remove(out as int);
    vstd::set_lib::lemma_int_range(0, n);
    assert(ints.to_set().subset_of(range)) by {
        assert forall|x: int| ints.to_set().contains(x) implies range.contains(x) by {
            let k = choose|k: int| 0 <= k < ints.len() && ints[k] == x;
            assert(free[k] as int == x);
            if x == out as int {
                assert(free[k] == out);
            }
        }
    }
    vstd::set_lib::lemma_len_subset(ints.to_set(), range);
}

/// `a` divided by `2^shift`.
fn div_pow2(a: usize, shift: usize) -> (q: usize)
    requires
        shift < usize::BITS,
    ensures
        q == a as nat / pow2(shift as nat),
{
    proof {
        vstd::bits::lemma_usize_shr_is_div(a, shift);
    }
    a >> shift
}

/// `a` times `2^shift`, which must fit.
fn mul_pow2(a: usize, shift: usize) -> (p: usize)
    requires
        shift < usize::BITS,
        a * pow2(shift as nat) <= usize::MAX,
    ensures
        p == a * pow2(shift as nat),
{
    proof {
        vstd::bits::lemma_usize_shl_is_mul(a, shift);
    }
    a << shift
}

/// The index of a slab's page in the metadata, as a partial-list link.
pub open spec fn index_link(pages: Pages, slab: Option<Slab>) -> Option<ArenaIndex> {
    match slab {
        Some(s) => Some(ArenaIndex::spec_new((s.spec_pfn() - pages.base_frame()) as u32)),
        None => None,
    }
}

/// The page a partial-list link leads to, if the metadata says it is a slab.
pub open spec fn linked(pages: Pages, link: Option<ArenaIndex>) -> Option<int> {
    match link {
        Some(i) => if pages.entry_at(pages.base_frame() + i@) is Slab {
            Some(pages.base_frame() + i@)
        } else {
            None
        },
        None => None,
    }
}

/// The page of a slab, if there is one.
pub open spec fn slab_pfn(slab: Option<Slab>) -> Option<int> {
    match slab {
        Some(s) => Some(s.spec_pfn()),
        None => None,
    }
}

/// A link, if present, names a frame the metadata describes.
pub open spec fn link_in_range(pages: Pages, link: Option<ArenaIndex>) -> bool {
    link matches Some(i) ==> i@ < pages.frames()
}

/// A page of small objects of one size class, its free objects linked
/// through their first words.
#[derive(Debug, Clone, Copy)]
pub struct Slab {
    pfn: Pfn,
}

impl Slab {
    /// The page this slab lives in.
    pub open spec fn spec_pfn(self) -> int {
        self.spec_pfn_closed()
    }

    pub closed spec fn spec_pfn_closed(self) -> int {
        self.pfn.0 as int
    }

    /// The slab's page is a frame number a `usize` holds.
    pub proof fn lemma_pfn(self)
        ensures
            0 <= self.spec_pfn() <= usize::MAX,
    {
    }

    pub fn pfn(&self) -> (pfn: Pfn)
        ensures
            pfn.0 == self.spec_pfn(),
    {
        self.pfn
    }

    /// The slab at `pfn`, if the metadata says that page is one.
    pub fn at(pages: &Pages, pfn: Pfn) -> (slab: Option<Slab>)
        requires
            pages.wf(),
            pages.describes(pfn.0 as int),
        ensures
            slab is Some <==> pages.entry_at(pfn.0 as int) is Slab,
            slab matches Some(s) ==> s.spec_pfn() == pfn.0,
    {
        match pages.read(pfn) {
            Entry::Slab { .. } => Some(Slab { pfn }),
            Entry::Buddy { .. } => None,
        }
    }

    /// Link every object of the page to the next, the last to none.
    fn link_slots(&self, words: &mut SlotWords, shift: usize)
        requires
            3 <= shift <= 11,
            (self.spec_pfn() + 1) * PAGE_SIZE <= usize::MAX,
        ensures
            forall|i: int|
                0 <= i < pow2((12 - shift) as nat) ==> {
                    &&& final(words)@.contains_key(
                        #[trigger] slot_addr(self.spec_pfn(), shift as nat, i) as usize,
                    )
                    &&& final(words)@[slot_addr(self.spec_pfn(), shift as nat, i) as usize] == if i + 1
                        < pow2((12 - shift) as nat) {
                        (i + 1) as u16
                    } else {
                        SLOT_NONE
                    }
                },
            same_outside(old(words)@, final(words)@, self.spec_pfn()),
    {
        let ghost pfn = self.spec_pfn();
        let ghost n = pow2((12 - shift) as nat) as int;
        proof {
            lemma2_to64();
            vstd::arithmetic::power2::lemma_pow2_adds(shift as nat, (12 - shift) as nat);
            vstd::arithmetic::power2::lemma_pow2_pos(shift as nat);
            vstd::arithmetic::div_mod::lemma_div_by_multiple(n, pow2(shift as nat) as int);
            assert(n <= 512) by {
                if shift > 3 {
                    vstd::arithmetic::power2::lemma_pow2_strictly_increases((12 - shift) as nat, 9);
                }
            }
        }
        let base = self.pfn.to_addr();
        let number_of_slots = div_pow2(PAGE_SIZE, shift);
        let mut i: usize = 0;
        while i < number_of_slots
            invariant
                i <= number_of_slots,
                number_of_slots == n,
                n <= 512,
                3 <= shift <= 11,
                base == pfn * PAGE_SIZE,
                (pfn + 1) * PAGE_SIZE <= usize::MAX,
                pfn == self.spec_pfn(),
                n == pow2((12 - shift) as nat),
                forall|j: int|
                    0 <= j < i ==> {
                        &&& words@.contains_key(#[trigger] slot_addr(pfn, shift as nat, j) as usize)
                        &&& words@[slot_addr(pfn, shift as nat, j) as usize] == if j + 1 < n {
                            (j + 1) as u16
                        } else {
                            SLOT_NONE
                        }
                    },
                same_outside(old(words)@, words@, pfn),
            decreases number_of_slots - i,
        {
            proof {
                lemma_slot_geometry(pfn, shift as nat, i as int);
            }
            let current_base = base + mul_pow2(i, shift);
            let next = if i < number_of_slots - 1 {
                Slot::new(i + 1)
            } else {
                None
            };
            let ghost before = words@;
            words.write(current_base, Slot::to_raw(next));
            proof {
                assert(current_base == slot_addr(pfn, shift as nat, i as int));
                assert forall|j: int| 0 <= j < i + 1 implies {
                    &&& words@.contains_key(#[trigger] slot_addr(pfn, shift as nat, j) as usize)
                    &&& words@[slot_addr(pfn, shift as nat, j) as usize] == if j + 1 < n {
                        (j + 1) as u16
                    } else {
                        SLOT_NONE
                    }
                } by {
                    if j < i {
                        lemma_slot_geometry(pfn, shift as nat, j);
                        if slot_addr(pfn, shift as nat, j) as usize == current_base {
                            lemma_slot_addr_injective(pfn, shift as nat, j, i as int);
                        }
                    } else {
                        if i + 1 < n {
                            Slot::lemma_new_view((i + 1) as u16);
                        }
                    }
                }
                assert forall|a: usize| a / PAGE_SIZE != pfn implies #[trigger] agree(
                    old(words)@,
                    words@,
                    a,
                ) by {
                    assert(agree(old(words)@, before, a));
                }
            }
            i += 1;
        }
    }

    /// Set up the page at `pfn` as an empty slab of class `class_idx`, every
    /// object free and linked to the next; `None` for a class that does not
    /// exist.
    pub fn init(pages: &mut Pages, words: &mut SlotWords, pfn: Pfn, class_idx: usize) -> (slab:
        Option<Slab>)
        requires
            old(pages).wf(),
            old(pages).describes(pfn.0 as int),
            (pfn.0 + 1) * PAGE_SIZE <= usize::MAX,
        ensures
            class_idx >= CLASSES_COUNT ==> {
                &&& slab is None
                &&& *final(pages) == *old(pages)
                &&& final(words)@ == old(words)@
            },
            class_idx < CLASSES_COUNT ==> {
                &&& slab matches Some(s) && s.spec_pfn() == pfn.0
                &&& final(pages).entry_at(pfn.0 as int) == (Entry::Slab {
                    class: class_idx as u8,
                    free_head: Some(Slot::spec_new(0)),
                    in_use: 0,
                    next_partial: None,
                    prev_partial: None,
                })
                &&& slab_wf(*final(pages), final(words)@, pfn.0 as int)
                &&& free_slots(*final(pages), final(words)@, pfn.0 as int) == Seq::new(
                    slot_count(class_idx as int) as nat,
                    |i: int| i as u16,
                )
                &&& old(pages).same_except(*final(pages), pfn.0 as int)
                &&& same_outside(old(words)@, final(words)@, pfn.0 as int)
            },
    {
        let shift = match shift_of(class_idx) {
            Some(shift) => shift,
            None => {
                return None;
            },
        };
        let slab = Slab { pfn };
        slab.link_slots(words, shift as usize);
        let free_head = Slot::new(0);
        pages.write(
            pfn,
            Entry::Slab { class: class_idx as u8, free_head, in_use: 0, next_partial: None, prev_partial: None },
        );
        proof {
            let p = pfn.0 as int;
            let sh = class_shift(class_idx as int);
            let n = slot_count(class_idx as int);
            let h = free_head.unwrap();
            Slot::lemma_new_view(0);
            assert(h == Slot::spec_new(0));
            assert(sh == shift as nat);
            assert((12 - shift) as nat == (9 - class_idx) as nat);
            lemma_classes();
            assert(class_size(class_idx as int) * slot_count(class_idx as int) == PAGE_SIZE);
            lemma_linked_chain(words@, p, sh, n, 0, n as nat);
            let free = free_slots(*pages, words@, p);
            assert(free =~= Seq::new(n as nat, |i: int| i as u16));
            assert forall|a: int, b: int| 0 <= a < free.len() && 0 <= b < free.len() && a != b implies free[a]
                != free[b] by {}
        }
        Some(slab)
    }

    /// Hand out the first free object of the slab: its address, or `None`
    /// when every object is in use.
    pub fn allocate(&self, pages: &mut Pages, words: &SlotWords) -> (addr: Option<usize>)
        requires
            slab_wf(*old(pages), words@, self.spec_pfn()),
        ensures
            ({
                let pfn = self.spec_pfn();
                let e = old(pages).entry_at(pfn);
                let free = free_slots(*old(pages), words@, pfn);
                match addr {
                    Some(a) => {
                        &&& free.len() > 0
                        &&& a == slot_addr(pfn, class_shift(entry_class(e)), free[0] as int)
                        &&& final(pages).entry_at(pfn) == (Entry::Slab {
                            class: entry_class(e) as u8,
                            free_head: Slot::spec_from_raw(words@[a]),
                            in_use: (entry_in_use(e) + 1) as u16,
                            next_partial: entry_next(e),
                            prev_partial: entry_prev(e),
                        })
                        &&& old(pages).same_except(*final(pages), pfn)
                        &&& slab_wf(*final(pages), words@, pfn)
                        &&& free_slots(*final(pages), words@, pfn) == free.drop_first()
                    },
                    None => {
                        &&& free.len() == 0
                        &&& *final(pages) == *old(pages)
                    },
                }
            }),
    {
        let ghost pfn = self.spec_pfn();
        let ghost free = free_slots(*pages, words@, pfn);
        let (class, free_head, in_use, next_partial, prev_partial) = match pages.read(self.pfn) {
            Entry::Slab { class, free_head, in_use, next_partial, prev_partial } => (
                class,
                free_head,
                in_use,
                next_partial,
                prev_partial,
            ),
            Entry::Buddy { .. } => {
                return None;
            },
        };
        let head = match free_head {
            Some(head) => head,
            None => {
                return None;
            },
        };
        let shift = match shift_of(class as usize) {
            Some(shift) => shift,
            None => {
                return None;
            },
        };
        let ghost sh = shift as nat;
        let ghost n = slot_count(class as int);
        proof {
            lemma_classes();
            assert(class_size(class as int) * slot_count(class as int) == PAGE_SIZE);
            assert(free[0] == head@);
            assert((12 - shift) as nat == (9 - class) as nat);
            lemma2_to64();
            vstd::arithmetic::power2::lemma_pow2_adds(sh, (12 - sh) as nat);
            vstd::arithmetic::power2::lemma_pow2_pos(sh);
            vstd::arithmetic::div_mod::lemma_div_by_multiple(n, pow2(sh) as int);
            assert(n * pow2(sh) == PAGE_SIZE) by {
                vstd::arithmetic::mul::lemma_mul_is_commutative(n, pow2(sh) as int);
            }
            assert(PAGE_SIZE as nat / pow2(sh) == n);
            assert((head@ as int) < n) by {
                assert(free[0] == head@);
            }
        }
        if head.index() >= div_pow2(PAGE_SIZE, shift as usize) {
            return None;
        }
        proof {
            lemma_slot_geometry(pfn, sh, head@ as int);
        }
        let address = self.pfn.to_addr() + mul_pow2(head.index(), shift as usize);
        let next_free_head = Slot::from_raw(words.read(address));
        proof {
            pages.lemma_entries_fit(pfn);
            let rest = chain(words@, pfn, sh, next_free_head, (n - 1) as nat);
            assert(free == seq![head@] + rest);
            lemma_chain_fuel(words@, pfn, sh, next_free_head, (n - 1) as nat, n as nat);
            if let Some(s) = next_free_head {
                assert(rest[0] == s@);
                assert(free[1] == s@);
            }
        }
        pages.write(
            self.pfn,
            Entry::Slab { class, free_head: next_free_head, in_use: in_use + 1, next_partial, prev_partial },
        );
        proof {
            let after = free_slots(*pages, words@, pfn);
            assert(after =~= free.drop_first());
            assert forall|i: int| 0 <= i < after.len() implies (#[trigger] after[i] as int) < n by {
                assert(after[i] == free[i + 1]);
            }
        }
        Some(address)
    }

    /// Give back the object at `address`: it becomes the first free object,
    /// linked to the one that was first.
    pub fn free(&self, pages: &mut Pages, words: &mut SlotWords, address: usize)
        requires
            slab_wf(*old(pages), old(words)@, self.spec_pfn()),
            object_in_use(*old(pages), old(words)@, self.spec_pfn(), address as int),
        ensures
            ({
                let pfn = self.spec_pfn();
                let e = old(pages).entry_at(pfn);
                let free = free_slots(*old(pages), old(words)@, pfn);
                let index = slot_index(pfn, entry_class(e), address as int);
                &&& final(words)@ == old(words)@.insert(address, Slot::spec_to_raw(entry_head(e)))
                &&& final(pages).entry_at(pfn) == (Entry::Slab {
                    class: entry_class(e) as u8,
                    free_head: Some(Slot::spec_new(index as u16)),
                    in_use: (entry_in_use(e) - 1) as u16,
                    next_partial: entry_next(e),
                    prev_partial: entry_prev(e),
                })
                &&& old(pages).same_except(*final(pages), pfn)
                &&& slab_wf(*final(pages), final(words)@, pfn)
                &&& free_slots(*final(pages), final(words)@, pfn) == seq![index as u16] + free
            }),
    {
        let ghost pfn = self.spec_pfn();
        let ghost free = free_slots(*pages, words@, pfn);
        let ghost old_words = words@;
        let (class, free_head, in_use, next_partial, prev_partial) = match pages.read(self.pfn) {
            Entry::Slab { class, free_head, in_use, next_partial, prev_partial } => (
                class,
                free_head,
                in_use,
                next_partial,
                prev_partial,
            ),
            Entry::Buddy { .. } => {
                return;
            },
        };
        let shift = match shift_of(class as usize) {
            Some(shift) => shift,
            None => {
                return;
            },
        };
        let ghost sh = shift as nat;
        let ghost n = slot_count(class as int);
        let ghost size = class_size(class as int);
        proof {
            lemma_classes();
            assert(size * n == PAGE_SIZE);
            lemma2_to64();
            vstd::arithmetic::power2::lemma_pow2_pos(sh);
            vstd::arithmetic::div_mod::lemma_fundamental_div_mod(address as int, PAGE_SIZE as int);
        }
        let offset = address - self.pfn.to_addr();
        let index = div_pow2(offset, shift as usize);
        let ghost idx = index as int;
        proof {
            assert(idx == slot_index(pfn, class as int, address as int));
            vstd::arithmetic::div_mod::lemma_fundamental_div_mod(offset as int, size);
            assert(offset == idx * size);
            assert(idx < n) by (nonlinear_arith)
                requires
                    offset == idx * size,
                    offset < size * n,
                    size > 0,
            ;
            lemma_fewer_slots(free, n, idx as u16);
            assert(address == slot_addr(pfn, sh, idx));
            pages.lemma_entries_fit(pfn);
        }
        let slot = Slot::new(index);
        words.write(address, Slot::to_raw(free_head));
        pages.write(
            self.pfn,
            Entry::Slab { class, free_head: slot, in_use: in_use - 1, next_partial, prev_partial },
        );
        proof {
            Slot::lemma_new_view(idx as u16);
            let s = slot.unwrap();
            assert(s == Slot::spec_new(idx as u16));
            // the old chain is untouched by the word just written
            lemma_chain_shrink(old_words, pfn, sh, free_head, n as nat);
            lemma_chain_fuel(old_words, pfn, sh, free_head, free.len(), (n - 1) as nat);
            assert forall|i: int| 0 <= i < free.len() implies agree(
                old_words,
                words@,
                slot_addr(pfn, sh, #[trigger] free[i] as int) as usize,
            ) by {
                lemma_slot_geometry(pfn, sh, free[i] as int);
                if slot_addr(pfn, sh, free[i] as int) as usize == address {
                    lemma_slot_addr_injective(pfn, sh, free[i] as int, idx);
                    assert(free[i] == idx as u16);
                }
            }
            lemma_chain_frame(old_words, words@, pfn, sh, free_head, (n - 1) as nat);
            match free_head {
                Some(h) => {
                    assert(free[0] == h@);
                    assert(Slot::spec_from_raw(Slot::spec_to_raw(free_head)) == free_head) by {
                        Slot::lemma_new_view(h@);
                    }
                },
                None => {},
            }
            let after = free_slots(*pages, words@, pfn);
            assert(after =~= seq![idx as u16] + free);
            assert forall|a: int, b: int| 0 <= a < after.len() && 0 <= b < after.len() && a != b implies after[a]
                != after[b] by {
                if a > 0 && b > 0 {
                    assert(free[a - 1] != free[b - 1]);
                } else if a == 0 {
                    assert(free[b - 1] != idx as u16) by {
                        assert(free.contains(free[b - 1]));
                    }
                } else {
                    assert(free[a - 1] != idx as u16) by {
                        assert(free.contains(free[a - 1]));
                    }
                }
            }
            assert forall|i: int| 0 <= i < after.len() implies (#[trigger] after[i] as int) < n by {
                if i > 0 {
                    assert(after[i] == free[i - 1]);
                }
            }
        }
    }

    /// The slabs before and after this one on its partial list, as far as
    /// the links lead to slab pages.
    pub fn links(&self, pages: &Pages) -> (links: (Option<Slab>, Option<Slab>))
        requires
            pages.wf(),
            pages.describes(self.spec_pfn()),
            link_in_range(*pages, entry_next(pages.entry_at(self.spec_pfn()))),
            link_in_range(*pages, entry_prev(pages.entry_at(self.spec_pfn()))),
        ensures
            slab_pfn(links.0) == linked(*pages, entry_next(pages.entry_at(self.spec_pfn()))),
            slab_pfn(links.1) == linked(*pages, entry_prev(pages.entry_at(self.spec_pfn()))),
    {
        let (next_partial, prev_partial) = match pages.read(self.pfn) {
            Entry::Slab { next_partial, prev_partial, .. } => (next_partial, prev_partial),
            Entry::Buddy { .. } => {
                return (None, None);
            },
        };
        let next = match next_partial {
            Some(index) => {
                proof {
                    pages.lemma_wf();
                }
                Slab::at(pages, pages.pfn_of(index))
            },
            None => None,
        };
        let prev = match prev_partial {
            Some(index) => {
                proof {
                    pages.lemma_wf();
                }
                Slab::at(pages, pages.pfn_of(index))
            },
            None => None,
        };
        (next, prev)
    }

    /// Point the slab's next link at `value`; a page that is no slab is left
    /// alone.
    pub fn set_next(&self, pages: &mut Pages, value: Option<Slab>)
        requires
            old(pages).wf(),
            old(pages).describes(self.spec_pfn()),
            value matches Some(s) ==> old(pages).describes(s.spec_pfn()),
        ensures
            ({
                let e = old(pages).entry_at(self.spec_pfn());
                if e is Slab {
                    &&& final(pages).entry_at(self.spec_pfn()) == (Entry::Slab {
                        class: entry_class(e) as u8,
                        free_head: entry_head(e),
                        in_use: entry_in_use(e) as u16,
                        next_partial: index_link(*old(pages), value),
                        prev_partial: entry_prev(e),
                    })
                    &&& old(pages).same_except(*final(pages), self.spec_pfn())
                } else {
                    *final(pages) == *old(pages)
                }
            }),
    {
        let (class, free_head, in_use, prev_partial) = match pages.read(self.pfn) {
            Entry::Slab { class, free_head, in_use, prev_partial, .. } => (
                class,
                free_head,
                in_use,
                prev_partial,
            ),
            Entry::Buddy { .. } => {
                return;
            },
        };
        let next_partial = match value {
            Some(slab) => Some(pages.index_of(slab.pfn)),
            None => None,
        };
        proof {
            pages.lemma_entries_fit(self.spec_pfn());
            if let Some(i) = next_partial {
                ArenaIndex::lemma_new_view(i@);
            }
        }
        pages.write(self.pfn, Entry::Slab { class, free_head, in_use, next_partial, prev_partial });
    }

    /// Point the slab's previous link at `value`; a page that is no slab is
    /// left alone.
    pub fn set_prev(&self, pages: &mut Pages, value: Option<Slab>)
        requires
            old(pages).wf(),
            old(pages).describes(self.spec_pfn()),
            value matches Some(s) ==> old(pages).describes(s.spec_pfn()),
        ensures
            ({
                let e = old(pages).entry_at(self.spec_pfn());
                if e is Slab {
                    &&& final(pages).entry_at(self.spec_pfn()) == (Entry::Slab {
                        class: entry_class(e) as u8,
                        free_head: entry_head(e),
                        in_use: entry_in_use(e) as u16,
                        next_partial: entry_next(e),
                        prev_partial: index_link(*old(pages), value),
                    })
                    &&& old(pages).same_except(*final(pages), self.spec_pfn())
                } else {
                    *final(pages) == *old(pages)
                }
            }),
    {
        let (class, free_head, in_use, next_partial) = match pages.read(self.pfn) {
            Entry::Slab { class, free_head, in_use, next_partial, .. } => (
                class,
                free_head,
                in_use,
                next_partial,
            ),
            Entry::Buddy { .. } => {
                return;
            },
        };
        let prev_partial = match value {
            Some(slab) => Some(pages.index_of(slab.pfn)),
            None => None,
        };
        proof {
            pages.lemma_entries_fit(self.spec_pfn());
            if let Some(i) = prev_partial {
                ArenaIndex::lemma_new_view(i@);
            }
        }
        pages.write(self.pfn, Entry::Slab { class, free_head, in_use, next_partial, prev_partial });
    }

    /// The size class of the slab.
    pub fn class(&self, pages: &Pages) -> (class: usize)
        requires
            pages.wf(),
            pages.describes(self.spec_pfn()),
        ensures
            class == entry_class(pages.entry_at(self.spec_pfn())),
    {
        match pages.read(self.pfn) {
            Entry::Slab { class, .. } => class as usize,
            Entry::Buddy { .. } => 0,
        }
    }

    /// Every object of the slab is in use.
    pub fn is_full(&self, pages: &Pages) -> (full: bool)
        requires
            pages.wf(),
            pages.describes(self.spec_pfn()),
        ensures
            full == (pages.entry_at(self.spec_pfn()) is Slab && entry_head(
                pages.entry_at(self.spec_pfn()),
            ) is None),
    {
        match pages.read(self.pfn) {
            Entry::Slab { free_head, .. } => free_head.is_none(),
            Entry::Buddy { .. } => false,
        }
    }

    /// No object of the slab is in use.
    pub fn is_empty(&self, pages: &Pages) -> (empty: bool)
        requires
            pages.wf(),
            pages.describes(self.spec_pfn()),
        ensures
            empty == (pages.entry_at(self.spec_pfn()) is Slab && entry_in_use(
                pages.entry_at(self.spec_pfn()),
            ) == 0),
    {
        match pages.read(self.pfn) {
            Entry::Slab { in_use, .. } => in_use == 0,
            Entry::Buddy { .. } => false,
        }
    }

    /// The slab holding the object at `addr`, if its page is one.
    pub fn from_addr(pages: &Pages, addr: usize) -> (slab: Option<Slab>)
        requires
            pages.wf(),
            pages.describes((addr / PAGE_SIZE) as int),
        ensures
            slab is Some <==> pages.entry_at((addr / PAGE_SIZE) as int) is Slab,
            slab matches Some(s) ==> s.spec_pfn() == addr / PAGE_SIZE,
    {
        Slab::at(pages, Pfn::from_addr_down(addr))
    }
}

/// `frees` are the free slots of a slab before and after each of a run of
/// allocations with nothing given back in between: allocation `i` handed
/// out `addrs[i]`, the first free object, and left the rest free.
pub open spec fn allocation_run(frees: Seq<Seq<u16>>, addrs: Seq<int>, pfn: int, class: int) -> bool {
    &&& frees.len() == addrs.len() + 1
    &&& forall|i: int|
        0 <= i < addrs.len() ==> frees[i].len() > 0 && #[trigger] addrs[i] == slot_addr(
            pfn,
            class_shift(class),
            frees[i][0] as int,
        ) && frees[i + 1] == frees[i].drop_first()
}

proof fn lemma_allocation_prefix(frees: Seq<Seq<u16>>, addrs: Seq<int>, pfn: int, class: int, m: int)
    requires
        0 <= class < CLASSES_COUNT,
        allocation_run(frees, addrs, pfn, class),
        frees[0] == Seq::new(slot_count(class) as nat, |i: int| i as u16),
        0 <= m <= addrs.len(),
    ensures
        m <= slot_count(class),
        forall|i: int| 0 <= i < m ==> #[trigger] addrs[i] == slot_addr(pfn, class_shift(class), i),
        frees[m] == Seq::new((slot_count(class) - m) as nat, |j: int| (m + j) as u16),
    decreases m,
{
    lemma_classes();
    assert(class_size(class) * slot_count(class) == PAGE_SIZE);
    if m > 0 {
        lemma_allocation_prefix(frees, addrs, pfn, class, m - 1);
        let before = frees[m - 1];
        assert(addrs[m - 1] == slot_addr(pfn, class_shift(class), before[0] as int));
        assert(before[0] as int == m - 1);
        assert(frees[m] =~= Seq::new((slot_count(class) - m) as nat, |j: int| (m + j) as u16));
    }
}

/// A slab just set up hands out its objects in address order: with nothing
/// given back in between, the `i`-th allocation hands out the object in slot
/// `i`, and after `k` of them the slots from `k` on are what is free, so
/// once every object is out the next allocation finds none.
pub proof fn lemma_allocation_order(frees: Seq<Seq<u16>>, addrs: Seq<int>, pfn: int, class: int)
    requires
        0 <= class < CLASSES_COUNT,
        allocation_run(frees, addrs, pfn, class),
        frees[0] == Seq::new(slot_count(class) as nat, |i: int| i as u16),
    ensures
        addrs.len() <= slot_count(class),
        forall|i: int| 0 <= i < addrs.len() ==> #[trigger] addrs[i] == slot_addr(pfn, class_shift(class), i),
        frees[addrs.len() as int] == Seq::new(
            (slot_count(class) - addrs.len()) as nat,
            |j: int| (addrs.len() + j) as u16,
        ),
{
    lemma_allocation_prefix(frees, addrs, pfn, class, addrs.len() as int);
}

/// Giving back the object an allocation just handed out undoes it: the slab
/// has the same class and as many objects in use as before, and its free
/// objects are again the same ones in the same order, so the next
/// allocation hands out that object again.
pub proof fn lemma_free_undoes_allocate(
    pfn: int,
    pages0: Pages,
    words0: Map<usize, u16>,
    a: int,
    pages1: Pages,
    pages2: Pages,
    words2: Map<usize, u16>,
)
    requires
        slab_wf(pages0, words0, pfn),
        free_slots(pages0, words0, pfn).len() > 0,
        a == slot_addr(
            pfn,
            class_shift(entry_class(pages0.entry_at(pfn))),
            free_slots(pages0, words0, pfn)[0] as int,
        ),
        entry_class(pages1.entry_at(pfn)) == entry_class(pages0.entry_at(pfn)),
        entry_in_use(pages1.entry_at(pfn)) == entry_in_use(pages0.entry_at(pfn)) + 1,
        free_slots(pages1, words0, pfn) == free_slots(pages0, words0, pfn).drop_first(),
        entry_class(pages2.entry_at(pfn)) == entry_class(pages1.entry_at(pfn)),
        entry_in_use(pages2.entry_at(pfn)) == entry_in_use(pages1.entry_at(pfn)) - 1,
        free_slots(pages2, words2, pfn) == seq![
            slot_index(pfn, entry_class(pages1.entry_at(pfn)), a) as u16,
        ] + free_slots(pages1, words0, pfn),
    ensures
        free_slots(pages2, words2, pfn) == free_slots(pages0, words0, pfn),
        entry_class(pages2.entry_at(pfn)) == entry_class(pages0.entry_at(pfn)),
        entry_in_use(pages2.entry_at(pfn)) == entry_in_use(pages0.entry_at(pfn)),
{
    let c = entry_class(pages0.entry_at(pfn));
    let free = free_slots(pages0, words0, pfn);
    let s = free[0] as int;
    lemma_classes();
    vstd::arithmetic::power2::lemma_pow2_pos(class_shift(c));
    vstd::arithmetic::div_mod::lemma_div_multiples_vanish(s, class_size(c));
    vstd::arithmetic::mul::lemma_mul_is_commutative(s, class_size(c));
    assert(slot_index(pfn, c, a) == s);
    assert(free_slots(pages2, words2, pfn) =~= free);
}

} // verus!
