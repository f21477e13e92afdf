use vstd::prelude::*;

use crate::heap::{fitting_order, frames_for, has_class, Heap};
use crate::layout::Layout;
use crate::memory::pfn::PAGE_SIZE;
use crate::memory::region::Region;
use crate::mmu::descriptor::{
    carries, kind_of, lemma_kind_address, spec_continues_into, spec_from_u64, Descriptor, Kind,
    ADDRESS,
};
use crate::mmu::level::{lemma_sizes, size_of, spec_next, Level};

pub mod descriptor;
pub mod init;
pub mod level;
pub mod policy;

verus! {

/// Entries in one table: a table is exactly one page of 64-bit entries.
pub const SLOTS: usize = 512;

/// A table is exactly one page: its entries of 64 bits each fill it, so the
/// page-aligned address of a table is all an entry needs to point at it.
pub proof fn lemma_table_is_a_page()
    ensures
        SLOTS * vstd::layout::size_of::<u64>() == PAGE_SIZE,
{
    broadcast use vstd::layout::layout_of_primitives;

}

/// Why a region could not be mapped.
#[derive(Debug, Clone, Copy, PartialEq, Eq, Structural)]
pub enum MapError {
    /// The heap had no page left for another table.
    OutOfMemory,
    /// The region is finer than a 4 KiB page; the address is where that showed.
    Unaligned(usize),
    /// The address lies inside a block already mapped at the level.
    BlockInTheWay(usize, Level),
}

/// How far down the walk still goes below `level`.
pub open spec fn rank(level: Level) -> nat {
    match level {
        Level::Level1 => 2,
        Level::Level2 => 1,
        Level::Level3 => 0,
    }
}

/// The slot `va` falls in at `level`.
pub open spec fn slot_index(va: usize, level: Level) -> int {
    ((va as nat / size_of(level)) % 512) as int
}

/// The part of `va` that `level` does not translate.
pub open spec fn offset_bits(va: usize, level: Level) -> usize {
    va & ((size_of(level) - 1) as usize)
}

/// How much address space one whole table at `level` covers.
pub open spec fn span(level: Level) -> nat {
    512 * size_of(level)
}

/// `va` and `other` fall in the same table-sized block at `level`.
pub open spec fn same_block(va: usize, other: usize, level: Level) -> bool {
    va as nat / span(level) == other as nat / span(level)
}

/// The region lies in one table-sized block at `level`: a table at that
/// level can map all of it without two addresses sharing a slot.
pub open spec fn inside_block(region: Region, level: Level) -> bool {
    region.size == 0 || region.base as nat / span(level) == (region.spec_end() - 1) as nat / span(
        level,
    )
}

/// The first address past what an entry's address bits can hold.
pub open spec fn address_limit() -> int {
    0x1_0000_0000_0000
}

/// A page that no entry can point at: address zero, or past what an
/// entry's address bits hold.
pub open spec fn unaddressable(a: int) -> bool {
    a == 0 || a >= address_limit()
}

/// The address a walk lands on, if it lands anywhere.
pub open spec fn address_of(w: Option<(usize, u64)>) -> Option<usize> {
    match w {
        Some((pa, _)) => Some(pa),
        None => None,
    }
}

/// A walk lands on `va` itself, through a leaf that carries `template`.
pub open spec fn lands(w: Option<(usize, u64)>, va: usize, template: Descriptor) -> bool {
    match w {
        Some((pa, entry)) => pa == va && carries(entry, template),
        None => false,
    }
}

/// The first address of the slot `va` falls in at `level`.
pub open spec fn slot_start(va: usize, level: Level) -> int {
    va - va as nat % size_of(level)
}

/// The region covers the whole slot `va` falls in at `level`, so a leaf
/// there maps it and no table below is needed.
pub open spec fn fills(region: Region, va: usize, level: Level) -> bool {
    region.base <= slot_start(va, level) && slot_start(va, level) + size_of(level) <= region.spec_end()
}

/// A multiple of a multiple of `b` is a multiple of `b`.
proof fn lemma_multiple_of_multiple(x: int, big: int, b: int)
    requires
        x >= 0,
        b > 0,
        big > 0,
        big % b == 0,
        x % big == 0,
    ensures
        x % b == 0,
{
    vstd::arithmetic::div_mod::lemma_fundamental_div_mod(x, big);
    vstd::arithmetic::div_mod::lemma_fundamental_div_mod(big, b);
    let k = x / big;
    let m = big / b;
    assert(x == (m * k) * b) by (nonlinear_arith)
        requires
            x == big * k,
            big == b * m,
    ;
    vstd::arithmetic::div_mod::lemma_mod_multiples_basic(m * k, b);
}

/// A slot further down lies inside the slot above it.
proof fn lemma_slot_within(va: usize, level: Level, lower: Level)
    requires
        rank(lower) < rank(level),
    ensures
        slot_start(va, level) <= slot_start(va, lower),
        slot_start(va, lower) + size_of(lower) <= slot_start(va, level) + size_of(level),
{
    lemma_sizes();
    let big = size_of(level) as int;
    let b = size_of(lower) as int;
    match (level, lower) {
        (Level::Level1, Level::Level2) => assert(0x4000_0000int % 0x20_0000int == 0),
        (Level::Level1, Level::Level3) => assert(0x4000_0000int % 0x1000int == 0),
        (Level::Level2, Level::Level3) => assert(0x20_0000int % 0x1000int == 0),
        _ => {},
    }
    assert(big % b == 0);
    vstd::arithmetic::div_mod::lemma_mod_decreases(va as nat, big as nat);
    vstd::arithmetic::div_mod::lemma_mod_decreases(va as nat, b as nat);
    let x = slot_start(va, level);
    let y = slot_start(va, lower);
    lemma_multiples(va as int, 0, big);
    lemma_multiples(va as int, 0, b);
    lemma_multiple_of_multiple(x, big, b);
    lemma_multiples(x, 0, big);
    lemma_multiple_of_multiple(x + big, big, b);
    lemma_multiples(y, x, b);
    lemma_multiples(y, x + big, b);
}

/// Below the slot of `addr` at `level`, the part of `region` in that slot
/// covers a lower slot whenever the whole region does.
proof fn lemma_fills_sub(region: Region, sub: Region, addr: usize, va: usize, level: Level, lower: Level)
    requires
        rank(lower) < rank(level),
        sub.base == addr,
        region.base <= addr,
        addr == region.base || addr as nat % size_of(level) == 0,
        sub.spec_end() == region.spec_end() || sub.spec_end() == slot_start(addr, level) + size_of(level),
        va as nat / size_of(level) == addr as nat / size_of(level),
    ensures
        fills(region, va, lower) ==> fills(sub, va, lower),
{
    lemma_sizes();
    let z = size_of(level) as int;
    vstd::arithmetic::div_mod::lemma_fundamental_div_mod(va as int, z);
    vstd::arithmetic::div_mod::lemma_fundamental_div_mod(addr as int, z);
    assert(slot_start(va, level) == slot_start(addr, level));
    lemma_slot_within(va, level, lower);
}

/// A page-aligned address below the address limit fits an entry as it is.
proof fn lemma_page_address(a: usize)
    requires
        a % PAGE_SIZE == 0,
        a < address_limit(),
    ensures
        ((a as u64) & ADDRESS) as usize == a,
{
    assert(((a as u64) & ADDRESS) as usize == a) by (bit_vector)
        requires
            a % 0x1000 == 0,
            a < 0x1_0000_0000_0000,
    ;
}

/// The sizes of the levels are whole pages, and a table one level down
/// covers exactly one slot.
proof fn lemma_level_facts(level: Level)
    ensures
        size_of(level) % PAGE_SIZE as nat == 0,
        PAGE_SIZE <= size_of(level) <= 0x4000_0000,
        spec_next(level) matches Some(next) ==> span(next) == size_of(level),
        spec_next(level) is None ==> size_of(level) == PAGE_SIZE,
{
    lemma_sizes();
}

/// In one table-sized block, two addresses share a slot exactly when they
/// share a slot-sized block.
proof fn lemma_slot_block(va: usize, addr: usize, level: Level)
    requires
        same_block(va, addr, level),
    ensures
        (slot_index(va, level) == slot_index(addr, level)) == (va as nat / size_of(level) == addr as nat
            / size_of(level)),
{
    lemma_sizes();
    let z = size_of(level) as int;
    vstd::arithmetic::div_mod::lemma_div_denominator(va as int, z, 512);
    vstd::arithmetic::div_mod::lemma_div_denominator(addr as int, z, 512);
    vstd::arithmetic::mul::lemma_mul_is_commutative(z, 512);
    let q = va as int / z;
    let p = addr as int / z;
    vstd::arithmetic::div_mod::lemma_fundamental_div_mod(q, 512);
    vstd::arithmetic::div_mod::lemma_fundamental_div_mod(p, 512);
}

/// A multiple of a multiple of the page size is a multiple of the page size.
proof fn lemma_page_multiple(x: int, size: int)
    requires
        x >= 0,
        size > 0,
        size % PAGE_SIZE as int == 0,
        x % size == 0,
    ensures
        x % PAGE_SIZE as int == 0,
{
    vstd::arithmetic::div_mod::lemma_fundamental_div_mod(x, size);
    vstd::arithmetic::div_mod::lemma_fundamental_div_mod(size, PAGE_SIZE as int);
    let k = x / size;
    let m = size / PAGE_SIZE as int;
    assert(x == (m * k) * PAGE_SIZE) by (nonlinear_arith)
        requires
            x == size * k,
            size == PAGE_SIZE * m,
    ;
    vstd::arithmetic::div_mod::lemma_mod_multiples_basic(m * k, PAGE_SIZE as int);
}

/// Two different multiples of a size are at least that size apart, and
/// rounding down to a multiple of a size gives one.
proof fn lemma_multiples(a: int, b: int, size: int)
    requires
        a >= 0,
        b >= 0,
        size > 0,
    ensures
        a % size == 0 && b % size == 0 && a < b ==> a + size <= b,
        (a - a % size) % size == 0,
        a % size == 0 ==> (a + size) % size == 0,
{
    vstd::arithmetic::div_mod::lemma_fundamental_div_mod(a, size);
    vstd::arithmetic::div_mod::lemma_fundamental_div_mod(b, size);
    let qa = a / size;
    let qb = b / size;
    if a % size == 0 && b % size == 0 && a < b {
        assert(qa < qb) by (nonlinear_arith)
            requires
                a == size * qa,
                b == size * qb,
                a < b,
                size > 0,
        ;
        assert(size * qa + size <= size * qb) by (nonlinear_arith)
            requires
                qa < qb,
                size > 0,
        ;
    }
    vstd::arithmetic::div_mod::lemma_mod_multiples_basic(qa, size);
    vstd::arithmetic::mul::lemma_mul_is_commutative(qa, size);
    vstd::arithmetic::div_mod::lemma_mod_multiples_basic(qa + 1, size);
    vstd::arithmetic::mul::lemma_mul_is_distributive_add(size, qa, 1);
    vstd::arithmetic::mul::lemma_mul_is_commutative(qa + 1, size);
}

/// The addresses of a region inside one block are in the block of its base.
proof fn lemma_inside(region: Region, va: usize, level: Level)
    requires
        inside_block(region, level),
        region.base <= va < region.spec_end(),
    ensures
        same_block(va, region.base, level),
{
    lemma_sizes();
    vstd::arithmetic::div_mod::lemma_div_is_ordered(region.base as int, va as int, span(level) as int);
    vstd::arithmetic::div_mod::lemma_div_is_ordered(va as int, region.spec_end() - 1, span(level) as int);
}

/// Addresses in the slot-sized block of `addr` are the ones from its start
/// up to one slot further.
proof fn lemma_in_slot(va: usize, addr: usize, level: Level)
    ensures
        (va as nat / size_of(level) == addr as nat / size_of(level)) == (addr - addr as nat % size_of(
            level,
        ) <= va < addr - addr as nat % size_of(level) + size_of(level)),
{
    lemma_sizes();
    let z = size_of(level) as int;
    vstd::arithmetic::div_mod::lemma_fundamental_div_mod(va as int, z);
    vstd::arithmetic::div_mod::lemma_fundamental_div_mod(addr as int, z);
    let q = va as int / z;
    let p = addr as int / z;
    if q < p {
        assert(q * z + z <= p * z) by (nonlinear_arith)
            requires
                q < p,
                z > 0,
        ;
    }
    if q > p {
        assert(p * z + z <= q * z) by (nonlinear_arith)
            requires
                q > p,
                z > 0,
        ;
    }
}

/// The start of the next slot-sized block, in the same table-sized block,
/// is in the next slot.
proof fn lemma_next_slot(addr: usize, next: usize, level: Level)
    requires
        same_block(addr, next, level),
        next == addr - addr as nat % size_of(level) + size_of(level),
    ensures
        slot_index(next, level) == slot_index(addr, level) + 1,
{
    lemma_sizes();
    let z = size_of(level) as int;
    vstd::arithmetic::div_mod::lemma_fundamental_div_mod(addr as int, z);
    let q = addr as int / z;
    assert(next == (q + 1) * z) by (nonlinear_arith)
        requires
            next == addr - addr as int % z + z,
            addr == z * q + addr as int % z,
    ;
    vstd::arithmetic::div_mod::lemma_div_multiples_vanish(q + 1, z);
    vstd::arithmetic::mul::lemma_mul_is_commutative(q + 1, z);
    vstd::arithmetic::div_mod::lemma_div_denominator(addr as int, z, 512);
    vstd::arithmetic::div_mod::lemma_div_denominator(next as int, z, 512);
    vstd::arithmetic::mul::lemma_mul_is_commutative(z, 512);
    vstd::arithmetic::div_mod::lemma_fundamental_div_mod(q, 512);
    vstd::arithmetic::div_mod::lemma_fundamental_div_mod(q + 1, 512);
}

/// Clearing the bits below a level's size rounds down to a multiple of it.
proof fn lemma_slot_start(addr: usize, level: Level)
    ensures
        addr & !((size_of(level) - 1) as usize) == addr - addr as nat % size_of(level),
        addr & ((size_of(level) - 1) as usize) == addr as nat % size_of(level),
{
    lemma_sizes();
    let m = (size_of(level) - 1) as usize;
    assert(addr & !m == addr - (addr & m)) by (bit_vector);
    match level {
        Level::Level1 => {
            assert(addr & 0x3FFF_FFFFusize == addr % 0x4000_0000) by (bit_vector);
        },
        Level::Level2 => {
            assert(addr & 0x1F_FFFFusize == addr % 0x20_0000) by (bit_vector);
        },
        Level::Level3 => {
            assert(addr & 0xFFFusize == addr % 0x1000) by (bit_vector);
        },
    }
}

/// A leaf entry for a slot-aligned address below the address limit sends
/// every address of its slot to itself.
proof fn lemma_leaf(addr: usize, va: usize, level: Level)
    requires
        addr as nat % size_of(level) == 0,
        addr <= va < addr + size_of(level),
        addr < address_limit(),
    ensures
        (((addr as u64) & ADDRESS) as usize | offset_bits(va, level)) == va,
{
    lemma_sizes();
    let a = addr as u64;
    match level {
        Level::Level1 => {
            assert((((a & ADDRESS) as usize) | (va & 0x3FFF_FFFFusize)) == va) by (bit_vector)
                requires
                    a == addr as u64,
                    addr % 0x4000_0000 == 0,
                    addr <= va,
                    va < addr + 0x4000_0000,
                    addr < 0x1_0000_0000_0000,
            ;
        },
        Level::Level2 => {
            assert((((a & ADDRESS) as usize) | (va & 0x1F_FFFFusize)) == va) by (bit_vector)
                requires
                    a == addr as u64,
                    addr % 0x20_0000 == 0,
                    addr <= va,
                    va < addr + 0x20_0000,
                    addr < 0x1_0000_0000_0000,
            ;
        },
        Level::Level3 => {
            assert((((a & ADDRESS) as usize) | (va & 0xFFFusize)) == va) by (bit_vector)
                requires
                    a == addr as u64,
                    addr % 0x1000 == 0,
                    addr <= va,
                    va < addr + 0x1000,
                    addr < 0x1_0000_0000_0000,
            ;
        },
    }
}

/// A translation table and the tables below it. The tree owns its child
/// tables: the entry of a slot that points at a table holds the child's base
/// address, and the child itself sits beside it.
pub struct Table {
    base: usize,
    slots: Vec<u64>,
    children: Vec<Option<Box<Table>>>,
}

impl Table {
    /// The address of the table's page.
    pub closed spec fn spec_base(self) -> usize {
        self.base
    }

    /// The entries of the table.
    pub closed spec fn entries(self) -> Seq<u64> {
        self.slots@
    }

    /// The table sits in a page an entry can point at and holds its 512
    /// entries, and at levels 1 and 2 every entry that points at a table
    /// holds that table's address and has the table below it, itself well
    /// formed one level down.
    pub closed spec fn wf_at(self, level: Level) -> bool
        decreases rank(level),
    {
        &&& 0 < self.base < address_limit()
        &&& self.base % PAGE_SIZE == 0
        &&& self.slots@.len() == SLOTS
        &&& self.children@.len() == SLOTS
        &&& forall|s: int|
            0 <= s < SLOTS ==> match spec_next(level) {
                Some(next) => if kind_of(#[trigger] self.slots@[s] & 3) == Kind::Table {
                    &&& self.children@[s] matches Some(c)
                    &&& c.wf_at(next)
                    &&& spec_from_u64(self.slots@[s]).address == c.base
                } else {
                    self.children@[s] is None
                },
                None => self.children@[s] is None,
            }
    }

    proof fn lemma_wf_base(self, level: Level)
        requires
            self.wf_at(level),
        ensures
            0 < self.base < address_limit(),
            self.base % PAGE_SIZE == 0,
    {
    }

    /// Where the hardware walk starting in this table at `level` takes `va`,
    /// with the leaf entry that maps it: `None` where nothing is mapped. At
    /// levels 1 and 2 bits `01` are a block and `11` a table; at level 3
    /// `11` is a page and `01` is invalid.
    pub closed spec fn walk(self, va: usize, level: Level) -> Option<(usize, u64)>
        decreases rank(level),
    {
        let s = slot_index(va, level);
        let e = self.slots@[s];
        let d = spec_from_u64(e);
        match d.kind {
            Kind::Invalid => None,
            Kind::Block => match spec_next(level) {
                None => None,
                Some(_) => Some((d.address | offset_bits(va, level), e)),
            },
            Kind::Table => match spec_next(level) {
                None => Some((d.address | offset_bits(va, level), e)),
                Some(next) => match self.children@[s] {
                    Some(c) => c.walk(va, next),
                    None => None,
                },
            },
        }
    }

    /// `self` is `other` but for slot `s`.
    pub closed spec fn same_except(self, other: Table, s: int) -> bool {
        &&& self.base == other.base
        &&& self.slots@.len() == other.slots@.len()
        &&& self.children@.len() == other.children@.len()
        &&& forall|t: int|
            0 <= t < self.slots@.len() && t != s ==> self.slots@[t] == other.slots@[t]
                && self.children@[t] == other.children@[t]
    }

    /// A walk that does not go through slot `s` is the same in two tables
    /// that differ only there.
    proof fn lemma_walk_other_slot(self, other: Table, s: int, va: usize, level: Level)
        requires
            self.same_except(other, s),
            self.slots@.len() == SLOTS,
            slot_index(va, level) != s,
        ensures
            self.walk(va, level) == other.walk(va, level),
    {
    }

    /// Where `va` lands, walking from this table as the level 1 table.
    pub open spec fn spec_translate(self, va: usize) -> Option<usize> {
        address_of(self.walk(va, Level::Level1))
    }

    /// The leaf entry that maps `va`, walking from this table as the level 1
    /// table.
    pub open spec fn spec_leaf(self, va: usize) -> Option<u64> {
        match self.walk(va, Level::Level1) {
            Some((_, entry)) => Some(entry),
            None => None,
        }
    }

    /// After mapping `region` from `before` as far as `p`: each address of
    /// the region below `p` lands on itself through a leaf that carries
    /// `template`, and every other address walks as it did.
    pub open spec fn identity_up_to(self, before: Table, region: Region, template: Descriptor, p: int) -> bool {
        &&& region.base <= p <= region.spec_end()
        &&& forall|va: usize|
            region.base <= va < p ==> #[trigger] self.spec_translate(va) == Some(va) && (self.spec_leaf(
                va,
            ) matches Some(e) && carries(e, template))
        &&& forall|va: usize|
            va < span(Level::Level1) && !(region.base <= va < p) ==> #[trigger] self.spec_translate(va)
                == before.spec_translate(va) && self.spec_leaf(va) == before.spec_leaf(va)
    }

    /// After mapping `region` at `level` from `before` as far as `p`: inside
    /// one table-sized block, each address of the region below `p` lands on
    /// itself through a leaf that carries `template`, and the rest of the
    /// block walks as it did.
    pub open spec fn maps_up_to(
        self,
        before: Table,
        region: Region,
        template: Descriptor,
        level: Level,
        p: int,
    ) -> bool {
        &&& region.base <= p <= region.spec_end()
        &&& inside_block(region, level) ==> forall|va: usize|
            same_block(va, region.base, level) && !(region.base <= va < p) ==> #[trigger] self.walk(
                va,
                level,
            ) == before.walk(va, level)
        &&& inside_block(region, level) && region.spec_end() <= address_limit() ==> forall|va: usize|
            region.base <= va < p ==> lands(#[trigger] self.walk(va, level), va, template)
    }

    /// The level at which the walk for `va` from this table at `level`
    /// meets an invalid entry, if it meets one.
    pub closed spec fn stop_level(self, va: usize, level: Level) -> Option<Level>
        decreases rank(level),
    {
        let s = slot_index(va, level);
        match (kind_of(self.slots@[s] & 3), spec_next(level)) {
            (Kind::Invalid, _) => Some(level),
            (Kind::Table, Some(next)) => match self.children@[s] {
                Some(c) => c.stop_level(va, next),
                None => None,
            },
            _ => None,
        }
    }

    /// Mapping `region` needs a table for `va` that is not there: the walk
    /// for `va` meets an invalid entry at a level that has one below it,
    /// where the region does not cover the whole slot.
    pub open spec fn needs_table(self, region: Region, va: usize, level: Level) -> bool {
        self.stop_level(va, level) matches Some(l) && spec_next(l) is Some && !fills(region, va, l)
    }

    /// `x` is the address of a table the walk for `va` from this table at
    /// `level` passes through below it.
    pub closed spec fn on_path(self, va: usize, level: Level, x: int) -> bool
        decreases rank(level),
    {
        let s = slot_index(va, level);
        match spec_next(level) {
            Some(next) => match self.children@[s] {
                Some(c) => c.base == x || c.on_path(va, next, x),
                None => false,
            },
            None => false,
        }
    }

    /// Every page `heap1` holds that `heap0` did not is one no entry can
    /// point at, or a table the walk of an address of `region` up to `p`
    /// passes through: mapping took no page it did not link in.
    pub open spec fn tables_for(self, heap0: Heap, heap1: Heap, region: Region, level: Level, p: int) -> bool {
        forall|x: int|
            #[trigger] heap1.live(x) && !heap0.live(x) ==> unaddressable(x) || exists|va: usize|
                region.base <= va <= p && va < region.spec_end() && self.on_path(va, level, x)
    }

    proof fn lemma_stop_below(self, va: usize, level: Level)
        ensures
            self.stop_level(va, level) matches Some(l) ==> rank(l) <= rank(level),
        decreases rank(level),
    {
        let s = slot_index(va, level);
        match (kind_of(self.slots@[s] & 3), spec_next(level)) {
            (Kind::Table, Some(next)) => match self.children@[s] {
                Some(c) => c.lemma_stop_below(va, next),
                None => {},
            },
            _ => {},
        }
    }

    /// The walk for `va` from this table at `level` meets a block at level
    /// `at`, where it would have to go further down.
    pub closed spec fn blocked_at(self, va: usize, level: Level, at: Level) -> bool
        decreases rank(level),
    {
        let s = slot_index(va, level);
        let kind = kind_of(self.slots@[s] & 3);
        if level == at {
            kind == Kind::Block
        } else {
            &&& kind == Kind::Table
            &&& match (spec_next(level), self.children@[s]) {
                (Some(next), Some(c)) => c.blocked_at(va, next, at),
                _ => false,
            }
        }
    }

    /// A walk meets a block only at its own level or further down.
    proof fn lemma_blocked_below(self, va: usize, level: Level, at: Level)
        requires
            self.blocked_at(va, level, at),
        ensures
            rank(at) <= rank(level),
        decreases rank(level),
    {
        if level != at {
            let s = slot_index(va, level);
            match (spec_next(level), self.children@[s]) {
                (Some(next), Some(c)) => c.lemma_blocked_below(va, next, at),
                _ => {},
            }
        }
    }

    /// An empty table in a fresh page from `heap`: every entry zero, so
    /// nothing is mapped. `None` when the heap has no page to give, or gives
    /// one that no entry could point at; such a page stays handed out.
    pub fn new(heap: &mut Heap) -> (table: Option<Table>)
        requires
            old(heap).wf(),
        ensures
            final(heap).wf(),
            old(heap).kept_in(*final(heap)),
            match table {
                Some(t) => {
                    &&& t.entries() == Seq::new(SLOTS as nat, |i: int| 0u64)
                    &&& forall|l: Level| #[trigger] t.wf_at(l)
                    &&& 0 < t.spec_base() < address_limit()
                    &&& t.spec_base() % PAGE_SIZE == 0
                    &&& !old(heap).live(t.spec_base() as int)
                    &&& final(heap).live(t.spec_base() as int)
                },
                None => true,
            },
            !old(heap).frames_free(0) ==> table is None && *final(heap) == *old(heap),
            old(heap).frames_free(0) ==> table is Some || exists|a: int|
                unaddressable(a) && !old(heap).live(a) && #[trigger] final(heap).live(a),
            forall|x: int|
                #[trigger] final(heap).live(x) && !old(heap).live(x) ==> unaddressable(x) || (table matches Some(
                    t,
                ) && x == t.spec_base()),
    {
        proof {
            vstd::arithmetic::power2::lemma2_to64();
            assert(crate::layout::is_pow2(PAGE_SIZE)) by {
                assert(PAGE_SIZE == vstd::arithmetic::power2::pow2(12));
            }
        }
        let layout = match Layout::from_size_align(PAGE_SIZE, PAGE_SIZE) {
            Some(layout) => layout,
            None => {
                return None;
            },
        };
        proof {
            if has_class(PAGE_SIZE as int, PAGE_SIZE as int) {
                crate::slab::lemma_classes();
            }
            vstd::arithmetic::power2::lemma2_to64();
            assert(frames_for(PAGE_SIZE as int, PAGE_SIZE as int) == 1);
            assert(fitting_order(1, 0));
        }
        let base = match heap.alloc_layout(layout) {
            Some(base) => base,
            None => {
                return None;
            },
        };
        if base == 0 || base as u64 >= 0x1_0000_0000_0000u64 {
            proof {
                assert(heap.live(base as int));
            }
            return None;
        }
        // Clear garbage that was left in memory.
        let mut slots: Vec<u64> = Vec::new();
        let mut children: Vec<Option<Box<Table>>> = Vec::new();
        for slot in 0..SLOTS
            invariant
                slots@.len() == slot,
                children@.len() == slot,
                forall|i: int| 0 <= i < slot ==> slots@[i] == 0u64,
                forall|i: int| 0 <= i < slot ==> children@[i] is None,
        {
            slots.push(0);
            children.push(None);
        }
        let table = Table { base, slots, children };
        proof {
            assert(table.entries() == Seq::new(SLOTS as nat, |i: int| 0u64));
            assert forall|l: Level| #[trigger] table.wf_at(l) by {
                assert forall|s: int| 0 <= s < SLOTS implies kind_of(#[trigger] table.slots@[s] & 3)
                    == Kind::Invalid by {
                    assert(0u64 & 3 == 0) by (bit_vector);
                }
            }
        }
        Some(table)
    }

    /// The address the next level up stores, and eventually `TTBR0_EL1`.
    pub fn base(&self) -> (base: usize)
        ensures
            base == self.spec_base(),
    {
        self.base
    }

    /// The entry in `slot`, as the hardware reads it.
    pub fn entry(&self, slot: usize, level: Level) -> (value: u64)
        requires
            self.wf_at(level),
            slot < SLOTS,
        ensures
            value == self.entries()[slot as int],
    {
        self.slots[slot]
    }

    /// The last slot of the run of blocks that starts at `slot`: every slot
    /// up to it holds a block with the same attributes as the first, one
    /// slot size further along in physical memory for each slot; the slot
    /// after it does not. A printed map shows such a run as one row.
    pub fn run_end(&self, slot: usize, level: Level) -> (last: usize)
        requires
            self.wf_at(level),
            slot < SLOTS,
        ensures
            slot <= last < SLOTS,
            forall|j: int|
                slot < j <= last ==> spec_continues_into(
                    spec_from_u64(self.entries()[slot as int]),
                    spec_from_u64(#[trigger] self.entries()[j]),
                    ((j - slot) * size_of(level)) as u64,
                ),
            last + 1 < SLOTS ==> !spec_continues_into(
                spec_from_u64(self.entries()[slot as int]),
                spec_from_u64(self.entries()[last + 1]),
                ((last + 1 - slot) * size_of(level)) as u64,
            ),
    {
        let first = self.get(slot);
        let step = level.size();
        proof {
            lemma_sizes();
        }
        let mut last = slot;
        loop
            invariant
                self.wf_at(level),
                slot <= last < SLOTS,
                first == spec_from_u64(self.entries()[slot as int]),
                step == size_of(level),
                step <= 0x4000_0000,
                forall|j: int|
                    slot < j <= last ==> spec_continues_into(
                        first,
                        spec_from_u64(#[trigger] self.entries()[j]),
                        ((j - slot) * size_of(level)) as u64,
                    ),
            ensures
                slot <= last < SLOTS,
                last + 1 < SLOTS ==> !spec_continues_into(
                    first,
                    spec_from_u64(self.entries()[last + 1]),
                    ((last + 1 - slot) * size_of(level)) as u64,
                ),
            decreases SLOTS - last,
        {
            if last + 1 >= SLOTS {
                break;
            }
            proof {
                assert((last + 1 - slot) * step <= 512 * 0x4000_0000) by (nonlinear_arith)
                    requires
                        last + 1 - slot <= 512,
                        step <= 0x4000_0000,
                ;
            }
            let delta = (last + 1 - slot) as u64 * step as u64;
            if !first.continues_into(self.get(last + 1), delta) {
                break;
            }
            last += 1;
        }
        last
    }

    /// The table below `slot`, if its entry points at one.
    pub fn child(&self, slot: usize, level: Level) -> (child: Option<&Table>)
        requires
            self.wf_at(level),
            slot < SLOTS,
        ensures
            match child {
                Some(c) => {
                    &&& spec_next(level) matches Some(next) && c.wf_at(next)
                    &&& kind_of(self.entries()[slot as int] & 3) == Kind::Table
                },
                None => spec_next(level) is None || kind_of(self.entries()[slot as int] & 3)
                    != Kind::Table,
            },
    {
        match &self.children[slot] {
            Some(c) => Some(&**c),
            None => None,
        }
    }

    /// Where the hardware walk takes `va`, or `None` if nothing is mapped
    /// there.
    pub fn translate(&self, va: usize) -> (pa: Option<usize>)
        requires
            self.wf_at(Level::Level1),
        ensures
            pa == self.spec_translate(va),
    {
        self.translate_at(va, Level::Level1)
    }

    /// The entry in `slot`, as a descriptor.
    fn get(&self, slot: usize) -> (d: Descriptor)
        requires
            self.slots@.len() == SLOTS,
            slot < SLOTS,
        ensures
            d == spec_from_u64(self.slots@[slot as int]),
    {
        Descriptor::from_u64(self.slots[slot])
    }

    /// The table below the slot `va` falls in at `level`, allocated and linked
    /// if the slot is empty, and taken out of the tree to work on: the slot
    /// keeps its entry pointing at the table, and the caller puts the table
    /// back.
    fn child_table(&mut self, heap: &mut Heap, va: usize, level: Level) -> (child: Result<
        Box<Table>,
        MapError,
    >)
        requires
            old(self).wf_at(level),
            spec_next(level) is Some,
            old(heap).wf(),
        ensures
            final(heap).wf(),
            old(heap).kept_in(*final(heap)),
            forall|x: int|
                #[trigger] final(heap).live(x) && !old(heap).live(x) ==> unaddressable(x) || (child matches Ok(
                    c,
                ) && x == c.spec_base()),
            match child {
                Ok(c) => {
                    let s = slot_index(va, level);
                    &&& c.wf_at(spec_next(level)->0)
                    &&& final(self).same_except(*old(self), s)
                    &&& kind_of(final(self).entries()[s] & 3) == Kind::Table
                    &&& spec_from_u64(final(self).entries()[s]).address == c.spec_base()
                    &&& final(self).children@[s] is None
                    &&& forall|x: usize|
                        slot_index(x, level) == s ==> #[trigger] old(self).walk(x, level) == c.walk(
                            x,
                            spec_next(level)->0,
                        )
                    &&& kind_of(old(self).entries()[s] & 3) == Kind::Table ==> old(self).children@[s]
                        == Some(c) && *final(heap) == *old(heap)
                    &&& kind_of(old(self).entries()[s] & 3) != Kind::Table ==> forall|x: usize, at: Level|
                        !#[trigger] c.blocked_at(x, spec_next(level)->0, at)
                },
                Err(e) => {
                    &&& *final(self) == *old(self)
                    &&& e == MapError::OutOfMemory || e == MapError::BlockInTheWay(va, level)
                    &&& e == MapError::OutOfMemory ==> !final(heap).frames_free(0) || exists|a: int|
                        unaddressable(a) && !old(heap).live(a) && #[trigger] final(heap).live(a)
                    &&& (e == MapError::BlockInTheWay(va, level)) == (kind_of(
                        old(self).entries()[slot_index(va, level)] & 3,
                    ) == Kind::Block)
                    &&& e == MapError::BlockInTheWay(va, level) ==> *final(heap) == *old(heap)
                    &&& e == MapError::OutOfMemory ==> kind_of(
                        old(self).entries()[slot_index(va, level)] & 3,
                    ) == Kind::Invalid
                },
            },
    {
        let slot = level.slot_of(va);
        let descriptor = self.get(slot);
        let ghost next = spec_next(level)->0;
        match descriptor.kind {
            // Table already was allocated. Reusing it.
            Kind::Table => {
                proof {
                    assert(kind_of(self.slots@[slot as int] & 3) == Kind::Table);
                    self.children@[slot as int]->0.lemma_wf_base(next);
                }
                if descriptor.address == 0 {
                    return Err(MapError::OutOfMemory);
                }
                let child = self.children[slot].take();
                match child {
                    Some(c) => Ok(c),
                    None => Err(MapError::OutOfMemory),
                }
            },
            Kind::Invalid => {
                let child = match Table::new(heap) {
                    Some(child) => child,
                    None => {
                        return Err(MapError::OutOfMemory);
                    },
                };
                let entry = Descriptor { kind: Kind::Table, address: child.base(), ..Descriptor::zero() };
                proof {
                    lemma_kind_address(entry);
                    lemma_page_address(child.base);
                    assert(child.wf_at(next));
                    assert(0u64 & 3 == 0) by (bit_vector);
                    assert forall|x: usize| slot_index(x, level) == slot implies #[trigger] self.walk(x, level)
                        == child.walk(x, next) by {
                        let s = slot_index(x, next);
                        assert(child.slots@[s] == 0u64);
                    }
                    assert forall|x: usize, at: Level| !#[trigger] child.blocked_at(x, next, at) by {
                        let s = slot_index(x, next);
                        assert(child.slots@[s] == 0u64);
                    }
                }
                self.slots[slot] = entry.to_u64();
                Ok(Box::new(child))
            },
            // Splitting a block into a table means rewriting a mapping that is
            // already live, which nothing here is allowed to do.
            Kind::Block => Err(MapError::BlockInTheWay(va, level)),
        }
    }

    /// Map `region` so that every virtual address in it equals its own
    /// physical address, with `template` supplying everything but the address
    /// and the kind. The tables it needs come from `heap`, and it takes no
    /// page for anything else: it runs out of memory only where a table is
    /// missing and the heap has no page left for it.
    pub fn identity_map(&mut self, heap: &mut Heap, region: Region, template: Descriptor) -> (r:
        Result<(), MapError>)
        requires
            old(self).wf_at(Level::Level1),
            old(heap).wf(),
            region.wf(),
        ensures
            final(self).wf_at(Level::Level1),
            final(self).spec_base() == old(self).spec_base(),
            final(heap).wf(),
            old(heap).kept_in(*final(heap)),
            r is Ok && region.spec_end() <= span(Level::Level1) ==> final(self).identity_up_to(
                *old(self),
                region,
                template,
                region.spec_end(),
            ),
            r is Ok && region.spec_end() <= span(Level::Level1) ==> final(self).tables_for(
                *old(heap),
                *final(heap),
                region,
                Level::Level1,
                region.spec_end() as int,
            ),
            r is Err && region.spec_end() <= span(Level::Level1) ==> exists|p: int|
                #[trigger] final(self).identity_up_to(*old(self), region, template, p) && (r matches Err(
                    MapError::Unaligned(a),
                ) ==> p == a) && (r matches Err(MapError::BlockInTheWay(a, _)) ==> p == a)
                    && final(self).tables_for(*old(heap), *final(heap), region, Level::Level1, p) && (r
                    == Err::<(), MapError>(MapError::OutOfMemory) ==> p < region.spec_end()
                    && final(self).needs_table(region, p as usize, Level::Level1)),
            r is Ok && region.size > 0 ==> region.base % PAGE_SIZE == 0 && region.spec_end()
                % PAGE_SIZE as int == 0,
            region.base % PAGE_SIZE == 0 && region.spec_end() % PAGE_SIZE as int == 0 ==> !(r matches Err(
                MapError::Unaligned(_),
            )),
            r matches Err(MapError::Unaligned(a)) ==> a == (if region.base % PAGE_SIZE != 0 {
                region.base
            } else {
                (region.spec_end() - region.spec_end() % PAGE_SIZE as int) as usize
            }),
            r matches Err(MapError::BlockInTheWay(a, _)) ==> region.contains_addr(a as int),
            region.spec_end() <= span(Level::Level1) ==> (r matches Err(MapError::BlockInTheWay(a, at))
                ==> old(self).blocked_at(a, Level::Level1, at)),
            r == Err::<(), MapError>(MapError::OutOfMemory) ==> !final(heap).frames_free(0) || exists|
                a: int,
            | unaddressable(a) && !old(heap).live(a) && #[trigger] final(heap).live(a),
    {
        proof {
            lemma_sizes();
            if region.spec_end() <= span(Level::Level1) && region.size > 0 {
                assert(region.base as nat / span(Level::Level1) == 0);
                assert((region.spec_end() - 1) as nat / span(Level::Level1) == 0);
            }
        }
        let r = self.map_range(heap, region, template, Level::Level1);
        proof {
            if region.spec_end() <= span(Level::Level1) {
                assert forall|p: int| #[trigger]
                    self.maps_up_to(*old(self), region, template, Level::Level1, p) implies self.identity_up_to(
                    *old(self),
                    region,
                    template,
                    p,
                ) by {
                    assert forall|va: usize| region.base <= va < p implies #[trigger] self.spec_translate(va)
                        == Some(va) && (self.spec_leaf(va) matches Some(e) && carries(e, template)) by {
                        assert(lands(self.walk(va, Level::Level1), va, template));
                    }
                    assert forall|va: usize|
                        va < span(Level::Level1) && !(region.base <= va < p) implies #[trigger] self.spec_translate(
                        va,
                    ) == old(self).spec_translate(va) && self.spec_leaf(va) == old(self).spec_leaf(va) by {
                        if region.size > 0 {
                            assert(same_block(va, region.base, Level::Level1));
                            assert(self.walk(va, Level::Level1) == old(self).walk(va, Level::Level1));
                        }
                    }
                }
                if r is Ok {
                    assert(self.maps_up_to(*old(self), region, template, Level::Level1, region.spec_end()));
                }
            }
        }
        r
    }

    /// The loop of `map_range` has mapped `region` from `start` up to `addr`,
    /// and the heap has grown from `heap0` only by tables on the way.
    spec fn mapped_to(
        self,
        heap: Heap,
        start: Table,
        heap0: Heap,
        region: Region,
        template: Descriptor,
        level: Level,
        addr: usize,
    ) -> bool {
        &&& region.wf()
        &&& region.base <= addr <= region.spec_end()
        &&& addr == region.base || addr == region.spec_end() || addr as nat % size_of(level) == 0
        &&& addr == region.base ==> self == start && heap == heap0
        &&& self.slots@.len() == SLOTS
        &&& inside_block(region, level) && addr < region.spec_end() ==> forall|t: int|
            slot_index(addr, level) <= t < SLOTS ==> #[trigger] self.slots@[t] == start.slots@[t]
                && self.children@[t] == start.children@[t]
        &&& self.wf_at(level)
        &&& self.base == start.base
        &&& heap.wf()
        &&& heap0.kept_in(heap)
        &&& size_of(level) % PAGE_SIZE as nat == 0
        &&& PAGE_SIZE <= size_of(level) <= 0x4000_0000
        &&& self.maps_up_to(start, region, template, level, addr as int)
        &&& addr > region.base ==> region.base % PAGE_SIZE == 0 && addr % PAGE_SIZE == 0
        &&& region.base % PAGE_SIZE == 0 && region.spec_end() % PAGE_SIZE as int == 0 ==> addr
            % PAGE_SIZE == 0
        &&& inside_block(region, level) ==> forall|x: int|
            #[trigger] heap.live(x) && !heap0.live(x) ==> unaddressable(x) || exists|va: usize|
                region.base <= va < addr && self.on_path(va, level, x)
    }

    /// Mapping `region` from `start` stopped at `p` with `e`: the region is
    /// mapped below `p`, the heap grew only by tables on the way, and running
    /// out of memory left a table missing at `p`.
    pub open spec fn stopped_at(
        self,
        heap: Heap,
        start: Table,
        heap0: Heap,
        region: Region,
        template: Descriptor,
        level: Level,
        e: MapError,
        p: int,
    ) -> bool {
        &&& self.maps_up_to(start, region, template, level, p)
        &&& e matches MapError::Unaligned(a) ==> p == a
        &&& e matches MapError::BlockInTheWay(a, _) ==> p == a
        &&& inside_block(region, level) ==> self.tables_for(heap0, heap, region, level, p)
        &&& e == MapError::OutOfMemory && inside_block(region, level) ==> p < region.spec_end()
            && self.needs_table(region, p as usize, level)
    }

    /// What `map_range` promises when it fails with `e`, from `start` and
    /// `heap0`.
    spec fn failed_at(
        self,
        heap: Heap,
        start: Table,
        heap0: Heap,
        region: Region,
        template: Descriptor,
        level: Level,
        e: MapError,
    ) -> bool {
        &&& self.wf_at(level)
        &&& self.base == start.base
        &&& heap.wf()
        &&& heap0.kept_in(heap)
        &&& exists|p: int| #[trigger] self.stopped_at(heap, start, heap0, region, template, level, e, p)
        &&& region.base % PAGE_SIZE == 0 && region.spec_end() % PAGE_SIZE as int == 0 ==> !(e is Unaligned)
        &&& e matches MapError::Unaligned(a) ==> a == (if region.base % PAGE_SIZE != 0 {
            region.base
        } else {
            (region.spec_end() - region.spec_end() % PAGE_SIZE as int) as usize
        })
        &&& e matches MapError::BlockInTheWay(a, _) ==> region.contains_addr(a as int)
        &&& inside_block(region, level) ==> (e matches MapError::BlockInTheWay(a, at) ==> start.blocked_at(
            a,
            level,
            at,
        ))
        &&& e == MapError::OutOfMemory ==> !heap.frames_free(0) || exists|a: int|
            unaddressable(a) && !heap0.live(a) && #[trigger] heap.live(a)
    }

    /// A walk through a slot other than `s` passes the same tables in two
    /// tables that differ only there.
    proof fn lemma_on_path_other_slot(self, other: Table, s: int, va: usize, level: Level)
        requires
            self.same_except(other, s),
            self.slots@.len() == SLOTS,
            slot_index(va, level) != s,
        ensures
            forall|x: int| self.on_path(va, level, x) == other.on_path(va, level, x),
    {
    }

    /// The tables on the way to addresses before `addr` stay on their way
    /// when only the slot of `addr` changes.
    proof fn lemma_paths_kept(
        self,
        before: Table,
        s: int,
        region: Region,
        level: Level,
        addr: usize,
        heap: Heap,
        heap0: Heap,
    )
        requires
            self.same_except(before, s),
            self.slots@.len() == SLOTS,
            s == slot_index(addr, level),
            inside_block(region, level),
            region.base <= addr < region.spec_end(),
            addr == region.base || addr as nat % size_of(level) == 0,
            forall|x: int|
                #[trigger] heap.live(x) && !heap0.live(x) ==> unaddressable(x) || exists|va: usize|
                    region.base <= va < addr && before.on_path(va, level, x),
        ensures
            forall|x: int|
                #[trigger] heap.live(x) && !heap0.live(x) ==> unaddressable(x) || exists|va: usize|
                    region.base <= va < addr && self.on_path(va, level, x),
    {
        assert forall|x: int| #[trigger] heap.live(x) && !heap0.live(x) implies unaddressable(x) || exists|
            va: usize,
        | region.base <= va < addr && self.on_path(va, level, x) by {
            if !unaddressable(x) {
                let va = choose|va: usize| region.base <= va < addr && before.on_path(va, level, x);
                lemma_inside(region, va, level);
                lemma_inside(region, addr, level);
                lemma_slot_block(va, addr, level);
                lemma_in_slot(va, addr, level);
                self.lemma_on_path_other_slot(before, s, va, level);
                assert(self.on_path(va, level, x));
            }
        }
    }

    /// One level of mapping: each pass covers exactly one slot, with a leaf
    /// where the region fills the slot and a table one level down where it
    /// does not.
    fn map_range(&mut self, heap: &mut Heap, region: Region, template: Descriptor, level: Level) -> (r:
        Result<(), MapError>)
        requires
            old(self).wf_at(level),
            old(heap).wf(),
            region.wf(),
        ensures
            final(self).wf_at(level),
            final(self).spec_base() == old(self).spec_base(),
            final(heap).wf(),
            old(heap).kept_in(*final(heap)),
            r is Ok ==> final(self).maps_up_to(*old(self), region, template, level, region.spec_end()),
            r is Ok && inside_block(region, level) ==> final(self).tables_for(
                *old(heap),
                *final(heap),
                region,
                level,
                region.spec_end() as int,
            ),
            r is Ok && region.size > 0 ==> region.base % PAGE_SIZE == 0 && region.spec_end()
                % PAGE_SIZE as int == 0,
            r matches Err(e) ==> final(self).failed_at(
                *final(heap),
                *old(self),
                *old(heap),
                region,
                template,
                level,
                e,
            ),
            region.size == 0 ==> r is Ok && *final(self) == *old(self) && *final(heap) == *old(heap),
        decreases rank(level), 2nat,
    {
        let ghost start = *self;
        let ghost heap0 = *heap;
        let end = region.end();
        let mut addr = region.base;
        proof {
            lemma_level_facts(level);
        }
        while addr < end
            invariant
                start == *old(self),
                heap0 == *old(heap),
                end == region.spec_end(),
                self.mapped_to(*heap, start, heap0, region, template, level, addr),
            decreases end - addr,
        {
            match self.map_slot(heap, region, template, level, addr, Ghost(start), Ghost(heap0)) {
                Ok(next) => {
                    addr = next;
                },
                Err(e) => {
                    return Err(e);
                },
            }
        }
        proof {
            if inside_block(region, level) {
                assert forall|x: int| #[trigger] heap.live(x) && !heap0.live(x) implies unaddressable(x)
                    || exists|va: usize|
                    region.base <= va <= end && va < region.spec_end() && self.on_path(va, level, x) by {
                    if !unaddressable(x) {
                        let va = choose|va: usize| region.base <= va < addr && self.on_path(va, level, x);
                    }
                }
            }
        }
        Ok(())
    }

    /// Map the slot of `region` that `addr` falls in, and return where the
    /// next slot's part of the region starts.
    #[verifier::spinoff_prover]
    #[verifier::rlimit(100)]
    fn map_slot(
        &mut self,
        heap: &mut Heap,
        region: Region,
        template: Descriptor,
        level: Level,
        addr: usize,
        Ghost(start): Ghost<Table>,
        Ghost(heap0): Ghost<Heap>,
    ) -> (r: Result<usize, MapError>)
        requires
            old(self).mapped_to(*old(heap), start, heap0, region, template, level, addr),
            addr < region.spec_end(),
        ensures
            match r {
                Ok(next) => addr < next && final(self).mapped_to(
                    *final(heap),
                    start,
                    heap0,
                    region,
                    template,
                    level,
                    next,
                ),
                Err(e) => final(self).failed_at(*final(heap), start, heap0, region, template, level, e),
            },
        decreases rank(level), 1nat,
    {
        let end = region.end();
        let ghost before = *self;
        let ghost heap1 = *heap;
        let size = level.size();
        let mask = level.offset_mask();
        let slot_start = addr & !mask;
        let slot = level.slot_of(addr);
        proof {
            lemma_slot_start(addr, level);
            lemma_multiples(addr as int, end as int, size as int);
            lemma_multiples(addr as int, end as int, PAGE_SIZE as int);
            lemma_multiples(slot_start as int, end as int, size as int);
            lemma_page_multiple(slot_start as int, size as int);
            lemma_page_multiple((slot_start + size) as int, size as int);
            if addr as nat % size_of(level) == 0 {
                lemma_page_multiple(addr as int, size as int);
            }
            if region.base % PAGE_SIZE == 0 && region.spec_end() % PAGE_SIZE as int == 0 {
                lemma_multiples(addr as int, end as int, PAGE_SIZE as int);
            }
        }
        // Whether the region reaches the end of the slot `addr` is in.
        let reaches = end - slot_start >= size;
        let chunk_end = if reaches {
            slot_start + size
        } else {
            end
        };
        if level.is_aligned(addr) && reaches {
            // Chunk fills the slot exactly, so one leaf covers it.
            let leaf = Descriptor { kind: Kind::from_level(level), address: addr, ..template };
            self.slots[slot] = leaf.to_u64();
            self.children[slot] = None;
            proof {
                lemma_kind_address(leaf);
                assert(self.same_except(before, slot as int));
                assert forall|s: int| 0 <= s < SLOTS implies match spec_next(level) {
                    Some(next) => if kind_of(#[trigger] self.slots@[s] & 3) == Kind::Table {
                        &&& self.children@[s] matches Some(c)
                        &&& c.wf_at(next)
                        &&& spec_from_u64(self.slots@[s]).address == c.base
                    } else {
                        self.children@[s] is None
                    },
                    None => self.children@[s] is None,
                } by {
                    if s != slot {
                        assert(self.slots@[s] == before.slots@[s]);
                    }
                }
                assert(self.wf_at(level));
                assert forall|va: usize| slot_index(va, level) != slot implies #[trigger] self.walk(va, level)
                    == before.walk(va, level) by {
                    self.lemma_walk_other_slot(before, slot as int, va, level);
                }
                if inside_block(region, level) {
                    lemma_inside(region, addr, level);
                    assert forall|va: usize|
                        same_block(va, region.base, level) && !(region.base <= va < chunk_end)
                            implies #[trigger] self.walk(va, level) == start.walk(va, level) by {
                        lemma_slot_block(va, addr, level);
                        lemma_in_slot(va, addr, level);
                    }
                    if region.spec_end() <= address_limit() {
                        assert forall|va: usize| region.base <= va < chunk_end implies lands(
                            #[trigger] self.walk(va, level),
                            va,
                            template,
                        ) by {
                            lemma_inside(region, va, level);
                            lemma_slot_block(va, addr, level);
                            lemma_in_slot(va, addr, level);
                            if va >= addr {
                                lemma_leaf(addr, va, level);
                            }
                        }
                    }
                }
                assert(self.maps_up_to(start, region, template, level, chunk_end as int));
                if inside_block(region, level) {
                    self.lemma_paths_kept(before, slot as int, region, level, addr, *heap, heap0);
                }
            }
        } else {
            return self.map_child(
                heap,
                region,
                template,
                level,
                addr,
                slot_start,
                chunk_end,
                Ghost(start),
                Ghost(heap0),
            );
        }
        proof {
            if inside_block(region, level) && chunk_end < end {
                lemma_inside(region, addr, level);
                lemma_inside(region, chunk_end, level);
                lemma_next_slot(addr, chunk_end, level);
                assert forall|t: int|
                    slot_index(chunk_end, level) <= t < SLOTS implies #[trigger] self.slots@[t]
                    == start.slots@[t] && self.children@[t] == start.children@[t] by {
                    assert(self.slots@[t] == before.slots@[t]);
                    assert(self.children@[t] == before.children@[t]);
                }
            }
            assert(self.mapped_to(*heap, start, heap0, region, template, level, chunk_end));
        }
        Ok(chunk_end)
    }

    /// Map the part of `region` in the slot of `addr`, which it does not
    /// fill, through the table one level down.
    #[verifier::spinoff_prover]
    #[verifier::rlimit(100)]
    fn map_child(
        &mut self,
        heap: &mut Heap,
        region: Region,
        template: Descriptor,
        level: Level,
        addr: usize,
        slot_start: usize,
        chunk_end: usize,
        Ghost(start): Ghost<Table>,
        Ghost(heap0): Ghost<Heap>,
    ) -> (r: Result<usize, MapError>)
        requires
            old(self).mapped_to(*old(heap), start, heap0, region, template, level, addr),
            addr < region.spec_end(),
            slot_start == addr - addr as nat % size_of(level),
            chunk_end == (if region.spec_end() - slot_start >= size_of(level) {
                slot_start + size_of(level)
            } else {
                region.spec_end()
            }),
            !(addr as nat % size_of(level) == 0 && region.spec_end() - slot_start >= size_of(level)),
        ensures
            match r {
                Ok(next) => next == chunk_end && addr < next && final(self).mapped_to(
                    *final(heap),
                    start,
                    heap0,
                    region,
                    template,
                    level,
                    next,
                ),
                Err(e) => final(self).failed_at(*final(heap), start, heap0, region, template, level, e),
            },
        decreases rank(level), 0nat,
    {
        let end = region.end();
        let ghost before = *self;
        let ghost heap1 = *heap;
        let slot = level.slot_of(addr);
        proof {
            let size = size_of(level);
            lemma_slot_start(addr, level);
            lemma_multiples(addr as int, end as int, size as int);
            lemma_multiples(addr as int, end as int, PAGE_SIZE as int);
            lemma_multiples(slot_start as int, end as int, size as int);
            lemma_page_multiple(slot_start as int, size as int);
            lemma_page_multiple((slot_start + size) as int, size as int);
            if addr as nat % size_of(level) == 0 {
                lemma_page_multiple(addr as int, size as int);
            }
            if region.base % PAGE_SIZE == 0 && region.spec_end() % PAGE_SIZE as int == 0 {
                lemma_multiples(addr as int, end as int, PAGE_SIZE as int);
            }
        }
        // A partial slot. Whatever falls in it needs a finer table, and
        // running out of levels is the only way an address can be too
        // fine to map at all.
        let next = match level.next() {
            Some(next) => next,
            None => {
                proof {
                    lemma_level_facts(level);
                    let q: int = end as int - end as int % PAGE_SIZE as int;
                    lemma_multiples(end as int, 0, PAGE_SIZE as int);
                    lemma_multiples(addr as int, q, PAGE_SIZE as int);
                    lemma_multiples(q, addr as int, PAGE_SIZE as int);
                    assert(self.maps_up_to(start, region, template, level, addr as int));
                    assert(self.stopped_at(*heap, start, heap0, region, template, level, MapError::Unaligned(addr), addr as int));
                }
                return Err(MapError::Unaligned(addr));
            },
        };
        let mut child = match self.child_table(heap, addr, level) {
            Ok(child) => child,
            Err(e) => {
                proof {
                    if inside_block(region, level) {
                        assert(self.slots@[slot as int] == start.slots@[slot as int]);
                        assert(self.children@[slot as int] == start.children@[slot as int]);
                    }
                    if e == MapError::OutOfMemory && heap.frames_free(0) {
                        let a = choose|a: int|
                            unaddressable(a) && !heap1.live(a) && #[trigger] heap.live(a);
                        if heap0.live(a) {
                            assert(heap1.live(a));
                        }
                    }
                    assert(self.maps_up_to(start, region, template, level, addr as int));
                    if inside_block(region, level) {
                        assert forall|x: int| #[trigger] heap.live(x) && !heap0.live(x) implies unaddressable(x)
                            || exists|va: usize|
                            region.base <= va <= addr && va < region.spec_end() && self.on_path(va, level, x) by {
                            if heap1.live(x) {
                                let va = choose|va: usize| region.base <= va < addr && before.on_path(va, level, x);
                            }
                        }
                        if e == MapError::OutOfMemory {
                            assert(!fills(region, addr, level));
                            assert(self.stop_level(addr, level) == Some(level));
                        }
                    }
                    assert(self.stopped_at(*heap, start, heap0, region, template, level, e, addr as int));
                }
                return Err(e);
            },
        };
        let ghost child0 = *child;
        let ghost heap2 = *heap;
        let sub = Region { base: addr, size: chunk_end - addr };
        proof {
            lemma_level_facts(level);
            lemma_in_slot((chunk_end - 1) as usize, addr, level);
            assert(span(next) == size_of(level));
            assert(inside_block(sub, next));
        }
        let result = child.map_range(heap, sub, template, next);
        let ghost pc: int = match result {
            Ok(_) => chunk_end as int,
            Err(e) => choose|p: int| #[trigger] child.stopped_at(*heap, child0, heap2, sub, template, next, e, p),
        };
        self.children[slot] = Some(child);
        proof {
            assert(child.maps_up_to(child0, sub, template, next, pc));
            assert(self.same_except(before, slot as int));
            assert forall|s: int| 0 <= s < SLOTS implies match spec_next(level) {
                Some(next) => if kind_of(#[trigger] self.slots@[s] & 3) == Kind::Table {
                    &&& self.children@[s] matches Some(c)
                    &&& c.wf_at(next)
                    &&& spec_from_u64(self.slots@[s]).address == c.base
                } else {
                    self.children@[s] is None
                },
                None => self.children@[s] is None,
            } by {
                if s != slot {
                    assert(self.slots@[s] == before.slots@[s]);
                }
            }
            assert(self.wf_at(level));
            assert forall|va: usize| slot_index(va, level) != slot implies #[trigger] self.walk(va, level)
                == before.walk(va, level) by {
                self.lemma_walk_other_slot(before, slot as int, va, level);
            }
            assert forall|va: usize| slot_index(va, level) == slot implies #[trigger] self.walk(va, level)
                == child.walk(va, next) by {
            }
            if inside_block(region, level) {
                lemma_inside(region, addr, level);
                assert forall|va: usize|
                    same_block(va, region.base, level) && !(region.base <= va < pc)
                        implies #[trigger] self.walk(va, level) == start.walk(va, level) by {
                    lemma_slot_block(va, addr, level);
                    lemma_in_slot(va, addr, level);
                    if slot_index(va, level) == slot {
                        assert(same_block(va, sub.base, next));
                        assert(child.walk(va, next) == child0.walk(va, next));
                        assert(before.walk(va, level) == child0.walk(va, next));
                    }
                }
                if region.spec_end() <= address_limit() {
                    assert forall|va: usize| region.base <= va < pc implies lands(
                        #[trigger] self.walk(va, level),
                        va,
                        template,
                    ) by {
                        lemma_inside(region, va, level);
                        lemma_slot_block(va, addr, level);
                        lemma_in_slot(va, addr, level);
                        if va >= addr {
                            assert(sub.contains_addr(va as int));
                            assert(lands(child.walk(va, next), va, template));
                        }
                    }
                }
            }
            assert(self.maps_up_to(start, region, template, level, pc));
            if inside_block(region, level) {
                self.lemma_paths_kept(before, slot as int, region, level, addr, heap1, heap0);
                assert forall|x: int| #[trigger] heap.live(x) && !heap0.live(x) implies unaddressable(x)
                    || exists|va: usize|
                    region.base <= va <= pc && va < region.spec_end() && va < chunk_end && self.on_path(va, level, x) by {
                    if heap1.live(x) {
                        let va = choose|va: usize| region.base <= va < addr && self.on_path(va, level, x);
                    } else if heap2.live(x) {
                        if !unaddressable(x) {
                            assert(self.on_path(addr, level, x));
                        }
                    } else if !unaddressable(x) {
                        let va = choose|va: usize|
                            sub.base <= va <= pc && va < sub.spec_end() && child.on_path(va, next, x);
                        lemma_inside(region, va, level);
                        lemma_inside(region, addr, level);
                        lemma_slot_block(va, addr, level);
                        lemma_in_slot(va, addr, level);
                        assert(self.on_path(va, level, x));
                    }
                }
            }
        }
        match result {
            Ok(()) => {},
            Err(e) => {
                proof {
                    if inside_block(region, level) {
                        if let MapError::BlockInTheWay(a, at) = e {
                            assert(sub.contains_addr(a as int));
                            lemma_inside(region, addr, level);
                            lemma_inside(region, a, level);
                            lemma_slot_block(a, addr, level);
                            lemma_in_slot(a, addr, level);
                            assert(slot_index(a, level) == slot);
                            assert(child0.blocked_at(a, next, at));
                            child0.lemma_blocked_below(a, next, at);
                            assert(before.slots@[slot as int] == start.slots@[slot as int]);
                            assert(before.children@[slot as int] == start.children@[slot as int]);
                        }
                    }
                    if e == MapError::OutOfMemory && heap.frames_free(0) {
                        let a = choose|a: int|
                            unaddressable(a) && !heap2.live(a) && #[trigger] heap.live(a);
                        if heap0.live(a) {
                            assert(heap1.live(a));
                            assert(heap2.live(a));
                        }
                    }
                    if e == MapError::OutOfMemory && inside_block(region, level) {
                        let pu = pc as usize;
                        assert(child.needs_table(sub, pu, next));
                        let l = child.stop_level(pu, next)->0;
                        child.lemma_stop_below(pu, next);
                        lemma_inside(region, pu, level);
                        lemma_inside(region, addr, level);
                        lemma_slot_block(pu, addr, level);
                        lemma_in_slot(pu, addr, level);
                        assert(slot_index(pu, level) == slot);
                        assert(self.stop_level(pu, level) == child.stop_level(pu, next));
                        lemma_fills_sub(region, sub, addr, pu, level, l);
                    }
                    assert(self.stopped_at(*heap, start, heap0, region, template, level, e, pc));
                }
                return Err(e);
            },
        }
    
        proof {
            if inside_block(region, level) && chunk_end < end {
                lemma_inside(region, addr, level);
                lemma_inside(region, chunk_end, level);
                lemma_next_slot(addr, chunk_end, level);
                assert forall|t: int|
                    slot_index(chunk_end, level) <= t < SLOTS implies #[trigger] self.slots@[t]
                    == start.slots@[t] && self.children@[t] == start.children@[t] by {
                    assert(self.slots@[t] == before.slots@[t]);
                    assert(self.children@[t] == before.children@[t]);
                }
            }
            assert(self.mapped_to(*heap, start, heap0, region, template, level, chunk_end));
        }
        Ok(chunk_end)
    }

    /// One level of the walk.
    fn translate_at(&self, va: usize, level: Level) -> (pa: Option<usize>)
        requires
            self.wf_at(level),
        ensures
            pa == address_of(self.walk(va, level)),
        decreases rank(level),
    {
        let slot = level.slot_of(va);
        let descriptor = self.get(slot);
        let offset = va & level.offset_mask();
        match descriptor.kind {
            Kind::Invalid => None,
            // At level 3 a leaf is a page, and these two bits mean nothing.
            Kind::Block => match level.next() {
                Some(_) => Some(descriptor.address | offset),
                None => None,
            },
            Kind::Table => match level.next() {
                // At level 3 the same two bits mean a page, so this is a leaf and
                // the walk stops here rather than following the address down.
                None => Some(descriptor.address | offset),
                Some(next) => {
                    proof {
                        assert(kind_of(self.slots@[slot as int] & 3) == Kind::Table);
                    }
                    match &self.children[slot] {
                        Some(child) => child.translate_at(va, next),
                        None => None,
                    }
                },
            },
        }
    }
}

} // verus!
