use lib::heap::Heap;
use lib::memory::map::MemoryMap;
use lib::memory::region::Region;
use lib::mmu::descriptor::{AccessPermissions, AttrIndex, Descriptor, Kind, SH};
use lib::mmu::level::Level;
use lib::mmu::{MapError, Table};

const GIB: usize = 0x4000_0000;
const MIB2: usize = 0x20_0000;
const PAGE: usize = 0x1000;

fn heap() -> Heap {
    let mut map = MemoryMap::new(Region { base: 0x4000_0000, size: 16 << 20 }).unwrap();
    let mut heap = Heap::empty();
    assert!(heap.init(&mut map));
    heap
}

#[test]
fn device_block_packs_to_its_known_entry() {
    assert_eq!(Descriptor::device_block().to_u64(), 0x0060_0000_0000_0405);
}

#[test]
fn normal_block_packs_to_its_known_entry() {
    assert_eq!(Descriptor::normal_block().to_u64(), 0x0040_0000_4000_0701);
}

#[test]
fn an_entry_unpacks_to_the_descriptor_it_came_from() {
    let d = Descriptor {
        kind: Kind::Table,
        attr_idx: AttrIndex::Other(5),
        ns: true,
        ap: AccessPermissions::AllReadOnly,
        sh: SH::OuterShareable,
        af: true,
        ng: true,
        address: 0x1234_5000,
        contig: true,
        pxn: false,
        uxn: true,
    };
    assert_eq!(Descriptor::from_u64(d.to_u64()), d);
    assert_eq!(Descriptor::from_u64(0).kind, Kind::Invalid);
    assert_eq!(Descriptor::zero(), Descriptor::from_u64(0));
}

#[test]
fn levels_split_an_address_into_slots() {
    let va = 0x4020_3000usize;
    assert_eq!(Level::Level1.slot_of(va), 1);
    assert_eq!(Level::Level2.slot_of(va), 1);
    assert_eq!(Level::Level3.slot_of(va), 3);
    assert_eq!(Level::Level1.size(), GIB);
    assert_eq!(Level::Level2.offset_mask(), MIB2 - 1);
    assert!(Level::Level3.is_aligned(0x5000));
    assert!(!Level::Level3.is_aligned(0x5001));
    assert_eq!(Level::Level1.next(), Some(Level::Level2));
    assert_eq!(Level::Level3.next(), None);
}

#[test]
fn a_new_table_maps_nothing() {
    let mut heap = heap();
    let table = Table::new(&mut heap).unwrap();
    assert_eq!(table.base() % PAGE, 0);
    assert_eq!(table.translate(0), None);
    assert_eq!(table.translate(0x4000_0000), None);
}

#[test]
fn identity_map_sends_every_address_of_the_region_to_itself() {
    let mut heap = heap();
    let mut table = Table::new(&mut heap).unwrap();
    // A whole gigabyte, two 2 MiB blocks and three pages.
    let region = Region { base: GIB, size: GIB + 2 * MIB2 + 3 * PAGE };
    assert_eq!(table.identity_map(&mut heap, region, Descriptor::normal_block()), Ok(()));
    for va in [GIB, GIB + 0x1234, 2 * GIB - 1, 2 * GIB, 2 * GIB + MIB2 + 7, 2 * GIB + 2 * MIB2, 2 * GIB + 2 * MIB2 + 3 * PAGE - 1] {
        assert_eq!(table.translate(va), Some(va), "{va:#x}");
    }
    assert_eq!(table.translate(GIB - 1), None);
    assert_eq!(table.translate(2 * GIB + 2 * MIB2 + 3 * PAGE), None);
    assert_eq!(table.translate(0), None);
}

#[test]
fn mapping_a_second_region_keeps_the_first() {
    let mut heap = heap();
    let mut table = Table::new(&mut heap).unwrap();
    let devices = Region { base: 0x0900_0000, size: PAGE };
    let ram = Region { base: GIB, size: 4 * MIB2 };
    assert_eq!(table.identity_map(&mut heap, devices, Descriptor::device_block()), Ok(()));
    assert_eq!(table.identity_map(&mut heap, ram, Descriptor::normal_block()), Ok(()));
    assert_eq!(table.translate(0x0900_0010), Some(0x0900_0010));
    assert_eq!(table.translate(GIB + 3 * MIB2 + 5), Some(GIB + 3 * MIB2 + 5));
    assert_eq!(table.translate(0x0900_1000), None);
}

#[test]
fn a_region_finer_than_a_page_is_refused() {
    let mut heap = heap();
    let mut table = Table::new(&mut heap).unwrap();
    let region = Region { base: GIB + 0x800, size: PAGE };
    assert_eq!(
        table.identity_map(&mut heap, region, Descriptor::normal_block()),
        Err(MapError::Unaligned(GIB + 0x800))
    );
}

#[test]
fn a_block_in_the_way_is_not_split() {
    let mut heap = heap();
    let mut table = Table::new(&mut heap).unwrap();
    let whole = Region { base: GIB, size: GIB };
    assert_eq!(table.identity_map(&mut heap, whole, Descriptor::normal_block()), Ok(()));
    let part = Region { base: GIB + MIB2, size: PAGE };
    assert_eq!(
        table.identity_map(&mut heap, part, Descriptor::device_block()),
        Err(MapError::BlockInTheWay(GIB + MIB2, Level::Level1))
    );
    assert_eq!(table.translate(GIB + MIB2), Some(GIB + MIB2));
}

#[test]
fn an_empty_region_maps_nothing_and_succeeds() {
    let mut heap = heap();
    let mut table = Table::new(&mut heap).unwrap();
    let region = Region { base: 0x123, size: 0 };
    assert_eq!(table.identity_map(&mut heap, region, Descriptor::normal_block()), Ok(()));
    assert_eq!(table.translate(0x123), None);
}

#[test]
fn permissions_and_memory_types_read_as_short_names() {
    assert_eq!(Descriptor::device_block().perms(), "rw");
    assert_eq!(Descriptor::normal_block().perms(), "rwx");
    let no_access_flag = Descriptor { af: false, ..Descriptor::normal_block() };
    assert_eq!(no_access_flag.perms(), "!AF");
    let user_read_only = Descriptor { ap: AccessPermissions::AllReadOnly, pxn: true, ..Descriptor::normal_block() };
    assert_eq!(user_read_only.perms(), "r/u");
    assert_eq!(AttrIndex::Normal.name(), "normal");
    assert_eq!(AttrIndex::Device.name(), "device");
    assert_eq!(AttrIndex::Other(4).name(), "other");
    assert_eq!(Level::Level1.indent(), "");
    assert_eq!(Level::Level3.indent(), "    ");
}

#[test]
fn blocks_continue_into_the_next_one_along() {
    let first = Descriptor { address: GIB, ..Descriptor::normal_block() };
    let second = Descriptor { address: 2 * GIB, ..Descriptor::normal_block() };
    assert!(first.continues_into(second, GIB as u64));
    assert!(!first.continues_into(second, 2 * GIB as u64));
    let device = Descriptor { address: 2 * GIB, ..Descriptor::device_block() };
    assert!(!first.continues_into(device, GIB as u64));
}

#[test]
fn a_run_of_blocks_ends_where_the_memory_stops_following_on() {
    let mut heap = heap();
    let mut table = Table::new(&mut heap).unwrap();
    let ram = Region { base: GIB, size: 3 * GIB };
    assert_eq!(table.identity_map(&mut heap, ram, Descriptor::normal_block()), Ok(()));
    let devices = Region { base: 5 * GIB, size: GIB };
    assert_eq!(table.identity_map(&mut heap, devices, Descriptor::device_block()), Ok(()));
    assert_eq!(table.run_end(1, Level::Level1), 3);
    assert_eq!(table.run_end(5, Level::Level1), 5);
    assert_eq!(table.run_end(0, Level::Level1), 0);
    assert_eq!(table.entry(1, Level::Level1), Descriptor { address: GIB, ..Descriptor::normal_block() }.to_u64());
    assert!(table.child(1, Level::Level1).is_none());
}

#[test]
fn a_partial_slot_gets_a_table_below_it() {
    let mut heap = heap();
    let mut table = Table::new(&mut heap).unwrap();
    let region = Region { base: GIB, size: MIB2 };
    assert_eq!(table.identity_map(&mut heap, region, Descriptor::normal_block()), Ok(()));
    let child = table.child(1, Level::Level1).unwrap();
    assert_eq!(Descriptor::from_u64(table.entry(1, Level::Level1)).kind, Kind::Table);
    assert_eq!(Descriptor::from_u64(table.entry(1, Level::Level1)).address, child.base());
    assert_eq!(Descriptor::from_u64(child.entry(0, Level::Level2)).kind, Kind::Block);
}

#[test]
fn tables_run_out_with_the_heap() {
    let mut heap = heap();
    let page = lib::layout::Layout::from_size_align(PAGE, PAGE).unwrap();
    let mut taken = 0;
    while heap.alloc_layout(page).is_some() {
        taken += 1;
    }
    assert!(taken > 1000);
    assert!(Table::new(&mut heap).is_none());
}

#[test]
fn a_table_too_few_pages_to_grow_reports_out_of_memory() {
    let mut heap = heap();
    let mut table = Table::new(&mut heap).unwrap();
    let page = lib::layout::Layout::from_size_align(PAGE, PAGE).unwrap();
    while heap.alloc_layout(page).is_some() {}
    let region = Region { base: GIB, size: PAGE };
    assert_eq!(
        table.identity_map(&mut heap, region, Descriptor::normal_block()),
        Err(MapError::OutOfMemory)
    );
    let whole = Region { base: GIB, size: GIB };
    assert_eq!(table.identity_map(&mut heap, whole, Descriptor::normal_block()), Ok(()));
}

#[test]
fn a_ragged_end_is_refused_at_its_last_page_after_the_rest_is_mapped() {
    let mut heap = heap();
    let mut table = Table::new(&mut heap).unwrap();
    let region = Region { base: GIB, size: PAGE + 0x800 };
    assert_eq!(
        table.identity_map(&mut heap, region, Descriptor::normal_block()),
        Err(MapError::Unaligned(GIB + PAGE))
    );
    assert_eq!(table.translate(GIB + 0x10), Some(GIB + 0x10));
    assert_eq!(table.translate(GIB + PAGE), None);
}

#[test]
fn a_refused_region_leaves_its_addresses_unmapped() {
    let mut heap = heap();
    let mut table = Table::new(&mut heap).unwrap();
    let region = Region { base: GIB + 0x800, size: 0x800 };
    assert_eq!(
        table.identity_map(&mut heap, region, Descriptor::normal_block()),
        Err(MapError::Unaligned(GIB + 0x800))
    );
    assert_eq!(table.translate(GIB + 0x800), None);
    assert_eq!(table.translate(GIB), None);
}

#[test]
fn leaves_carry_the_template_but_for_kind_and_address() {
    let mut heap = heap();
    let mut table = Table::new(&mut heap).unwrap();
    let devices = Region { base: 0x0900_0000, size: PAGE };
    assert_eq!(table.identity_map(&mut heap, devices, Descriptor::device_block()), Ok(()));
    let l2 = table.child(0, Level::Level1).unwrap();
    let l3 = l2.child(Level::Level2.slot_of(0x0900_0000), Level::Level2).unwrap();
    let leaf = Descriptor::from_u64(l3.entry(0, Level::Level3));
    assert_eq!(leaf, Descriptor { kind: Kind::Table, address: 0x0900_0000, ..Descriptor::device_block() });
    let ram = Region { base: GIB, size: MIB2 };
    assert_eq!(table.identity_map(&mut heap, ram, Descriptor::normal_block()), Ok(()));
    let l2 = table.child(1, Level::Level1).unwrap();
    let block = Descriptor::from_u64(l2.entry(0, Level::Level2));
    assert_eq!(block, Descriptor { kind: Kind::Block, address: GIB, ..Descriptor::normal_block() });
}

#[test]
fn a_table_entry_holds_its_child_address() {
    let mut heap = heap();
    let mut table = Table::new(&mut heap).unwrap();
    let region = Region { base: GIB, size: PAGE };
    assert_eq!(table.identity_map(&mut heap, region, Descriptor::normal_block()), Ok(()));
    let l2 = table.child(1, Level::Level1).unwrap();
    assert_eq!(Descriptor::from_u64(table.entry(1, Level::Level1)).address, l2.base());
    let l3 = l2.child(0, Level::Level2).unwrap();
    assert_eq!(Descriptor::from_u64(l2.entry(0, Level::Level2)).address, l3.base());
    assert_ne!(l2.base(), l3.base());
    assert_ne!(l2.base(), 0);
}

#[test]
fn an_entry_packs_back_to_itself() {
    for v in [0u64, 0x0060_0000_0000_0405, 0x0040_0000_4000_0701, 0x0070_FFFF_FFFF_FFFF, 0x0000_1234_5678_9003] {
        assert_eq!(Descriptor::from_u64(v).to_u64(), v, "{v:#x}");
    }
    // Bits 1:0 `10` read as invalid and pack back as `00`.
    assert_eq!(Descriptor::from_u64(2).to_u64(), 0);
}

#[test]
fn two_free_pages_are_enough_to_reach_the_unaligned_page() {
    let mut heap = heap();
    let mut table = Table::new(&mut heap).unwrap();
    let page = lib::layout::Layout::from_size_align(PAGE, PAGE).unwrap();
    while heap.frames().free_pages() > 2 {
        assert!(heap.alloc_layout(page).is_some());
    }
    let region = Region { base: GIB + 0x800, size: 0x800 };
    assert_eq!(
        table.identity_map(&mut heap, region, Descriptor::normal_block()),
        Err(MapError::Unaligned(GIB + 0x800))
    );
    assert_eq!(heap.frames().free_pages(), 0);
    assert_eq!(table.translate(GIB + 0x800), None);
    let l2 = table.child(1, Level::Level1).unwrap();
    assert!(l2.child(0, Level::Level2).is_some());
}
