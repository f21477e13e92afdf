use lib::bump::{Bump, RESERVED_LEN};
use lib::layout::Layout;
use lib::region::Region;

const RAM: Region = Region {
    base: 0x4000_0000,
    size: 128 << 20,
};

const PAGE: usize = 4096;

fn page() -> Layout {
    Layout::from_size_align(PAGE, PAGE).unwrap()
}

fn at(base: usize, size: usize) -> Region {
    Region { base, size }
}

fn take(bump: &mut Bump, layout: Layout) -> usize {
    bump.allocate(layout)
        .expect("expected the allocation to fit")
}

#[test]
fn hands_out_the_start_of_memory_first() {
    let mut bump = Bump::new(RAM);

    assert_eq!(take(&mut bump, page()), RAM.base);
}

#[test]
fn every_block_is_aligned_and_inside_memory() {
    let mut bump = Bump::new(RAM);

    for align in [1, 8, 64, PAGE, 1 << 21] {
        let layout = Layout::from_size_align(1, align).unwrap();
        let addr = take(&mut bump, layout);

        assert_eq!(addr % align, 0, "align {align}");
        assert!(addr >= RAM.base && addr < RAM.end(), "align {align}");
    }
}

#[test]
fn blocks_never_overlap_each_other() {
    let mut bump = Bump::new(RAM);
    let mut handed_out = [Region::empty(); 8];

    for i in 0..handed_out.len() {
        let base = take(&mut bump, page());
        let block = at(base, PAGE);

        for earlier in &handed_out[..i] {
            assert!(!block.is_overlapping(earlier), "{block:?} hit {earlier:?}");
        }

        handed_out[i] = block;
    }
}

#[test]
fn jumps_over_a_reservation_sitting_at_the_start() {
    let mut bump = Bump::new(RAM);
    bump.reserve(at(RAM.base, PAGE)).ok();

    assert_eq!(take(&mut bump, page()), RAM.base + PAGE);
}

#[test]
fn realigns_after_a_jump_lands_mid_page() {
    let mut bump = Bump::new(RAM);
    bump.reserve(at(RAM.base, 100)).ok();

    assert_eq!(take(&mut bump, page()), RAM.base + PAGE);
}

#[test]
fn a_reservation_that_only_touches_the_block_does_not_move_it() {
    let mut bump = Bump::new(RAM);
    bump.reserve(at(RAM.base + PAGE, PAGE)).ok();

    assert_eq!(take(&mut bump, page()), RAM.base);
}

#[test]
fn a_byte_lands_exactly_where_the_reservation_ends() {
    let mut bump = Bump::new(RAM);
    bump.reserve(at(RAM.base, 100)).ok();

    let byte = Layout::from_size_align(1, 1).unwrap();

    assert_eq!(take(&mut bump, byte), RAM.base + 100);
}

#[test]
fn no_block_ever_lands_in_a_reservation() {
    let mut bump = Bump::new(RAM);
    let reserved = [
        at(RAM.base, PAGE),
        at(RAM.base + 3 * PAGE, 2 * PAGE),
        at(RAM.base + 9 * PAGE, PAGE),
    ];
    for r in reserved {
        bump.reserve(r).ok();
    }

    for _ in 0..8 {
        let block = at(take(&mut bump, page()), PAGE);

        for r in &reserved {
            assert!(!block.is_overlapping(r), "{block:?} hit {r:?}");
        }
    }
}

#[test]
fn survives_the_largest_run_of_jumps_it_can_face() {
    let mut bump = Bump::new(RAM);
    for i in 0..RESERVED_LEN {
        bump.reserve(at(RAM.base + i * PAGE, PAGE)).ok();
    }

    assert_eq!(take(&mut bump, page()), RAM.base + RESERVED_LEN * PAGE);
}

#[test]
fn refuses_a_block_that_would_run_off_the_end() {
    let mut bump = Bump::new(at(RAM.base, PAGE));

    assert!(
        bump.allocate(Layout::from_size_align(2 * PAGE, PAGE).unwrap())
            .is_none()
    );
}

#[test]
fn reserve_reports_full_instead_of_dropping_a_region() {
    let mut bump = Bump::new(RAM);
    for i in 0..RESERVED_LEN {
        assert!(
            bump.reserve(at(RAM.base + i * PAGE, PAGE)).is_ok(),
            "at {i}"
        );
    }

    assert!(bump.reserve(at(RAM.base, PAGE)).is_err());
}

#[test]
fn remaining_bounds_every_later_run_of_blocks() {
    let mut bump = Bump::new(at(RAM.base, 5 * PAGE));
    take(&mut bump, Layout::from_size_align(100, 1).unwrap());
    let left = bump.remaining();
    assert_eq!(left, 5 * PAGE - 100);
    let mut total = 0;
    while bump.allocate(page()).is_some() {
        total += PAGE;
    }
    assert!(total <= left);
    assert_eq!(total, 4 * PAGE);
}

#[test]
fn discovered_regions_stay_out_of_every_block() {
    let image = at(RAM.base, 3 * PAGE);
    let dtb = at(RAM.base + 5 * PAGE, PAGE);
    let mut bump = Bump::discover(at(RAM.base, 16 * PAGE), image, dtb).unwrap();
    assert_eq!(bump.remaining(), 16 * PAGE);
    let mut blocks = Vec::new();
    while let Some(block) = bump.allocate(page()) {
        blocks.push(block);
    }
    assert_eq!(blocks.len(), 12);
    for block in blocks {
        let region = at(block, PAGE);
        assert!(!region.is_overlapping(&image));
        assert!(!region.is_overlapping(&dtb));
    }
}
