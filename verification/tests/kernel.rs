use lib::context::{ContextStack, Task, CONTEXT_STACK_SIZE, SWITCH_FRAME_SIZE};
use lib::heap::Heap;
use lib::layout::Layout;
use lib::memory::map::MemoryMap;
use lib::memory::region::Region;
use lib::memory::KernelLayout;
use lib::ring_buffer::RingBuffer;
use lib::sched::{preempt, spawn, tick, Scheduler};
use lib::slab::class_of;

fn heap() -> Heap {
    let mut map = MemoryMap::new(Region { base: 0x4000_0000, size: 16 << 20 }).unwrap();
    let mut heap = Heap::empty();
    assert!(heap.init(&mut map));
    heap
}

#[test]
fn small_layouts_get_the_smallest_class_that_fits() {
    assert_eq!(class_of(Layout::from_size_align(1, 1).unwrap()), Some(0));
    assert_eq!(class_of(Layout::from_size_align(8, 8).unwrap()), Some(0));
    assert_eq!(class_of(Layout::from_size_align(9, 1).unwrap()), Some(1));
    assert_eq!(class_of(Layout::from_size_align(8, 64).unwrap()), Some(3));
    assert_eq!(class_of(Layout::from_size_align(4096, 4096).unwrap()), None);
}

#[test]
fn heap_blocks_never_overlap_and_come_back() {
    let mut heap = heap();
    let small = Layout::from_size_align(24, 8).unwrap();
    let big = Layout::from_size_align(3 * 4096, 4096).unwrap();
    let a = heap.alloc_layout(small).unwrap();
    let b = heap.alloc_layout(small).unwrap();
    let c = heap.alloc_layout(big).unwrap();
    assert_eq!(a % 8, 0);
    assert_eq!(c % 4096, 0);
    assert!(a + 24 <= b || b + 24 <= a);
    assert!(c + 3 * 4096 <= a || a + 24 <= c);
    heap.free_layout(b, small);
    let d = heap.alloc_layout(small).unwrap();
    assert_eq!(d, b);
    heap.free_layout(c, big);
    let e = heap.alloc_layout(big).unwrap();
    assert_eq!(e, c);
}

#[test]
fn the_ring_buffer_is_first_in_first_out() {
    let mut ring: RingBuffer<u8> = RingBuffer::new(0);
    assert_eq!(ring.pop(), None);
    ring.push(1);
    ring.push(2);
    ring.push(3);
    assert_eq!(ring.pop(), Some(1));
    ring.push(4);
    assert_eq!(ring.pop(), Some(2));
    assert_eq!(ring.pop(), Some(3));
    assert_eq!(ring.pop(), Some(4));
    assert_eq!(ring.pop(), None);
}

#[test]
fn a_task_starts_below_its_switch_frame() {
    let mut heap = heap();
    let task = Task::new(&mut heap, 7).unwrap();
    assert_eq!(task.id(), 7);
    let stack = task.context().sp + SWITCH_FRAME_SIZE - CONTEXT_STACK_SIZE;
    assert_eq!(stack % 4096, 0);
    let stack = task.into_stack();
    assert_eq!(stack.top() % 4096, 0);
    stack.free(&mut heap);
    let again = ContextStack::new(&mut heap).unwrap();
    assert_eq!(again.top() - CONTEXT_STACK_SIZE, stack_base(&again));
}

fn stack_base(stack: &ContextStack) -> usize {
    stack.top() - CONTEXT_STACK_SIZE
}

#[test]
fn the_scheduler_takes_turns_round_the_table() {
    let mut heap = heap();
    let mut sched = Scheduler::new();
    sched.adopt(Task::new(&mut heap, 0).unwrap());
    assert_eq!(preempt(&mut sched), None);
    tick(&mut sched);
    assert_eq!(preempt(&mut sched), None);
    let task = Task::new(&mut heap, 1).unwrap();
    assert!(spawn(&mut sched, &mut heap, task).is_ok());
    let task = Task::new(&mut heap, 2).unwrap();
    assert!(spawn(&mut sched, &mut heap, task).is_ok());
    assert_eq!(preempt(&mut sched), None);
    tick(&mut sched);
    assert_eq!(preempt(&mut sched), Some((0, 1)));
    tick(&mut sched);
    assert_eq!(preempt(&mut sched), Some((1, 2)));
    tick(&mut sched);
    assert_eq!(preempt(&mut sched), Some((2, 0)));
    let task = Task::new(&mut heap, 3).unwrap();
    assert!(spawn(&mut sched, &mut heap, task).is_ok());
    let pages = heap.frames().free_pages();
    let task = Task::new(&mut heap, 4).unwrap();
    assert_eq!(spawn(&mut sched, &mut heap, task), Err(()));
    assert_eq!(heap.frames().free_pages(), pages);
}

#[test]
fn the_kernel_image_splits_into_its_sections() {
    let layout = KernelLayout {
        image_start: 0x4008_0000,
        text_end: 0x4008_4000,
        vectors_start: 0x4008_4000,
        vectors_end: 0x4008_4800,
        exec_end: 0x4008_5000,
        rodata_end: 0x4008_6000,
        data_end: 0x4008_7000,
        bss_start: 0x4008_7000,
        stack_bottom: 0x4008_9000,
        stack_top: 0x4009_9000,
    };
    let image = layout.image();
    assert_eq!((image.base, image.size), (0x4008_0000, 0x1_9000));
    assert_eq!(layout.executable().size, 0x5000);
    assert_eq!(layout.rodata().base, 0x4008_5000);
    assert_eq!(layout.writable().size, 0x1_3000);
    assert_eq!(layout.text().size, 0x4000);
    assert_eq!(layout.vectors().size, 0x800);
    assert_eq!(layout.data().size, 0x1000);
    assert_eq!(layout.bss().size, 0x2000);
    assert_eq!(layout.stack().size, 0x1_0000);
}

#[test]
fn freed_blocks_merge_back_into_the_blocks_they_came_from() {
    let mut heap = heap();
    let before_pages = heap.frames().free_pages();
    let before: Vec<usize> = (0..=10).map(|o| heap.frames().free_blocks(o)).collect();
    let page = Layout::from_size_align(4096, 4096).unwrap();
    let a = heap.alloc_layout(page).unwrap();
    let b = heap.alloc_layout(page).unwrap();
    let c = heap.alloc_layout(page).unwrap();
    assert_eq!(heap.frames().free_pages(), before_pages - 3);
    heap.free_layout(b, page);
    heap.free_layout(a, page);
    heap.free_layout(c, page);
    assert_eq!(heap.frames().free_pages(), before_pages);
    let after: Vec<usize> = (0..=10).map(|o| heap.frames().free_blocks(o)).collect();
    assert_eq!(after, before);
}

#[test]
fn a_fresh_heap_gives_every_unreserved_frame_to_the_buddy_allocator() {
    let heap = heap();
    let free = heap.frames().free_pages();
    let total = heap.frames().total();
    assert_eq!(total, (16 << 20) / 4096);
    // Only the frames that hold the metadata itself are kept back.
    assert!(free < total && free + 64 > total, "{free} of {total}");
}

#[test]
fn a_fresh_slab_hands_out_its_objects_in_address_order() {
    let mut heap = heap();
    let tiny = Layout::from_size_align(8, 8).unwrap();
    let first = heap.alloc_layout(tiny).unwrap();
    assert_eq!(first % 4096, 0);
    for i in 1..512 {
        assert_eq!(heap.alloc_layout(tiny), Some(first + 8 * i));
    }
    let next = heap.alloc_layout(tiny).unwrap();
    assert_ne!(next / 4096, first / 4096);
}

#[test]
fn an_emptied_slab_page_goes_back_to_the_frames() {
    let mut heap = heap();
    let pages = heap.frames().free_pages();
    let tiny = Layout::from_size_align(16, 16).unwrap();
    let a = heap.alloc_layout(tiny).unwrap();
    let b = heap.alloc_layout(tiny).unwrap();
    assert_eq!(heap.frames().free_pages(), pages - 1);
    heap.free_layout(a, tiny);
    assert_eq!(heap.frames().free_pages(), pages - 1);
    heap.free_layout(b, tiny);
    assert_eq!(heap.frames().free_pages(), pages);
}

#[test]
fn an_object_given_back_is_the_next_one_handed_out() {
    let mut heap = heap();
    let tiny = Layout::from_size_align(32, 8).unwrap();
    let a = heap.alloc_layout(tiny).unwrap();
    let b = heap.alloc_layout(tiny).unwrap();
    assert_eq!(b, a + 32);
    heap.free_layout(b, tiny);
    assert_eq!(heap.alloc_layout(tiny), Some(b));
}

#[test]
fn a_large_layout_takes_the_smallest_block_that_covers_it() {
    let mut heap = heap();
    let pages = heap.frames().free_pages();
    let large = Layout::from_size_align(9000, 8).unwrap();
    let a = heap.alloc_layout(large).unwrap();
    assert_eq!(a % 4096, 0);
    assert_eq!(heap.frames().free_pages(), pages - 4);
}

#[test]
fn a_full_ring_buffer_drops_what_does_not_fit() {
    let mut ring: RingBuffer<u16> = RingBuffer::new(0);
    for i in 0..300u16 {
        ring.push(i);
    }
    for i in 0..256u16 {
        assert_eq!(ring.pop(), Some(i));
    }
    assert_eq!(ring.pop(), None);
}
