use vstd::prelude::*;

use crate::context::{Task, CONTEXT_STACK_SIZE};
use crate::heap::Heap;

verus! {

/// How many tasks the scheduler holds.
pub const TASKS_COUNT: usize = 4;

/// The first slot holding a task, looking `i`, `i + 1`, ... places after
/// `current` and wrapping around; `current` itself when no slot is taken.
pub open spec fn next_taken(tasks: Seq<Option<Task>>, current: int, i: int) -> int
    decreases TASKS_COUNT + 1 - i,
{
    if i > TASKS_COUNT {
        current
    } else if tasks[(current + i) % TASKS_COUNT as int] is Some {
        (current + i) % TASKS_COUNT as int
    } else {
        next_taken(tasks, current, i + 1)
    }
}

/// The first empty slot at or after `i`, if any.
pub open spec fn first_empty(tasks: Seq<Option<Task>>, i: int) -> Option<int>
    decreases TASKS_COUNT - i,
{
    if i >= TASKS_COUNT {
        None
    } else if tasks[i] is None {
        Some(i)
    } else {
        first_empty(tasks, i + 1)
    }
}

/// Round-robin over a fixed table of tasks.
pub struct Scheduler {
    task_table: Vec<Option<Task>>,
    current: usize,
    need_reschedule: bool,
}

impl Scheduler {
    /// The task table.
    pub closed spec fn tasks(self) -> Seq<Option<Task>> {
        self.task_table@
    }

    /// The slot of the running task.
    pub closed spec fn spec_current(self) -> usize {
        self.current
    }

    /// Whether a tick asked for a switch that has not happened yet.
    pub closed spec fn spec_need_reschedule(self) -> bool {
        self.need_reschedule
    }

    /// The table has its slots and the running slot is one of them.
    pub open spec fn wf(self) -> bool {
        &&& self.tasks().len() == TASKS_COUNT
        &&& self.spec_current() < TASKS_COUNT
    }

    /// No tasks, slot 0 running, no switch asked for.
    pub fn new() -> (sched: Self)
        ensures
            sched.wf(),
            sched.tasks() == Seq::new(TASKS_COUNT as nat, |i: int| None::<Task>),
            sched.spec_current() == 0,
            !sched.spec_need_reschedule(),
    {
        let mut task_table: Vec<Option<Task>> = Vec::new();
        for i in 0..TASKS_COUNT
            invariant
                task_table@.len() == i,
                forall|j: int| 0 <= j < i ==> task_table@[j] is None,
        {
            task_table.push(None);
        }
        proof {
            assert(task_table@ == Seq::new(TASKS_COUNT as nat, |i: int| None::<Task>));
        }
        Self { task_table, current: 0, need_reschedule: false }
    }

    /// Put the task that is already running, the one the kernel booted on,
    /// in the running slot.
    pub fn adopt(&mut self, task: Task)
        requires
            old(self).wf(),
        ensures
            final(self).wf(),
            final(self).tasks() == old(self).tasks().update(old(self).spec_current() as int, Some(task)),
            final(self).spec_current() == old(self).spec_current(),
            final(self).spec_need_reschedule() == old(self).spec_need_reschedule(),
    {
        let current = self.current;
        self.task_table.set(current, Some(task));
    }
}

/// Add `task` in the first free slot. When every slot is taken the task is
/// dropped: its stack goes back to `heap`.
pub fn spawn(sched: &mut Scheduler, heap: &mut Heap, task: Task) -> (r: Result<(), ()>)
    requires
        old(sched).wf(),
        old(heap).wf(),
        task.spec_stack().spec_size() == CONTEXT_STACK_SIZE,
        old(heap).live(task.spec_stack().spec_base() as int),
        !old(heap).is_object(task.spec_stack().spec_base() as int),
    ensures
        final(sched).wf(),
        final(heap).wf(),
        final(sched).spec_current() == old(sched).spec_current(),
        final(sched).spec_need_reschedule() == old(sched).spec_need_reschedule(),
        match first_empty(old(sched).tasks(), 0) {
            Some(i) => {
                &&& r is Ok
                &&& final(sched).tasks() == old(sched).tasks().update(i, Some(task))
                &&& *final(heap) == *old(heap)
            },
            None => {
                &&& r == Err::<(), ()>(())
                &&& final(sched).tasks() == old(sched).tasks()
                &&& !final(heap).live(task.spec_stack().spec_base() as int)
                &&& forall|x: int|
                    x != task.spec_stack().spec_base() ==> final(heap).live(x) == old(heap).live(x)
            },
        },
{
    let mut i: usize = 0;
    while i < TASKS_COUNT
        invariant
            sched.wf(),
            *sched == *old(sched),
            *heap == *old(heap),
            heap.wf(),
            i <= TASKS_COUNT,
            first_empty(sched.tasks(), 0) == first_empty(sched.tasks(), i as int),
        decreases TASKS_COUNT - i,
    {
        if sched.task_table[i].is_none() {
            sched.task_table.set(i, Some(task));
            return Ok(());
        }
        i += 1;
    }
    task.into_stack().free(heap);
    Err(())
}

/// A timer tick: ask for a switch at the next chance.
pub fn tick(sched: &mut Scheduler)
    ensures
        final(sched).tasks() == old(sched).tasks(),
        final(sched).spec_current() == old(sched).spec_current(),
        final(sched).spec_need_reschedule(),
{
    sched.need_reschedule = true;
}

/// If a tick asked for a switch, move on to the next task round the table:
/// the slots to switch from and to, or `None` when there is nothing to
/// switch (no tick, or no other task).
pub fn preempt(sched: &mut Scheduler) -> (switch: Option<(usize, usize)>)
    requires
        old(sched).wf(),
        old(sched).tasks()[old(sched).spec_current() as int] is Some,
    ensures
        final(sched).wf(),
        final(sched).tasks() == old(sched).tasks(),
        !final(sched).spec_need_reschedule(),
        ({
            let next = next_taken(old(sched).tasks(), old(sched).spec_current() as int, 1);
            if !old(sched).spec_need_reschedule() || next == old(sched).spec_current() {
                switch is None && final(sched).spec_current() == old(sched).spec_current()
            } else {
                &&& switch == Some((old(sched).spec_current(), next as usize))
                &&& final(sched).spec_current() == next
            }
        }),
{
    let need_reschedule = sched.need_reschedule;
    sched.need_reschedule = false;
    if !need_reschedule {
        return None;
    }
    let current = sched.current;
    let mut next_idx = current;
    let mut i: usize = 0;
    while i < TASKS_COUNT
        invariant_except_break
            next_idx == current,
            next_taken(sched.tasks(), current as int, 1) == next_taken(
                sched.tasks(),
                current as int,
                i + 1,
            ),
        invariant
            next_idx < TASKS_COUNT,
            sched.wf(),
            sched.tasks() == old(sched).tasks(),
            sched.spec_current() == current,
            current == old(sched).spec_current(),
            i <= TASKS_COUNT,
            sched.tasks()[current as int] is Some,
        ensures
            next_idx == next_taken(sched.tasks(), current as int, 1),
            next_idx < TASKS_COUNT,
        decreases TASKS_COUNT - i,
    {
        let idx = (current + i + 1) % TASKS_COUNT;
        if sched.task_table[idx].is_some() {
            next_idx = idx;
            break;
        }
        proof {
            if i + 1 == TASKS_COUNT {
                assert((current + TASKS_COUNT) % (TASKS_COUNT as int) == current);
            }
        }
        i += 1;
    }
    if next_idx == current {
        return None;
    }
    sched.current = next_idx;
    Some((current, next_idx))
}

} // verus!
