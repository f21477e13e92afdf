use vstd::prelude::*;

use crate::heap::{fitting_order, frames_for, has_class, lemma_block_below_top, Heap};
use crate::layout::Layout;
use crate::memory::pfn::PAGE_SIZE;

verus! {

/// Each task's stack: 16 KiB.
pub const CONTEXT_STACK_SIZE: usize = 16 * 1024;

/// What a context switch saves on the stack: x19-x30 and d8-d15.
pub const SWITCH_FRAME_SIZE: usize = 160;

/// A task's stack, a block of the heap.
pub struct ContextStack {
    base: usize,
    size: usize,
}

impl ContextStack {
    pub closed spec fn spec_base(self) -> usize {
        self.base
    }

    pub closed spec fn spec_size(self) -> usize {
        self.size
    }

    /// The stack ends inside the address space.
    pub open spec fn wf(self) -> bool {
        self.spec_base() + self.spec_size() <= usize::MAX
    }

    /// A stack of `CONTEXT_STACK_SIZE` bytes, page aligned, from `heap`;
    /// `None` when the heap cannot give one.
    pub fn new(heap: &mut Heap) -> (stack: Option<Self>)
        requires
            old(heap).wf(),
        ensures
            final(heap).wf(),
            old(heap).kept_in(*final(heap)),
            match stack {
                Some(s) => {
                    &&& s.wf()
                    &&& s.spec_size() == CONTEXT_STACK_SIZE
                    &&& s.spec_base() % PAGE_SIZE == 0
                    &&& !old(heap).live(s.spec_base() as int)
                    &&& final(heap).live(s.spec_base() as int)
                    &&& !final(heap).is_object(s.spec_base() as int)
                    &&& final(heap).extent(s.spec_base() as int) >= CONTEXT_STACK_SIZE
                },
                None => *final(heap) == *old(heap),
            },
            stack is Some <==> old(heap).frames_free(2),
    {
        proof {
            vstd::arithmetic::power2::lemma2_to64();
            assert(crate::layout::is_pow2(PAGE_SIZE)) by {
                assert(PAGE_SIZE == vstd::arithmetic::power2::pow2(12));
            }
        }
        let layout = match Layout::from_size_align(CONTEXT_STACK_SIZE, PAGE_SIZE) {
            Some(layout) => layout,
            None => {
                return None;
            },
        };
        proof {
            if has_class(CONTEXT_STACK_SIZE as int, PAGE_SIZE as int) {
                crate::slab::lemma_classes();
            }
            vstd::arithmetic::power2::lemma2_to64();
            assert(frames_for(CONTEXT_STACK_SIZE as int, PAGE_SIZE as int) == 4);
            assert(fitting_order(4, 2));
        }
        let base = match heap.alloc_layout(layout) {
            Some(base) => base,
            None => {
                return None;
            },
        };
        proof {
            lemma_block_below_top(*heap, base as int);
        }
        Some(ContextStack { base, size: CONTEXT_STACK_SIZE })
    }

    /// One past the highest address of the stack: where it starts growing
    /// down from.
    pub fn top(&self) -> (top: usize)
        requires
            self.wf(),
        ensures
            top == self.spec_base() + self.spec_size(),
    {
        self.base + self.size
    }

    /// Give the stack back to `heap`.
    pub fn free(self, heap: &mut Heap)
        requires
            old(heap).wf(),
            self.spec_size() == CONTEXT_STACK_SIZE,
            old(heap).live(self.spec_base() as int),
            !old(heap).is_object(self.spec_base() as int),
        ensures
            final(heap).wf(),
            !final(heap).live(self.spec_base() as int),
            forall|x: int| x != self.spec_base() ==> final(heap).live(x) == old(heap).live(x),
    {
        proof {
            vstd::arithmetic::power2::lemma2_to64();
            assert(crate::layout::is_pow2(PAGE_SIZE)) by {
                assert(PAGE_SIZE == vstd::arithmetic::power2::pow2(12));
            }
        }
        let layout = Layout::from_size_align(CONTEXT_STACK_SIZE, PAGE_SIZE);
        match layout {
            Some(layout) => {
                proof {
                    if has_class(CONTEXT_STACK_SIZE as int, PAGE_SIZE as int) {
                        crate::slab::lemma_classes();
                    }
                }
                heap.free_layout(self.base, layout);
            },
            None => {},
        }
    }
}

/// What a context switch keeps of a task that is not running: its stack
/// pointer, with the switch frame below it.
pub struct Context {
    pub sp: usize,
}

impl Context {
    pub fn new(sp: usize) -> (context: Self)
        ensures
            context.sp == sp,
    {
        Context { sp }
    }
}

/// A task: its number, its saved context, and the stack the context points
/// into.
pub struct Task {
    id: usize,
    context: Context,
    stack: ContextStack,
}

impl Task {
    pub closed spec fn spec_id(self) -> usize {
        self.id
    }

    pub closed spec fn spec_context(self) -> Context {
        self.context
    }

    pub closed spec fn spec_stack(self) -> ContextStack {
        self.stack
    }

    /// A task `id` with a fresh stack from `heap`, its context pointing at
    /// room for a switch frame at the top of the stack. The frame's contents
    /// are written by whoever starts the task.
    pub fn new(heap: &mut Heap, id: usize) -> (task: Option<Self>)
        requires
            old(heap).wf(),
        ensures
            final(heap).wf(),
            old(heap).kept_in(*final(heap)),
            match task {
                Some(t) => {
                    &&& t.spec_id() == id
                    &&& t.spec_stack().wf()
                    &&& t.spec_stack().spec_size() == CONTEXT_STACK_SIZE
                    &&& t.spec_context().sp == t.spec_stack().spec_base() + CONTEXT_STACK_SIZE
                        - SWITCH_FRAME_SIZE
                    &&& !old(heap).live(t.spec_stack().spec_base() as int)
                    &&& final(heap).live(t.spec_stack().spec_base() as int)
                    &&& !final(heap).is_object(t.spec_stack().spec_base() as int)
                },
                None => *final(heap) == *old(heap),
            },
            task is Some <==> old(heap).frames_free(2),
    {
        let stack = match ContextStack::new(heap) {
            Some(stack) => stack,
            None => {
                return None;
            },
        };
        // Leave room for the switch frame at the top of the stack
        let frame_top = stack.top() - SWITCH_FRAME_SIZE;
        Some(Task { id, context: Context::new(frame_top), stack })
    }

    /// The task's number.
    pub fn id(&self) -> (id: usize)
        ensures
            id == self.spec_id(),
    {
        self.id
    }

    /// The saved context.
    pub fn context(&self) -> (context: &Context)
        ensures
            *context == self.spec_context(),
    {
        &self.context
    }

    /// The saved context, to be overwritten by a switch away from the task.
    pub fn context_mut(&mut self) -> (context: &mut Context)
        ensures
            *context == old(self).spec_context(),
            final(self).spec_id() == old(self).spec_id(),
            final(self).spec_stack() == old(self).spec_stack(),
            final(self).spec_context() == *final(context),
    {
        &mut self.context
    }

    /// The stack, for giving back once the task is gone.
    pub fn into_stack(self) -> (stack: ContextStack)
        ensures
            stack == self.spec_stack(),
    {
        self.stack
    }
}

} // verus!
