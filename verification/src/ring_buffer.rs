use vstd::prelude::*;

verus! {

/// How many values a ring buffer holds at most.
pub const RING_BUFFER_SIZE: usize = 256;

/// A fixed-size first-in, first-out queue that drops what does not fit.
pub struct RingBuffer<T: Copy> {
    buffer: Vec<T>,
    head: usize,
    tail: usize,
    full: bool,
}

impl<T: Copy> RingBuffer<T> {
    /// The storage has its full size, the ends lie inside it, and a full
    /// queue has met its own tail.
    pub closed spec fn wf(self) -> bool {
        &&& self.buffer@.len() == RING_BUFFER_SIZE
        &&& self.head < RING_BUFFER_SIZE
        &&& self.tail < RING_BUFFER_SIZE
        &&& self.full ==> self.head == self.tail
    }

    /// How many values are queued.
    closed spec fn count(self) -> nat {
        if self.full {
            RING_BUFFER_SIZE as nat
        } else {
            ((self.tail + RING_BUFFER_SIZE - self.head) % (RING_BUFFER_SIZE as int)) as nat
        }
    }

    /// The queued values, oldest first.
    pub closed spec fn values(self) -> Seq<T> {
        Seq::new(
            self.count(),
            |i: int| self.buffer@[(self.head + i) % (RING_BUFFER_SIZE as int)],
        )
    }

    /// An empty queue; `default` fills the storage and is never handed out.
    pub fn new(default: T) -> (ring: Self)
        ensures
            ring.wf(),
            ring.values() == Seq::<T>::empty(),
    {
        let mut buffer: Vec<T> = Vec::new();
        let mut i: usize = 0;
        while i < RING_BUFFER_SIZE
            invariant
                i <= RING_BUFFER_SIZE,
                buffer@.len() == i,
            decreases RING_BUFFER_SIZE - i,
        {
            buffer.push(default);
            i += 1;
        }
        let ring = RingBuffer { buffer, head: 0, tail: 0, full: false };
        assert(ring.values() =~= Seq::<T>::empty());
        ring
    }

    /// Queue `value` at the back, unless the queue is full: then it is
    /// dropped.
    pub fn push(&mut self, value: T)
        requires
            old(self).wf(),
        ensures
            final(self).wf(),
            old(self).values().len() < RING_BUFFER_SIZE ==> final(self).values()
                == old(self).values().push(value),
            old(self).values().len() >= RING_BUFFER_SIZE ==> final(self).values()
                == old(self).values(),
            final(self).values().len() <= RING_BUFFER_SIZE,
    {
        if self.full {
            return;
        }
        let ghost before = self.values();
        let tail = self.tail;
        self.buffer.set(tail % RING_BUFFER_SIZE, value);
        self.tail = (tail + 1) % RING_BUFFER_SIZE;
        self.full = self.tail == self.head;
        proof {
            assert(self.values() =~= before.push(value)) by {
                assert forall|i: int| 0 <= i < before.len() implies #[trigger] self.values()[i]
                    == before[i] by {
                    assert((self.head + i) % 256 != tail as int);
                }
                assert(self.values()[before.len() as int] == value) by {
                    assert((self.head + before.len()) % 256 == tail as int);
                }
            }
        }
    }

    /// Take the value at the front, if any.
    #[verifier::spinoff_prover]
    #[verifier::rlimit(30)]
    pub fn pop(&mut self) -> (value: Option<T>)
        requires
            old(self).wf(),
        ensures
            final(self).wf(),
            old(self).values().len() == 0 ==> value is None && final(self).values()
                == old(self).values(),
            old(self).values().len() > 0 ==> value == Some(old(self).values()[0])
                && final(self).values() == old(self).values().drop_first(),
    {
        if !self.full && self.tail == self.head {
            return None;
        }
        let ghost before = self.values();
        let value = self.buffer[self.head % RING_BUFFER_SIZE];
        self.full = false;
        self.head = (self.head + 1) % RING_BUFFER_SIZE;
        proof {
            assert(self.values() =~= before.drop_first()) by {
                assert forall|i: int| 0 <= i < self.values().len() implies #[trigger] self.values()[i]
                    == before[i + 1] by {
                    assert((self.head + i) % 256 == (old(self).head + i + 1) % 256);
                }
            }
        }
        Some(value)
    }
}

/// `contents` are what a ring buffer holds before and after each of a run
/// of calls: call `i` pushed `pushed[i]` when that is a value and popped
/// otherwise, and handed out `popped[i]`; each step is what `push` and `pop`
/// promise.
pub open spec fn queue_run<T>(contents: Seq<Seq<T>>, pushed: Seq<Option<T>>, popped: Seq<Option<T>>) -> bool {
    &&& contents.len() == pushed.len() + 1
    &&& popped.len() == pushed.len()
    &&& forall|i: int|
        0 <= i < pushed.len() ==> match #[trigger] pushed[i] {
            Some(v) => {
                &&& popped[i] is None
                &&& contents[i].len() < RING_BUFFER_SIZE ==> contents[i + 1] == contents[i].push(v)
                &&& contents[i].len() >= RING_BUFFER_SIZE ==> contents[i + 1] == contents[i]
            },
            None => {
                &&& contents[i].len() == 0 ==> popped[i] is None && contents[i + 1] == contents[i]
                &&& contents[i].len() > 0 ==> popped[i] == Some(contents[i][0]) && contents[i + 1]
                    == contents[i].drop_first()
            },
        }
}

/// The values the first `n` calls of a run got into the queue, in order:
/// each pushed value that found room.
pub open spec fn accepted<T>(contents: Seq<Seq<T>>, pushed: Seq<Option<T>>, n: int) -> Seq<T>
    decreases n,
{
    if n <= 0 {
        Seq::empty()
    } else {
        let before = accepted(contents, pushed, n - 1);
        match pushed[n - 1] {
            Some(v) => if contents[n - 1].len() < RING_BUFFER_SIZE {
                before.push(v)
            } else {
                before
            },
            None => before,
        }
    }
}

/// The values the first `n` calls of a run handed out, in order.
pub open spec fn taken<T>(popped: Seq<Option<T>>, n: int) -> Seq<T>
    decreases n,
{
    if n <= 0 {
        Seq::empty()
    } else {
        match popped[n - 1] {
            Some(v) => taken(popped, n - 1).push(v),
            None => taken(popped, n - 1),
        }
    }
}

/// First in, first out, over any run of calls: what was queued at the start
/// followed by every value that got in is exactly what came out, in the
/// same order, followed by what is still queued.
pub proof fn lemma_fifo<T>(contents: Seq<Seq<T>>, pushed: Seq<Option<T>>, popped: Seq<Option<T>>, n: int)
    requires
        queue_run(contents, pushed, popped),
        0 <= n <= pushed.len(),
    ensures
        contents[0] + accepted(contents, pushed, n) == taken(popped, n) + contents[n],
    decreases n,
{
    if n == 0 {
        assert(contents[0] + accepted(contents, pushed, 0) =~= taken(popped, 0) + contents[0]);
    } else {
        let i = n - 1;
        lemma_fifo(contents, pushed, popped, i);
        let acc = accepted(contents, pushed, i);
        let out = taken(popped, i);
        match pushed[i] {
            Some(v) => {
                if contents[i].len() < RING_BUFFER_SIZE {
                    assert(contents[0] + acc.push(v) =~= (contents[0] + acc).push(v));
                    assert(out + contents[i].push(v) =~= (out + contents[i]).push(v));
                }
            },
            None => {
                if contents[i].len() > 0 {
                    let w = contents[i][0];
                    assert(out.push(w) + contents[i].drop_first() =~= out + contents[i]);
                }
            },
        }
    }
}

} // verus!
