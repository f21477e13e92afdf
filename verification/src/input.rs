use vstd::prelude::*;

use crate::ring_buffer::{RingBuffer, RING_BUFFER_SIZE};

verus! {

/// A byte typed at the console, and whether the line reported an error
/// with it.
#[derive(Debug, Clone, Copy)]
pub struct InputByte {
    pub byte: u8,
    pub error: bool,
}

impl InputByte {
    /// No byte, no error: what fills an empty buffer.
    pub fn empty() -> (b: InputByte)
        ensures
            b.byte == 0,
            !b.error,
    {
        InputByte { byte: 0, error: false }
    }
}

/// The queue of typed bytes, filled by the interrupt handler.
pub type InputBuffer = RingBuffer<InputByte>;

/// An empty queue of typed bytes.
pub fn input_buffer() -> (buffer: InputBuffer)
    ensures
        buffer.wf(),
        buffer.values() == Seq::<InputByte>::empty(),
{
    RingBuffer::new(InputByte::empty())
}

/// The oldest typed byte not yet read, if there is one; a reader that gets
/// none waits for the next interrupt and asks again.
pub fn getc(buffer: &mut InputBuffer) -> (input_byte: Option<InputByte>)
    requires
        old(buffer).wf(),
    ensures
        final(buffer).wf(),
        old(buffer).values().len() == 0 ==> input_byte is None && final(buffer).values()
            == old(buffer).values(),
        old(buffer).values().len() > 0 ==> input_byte == Some(old(buffer).values()[0])
            && final(buffer).values() == old(buffer).values().drop_first(),
{
    buffer.pop()
}

/// Queue a typed byte; it is dropped when the queue is full.
pub fn push_character(buffer: &mut InputBuffer, input_byte: InputByte)
    requires
        old(buffer).wf(),
    ensures
        final(buffer).wf(),
        old(buffer).values().len() < RING_BUFFER_SIZE ==> final(buffer).values()
            == old(buffer).values().push(input_byte),
        old(buffer).values().len() >= RING_BUFFER_SIZE ==> final(buffer).values()
            == old(buffer).values(),
{
    buffer.push(input_byte)
}

} // verus!
