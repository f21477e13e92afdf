use vstd::prelude::*;

use crate::ring_buffer::RingBuffer;

verus! {

/// The data register carries the error flags above the received byte.
pub const DATA_BYTE_OFFSET: u32 = 8;

/// Error flags of the data register's upper bits.
pub const FRAMING_ERROR: u32 = 1;
pub const PARITY_ERROR: u32 = 2;
pub const BREAK_ERROR: u32 = 4;
pub const OVERRUN_ERROR: u32 = 8;

/// The UART's reference clock and the line speed it is set up for.
pub const UARTCLK: u32 = 24_000_000;
pub const BAUD: u32 = 115_200;

/// The baud divisor in sixty-fourths, rounded to nearest.
pub const SCALED_DIVISOR: u32 = 833;

/// The interrupt the UART raises.
pub const UART_INTID: u32 = 33;

/// The receive error flags reported with a byte.
#[derive(Debug, Clone, Copy)]
pub struct RxFlags(u32);

impl View for RxFlags {
    type V = u32;

    closed spec fn view(&self) -> u32 {
        self.0
    }
}

impl RxFlags {
    pub fn new(flags: u32) -> (rx: Self)
        ensures
            rx@ == flags,
    {
        Self(flags)
    }

    /// The byte was not framed by a valid stop bit.
    pub fn framing(self) -> (set: bool)
        ensures
            set == (self@ & FRAMING_ERROR != 0),
    {
        self.0 & FRAMING_ERROR != 0
    }

    /// The byte failed its parity check.
    pub fn parity(self) -> (set: bool)
        ensures
            set == (self@ & PARITY_ERROR != 0),
    {
        self.0 & PARITY_ERROR != 0
    }

    /// The line was held low for longer than a byte: a break.
    pub fn brk(self) -> (set: bool)
        ensures
            set == (self@ & BREAK_ERROR != 0),
    {
        self.0 & BREAK_ERROR != 0
    }

    /// A byte arrived while the receive FIFO was full, and was lost.
    pub fn overrun(self) -> (set: bool)
        ensures
            set == (self@ & OVERRUN_ERROR != 0),
    {
        self.0 & OVERRUN_ERROR != 0
    }

    /// Any of the four errors.
    pub open spec fn any_error(self) -> bool {
        self@ & 0xF != 0
    }

    /// How the flags read: the names of the errors that are set, in the
    /// order FE, PE, BE, OE and separated by spaces, or `none`.
    pub fn describe(self) -> (text: Vec<u8>)
        ensures
            text@ == describe_flags(
                self@ & FRAMING_ERROR != 0,
                self@ & PARITY_ERROR != 0,
                self@ & BREAK_ERROR != 0,
                self@ & OVERRUN_ERROR != 0,
            ),
    {
        let mut text: Vec<u8> = Vec::new();
        let mut any = false;
        append_name(&mut text, &mut any, self.framing(), 0x46, 0x45);
        append_name(&mut text, &mut any, self.parity(), 0x50, 0x45);
        append_name(&mut text, &mut any, self.brk(), 0x42, 0x45);
        append_name(&mut text, &mut any, self.overrun(), 0x4F, 0x45);
        if !any {
            text.push(0x6E);
            text.push(0x6F);
            text.push(0x6E);
            text.push(0x65);
        }
        text
    }

    /// The flags of a value read from the data register.
    pub fn from_data(data: u32) -> (rx: Self)
        ensures
            rx@ == data >> DATA_BYTE_OFFSET,
    {
        Self::new(data >> DATA_BYTE_OFFSET)
    }
}

/// The two-letter name of a set flag, after a space when another came
/// before it.
pub open spec fn name_part(set: bool, before: bool, a: u8, b: u8) -> Seq<u8> {
    if !set {
        seq![]
    } else if before {
        seq![0x20u8, a, b]
    } else {
        seq![a, b]
    }
}

/// The names of the set flags among framing, parity, break and overrun,
/// separated by spaces, or `none` when none is set.
pub open spec fn describe_flags(fe: bool, pe: bool, be: bool, oe: bool) -> Seq<u8> {
    if !(fe || pe || be || oe) {
        seq![0x6Eu8, 0x6Fu8, 0x6Eu8, 0x65u8]
    } else {
        name_part(fe, false, 0x46, 0x45) + name_part(pe, fe, 0x50, 0x45) + name_part(be, fe || pe, 0x42, 0x45)
            + name_part(oe, fe || pe || be, 0x4F, 0x45)
    }
}

fn append_name(text: &mut Vec<u8>, any: &mut bool, set: bool, a: u8, b: u8)
    ensures
        final(text)@ == old(text)@ + name_part(set, *old(any), a, b),
        *final(any) == (*old(any) || set),
{
    if set {
        if *any {
            text.push(0x20);
        }
        text.push(a);
        text.push(b);
        *any = true;
    }
}

/// One byte from the wire with the errors it came with.
#[derive(Debug, Clone, Copy)]
pub struct Received {
    pub byte: u8,
    pub flags: RxFlags,
}

impl Received {
    /// Nothing received, no error.
    pub fn empty() -> (r: Received)
        ensures
            r.byte == 0,
            r.flags@ == 0,
    {
        Received { byte: 0, flags: RxFlags::new(0) }
    }

    /// The byte and flags of a value read from the data register.
    pub fn decode(data: u32) -> (r: Received)
        ensures
            r.byte == data % 256,
            r.flags@ == data >> DATA_BYTE_OFFSET,
    {
        let byte = data_byte_mask(data);
        Received { byte, flags: RxFlags::from_data(data) }
    }
}

/// The received byte, the low eight bits of the data register.
fn data_byte_mask(c: u32) -> (byte: u8)
    ensures
        byte == c % 256,
{
    assert((c & 0xFF) == c % 256) by (bit_vector);
    (c & 0xFF) as u8
}

/// `UARTCLK / BAUD` in sixty-fourths, rounded to nearest.
pub open spec fn scaled_divisor() -> int {
    (4 * UARTCLK as int + BAUD as int / 2) / BAUD as int
}

/// The integer part of the baud divisor.
pub fn integer_divisor() -> (ibrd: u32)
    ensures
        ibrd == scaled_divisor() / 64,
{
    SCALED_DIVISOR / 64
}

/// The fractional part of the baud divisor, in sixty-fourths.
pub fn fractional_divisor() -> (fbrd: u32)
    ensures
        fbrd == scaled_divisor() % 64,
{
    SCALED_DIVISOR % 64
}

/// Bytes received and not yet read, filled by the interrupt handler.
pub type InputRingBuffer = RingBuffer<Received>;

// Register offsets.
pub const DR: usize = 0x00;
pub const RSR_ECR: usize = 0x04;
pub const FR: usize = 0x18;
pub const IBRD: usize = 0x24;
pub const FBRD: usize = 0x28;
pub const LCR_H: usize = 0x2C;
pub const CR: usize = 0x30;
pub const IMSC: usize = 0x38;
pub const ICR: usize = 0x44;

// Flag register bits.
/// The wire is not quiet yet.
pub const FR_BUSY: u32 = 0x08;
/// The receive FIFO is empty.
pub const FR_RXFE: u32 = 0x10;
/// The transmit FIFO is full.
pub const FR_TXFF: u32 = 0x20;

// Line control bits.
pub const LCR_H_FEN: u32 = 0x10;
pub const LCR_H_WLEN_8BIT: u32 = 0x60;

// Control register values.
pub const CR_DISABLE: u32 = 0x000;
/// UARTEN, TXE and RXE.
pub const CR_ENABLE: u32 = 0x301;

/// Every interrupt of the interrupt clear register.
pub const ICR_ALL_MASK: u32 = 0x7FF;

// Interrupt mask bits: receive and receive timeout.
pub const IMSC_RX: u32 = 0x10;
pub const IMSC_RT: u32 = 0x40;

/// One write to a device register: its address and the value.
#[derive(Debug, Clone, Copy, PartialEq, Eq, Structural)]
pub struct RegisterWrite {
    pub address: usize,
    pub value: u32,
}

/// Bit `b` of `x` is set.
pub open spec fn bit_set(x: u32, b: nat) -> bool {
    (x / vstd::arithmetic::power2::pow2(b) as u32) % 2 == 1
}

/// Whether flag `mask`, a single bit, is set in `x`.
fn has_flag(x: u32, mask: u32, b: u32) -> (set: bool)
    requires
        b < 32,
        mask == vstd::arithmetic::power2::pow2(b as nat),
    ensures
        set == bit_set(x, b as nat),
{
    proof {
        vstd::bits::lemma_u32_pow2_no_overflow(b as nat);
        vstd::bits::lemma_u32_shl_is_mul(1, b);
        vstd::bits::lemma_u32_shr_is_div(x, b);
    }
    let shifted = x >> b;
    proof {
        assert((shifted & 1 != 0) == (shifted % 2 == 1)) by (bit_vector);
        assert(((x & (1u32 << b)) != 0) == (((x >> b) & 1) != 0)) by (bit_vector)
            requires
                b < 32,
        ;
    }
    x & mask != 0
}

/// A PL011 UART at a fixed address: what to write where, and what the
/// values read back mean.
#[derive(Debug, Clone, Copy)]
pub struct UARTDriver {
    addr: usize,
}

impl UARTDriver {
    pub closed spec fn spec_addr(self) -> usize {
        self.addr
    }

    /// Its registers fit below the top of the address space.
    pub open spec fn wf(self) -> bool {
        self.spec_addr() + ICR <= usize::MAX
    }

    /// The UART whose registers start at `addr`.
    pub fn new(addr: usize) -> (uart: Self)
        ensures
            uart.spec_addr() == addr,
    {
        Self { addr }
    }

    /// The address of the register at `offset`.
    pub fn register(&self, offset: usize) -> (address: usize)
        requires
            self.spec_addr() + offset <= usize::MAX,
        ensures
            address == self.spec_addr() + offset,
    {
        self.addr + offset
    }

    /// The writes that set the UART up, in order, once the busy flag has
    /// cleared after the first: disable it, flush the FIFO, set the baud
    /// divisors, latch them with 8-bit words and FIFOs on, mask and clear
    /// every interrupt, and enable it.
    pub fn init(&self) -> (writes: Vec<RegisterWrite>)
        requires
            self.wf(),
        ensures
            writes@ == seq![
                RegisterWrite { address: (self.spec_addr() + CR) as usize, value: CR_DISABLE },
                RegisterWrite { address: (self.spec_addr() + LCR_H) as usize, value: 0 },
                RegisterWrite { address: (self.spec_addr() + IBRD) as usize, value: (scaled_divisor() / 64) as u32 },
                RegisterWrite { address: (self.spec_addr() + FBRD) as usize, value: (scaled_divisor() % 64) as u32 },
                RegisterWrite { address: (self.spec_addr() + LCR_H) as usize, value: LCR_H_WLEN_8BIT | LCR_H_FEN },
                RegisterWrite { address: (self.spec_addr() + IMSC) as usize, value: 0 },
                RegisterWrite { address: (self.spec_addr() + ICR) as usize, value: ICR_ALL_MASK },
                RegisterWrite { address: (self.spec_addr() + CR) as usize, value: CR_ENABLE },
            ],
    {
        let mut writes = Vec::new();
        writes.push(RegisterWrite { address: self.register(CR), value: CR_DISABLE });
        // Flush FIFO
        writes.push(RegisterWrite { address: self.register(LCR_H), value: 0 });
        writes.push(RegisterWrite { address: self.register(IBRD), value: integer_divisor() });
        writes.push(RegisterWrite { address: self.register(FBRD), value: fractional_divisor() });
        // Write the line control register. This is also what latches the divisors above.
        writes.push(RegisterWrite { address: self.register(LCR_H), value: LCR_H_WLEN_8BIT | LCR_H_FEN });
        // Mask every interrupt, clear anything already pending
        writes.push(RegisterWrite { address: self.register(IMSC), value: 0 });
        writes.push(self.clear_interrupts());
        writes.push(RegisterWrite { address: self.register(CR), value: CR_ENABLE });
        writes
    }

    /// Unmask the receive and receive-timeout interrupts.
    pub fn enable_interrupt(&self) -> (write: RegisterWrite)
        requires
            self.wf(),
        ensures
            write == (RegisterWrite { address: (self.spec_addr() + IMSC) as usize, value: IMSC_RX | IMSC_RT }),
    {
        RegisterWrite { address: self.register(IMSC), value: IMSC_RX | IMSC_RT }
    }

    /// Clear every pending interrupt.
    pub fn clear_interrupts(&self) -> (write: RegisterWrite)
        requires
            self.wf(),
        ensures
            write == (RegisterWrite { address: (self.spec_addr() + ICR) as usize, value: ICR_ALL_MASK }),
    {
        RegisterWrite { address: self.register(ICR), value: ICR_ALL_MASK }
    }

    /// Send `c`, once the flag register says the transmit FIFO has room:
    /// `None` while it is full.
    pub fn putc(&self, fr: u32, c: u8) -> (write: Option<RegisterWrite>)
        requires
            self.wf(),
        ensures
            write == if bit_set(fr, 5) {
                None
            } else {
                Some(RegisterWrite { address: self.spec_addr(), value: c as u32 })
            },
    {
        proof {
            vstd::arithmetic::power2::lemma2_to64();
        }
        if has_flag(fr, FR_TXFF, 5) {
            None
        } else {
            Some(RegisterWrite { address: self.register(DR), value: c as u32 })
        }
    }

    /// Whether the flag register says a byte is waiting.
    pub fn has_byte(fr: u32) -> (waiting: bool)
        ensures
            waiting == !bit_set(fr, 4),
    {
        proof {
            vstd::arithmetic::power2::lemma2_to64();
        }
        !has_flag(fr, FR_RXFE, 4)
    }

    /// The byte waiting, given the flag register and, if one is waiting,
    /// what the data register then gave.
    pub fn try_getc(fr: u32, data: u32) -> (received: Option<Received>)
        ensures
            bit_set(fr, 4) ==> received is None,
            !bit_set(fr, 4) ==> (received matches Some(r) && r.byte == data % 256 && r.flags@ == data
                >> DATA_BYTE_OFFSET),
    {
        if Self::has_byte(fr) {
            Some(Received::decode(data))
        } else {
            None
        }
    }

    /// Whether the flag register says the wire is still busy: flushing waits
    /// until it is not.
    pub fn flush(fr: u32) -> (busy: bool)
        ensures
            busy == bit_set(fr, 3),
    {
        proof {
            vstd::arithmetic::power2::lemma2_to64();
        }
        has_flag(fr, FR_BUSY, 3)
    }
}

/// The bytes that printing `s` sends: every line feed preceded by a
/// carriage return.
pub open spec fn with_returns(s: Seq<u8>) -> Seq<u8>
    decreases s.len(),
{
    if s.len() == 0 {
        seq![]
    } else {
        let head = if s[0] == 0x0A {
            seq![0x0Du8, 0x0Au8]
        } else {
            seq![s[0]]
        };
        head + with_returns(s.drop_first())
    }
}

/// Text written to the UART: every byte of `s`, with a carriage return
/// before each line feed.
pub fn write_str(s: &[u8], out: &mut Vec<u8>)
    ensures
        final(out)@ == old(out)@ + with_returns(s@),
{
    let mut i: usize = 0;
    proof {
        assert(s@.skip(0) == s@);
    }
    while i < s.len()
        invariant
            i <= s@.len(),
            old(out)@ + with_returns(s@) == out@ + with_returns(s@.skip(i as int)),
        decreases s@.len() - i,
    {
        let c = s[i];
        proof {
            assert(s@.skip(i as int).drop_first() == s@.skip(i + 1));
            assert(s@.skip(i as int)[0] == c);
        }
        if c == 0x0A {
            out.push(0x0D);
        }
        out.push(c);
        proof {
            if c == 0x0A {
                assert(with_returns(s@.skip(i as int)) == seq![0x0Du8, 0x0Au8] + with_returns(s@.skip(i + 1)));
            } else {
                assert(with_returns(s@.skip(i as int)) == seq![c] + with_returns(s@.skip(i + 1)));
            }
        }
        i += 1;
    }
    proof {
        assert(s@.skip(i as int).len() == 0);
    }
}

} // verus!
