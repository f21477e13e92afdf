use vstd::prelude::*;

use crate::zhemon::cursor::{lemma_skip_spaces, skip_spaces, Cursor};

verus! {

/// One command of a monitor line.
#[derive(Debug, Clone, Copy, PartialEq, Eq, Structural)]
pub enum ParsedCommand {
    /// An address followed by an instruction: it is where the instruction starts.
    SetAddress(u64),
    /// An address on its own: show the byte there.
    ExamineOne(u64),
    /// `.` and an address: show everything up to that address.
    ExamineContinuing(u64),
    /// A byte after `:`: store it at the next address.
    StoreContinuing(u8),
    /// `R`: run the code at the last address.
    Run,
}

/// What is wrong with a line, and where.
#[derive(Debug, Clone, Copy, PartialEq, Eq, Structural)]
pub enum LineParseError {
    UnexpectedCharacter(usize),
    AddressTooLong(usize),
    ByteTooLong(usize),
    ExpectedAByte(usize),
    ExpectedAnAddress(usize),
}

/// Why no hexadecimal number could be read.
#[derive(Debug, Clone, Copy, PartialEq, Eq, Structural)]
pub enum HexParseError {
    /// More digits than allowed; the position of the first one too many.
    TooLong(usize),
    NoDigits,
}

/// Hex digits in an address.
pub const MAX_ADDRESS_DIGITS: usize = 16;

/// Hex digits in a byte.
pub const MAX_BYTE_DIGITS: usize = 2;

/// What the digits that follow mean: addresses, or bytes to store after a
/// `:` (and whether one has come yet).
#[derive(Debug, Clone, Copy, PartialEq, Eq, Structural)]
pub enum Mode {
    Default,
    Storing { any_byte_yet: bool },
}

/// The value of a hexadecimal digit, either case.
pub open spec fn spec_digit(c: u8) -> Option<u32> {
    if 0x30 <= c <= 0x39 {
        Some((c - 0x30) as u32)
    } else if 0x61 <= c <= 0x66 {
        Some((c - 0x61 + 10) as u32)
    } else if 0x41 <= c <= 0x46 {
        Some((c - 0x41 + 10) as u32)
    } else {
        None
    }
}

/// How many hexadecimal digits follow one another from `pos`.
pub open spec fn hex_run(s: Seq<u8>, pos: int) -> nat
    decreases s.len() - pos,
{
    if 0 <= pos < s.len() && spec_digit(s[pos]) is Some {
        1 + hex_run(s, pos + 1)
    } else {
        0
    }
}

/// The number the `n` digits from `pos` spell.
pub open spec fn hex_value(s: Seq<u8>, pos: int, n: nat) -> nat
    decreases n,
{
    if n == 0 {
        0
    } else {
        hex_value(s, pos, (n - 1) as nat) * 16 + spec_digit(s[pos + n - 1])->0 as nat
    }
}

/// Sixteen to the power `n`.
pub open spec fn pow16(n: nat) -> nat
    decreases n,
{
    if n == 0 {
        1
    } else {
        16 * pow16((n - 1) as nat)
    }
}

/// Reading a number of at most `max` digits at `pos`: the number and where
/// it ends, or why there is none.
pub open spec fn hex_read(s: Seq<u8>, pos: int, max: nat) -> Result<(u64, int), HexParseError> {
    let n = hex_run(s, pos);
    if n > max {
        Err(HexParseError::TooLong((pos + max) as usize))
    } else if n == 0 {
        Err(HexParseError::NoDigits)
    } else {
        Ok((hex_value(s, pos, n) as u64, pos + n))
    }
}

/// Reading an address at `pos`.
pub open spec fn read_address(s: Seq<u8>, pos: int) -> Result<(u64, int), LineParseError> {
    match hex_read(s, pos, MAX_ADDRESS_DIGITS as nat) {
        Err(HexParseError::NoDigits) => Err(LineParseError::ExpectedAnAddress(pos as usize)),
        Err(HexParseError::TooLong(p)) => Err(LineParseError::AddressTooLong(p)),
        Ok((a, end)) => Ok((a, end)),
    }
}

/// Reading a byte at `pos`.
pub open spec fn read_byte(s: Seq<u8>, pos: int) -> Result<(u8, int), LineParseError> {
    match hex_read(s, pos, MAX_BYTE_DIGITS as nat) {
        Err(HexParseError::NoDigits) => Err(LineParseError::ExpectedAByte(pos as usize)),
        Err(HexParseError::TooLong(p)) => Err(LineParseError::ByteTooLong(p)),
        Ok((b, end)) => Ok((b as u8, end)),
    }
}

/// The characters that start an instruction: `:`, `R`, `r` and `.`.
pub open spec fn spec_is_instruction(c: u8) -> bool {
    c == 0x3A || c == 0x52 || c == 0x72 || c == 0x2E
}

/// What one pass of the parser yields.
pub enum Step {
    /// A result to hand out.
    Emit(Result<Option<ParsedCommand>, LineParseError>),
    /// Nothing to hand out yet: the parser goes on.
    Again,
}

/// An instruction at `pos`, and the parser's position and mode after it.
pub open spec fn instruction(s: Seq<u8>, pos: int, mode: Mode) -> (Step, int, Mode) {
    let c = s[pos];
    if c == 0x2E {
        let at = skip_spaces(s, pos + 1);
        match read_address(s, at) {
            Err(e) => (Step::Emit(Err(e)), at, Mode::Default),
            Ok((a, end)) => (Step::Emit(Ok(Some(ParsedCommand::ExamineContinuing(a)))), end, Mode::Default),
        }
    } else if c == 0x3A {
        // A colon only changes what the following digits mean; there is nothing to carry out.
        (Step::Again, pos + 1, Mode::Storing { any_byte_yet: false })
    } else if c == 0x52 || c == 0x72 {
        (Step::Emit(Ok(Some(ParsedCommand::Run))), pos + 1, Mode::Default)
    } else {
        (Step::Emit(Err(LineParseError::UnexpectedCharacter((pos + 1) as usize))), pos + 1, mode)
    }
}

/// An address at `pos`: where an instruction starts if one follows it, else
/// one byte to show.
pub open spec fn address_command(s: Seq<u8>, pos: int) -> (Step, int, Mode) {
    match read_address(s, pos) {
        Err(e) => (Step::Emit(Err(e)), pos, Mode::Default),
        Ok((a, end)) => {
            let next = skip_spaces(s, end);
            let command = if next < s.len() && spec_is_instruction(s[next]) {
                ParsedCommand::SetAddress(a)
            } else {
                ParsedCommand::ExamineOne(a)
            };
            (Step::Emit(Ok(Some(command))), next, Mode::Default)
        },
    }
}

/// A byte to store at `pos`. Once one byte has come, something that is
/// not a byte ends the run of bytes and is read again as an address.
pub open spec fn set_command(s: Seq<u8>, pos: int, any_byte_yet: bool) -> (Step, int, Mode) {
    match read_byte(s, pos) {
        Err(e) => if any_byte_yet {
            (Step::Again, pos, Mode::Default)
        } else {
            (Step::Emit(Err(e)), pos, Mode::Storing { any_byte_yet })
        },
        Ok((b, end)) => (
            Step::Emit(Ok(Some(ParsedCommand::StoreContinuing(b)))),
            end,
            Mode::Storing { any_byte_yet: true },
        ),
    }
}

/// One pass of the parser from `pos` in `mode`.
pub open spec fn step(s: Seq<u8>, pos: int, mode: Mode) -> (Step, int, Mode) {
    let at = skip_spaces(s, pos);
    if at >= s.len() {
        if mode == (Mode::Storing { any_byte_yet: false }) {
            (Step::Emit(Err(LineParseError::ExpectedAByte(at as usize))), at, mode)
        } else {
            (Step::Emit(Ok(None)), at, mode)
        }
    } else if spec_digit(s[at]) is None {
        instruction(s, at, mode)
    } else {
        match mode {
            Mode::Default => address_command(s, at),
            Mode::Storing { any_byte_yet } => set_command(s, at, any_byte_yet),
        }
    }
}

/// Orders the parser's states so that every pass that yields nothing moves
/// down.
pub open spec fn mode_rank(mode: Mode) -> nat {
    if mode == (Mode::Storing { any_byte_yet: true }) {
        1
    } else {
        0
    }
}

/// Each pass that yields nothing moves the parser forward, or leaves the
/// byte mode where it had already read one.
pub proof fn lemma_step_again(s: Seq<u8>, pos: int, mode: Mode)
    requires
        0 <= pos <= s.len(),
        step(s, pos, mode).0 is Again,
    ensures
        pos <= step(s, pos, mode).1 <= s.len(),
        pos < step(s, pos, mode).1 || (mode_rank(step(s, pos, mode).2) < mode_rank(mode)),
{
    lemma_skip_spaces(s, pos);
}

/// What the parser hands out next from `pos` in `mode`, with its position
/// and mode afterwards.
pub open spec fn next(s: Seq<u8>, pos: int, mode: Mode) -> (Result<Option<ParsedCommand>, LineParseError>, int, Mode)
    decreases s.len() - pos, mode_rank(mode),
{
    if 0 <= pos <= s.len() {
        let (st, p, m) = step(s, pos, mode);
        match st {
            Step::Emit(r) => (r, p, m),
            Step::Again => {
                proof {
                    lemma_step_again(s, pos, mode);
                }
                next(s, p, m)
            },
        }
    } else {
        (Ok(None), pos, mode)
    }
}

/// Digits all the way through `pos + k` make a run at least that long, and
/// a run that stops right after them is exactly that long.
pub proof fn lemma_hex_run(s: Seq<u8>, pos: int, k: nat)
    requires
        0 <= pos,
        forall|i: int| pos <= i < pos + k ==> 0 <= i < s.len() && spec_digit(#[trigger] s[i]) is Some,
    ensures
        hex_run(s, pos) >= k,
        !(pos + k < s.len() && spec_digit(s[pos + k]) is Some) ==> hex_run(s, pos) == k,
    decreases k,
{
    if k > 0 {
        assert(spec_digit(s[pos]) is Some);
        lemma_hex_run(s, pos + 1, (k - 1) as nat);
    }
}

/// `n` digits spell a number below sixteen to the `n`.
pub proof fn lemma_hex_value_bound(s: Seq<u8>, pos: int, n: nat)
    requires
        forall|i: int| pos <= i < pos + n ==> spec_digit(#[trigger] s[i]) is Some,
    ensures
        hex_value(s, pos, n) < pow16(n),
    decreases n,
{
    if n > 0 {
        lemma_hex_value_bound(s, pos, (n - 1) as nat);
        let v = hex_value(s, pos, (n - 1) as nat);
        let d = spec_digit(s[pos + n - 1])->0 as nat;
        let p = pow16((n - 1) as nat);
        assert(spec_digit(s[pos + n - 1]) is Some);
        assert(d < 16);
        assert(v * 16 + d < 16 * p) by (nonlinear_arith)
            requires
                v < p,
                d < 16,
        ;
    }
}

/// Sixteen digits fill 64 bits; two fill a byte.
pub proof fn lemma_pow16()
    ensures
        pow16(2) == 256,
        pow16(16) == 0x1_0000_0000_0000_0000,
{
    reveal_with_fuel(pow16, 17);
}

/// More digits never make a smaller bound.
pub proof fn lemma_pow16_monotonic(a: nat, b: nat)
    requires
        a <= b,
    ensures
        pow16(a) <= pow16(b),
    decreases b,
{
    if a < b {
        lemma_pow16_monotonic(a, (b - 1) as nat);
    }
}

/// The value of a hexadecimal digit, either case; `None` for any other byte.
pub fn digit(c: u8) -> (d: Option<u32>)
    ensures
        d == spec_digit(c),
{
    if 0x30 <= c && c <= 0x39 {
        Some((c - 0x30) as u32)
    } else if 0x61 <= c && c <= 0x66 {
        Some((c - 0x61 + 10) as u32)
    } else if 0x41 <= c && c <= 0x46 {
        Some((c - 0x41 + 10) as u32)
    } else {
        None
    }
}

/// `number` with one more hexadecimal digit on its right.
pub fn append(number: u64, digit: u32) -> (appended: u64)
    requires
        number * 16 + digit <= u64::MAX,
    ensures
        appended == number * 16 + digit,
{
    number * 16 + digit as u64
}

/// A parser for one monitor line, handing out one command at a time.
pub struct Parser<'a> {
    cursor: Cursor<'a>,
    mode: Mode,
}

impl<'a> Parser<'a> {
    /// The line being parsed.
    pub closed spec fn spec_line(self) -> Seq<u8> {
        self.cursor.spec_bytes()
    }

    /// How far the parser has come.
    pub closed spec fn spec_pos(self) -> int {
        self.cursor.spec_pos()
    }

    /// What the digits that follow mean to the parser.
    pub closed spec fn spec_mode(self) -> Mode {
        self.mode
    }

    /// The parser has not gone past the end of its line.
    pub open spec fn wf(self) -> bool {
        self.spec_pos() <= self.spec_line().len()
    }

    /// A parser at the start of `line`, reading addresses.
    pub fn new(line: &'a [u8]) -> (parser: Self)
        ensures
            parser.spec_line() == line@,
            parser.spec_pos() == 0,
            parser.spec_mode() == Mode::Default,
            parser.wf(),
    {
        Self { cursor: Cursor::new(line), mode: Mode::Default }
    }

    /// Read the hexadecimal number of at most `max_digits` digits under the
    /// cursor, moving past it; on an error the cursor stays.
    fn parse_hex_number(&mut self, max_digits: usize) -> (r: Result<u64, HexParseError>)
        requires
            old(self).wf(),
            max_digits <= MAX_ADDRESS_DIGITS,
        ensures
            final(self).wf(),
            final(self).spec_line() == old(self).spec_line(),
            final(self).spec_mode() == old(self).spec_mode(),
            match hex_read(old(self).spec_line(), old(self).spec_pos(), max_digits as nat) {
                Ok((v, end)) => r == Ok::<u64, HexParseError>(v) && final(self).spec_pos() == end,
                Err(e) => r == Err::<u64, HexParseError>(e) && final(self).spec_pos() == old(
                    self,
                ).spec_pos(),
            },
    {
        let ghost s = self.spec_line();
        let ghost pos = self.spec_pos();
        let mut number = 0u64;
        let mut digits: usize = 0;
        proof {
            lemma_pow16();
            self.cursor.lemma_bounds();
        }
        loop
            invariant
                *self == *old(self),
                s == self.spec_line(),
                pos == self.spec_pos(),
                0 <= pos <= s.len(),
                s.len() <= usize::MAX,
                max_digits <= MAX_ADDRESS_DIGITS,
                digits <= max_digits,
                pos + digits <= s.len(),
                forall|i: int| pos <= i < pos + digits ==> spec_digit(#[trigger] s[i]) is Some,
                number == hex_value(s, pos, digits as nat),
                pow16(16) == 0x1_0000_0000_0000_0000,
            ensures
                digits <= max_digits,
                pos + digits <= s.len(),
                number == hex_value(s, pos, digits as nat),
                hex_run(s, pos) == digits,
            decreases s.len() - pos - digits,
        {
            let c = self.cursor.peek_offset(digits);
            if c.is_none() {
                proof {
                    lemma_hex_run(s, pos, digits as nat);
                }
                break;
            }
            let c = c.unwrap();
            let hex_digit = digit(c);
            if hex_digit.is_none() {
                proof {
                    lemma_hex_run(s, pos, digits as nat);
                }
                break;
            }
            if digits >= max_digits {
                proof {
                    lemma_hex_run(s, pos, (digits + 1) as nat);
                }
                return Err(HexParseError::TooLong(self.cursor.pos() + digits));
            }
            proof {
                lemma_hex_value_bound(s, pos, (digits + 1) as nat);
                lemma_pow16_monotonic((digits + 1) as nat, 16);
            }
            number = append(number, hex_digit.unwrap());
            digits += 1;
        }
        if digits == 0 {
            return Err(HexParseError::NoDigits);
        }
        proof {
            lemma_hex_value_bound(s, pos, digits as nat);
            lemma_pow16_monotonic(digits as nat, 16);
        }
        self.cursor.advance(digits);
        Ok(number)
    }

    /// The parser's position and mode are `pos` and `mode`, on the same line
    /// as `before`.
    pub open spec fn is_at(self, before: Parser, pos: int, mode: Mode) -> bool {
        &&& self.spec_line() == before.spec_line()
        &&& self.spec_pos() == pos
        &&& self.spec_mode() == mode
    }

    /// A byte under the cursor.
    fn parse_byte(&mut self) -> (r: Result<u8, LineParseError>)
        requires
            old(self).wf(),
        ensures
            final(self).wf(),
            match read_byte(old(self).spec_line(), old(self).spec_pos()) {
                Ok((b, end)) => r == Ok::<u8, LineParseError>(b) && final(self).is_at(
                    *old(self),
                    end,
                    old(self).spec_mode(),
                ),
                Err(e) => r == Err::<u8, LineParseError>(e) && final(self).is_at(
                    *old(self),
                    old(self).spec_pos(),
                    old(self).spec_mode(),
                ),
            },
    {
        match self.parse_hex_number(MAX_BYTE_DIGITS) {
            Ok(number) => {
                proof {
                    lemma_pow16();
                    let s = old(self).spec_line();
                    let pos = old(self).spec_pos();
                    let n = hex_run(s, pos);
                    assert forall|i: int| pos <= i < pos + n implies spec_digit(#[trigger] s[i]) is Some by {
                        lemma_hex_run_digits(s, pos, i);
                    }
                    lemma_hex_value_bound(s, pos, n);
                    lemma_pow16_monotonic(n, 2);
                }
                Ok(number as u8)
            },
            Err(HexParseError::NoDigits) => Err(LineParseError::ExpectedAByte(self.cursor.pos())),
            Err(HexParseError::TooLong(p)) => Err(LineParseError::ByteTooLong(p)),
        }
    }

    /// An address under the cursor.
    fn parse_address(&mut self) -> (r: Result<u64, LineParseError>)
        requires
            old(self).wf(),
        ensures
            final(self).wf(),
            match read_address(old(self).spec_line(), old(self).spec_pos()) {
                Ok((a, end)) => r == Ok::<u64, LineParseError>(a) && final(self).is_at(
                    *old(self),
                    end,
                    old(self).spec_mode(),
                ),
                Err(e) => r == Err::<u64, LineParseError>(e) && final(self).is_at(
                    *old(self),
                    old(self).spec_pos(),
                    old(self).spec_mode(),
                ),
            },
    {
        match self.parse_hex_number(MAX_ADDRESS_DIGITS) {
            Ok(number) => Ok(number),
            Err(HexParseError::NoDigits) => Err(LineParseError::ExpectedAnAddress(self.cursor.pos())),
            Err(HexParseError::TooLong(p)) => Err(LineParseError::AddressTooLong(p)),
        }
    }

    /// Whether `c` starts an instruction.
    fn is_instruction(c: u8) -> (b: bool)
        ensures
            b == spec_is_instruction(c),
    {
        c == 0x3A || c == 0x52 || c == 0x72 || c == 0x2E
    }

    /// An address command at the cursor.
    fn parse_address_command(&mut self) -> (r: Result<ParsedCommand, LineParseError>)
        requires
            old(self).wf(),
            old(self).spec_mode() == Mode::Default,
        ensures
            final(self).wf(),
            ({
                let (st, pos, mode) = address_command(old(self).spec_line(), old(self).spec_pos());
                &&& final(self).is_at(*old(self), pos, mode)
                &&& st == Step::Emit(
                    match r {
                        Ok(c) => Ok(Some(c)),
                        Err(e) => Err(e),
                    },
                )
            }),
    {
        let address = match self.parse_address() {
            Ok(address) => address,
            Err(e) => {
                return Err(e);
            },
        };
        self.cursor.consume_spaces();
        proof {
            self.cursor.lemma_bounds();
            lemma_skip_spaces(self.spec_line(), old(self).spec_pos());
            let (a, end) = read_address(old(self).spec_line(), old(self).spec_pos())->Ok_0;
            lemma_skip_spaces(self.spec_line(), end);
        }
        if let Some(next_char) = self.cursor.peek() {
            if Self::is_instruction(next_char) {
                return Ok(ParsedCommand::SetAddress(address));
            }
        }
        Ok(ParsedCommand::ExamineOne(address))
    }

    /// A byte to store, at the cursor.
    fn parse_set_command(&mut self) -> (r: Result<Option<ParsedCommand>, LineParseError>)
        requires
            old(self).wf(),
            old(self).spec_mode() is Storing,
        ensures
            final(self).wf(),
            ({
                let (st, pos, mode) = set_command(
                    old(self).spec_line(),
                    old(self).spec_pos(),
                    old(self).spec_mode()->any_byte_yet,
                );
                &&& final(self).is_at(*old(self), pos, mode)
                &&& match st {
                    Step::Emit(e) => r == e && r != Ok::<Option<ParsedCommand>, LineParseError>(None),
                    Step::Again => r == Ok::<Option<ParsedCommand>, LineParseError>(None),
                }
            }),
    {
        let initial_pos = self.cursor.pos();
        let byte = self.parse_byte();
        let any_byte_yet = match self.mode {
            Mode::Storing { any_byte_yet } => any_byte_yet,
            Mode::Default => false,
        };
        match byte {
            Err(err) => if any_byte_yet {
                self.cursor.set_pos(initial_pos);
                self.mode = Mode::Default;
                Ok(None)
            } else {
                Err(err)
            },
            Ok(byte) => {
                self.mode = Mode::Storing { any_byte_yet: true };
                Ok(Some(ParsedCommand::StoreContinuing(byte)))
            },
        }
    }

    /// An instruction at the cursor.
    fn parse_instruction(&mut self) -> (r: Result<Option<ParsedCommand>, LineParseError>)
        requires
            old(self).wf(),
            old(self).spec_pos() < old(self).spec_line().len(),
        ensures
            final(self).wf(),
            ({
                let (st, pos, mode) = instruction(
                    old(self).spec_line(),
                    old(self).spec_pos(),
                    old(self).spec_mode(),
                );
                &&& final(self).is_at(*old(self), pos, mode)
                &&& match st {
                    Step::Emit(e) => r == e && r != Ok::<Option<ParsedCommand>, LineParseError>(None),
                    Step::Again => r == Ok::<Option<ParsedCommand>, LineParseError>(None),
                }
            }),
    {
        proof {
            self.cursor.lemma_bounds();
        }
        match self.cursor.peek() {
            Some(0x2E) => {
                self.mode = Mode::Default;
                self.cursor.advance(1);
                self.cursor.consume_spaces();
                proof {
                    lemma_skip_spaces(self.spec_line(), old(self).spec_pos() + 1);
                }
                match self.parse_address() {
                    Ok(address) => Ok(Some(ParsedCommand::ExamineContinuing(address))),
                    Err(e) => Err(e),
                }
            },
            // A colon only changes what the following digits mean; there is nothing to carry out.
            Some(0x3A) => {
                self.cursor.advance(1);
                self.mode = Mode::Storing { any_byte_yet: false };
                Ok(None)
            },
            Some(0x52) | Some(0x72) => {
                self.mode = Mode::Default;
                self.cursor.advance(1);
                Ok(Some(ParsedCommand::Run))
            },
            _ => {
                self.cursor.advance(1);
                Err(LineParseError::UnexpectedCharacter(self.cursor.pos()))
            },
        }
    }

    /// The next command of the line: `None` at its end, or what is wrong
    /// with it.
    pub fn parse_next(&mut self) -> (r: Result<Option<ParsedCommand>, LineParseError>)
        requires
            old(self).wf(),
        ensures
            final(self).wf(),
            ({
                let (res, pos, mode) = next(
                    old(self).spec_line(),
                    old(self).spec_pos(),
                    old(self).spec_mode(),
                );
                &&& r == res
                &&& final(self).is_at(*old(self), pos, mode)
            }),
    {
        let ghost s = self.spec_line();
        proof {
            self.cursor.lemma_bounds();
        }
        loop
            invariant
                self.wf(),
                self.spec_line() == s,
                s == old(self).spec_line(),
                0 <= self.spec_pos(),
                next(s, self.spec_pos(), self.spec_mode()) == next(
                    s,
                    old(self).spec_pos(),
                    old(self).spec_mode(),
                ),
            decreases s.len() - self.spec_pos(), mode_rank(self.spec_mode()),
        {
            let ghost pos = self.spec_pos();
            let ghost mode = self.spec_mode();
            proof {
                lemma_skip_spaces(s, pos);
                let (st, p, m) = step(s, pos, mode);
                if let Step::Emit(r) = st {
                    assert(next(s, pos, mode) == (r, p, m));
                }
            }
            self.cursor.consume_spaces();
            let first_char = match self.cursor.peek() {
                Some(c) => c,
                None => {
                    return match self.mode {
                        Mode::Storing { any_byte_yet: false } => Err(
                            LineParseError::ExpectedAByte(self.cursor.pos()),
                        ),
                        _ => Ok(None),
                    };
                },
            };
            let command = if digit(first_char).is_none() {
                match self.parse_instruction() {
                    Ok(command) => command,
                    Err(e) => {
                        return Err(e);
                    },
                }
            } else {
                match self.mode {
                    Mode::Default => match self.parse_address_command() {
                        Ok(command) => Some(command),
                        Err(e) => {
                            return Err(e);
                        },
                    },
                    Mode::Storing { .. } => match self.parse_set_command() {
                        Ok(command) => command,
                        Err(e) => {
                            return Err(e);
                        },
                    },
                }
            };
            if command.is_some() {
                return Ok(command);
            }
            proof {
                lemma_step_again(s, pos, mode);
            }
        }
    }

    /// Check the whole line: `Ok` when every command in it parses.
    pub fn validate(&mut self) -> (r: Result<(), LineParseError>)
        requires
            old(self).wf(),
        ensures
            final(self).wf(),
            r == check(old(self).spec_line(), old(self).spec_pos(), old(self).spec_mode()),
    {
        let ghost s = self.spec_line();
        loop
            invariant
                self.wf(),
                self.spec_line() == s,
                s == old(self).spec_line(),
                check(s, self.spec_pos(), self.spec_mode()) == check(
                    s,
                    old(self).spec_pos(),
                    old(self).spec_mode(),
                ),
            decreases s.len() - self.spec_pos(),
        {
            let ghost pos = self.spec_pos();
            let ghost mode = self.spec_mode();
            proof {
                self.cursor.lemma_bounds();
                lemma_next_moves(s, pos, mode);
            }
            match self.parse_next() {
                Ok(Some(_)) => {},
                Ok(None) => {
                    return Ok(());
                },
                Err(e) => {
                    return Err(e);
                },
            }
        }
    }
}

/// Digits make up a run from its start up to its length.
pub proof fn lemma_hex_run_digits(s: Seq<u8>, pos: int, i: int)
    requires
        0 <= pos <= i < pos + hex_run(s, pos),
    ensures
        0 <= i < s.len(),
        spec_digit(s[i]) is Some,
    decreases i - pos,
{
    if i > pos {
        lemma_hex_run_digits(s, pos + 1, i);
    }
}

/// Handing out a command moves the parser forward, and it never leaves the
/// line.
pub proof fn lemma_next_moves(s: Seq<u8>, pos: int, mode: Mode)
    requires
        0 <= pos <= s.len(),
    ensures
        pos <= next(s, pos, mode).1 <= s.len(),
        next(s, pos, mode).0 matches Ok(Some(_)) ==> pos < next(s, pos, mode).1,
    decreases s.len() - pos, mode_rank(mode),
{
    lemma_skip_spaces(s, pos);
    let at = skip_spaces(s, pos);
    if at < s.len() {
        lemma_skip_spaces(s, at + 1);
        lemma_hex_run(s, at, 0);
        let (st, p, m) = step(s, pos, mode);
        if st is Again {
            lemma_step_again(s, pos, mode);
            lemma_next_moves(s, p, m);
        } else {
            let n = hex_run(s, at);
            if n > 0 {
                lemma_hex_run_digits(s, at, at + n - 1);
                lemma_skip_spaces(s, at + n);
            }
            let r = skip_spaces(s, at + 1);
            if r <= s.len() {
                let k = hex_run(s, r);
                if k > 0 {
                    lemma_hex_run_digits(s, r, r + k - 1);
                }
            }
        }
    }
}

/// What checking a line from `pos` in `mode` finds: `Ok` when the commands
/// from there on parse up to the end of the line, else the first error.
pub open spec fn check(s: Seq<u8>, pos: int, mode: Mode) -> Result<(), LineParseError>
    decreases s.len() - pos,
{
    let (r, p, m) = next(s, pos, mode);
    match r {
        Ok(Some(_)) => if 0 <= pos < p <= s.len() {
            check(s, p, m)
        } else {
            Ok(())
        },
        Ok(None) => Ok(()),
        Err(e) => Err(e),
    }
}

/// A line that checks out parses, command after command, to its end
/// without an error: checking a line first is what lets the monitor carry
/// out its commands as they come.
pub proof fn lemma_checked_parses(s: Seq<u8>, pos: int, mode: Mode)
    requires
        0 <= pos <= s.len(),
        check(s, pos, mode) is Ok,
    ensures
        next(s, pos, mode).0 is Ok,
        next(s, pos, mode).0 matches Ok(Some(_)) ==> check(
            s,
            next(s, pos, mode).1,
            next(s, pos, mode).2,
        ) is Ok,
{
    lemma_next_moves(s, pos, mode);
}

/// Skipping spaces from `pos` stops at the first byte that is not one.
proof fn lemma_skip_to(s: Seq<u8>, pos: int, at: int)
    requires
        0 <= pos <= at <= s.len(),
        forall|j: int| pos <= j < at ==> s[j] == 0x20,
        at == s.len() || s[at] != 0x20,
    ensures
        skip_spaces(s, pos) == at,
    decreases at - pos,
{
    if pos < at {
        lemma_skip_to(s, pos + 1, at);
    }
}

/// A hexadecimal digit, either case.
pub open spec fn is_hex_char(c: u8) -> bool {
    (0x30 <= c <= 0x39) || (0x61 <= c <= 0x66) || (0x41 <= c <= 0x46)
}

/// An address followed, after any spaces, by `:`, `.`, `R` or `r` says
/// where that instruction starts: whatever the mode was, from the first
/// byte of a line or right after a command it parses as `SetAddress` of the
/// address, never as a byte to show, and the parser stops at the
/// instruction.
pub proof fn lemma_address_before_instruction(s: Seq<u8>, pos: int, at: int, n: nat, k: nat)
    requires
        0 <= pos <= at,
        1 <= n <= 16,
        at + n + k < s.len(),
        forall|j: int| pos <= j < at ==> s[j] == 0x20,
        forall|j: int| at <= j < at + n ==> is_hex_char(#[trigger] s[j]),
        forall|j: int| at + n <= j < at + n + k ==> s[j] == 0x20,
        s[at + n + k] == 0x3A || s[at + n + k] == 0x2E || s[at + n + k] == 0x52 || s[at + n + k] == 0x72,
    ensures
        next(s, pos, Mode::Default).0 == Ok::<Option<ParsedCommand>, LineParseError>(
            Some(ParsedCommand::SetAddress(hex_value(s, at, n) as u64)),
        ),
        next(s, pos, Mode::Default).1 == at + n + k,
        next(s, pos, Mode::Default).2 == Mode::Default,
{
    assert(is_hex_char(s[at]));
    lemma_skip_to(s, pos, at);
    assert forall|i: int| at <= i < at + n implies 0 <= i < s.len() && spec_digit(#[trigger] s[i]) is Some by {
        assert(is_hex_char(s[i]));
    }
    lemma_hex_run(s, at, n);
    lemma_skip_to(s, at + n, at + n + k);
}

/// `R` and `r` both run the code at the last address: in any mode, after
/// any spaces, either one parses as `Run`, and the parser moves past it.
pub proof fn lemma_run_either_case(s: Seq<u8>, pos: int, at: int, mode: Mode)
    requires
        0 <= pos <= at < s.len(),
        forall|j: int| pos <= j < at ==> s[j] == 0x20,
        s[at] == 0x52 || s[at] == 0x72,
    ensures
        next(s, pos, mode) == (
            Ok::<Option<ParsedCommand>, LineParseError>(Some(ParsedCommand::Run)),
            at + 1,
            Mode::Default,
        ),
{
    lemma_skip_to(s, pos, at);
}

/// An address followed, after any spaces, by the end of the line or by a
/// byte that starts no instruction is an address on its own: it parses as
/// `ExamineOne` of the address.
pub proof fn lemma_address_alone(s: Seq<u8>, pos: int, at: int, n: nat, k: nat)
    requires
        0 <= pos <= at,
        1 <= n <= 16,
        at + n + k <= s.len(),
        forall|j: int| pos <= j < at ==> s[j] == 0x20,
        forall|j: int| at <= j < at + n ==> is_hex_char(#[trigger] s[j]),
        forall|j: int| at + n <= j < at + n + k ==> s[j] == 0x20,
        at + n + k < s.len() ==> {
            let c = s[at + n + k];
            &&& c != 0x20
            &&& c != 0x3A && c != 0x2E && c != 0x52 && c != 0x72
            &&& k > 0 || !is_hex_char(c)
        },
    ensures
        next(s, pos, Mode::Default).0 == Ok::<Option<ParsedCommand>, LineParseError>(
            Some(ParsedCommand::ExamineOne(hex_value(s, at, n) as u64)),
        ),
        next(s, pos, Mode::Default).1 == at + n + k,
{
    assert(is_hex_char(s[at]));
    lemma_skip_to(s, pos, at);
    assert forall|i: int| at <= i < at + n implies 0 <= i < s.len() && spec_digit(#[trigger] s[i]) is Some by {
        assert(is_hex_char(s[i]));
    }
    lemma_hex_run(s, at, n);
    lemma_skip_to(s, at + n, at + n + k);
}

/// A `.` followed, after any spaces, by an address shows everything up to
/// that address: in any mode it parses as `ExamineContinuing` of it.
pub proof fn lemma_dot_address(s: Seq<u8>, pos: int, dot: int, n: nat, k: nat, mode: Mode)
    requires
        0 <= pos <= dot,
        1 <= n <= 16,
        dot + 1 + k + n <= s.len(),
        forall|j: int| pos <= j < dot ==> s[j] == 0x20,
        s[dot] == 0x2E,
        forall|j: int| dot + 1 <= j < dot + 1 + k ==> s[j] == 0x20,
        forall|j: int| dot + 1 + k <= j < dot + 1 + k + n ==> is_hex_char(#[trigger] s[j]),
        dot + 1 + k + n < s.len() ==> !is_hex_char(s[dot + 1 + k + n]),
    ensures
        next(s, pos, mode).0 == Ok::<Option<ParsedCommand>, LineParseError>(
            Some(ParsedCommand::ExamineContinuing(hex_value(s, dot + 1 + k, n) as u64)),
        ),
        next(s, pos, mode).1 == dot + 1 + k + n,
{
    let at = dot + 1 + k;
    lemma_skip_to(s, pos, dot);
    assert(is_hex_char(s[at]));
    lemma_skip_to(s, dot + 1, at);
    assert forall|i: int| at <= i < at + n implies 0 <= i < s.len() && spec_digit(#[trigger] s[i]) is Some by {
        assert(is_hex_char(s[i]));
    }
    lemma_hex_run(s, at, n);
}

/// A `:` followed, after any spaces, by one or two hexadecimal digits stores
/// that byte at the next address: it parses as `StoreContinuing` of it, and
/// the parser goes on reading bytes.
pub proof fn lemma_colon_byte(s: Seq<u8>, pos: int, colon: int, n: nat, k: nat)
    requires
        0 <= pos <= colon,
        1 <= n <= 2,
        colon + 1 + k + n <= s.len(),
        forall|j: int| pos <= j < colon ==> s[j] == 0x20,
        s[colon] == 0x3A,
        forall|j: int| colon + 1 <= j < colon + 1 + k ==> s[j] == 0x20,
        forall|j: int| colon + 1 + k <= j < colon + 1 + k + n ==> is_hex_char(#[trigger] s[j]),
        colon + 1 + k + n < s.len() ==> !is_hex_char(s[colon + 1 + k + n]),
    ensures
        next(s, pos, Mode::Default) == (
            Ok::<Option<ParsedCommand>, LineParseError>(
                Some(ParsedCommand::StoreContinuing(hex_value(s, colon + 1 + k, n) as u8)),
            ),
            colon + 1 + k + n,
            Mode::Storing { any_byte_yet: true },
        ),
{
    let at = colon + 1 + k;
    lemma_skip_to(s, pos, colon);
    assert(is_hex_char(s[at]));
    lemma_skip_to(s, colon + 1, at);
    assert forall|i: int| at <= i < at + n implies 0 <= i < s.len() && spec_digit(#[trigger] s[i]) is Some by {
        assert(is_hex_char(s[i]));
    }
    lemma_hex_run(s, at, n);
    assert(step(s, pos, Mode::Default) == (Step::Again, colon + 1, Mode::Storing { any_byte_yet: false }));
    assert(next(s, pos, Mode::Default) == next(s, colon + 1, Mode::Storing { any_byte_yet: false }));
    lemma_hex_value_bound(s, at, n);
    lemma_pow16();
    lemma_pow16_monotonic(n, 2);
    let v = hex_value(s, at, n);
    assert(v < 256);
    assert((v as u64) as u8 == v as u8);
    assert(step(s, colon + 1, Mode::Storing { any_byte_yet: false }) == (
        Step::Emit(
            Ok::<Option<ParsedCommand>, LineParseError>(Some(ParsedCommand::StoreContinuing(v as u8))),
        ),
        at + n,
        Mode::Storing { any_byte_yet: true },
    ));
}

/// The hexadecimal digits and their values: `0`-`9` are 0 to 9, and `a`-`f`
/// and `A`-`F` alike are 10 to 15; no other byte is a digit.
pub proof fn lemma_digit_values(d: u8, c: u8)
    ensures
        d < 10 ==> spec_digit((0x30 + d) as u8) == Some(d as u32),
        d < 6 ==> spec_digit((0x61 + d) as u8) == Some((10 + d) as u32),
        d < 6 ==> spec_digit((0x41 + d) as u8) == Some((10 + d) as u32),
        spec_digit(c) is Some <==> is_hex_char(c),
{
}

} // verus!
