use vstd::prelude::*;

use crate::uart::Received;

verus! {

/// What the terminal sends back to erase the character before the cursor.
pub const ERASE_SEQUENCE: [u8; 3] = [0x08, 0x20, 0x08];

/// What a typed byte means to the line editor.
#[derive(Debug, Clone, Copy, PartialEq, Eq, Structural)]
pub enum InputChar {
    Char(u8),
    Backspace,
    Newline,
    ESCAPE,
    NonPrintable,
}

/// Backspace or delete.
pub open spec fn spec_is_backspace(c: u8) -> bool {
    c == 0x08 || c == 0x7F
}

/// Carriage return or line feed.
pub open spec fn spec_is_newline(c: u8) -> bool {
    c == 0x0D || c == 0x0A
}

/// The escape key.
pub open spec fn spec_is_escape(c: u8) -> bool {
    c == 0x1B
}

/// A control character or a byte past ASCII's printable range.
pub open spec fn spec_is_non_printable(c: u8) -> bool {
    c < 0x20 || c > 0x7E
}

/// The meaning of `byte`: a line ending first, then an erase, an escape, a
/// byte that prints nothing, and otherwise the character itself.
pub open spec fn spec_from_byte(byte: u8) -> InputChar {
    if spec_is_newline(byte) {
        InputChar::Newline
    } else if spec_is_backspace(byte) {
        InputChar::Backspace
    } else if spec_is_escape(byte) {
        InputChar::ESCAPE
    } else if spec_is_non_printable(byte) {
        InputChar::NonPrintable
    } else {
        InputChar::Char(byte)
    }
}

impl InputChar {
    pub fn from_byte(byte: u8) -> (c: InputChar)
        ensures
            c == spec_from_byte(byte),
    {
        if Self::is_newline(byte) {
            return InputChar::Newline;
        }
        if Self::is_backspace(byte) {
            return InputChar::Backspace;
        }
        if Self::is_escape(byte) {
            return InputChar::ESCAPE;
        }
        if Self::is_non_printable(byte) {
            return InputChar::NonPrintable;
        }
        InputChar::Char(byte)
    }

    pub fn is_backspace(c: u8) -> (b: bool)
        ensures
            b == spec_is_backspace(c),
    {
        c == 0x08 || c == 0x7F
    }

    pub fn is_newline(c: u8) -> (b: bool)
        ensures
            b == spec_is_newline(c),
    {
        c == 0x0D || c == 0x0A
    }

    pub fn is_escape(c: u8) -> (b: bool)
        ensures
            b == spec_is_escape(c),
    {
        c == 0x1B
    }

    pub fn is_non_printable(c: u8) -> (b: bool)
        ensures
            b == spec_is_non_printable(c),
    {
        c < 0x20 || c > 0x7E
    }
}

/// What the console has to do after a byte was taken in.
#[derive(Debug, Clone, Copy, PartialEq, Eq, Structural)]
pub enum LineAction {
    /// Nothing: the byte was dropped.
    Ignore,
    /// Echo the character that was stored.
    Echo(u8),
    /// Send the erase sequence: the last character was taken back.
    Erase,
    /// Send a new line: the line is complete.
    Done,
    /// Send a new line: the line was abandoned.
    Cancel,
}

/// What typing `byte` does to a line held in the first `len` bytes of `buf`:
/// printable characters are stored while there is room, a backspace takes one
/// back, a line ending finishes the line, escape abandons it, and anything
/// else is dropped.
pub open spec fn edit(buf: Seq<u8>, len: int, byte: u8) -> (Seq<u8>, int, LineAction) {
    match spec_from_byte(byte) {
        InputChar::Char(c) => if len < buf.len() {
            (buf.update(len, c), len + 1, LineAction::Echo(c))
        } else {
            (buf, len, LineAction::Ignore)
        },
        InputChar::Backspace => if len > 0 {
            (buf, len - 1, LineAction::Erase)
        } else {
            (buf, len, LineAction::Ignore)
        },
        InputChar::Newline => (buf, len, LineAction::Done),
        InputChar::ESCAPE => (buf, len, LineAction::Cancel),
        InputChar::NonPrintable => (buf, len, LineAction::Ignore),
    }
}

/// The bytes the console sends back for an action.
pub open spec fn action_bytes(action: LineAction) -> Seq<u8> {
    match action {
        LineAction::Ignore => seq![],
        LineAction::Echo(c) => seq![c],
        LineAction::Erase => seq![0x08u8, 0x20u8, 0x08u8],
        LineAction::Done => seq![0x0Du8, 0x0Au8],
        LineAction::Cancel => seq![0x0Du8, 0x0Au8],
    }
}

/// Whether an action ends the line.
pub open spec fn ends_line(action: LineAction) -> bool {
    action == LineAction::Done || action == LineAction::Cancel
}

/// Typing `input` into a line: the buffer, the length and the error flag
/// after it, the bytes sent back, the action that ended the line if one did,
/// and how many received bytes were taken in.
pub open spec fn typed(buf: Seq<u8>, len: int, error: bool, input: Seq<Received>) -> (
    Seq<u8>,
    int,
    bool,
    Seq<u8>,
    Option<LineAction>,
    nat,
)
    decreases input.len(),
{
    if input.len() == 0 {
        (buf, len, error, seq![], None, 0)
    } else {
        let (b, l, a) = edit(buf, len, input[0].byte);
        let e = error || input[0].flags.any_error();
        if ends_line(a) {
            (b, l, e, action_bytes(a), Some(a), 1)
        } else {
            let (b2, l2, e2, out, end, n) = typed(b, l, e, input.drop_first());
            (b2, l2, e2, action_bytes(a) + out, end, n + 1)
        }
    }
}

/// A finished line: how many bytes of the buffer it fills, and whether the
/// device reported an error while it was typed.
#[derive(Debug, Clone, Copy, PartialEq, Eq, Structural)]
pub struct ReadlineResult {
    pub len: usize,
    pub device_error: bool,
}

/// How reading a line came out.
#[derive(Debug, Clone, Copy, PartialEq, Eq, Structural)]
pub enum Line {
    /// A line ending came.
    Ready(ReadlineResult),
    /// Escape came: the line was abandoned.
    Cancelled,
    /// The input ran out before either.
    Pending,
}

/// A line being typed: how much of the buffer holds it, and whether the
/// device reported an error on any of its bytes.
pub struct LineEditor {
    pub len: usize,
    pub device_error: bool,
}

impl LineEditor {
    /// An empty line, no error yet.
    pub fn new() -> (editor: LineEditor)
        ensures
            editor.len == 0,
            !editor.device_error,
    {
        LineEditor { len: 0, device_error: false }
    }

    /// Take in one received byte: printable characters are stored while
    /// there is room, a backspace takes one back, a line ending finishes the
    /// line, escape abandons it, and anything else is dropped.
    pub fn step(&mut self, buf: &mut [u8], received: Received) -> (action: LineAction)
        requires
            old(self).len <= old(buf)@.len(),
        ensures
            final(self).len <= final(buf)@.len(),
            final(buf)@.len() == old(buf)@.len(),
            final(self).device_error == (old(self).device_error || received.flags.any_error()),
            (final(buf)@, final(self).len as int, action) == edit(
                old(buf)@,
                old(self).len as int,
                received.byte,
            ),
    {
        let flags = received.flags;
        if flags.framing() || flags.parity() || flags.overrun() || flags.brk() {
            self.device_error = true;
        }
        proof {
            let f = flags@;
            assert((f & 0xF != 0) == (f & 1 != 0 || f & 2 != 0 || f & 4 != 0 || f & 8 != 0))
                by (bit_vector);
        }
        match InputChar::from_byte(received.byte) {
            InputChar::NonPrintable => LineAction::Ignore,
            InputChar::Newline => LineAction::Done,
            InputChar::Backspace => {
                if self.len > 0 {
                    self.len -= 1;
                    LineAction::Erase
                } else {
                    LineAction::Ignore
                }
            },
            InputChar::ESCAPE => LineAction::Cancel,
            InputChar::Char(c) => {
                if self.len < buf.len() {
                    buf[self.len] = c;
                    self.len += 1;
                    LineAction::Echo(c)
                } else {
                    LineAction::Ignore
                }
            },
        }
    }
}

/// The bytes that end a line on the terminal.
pub fn write_new_line() -> (bytes: [u8; 2])
    ensures
        bytes@ == seq![0x0Du8, 0x0Au8],
{
    [0x0D, 0x0A]
}

/// The bytes to send back for an action.
pub fn echo_bytes(action: LineAction, out: &mut Vec<u8>)
    ensures
        final(out)@ == old(out)@ + action_bytes(action),
{
    match action {
        LineAction::Ignore => {},
        LineAction::Echo(c) => {
            out.push(c);
        },
        LineAction::Erase => {
            let mut i: usize = 0;
            while i < 3
                invariant
                    i <= 3,
                    out@ == old(out)@ + seq![0x08u8, 0x20u8, 0x08u8].take(i as int),
                decreases 3 - i,
            {
                out.push(ERASE_SEQUENCE[i]);
                proof {
                    assert(seq![0x08u8, 0x20u8, 0x08u8].take(i + 1) == seq![0x08u8, 0x20u8, 0x08u8].take(
                        i as int,
                    ).push(ERASE_SEQUENCE[i as int]));
                }
                i += 1;
            }
            proof {
                assert(seq![0x08u8, 0x20u8, 0x08u8].take(3) == seq![0x08u8, 0x20u8, 0x08u8]);
            }
        },
        LineAction::Done | LineAction::Cancel => {
            let nl = write_new_line();
            out.push(nl[0]);
            out.push(nl[1]);
        },
    }
}

/// Read a line into `buf` from the bytes `input` delivers, sending back to
/// `echo` what the terminal should show: the line when a line ending comes,
/// nothing when escape comes, and `Pending` when the input runs out first.
/// Also how many received bytes were taken in.
pub fn read_line(buf: &mut [u8], input: &[Received], echo: &mut Vec<u8>) -> (r: (Line, usize))
    ensures
        ({
            let (b, len, error, out, end, n) = typed(old(buf)@, 0, false, input@);
            &&& final(buf)@ == b
            &&& final(echo)@ == old(echo)@ + out
            &&& r.1 == n
            &&& r.0 == match end {
                Some(LineAction::Done) => Line::Ready(ReadlineResult { len: len as usize, device_error: error }),
                Some(_) => Line::Cancelled,
                None => Line::Pending,
            }
            &&& 0 <= len <= b.len()
        }),
{
    let mut editor = LineEditor::new();
    let mut i: usize = 0;
    proof {
        assert(input@.skip(0) == input@);
        assert(echo@ + seq![] == echo@);
    }
    while i < input.len()
        invariant
            i <= input@.len(),
            editor.len <= buf@.len(),
            buf@.len() == old(buf)@.len(),
            ({
                let (b, len, error, out, end, n) = typed(buf@, editor.len as int, editor.device_error, input@.skip(i as int));
                let whole = typed(old(buf)@, 0, false, input@);
                &&& whole.0 == b
                &&& whole.1 == len
                &&& whole.2 == error
                &&& whole.3 == echo@.skip(old(echo)@.len() as int) + out
                &&& whole.4 == end
                &&& whole.5 == i + n
                &&& echo@.len() >= old(echo)@.len()
                &&& echo@.take(old(echo)@.len() as int) == old(echo)@
            }),
        decreases input@.len() - i,
    {
        let received = input[i];
        let ghost before_echo = echo@;
        let ghost rest = input@.skip(i as int);
        let ghost b0 = buf@;
        let ghost l0 = editor.len as int;
        let ghost e0 = editor.device_error;
        let action = editor.step(buf, received);
        echo_bytes(action, echo);
        proof {
            assert(rest[0] == received);
            assert(rest.drop_first() == input@.skip(i + 1));
            assert(echo@.skip(old(echo)@.len() as int) == before_echo.skip(old(echo)@.len() as int) + action_bytes(action));
            assert(echo@.take(old(echo)@.len() as int) == before_echo.take(old(echo)@.len() as int));
        }
        i += 1;
        if action == LineAction::Done {
            proof {
                assert(echo@ == old(echo)@ + echo@.skip(old(echo)@.len() as int));
            }
            return (Line::Ready(ReadlineResult { len: editor.len, device_error: editor.device_error }), i);
        }
        if action == LineAction::Cancel {
            proof {
                assert(echo@ == old(echo)@ + echo@.skip(old(echo)@.len() as int));
            }
            return (Line::Cancelled, i);
        }
    }
    proof {
        assert(input@.skip(i as int).len() == 0);
        assert(echo@ == old(echo)@ + echo@.skip(old(echo)@.len() as int));
    }
    (Line::Pending, i)
}

/// Every printable ASCII byte, space included, typed while the buffer has
/// room, is stored at the end of the line and echoed; with no room it is
/// dropped and the line stays as it was.
pub proof fn lemma_printable_stored(buf: Seq<u8>, len: int, c: u8)
    requires
        0 <= len <= buf.len(),
        0x20 <= c <= 0x7E,
    ensures
        len < buf.len() ==> edit(buf, len, c) == (buf.update(len, c), len + 1, LineAction::Echo(c)),
        len == buf.len() ==> edit(buf, len, c) == (buf, len, LineAction::Ignore),
{
}

/// A byte outside ASCII's printable range is never stored: carriage return
/// and line feed finish the line, backspace and delete take a character
/// back if there is one, escape abandons the line, and every other such
/// byte is dropped.
pub proof fn lemma_unprintable_not_stored(buf: Seq<u8>, len: int, c: u8)
    requires
        0 <= len <= buf.len(),
        c < 0x20 || c > 0x7E,
    ensures
        edit(buf, len, c).0 == buf,
        (c == 0x0D || c == 0x0A) ==> edit(buf, len, c) == (buf, len, LineAction::Done),
        (c == 0x08 || c == 0x7F) && len > 0 ==> edit(buf, len, c) == (buf, len - 1, LineAction::Erase),
        (c == 0x08 || c == 0x7F) && len == 0 ==> edit(buf, len, c) == (buf, len, LineAction::Ignore),
        c == 0x1B ==> edit(buf, len, c) == (buf, len, LineAction::Cancel),
        c != 0x0D && c != 0x0A && c != 0x08 && c != 0x7F && c != 0x1B ==> edit(buf, len, c) == (
            buf,
            len,
            LineAction::Ignore,
        ),
{
}

} // verus!
