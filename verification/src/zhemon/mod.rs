use vstd::prelude::*;

use crate::zhemon::parser::{check, LineParseError, Mode, ParsedCommand, Parser};

pub mod cursor;
pub mod parser;

verus! {

/// The prompt the monitor shows before each line: a backslash.
pub const PROMPT: u8 = 0x5C;

/// What the monitor has to do with memory for one command.
#[derive(Debug, Clone, Copy, PartialEq, Eq, Structural)]
pub enum Action {
    /// Nothing to touch.
    Nothing,
    /// Show the byte at the address.
    Examine(u64),
    /// Show the bytes from `start` through `end`.
    Dump { start: u64, end: u64 },
    /// Store the byte at the address.
    Store { address: u64, byte: u8 },
    /// Run the code at the address.
    Run(u64),
    /// The address to run from is not a multiple of four: refuse.
    Misaligned(u64),
}

/// What the monitor does with a line read from the console, before any of
/// its commands runs.
#[derive(Debug, Clone, Copy, PartialEq, Eq, Structural)]
pub enum LineStep {
    /// The console reported an error while the line was typed: skip it.
    DeviceError,
    /// The line is `exit`: stop the monitor.
    Exit,
    /// The line does not parse: report the error and run none of it.
    Refuse(LineParseError),
    /// Carry out the line's commands one after another.
    Run,
}

/// The word that stops the monitor.
pub open spec fn exit_word() -> Seq<u8> {
    seq![0x65u8, 0x78u8, 0x69u8, 0x74u8]
}

/// Decide what to do with a line: skip it after a device error, stop at
/// `exit`, refuse it whole when any of it does not parse, and run it
/// otherwise.
pub fn screen_line(line: &[u8], device_error: bool) -> (step: LineStep)
    ensures
        step == (if device_error {
            LineStep::DeviceError
        } else if line@ == exit_word() {
            LineStep::Exit
        } else {
            match check(line@, 0, Mode::Default) {
                Ok(()) => LineStep::Run,
                Err(e) => LineStep::Refuse(e),
            }
        }),
{
    if device_error {
        return LineStep::DeviceError;
    }
    if line.len() == 4 && line[0] == 0x65 && line[1] == 0x78 && line[2] == 0x69 && line[3] == 0x74 {
        assert(line@ =~= exit_word());
        return LineStep::Exit;
    }
    match Parser::new(line).validate() {
        Ok(()) => LineStep::Run,
        Err(e) => LineStep::Refuse(e),
    }
}

/// How one byte of a dump is laid out: whether a new line starts before it,
/// whether its address is written first, and how many empty columns come
/// before it.
#[derive(Debug, Clone, Copy, PartialEq, Eq, Structural)]
pub struct DumpCell {
    pub new_line: bool,
    pub show_address: bool,
    pub padding: u64,
}

/// The monitor's state: the address a line last named, and the address the
/// next examine or store continues from.
pub struct Zhemon {
    pub last_address: u64,
    pub next_address: u64,
}

impl Zhemon {
    /// A monitor at address zero.
    pub fn new() -> (zhemon: Self)
        ensures
            zhemon.last_address == 0,
            zhemon.next_address == 0,
    {
        Self { last_address: 0, next_address: 0 }
    }

    /// Carry out one parsed command: the new state, and what to do with
    /// memory. Addresses wrap around at the end of the address space.
    pub fn handle(&mut self, command: ParsedCommand) -> (action: Action)
        ensures
            match command {
                ParsedCommand::SetAddress(a) => {
                    &&& final(self).last_address == a
                    &&& final(self).next_address == a
                    &&& action == Action::Nothing
                },
                ParsedCommand::ExamineOne(a) => {
                    &&& final(self).last_address == a
                    &&& final(self).next_address == (a + 1) % 0x1_0000_0000_0000_0000
                    &&& action == Action::Examine(a)
                },
                ParsedCommand::ExamineContinuing(end) => {
                    &&& final(self).last_address == end
                    &&& final(self).next_address == (end + 1) % 0x1_0000_0000_0000_0000
                    &&& action == if old(self).next_address > end {
                        Action::Nothing
                    } else {
                        Action::Dump { start: old(self).next_address, end }
                    }
                },
                ParsedCommand::StoreContinuing(b) => {
                    &&& final(self).last_address == old(self).last_address
                    &&& final(self).next_address == (old(self).next_address + 1)
                        % 0x1_0000_0000_0000_0000
                    &&& action == Action::Store { address: old(self).next_address, byte: b }
                },
                ParsedCommand::Run => {
                    &&& *final(self) == *old(self)
                    &&& action == if old(self).last_address % 4 != 0 {
                        Action::Misaligned(old(self).last_address)
                    } else {
                        Action::Run(old(self).last_address)
                    }
                },
            },
    {
        match command {
            ParsedCommand::SetAddress(address) => self.handle_set_address(address),
            ParsedCommand::ExamineOne(address) => self.handle_examine_one(address),
            ParsedCommand::ExamineContinuing(end) => self.handle_examine_continuing(end),
            ParsedCommand::StoreContinuing(byte) => self.handle_store_continuing(byte),
            ParsedCommand::Run => self.handle_run(),
        }
    }

    fn handle_set_address(&mut self, address: u64) -> (action: Action)
        ensures
            final(self).last_address == address,
            final(self).next_address == address,
            action == Action::Nothing,
    {
        self.last_address = address;
        self.next_address = address;
        Action::Nothing
    }

    fn handle_examine_one(&mut self, address: u64) -> (action: Action)
        ensures
            final(self).last_address == address,
            final(self).next_address == (address + 1) % 0x1_0000_0000_0000_0000,
            action == Action::Examine(address),
    {
        self.last_address = address;
        self.next_address = address.wrapping_add(1);
        Action::Examine(address)
    }

    fn handle_examine_continuing(&mut self, end: u64) -> (action: Action)
        ensures
            final(self).last_address == end,
            final(self).next_address == (end + 1) % 0x1_0000_0000_0000_0000,
            action == if old(self).next_address > end {
                Action::Nothing
            } else {
                Action::Dump { start: old(self).next_address, end }
            },
    {
        let start = self.next_address;
        self.last_address = end;
        self.next_address = end.wrapping_add(1);
        if start > end {
            return Action::Nothing;
        }
        Action::Dump { start, end }
    }

    fn handle_store_continuing(&mut self, byte: u8) -> (action: Action)
        ensures
            final(self).last_address == old(self).last_address,
            final(self).next_address == (old(self).next_address + 1) % 0x1_0000_0000_0000_0000,
            action == (Action::Store { address: old(self).next_address, byte }),
    {
        let address = self.next_address;
        self.next_address = self.next_address.wrapping_add(1);
        Action::Store { address, byte }
    }

    fn handle_run(&self) -> (action: Action)
        ensures
            action == if self.last_address % 4 != 0 {
                Action::Misaligned(self.last_address)
            } else {
                Action::Run(self.last_address)
            },
    {
        if self.last_address % 4 != 0 {
            Action::Misaligned(self.last_address)
        } else {
            Action::Run(self.last_address)
        }
    }
}

/// How the byte at `address` is laid out in a dump that began at `start`:
/// eight bytes to a line, each line starting with the address of its first
/// byte, and the first line shifted so that bytes keep their columns.
pub fn dump_cell(address: u64, start: u64) -> (cell: DumpCell)
    ensures
        cell.new_line == (address != start && address % 8 == 0),
        cell.show_address == (address % 8 == 0 || address == start),
        cell.padding == (if address == start {
            address % 8
        } else {
            0
        }),
{
    let carry = address % 8;
    let is_start = address == start;
    DumpCell {
        new_line: !is_start && carry == 0,
        show_address: carry == 0 || is_start,
        padding: if is_start {
            carry
        } else {
            0
        },
    }
}

/// Where under the line to point at an error, and what to call it.
pub fn error_report(err: LineParseError) -> (report: (usize, &'static str))
    requires
        err matches LineParseError::AddressTooLong(i) ==> i < usize::MAX,
        err matches LineParseError::ByteTooLong(i) ==> i < usize::MAX,
    ensures
        report.0 == match err {
            LineParseError::UnexpectedCharacter(i) => i as int,
            LineParseError::AddressTooLong(i) => i + 1,
            LineParseError::ByteTooLong(i) => i + 1,
            LineParseError::ExpectedAByte(i) => i as int,
            LineParseError::ExpectedAnAddress(i) => i as int,
        },
        report.1@ == match err {
            LineParseError::UnexpectedCharacter(_) => "Unexpected character"@,
            LineParseError::AddressTooLong(_) => "Address too long"@,
            LineParseError::ByteTooLong(_) => "Byte too long"@,
            LineParseError::ExpectedAByte(_) => "Expected a byte"@,
            LineParseError::ExpectedAnAddress(_) => "Expected an address"@,
        },
{
    match err {
        LineParseError::UnexpectedCharacter(i) => (i, "Unexpected character"),
        LineParseError::AddressTooLong(i) => (i + 1, "Address too long"),
        LineParseError::ByteTooLong(i) => (i + 1, "Byte too long"),
        LineParseError::ExpectedAByte(i) => (i, "Expected a byte"),
        LineParseError::ExpectedAnAddress(i) => (i, "Expected an address"),
    }
}

} // verus!
