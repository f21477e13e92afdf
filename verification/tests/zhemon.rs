use lib::zhemon::parser::{append, digit, LineParseError, ParsedCommand, Parser};
use lib::zhemon::{dump_cell, error_report, screen_line, Action, DumpCell, LineStep, Zhemon};

fn commands(line: &[u8]) -> (Vec<ParsedCommand>, Option<LineParseError>) {
    let mut parser = Parser::new(line);
    let mut out = Vec::new();
    loop {
        match parser.parse_next() {
            Ok(Some(c)) => out.push(c),
            Ok(None) => return (out, None),
            Err(e) => return (out, Some(e)),
        }
    }
}

#[test]
fn hex_digits_in_either_case() {
    assert_eq!(digit(b'0'), Some(0));
    assert_eq!(digit(b'9'), Some(9));
    assert_eq!(digit(b'a'), Some(10));
    assert_eq!(digit(b'F'), Some(15));
    assert_eq!(digit(b'g'), None);
    assert_eq!(digit(b' '), None);
    assert_eq!(append(0xAB, 0xC), 0xABC);
}

#[test]
fn a_lone_address_examines_one_byte() {
    assert_eq!(commands(b"1000"), (vec![ParsedCommand::ExamineOne(0x1000)], None));
    assert_eq!(commands(b"  ff  "), (vec![ParsedCommand::ExamineOne(0xFF)], None));
}

#[test]
fn an_empty_line_has_no_commands() {
    assert_eq!(commands(b""), (vec![], None));
    assert_eq!(commands(b"   "), (vec![], None));
}

#[test]
fn a_colon_stores_the_bytes_after_it() {
    assert_eq!(
        commands(b"1000: AB cd"),
        (
            vec![
                ParsedCommand::SetAddress(0x1000),
                ParsedCommand::StoreContinuing(0xAB),
                ParsedCommand::StoreContinuing(0xCD),
            ],
            None
        )
    );
}

#[test]
fn something_not_a_byte_after_stored_bytes_is_an_address_again() {
    assert_eq!(
        commands(b"1000: AB 2000"),
        (
            vec![
                ParsedCommand::SetAddress(0x1000),
                ParsedCommand::StoreContinuing(0xAB),
                ParsedCommand::ExamineOne(0x2000),
            ],
            None
        )
    );
}

#[test]
fn a_dot_examines_up_to_an_address() {
    assert_eq!(
        commands(b"1000.100f"),
        (vec![ParsedCommand::SetAddress(0x1000), ParsedCommand::ExamineContinuing(0x100F)], None)
    );
    assert_eq!(commands(b". 20"), (vec![ParsedCommand::ExamineContinuing(0x20)], None));
}

#[test]
fn r_runs_in_either_case() {
    assert_eq!(
        commands(b"400R"),
        (vec![ParsedCommand::SetAddress(0x400), ParsedCommand::Run], None)
    );
    assert_eq!(commands(b"r"), (vec![ParsedCommand::Run], None));
}

#[test]
fn errors_point_at_what_is_wrong() {
    assert_eq!(commands(b"x").1, Some(LineParseError::UnexpectedCharacter(1)));
    assert_eq!(commands(b"12345678901234567").1, Some(LineParseError::AddressTooLong(16)));
    assert_eq!(commands(b"1000: ABC").1, Some(LineParseError::ByteTooLong(8)));
    assert_eq!(commands(b"1000:").1, Some(LineParseError::ExpectedAByte(5)));
    assert_eq!(commands(b".").1, Some(LineParseError::ExpectedAnAddress(1)));
}

#[test]
fn sixteen_digits_fill_an_address() {
    assert_eq!(
        commands(b"ffffffffffffffff"),
        (vec![ParsedCommand::ExamineOne(u64::MAX)], None)
    );
}

#[test]
fn validate_agrees_with_parsing_the_line() {
    assert!(Parser::new(b"1000: 01 02 03 1000.1002 1000R").validate().is_ok());
    assert_eq!(
        Parser::new(b"1000: 01 zz").validate(),
        Err(LineParseError::UnexpectedCharacter(10))
    );
}

#[test]
fn the_monitor_follows_its_commands() {
    let mut z = Zhemon::new();
    assert_eq!(z.handle(ParsedCommand::SetAddress(0x1000)), Action::Nothing);
    assert_eq!(
        z.handle(ParsedCommand::StoreContinuing(0xAA)),
        Action::Store { address: 0x1000, byte: 0xAA }
    );
    assert_eq!(
        z.handle(ParsedCommand::StoreContinuing(0xBB)),
        Action::Store { address: 0x1001, byte: 0xBB }
    );
    assert_eq!(z.handle(ParsedCommand::Run), Action::Run(0x1000));
    assert_eq!(
        z.handle(ParsedCommand::ExamineContinuing(0x1010)),
        Action::Dump { start: 0x1002, end: 0x1010 }
    );
    assert_eq!(z.handle(ParsedCommand::ExamineContinuing(0x1000)), Action::Nothing);
    assert_eq!(z.handle(ParsedCommand::ExamineOne(0x1003)), Action::Examine(0x1003));
    assert_eq!(z.handle(ParsedCommand::Run), Action::Misaligned(0x1003));
    assert_eq!(z.next_address, 0x1004);
}

#[test]
fn addresses_wrap_at_the_top() {
    let mut z = Zhemon::new();
    z.handle(ParsedCommand::ExamineOne(u64::MAX));
    assert_eq!(z.next_address, 0);
}

#[test]
fn a_dump_lays_out_eight_bytes_to_a_line() {
    assert_eq!(dump_cell(0x1003, 0x1003), DumpCell { new_line: false, show_address: true, padding: 3 });
    assert_eq!(dump_cell(0x1004, 0x1003), DumpCell { new_line: false, show_address: false, padding: 0 });
    assert_eq!(dump_cell(0x1008, 0x1003), DumpCell { new_line: true, show_address: true, padding: 0 });
    assert_eq!(dump_cell(0x1000, 0x1000), DumpCell { new_line: false, show_address: true, padding: 0 });
}

#[test]
fn error_reports_place_the_caret() {
    assert_eq!(error_report(LineParseError::UnexpectedCharacter(4)), (4, "Unexpected character"));
    assert_eq!(error_report(LineParseError::AddressTooLong(16)), (17, "Address too long"));
    assert_eq!(error_report(LineParseError::ByteTooLong(8)), (9, "Byte too long"));
    assert_eq!(error_report(LineParseError::ExpectedAByte(5)), (5, "Expected a byte"));
    assert_eq!(error_report(LineParseError::ExpectedAnAddress(1)), (1, "Expected an address"));
}

#[test]
fn a_line_is_screened_before_any_of_it_runs() {
    assert_eq!(screen_line(b"exit", true), LineStep::DeviceError);
    assert_eq!(screen_line(b"exit", false), LineStep::Exit);
    assert_eq!(screen_line(b"exit ", false) == LineStep::Exit, false);
    assert_eq!(screen_line(b"1000", false), LineStep::Run);
    assert_eq!(screen_line(b"1000: 01 zz", false), LineStep::Refuse(LineParseError::UnexpectedCharacter(10)));
}
