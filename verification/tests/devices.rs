use lib::board::Gic;
use lib::console::{read_line, Line, LineAction, LineEditor, ReadlineResult};
use lib::exception::{ESRClass, Esr, FaultStatus};
use lib::gic::{acknowledge, enable, line_count, EnableWrites};
use lib::timer::{delay, duration_from, interval_for, next_deadline, sleep, ticks_from};
use lib::uart::{write_str, Received, RegisterWrite, RxFlags, UARTDriver};

fn rx(byte: u8) -> Received {
    Received { byte, flags: RxFlags::new(0) }
}

#[test]
fn read_line_stores_and_echoes_a_line() {
    let mut buf = [0u8; 8];
    let mut echo = Vec::new();
    let input = [rx(b'a'), rx(b'b'), rx(0x7F), rx(b'c'), rx(b'\r'), rx(b'z')];
    let (line, taken) = read_line(&mut buf, &input, &mut echo);
    assert_eq!(line, Line::Ready(ReadlineResult { len: 2, device_error: false }));
    assert_eq!(taken, 5);
    assert_eq!(&buf[..2], b"ac");
    assert_eq!(echo, b"ab\x08 \x08c\r\n".to_vec());
}

#[test]
fn escape_abandons_the_line() {
    let mut buf = [0u8; 8];
    let mut echo = Vec::new();
    let input = [rx(b'a'), rx(0x1B)];
    assert_eq!(read_line(&mut buf, &input, &mut echo), (Line::Cancelled, 2));
    assert_eq!(echo, b"a\r\n".to_vec());
}

#[test]
fn a_full_buffer_drops_further_characters_and_errors_are_remembered() {
    let mut buf = [0u8; 2];
    let mut echo = Vec::new();
    let bad = Received { byte: b'c', flags: RxFlags::new(1) };
    let input = [rx(b'a'), rx(b'b'), bad, rx(b'\n')];
    let (line, _) = read_line(&mut buf, &input, &mut echo);
    assert_eq!(line, Line::Ready(ReadlineResult { len: 2, device_error: true }));
    assert_eq!(&buf, b"ab");
    assert_eq!(read_line(&mut buf, &[rx(b'q')], &mut echo).0, Line::Pending);
}

#[test]
fn the_editor_ignores_backspace_on_an_empty_line() {
    let mut buf = [0u8; 4];
    let mut editor = LineEditor::new();
    assert_eq!(editor.step(&mut buf, rx(0x08)), LineAction::Ignore);
    assert_eq!(editor.step(&mut buf, rx(0x01)), LineAction::Ignore);
    assert_eq!(editor.step(&mut buf, rx(b'x')), LineAction::Echo(b'x'));
    assert_eq!(editor.step(&mut buf, rx(0x08)), LineAction::Erase);
    assert_eq!(editor.len, 0);
}

#[test]
fn exception_classes_and_fault_codes_decode() {
    assert_eq!(ESRClass::from(0x25u64), ESRClass::DataAbortCurrentEL);
    assert_eq!(ESRClass::from(0x3Cu64), ESRClass::Brk);
    assert_eq!(ESRClass::from(0x07u64), ESRClass::Other(7));
    let esr = Esr::new(0x9600_0045);
    assert_eq!(esr.class, ESRClass::DataAbortCurrentEL);
    assert_eq!(esr.syndrome, 0x45);
    assert!(esr.is_write());
    assert!(esr.class.has_fault_address());
    assert_eq!(FaultStatus::from_syndrome(0x05), FaultStatus::Translation(1));
    assert_eq!(FaultStatus::from_syndrome(0x0F), FaultStatus::Permission(3));
    assert_eq!(FaultStatus::from_syndrome(0x10), FaultStatus::External);
    assert_eq!(FaultStatus::from_syndrome(0x21), FaultStatus::Alignment);
    assert_eq!(FaultStatus::from_syndrome(0x30), FaultStatus::TlbConflict);
    assert_eq!(FaultStatus::from_syndrome(0x3F), FaultStatus::Other(0x3F));
}

#[test]
fn interrupts_are_acknowledged_unless_spurious() {
    assert!(acknowledge(1023).is_none());
    assert!(acknowledge(0x3FF | 0x400).is_none());
    let interrupt = acknowledge(0x1C21).unwrap();
    assert_eq!(interrupt.intid(), 0x21);
    assert_eq!(interrupt.end(), 0x1C21);
}

#[test]
fn enabling_an_interrupt_names_its_registers() {
    let gic = Gic { distributor_base: 0x0800_0000, cpu_base: 0x0801_0000 };
    assert_eq!(
        enable(&gic, 33),
        EnableWrites { enable_register: 0x0800_0104, enable_bits: 2, target_register: Some(0x0800_0821) }
    );
    assert_eq!(
        enable(&gic, 30),
        EnableWrites { enable_register: 0x0800_0100, enable_bits: 1 << 30, target_register: None }
    );
    assert_eq!(line_count(2), 96);
}

#[test]
fn durations_round_up_to_ticks_and_back_down() {
    assert_eq!(ticks_from(1, 500_000_000, 62_500_000), 93_750_000);
    assert_eq!(ticks_from(0, 1, 62_500_000), 1);
    assert_eq!(ticks_from(0, 0, 62_500_000), 0);
    assert_eq!(duration_from(93_750_000, 62_500_000), (1, 500_000_000));
    assert_eq!(duration_from(1, 3), (0, 333_333_333));
    assert_eq!(interval_for(62_500_000, 100), 625_000);
}

#[test]
fn deadlines_stay_on_the_grid_of_intervals() {
    assert_eq!(next_deadline(100, 10, 100), 110);
    assert_eq!(next_deadline(100, 10, 125), 130);
    assert_eq!(next_deadline(100, 10, 130), 140);
    assert_eq!(delay(1000, 0, 1, 62_500_000), 1001);
    assert_eq!(sleep(7, 1, 0, 100), 108);
}

#[test]
fn receive_errors_read_as_their_names() {
    assert_eq!(RxFlags::new(0).describe(), b"none".to_vec());
    assert_eq!(RxFlags::new(0b0101).describe(), b"FE BE".to_vec());
    assert_eq!(RxFlags::new(0b1111).describe(), b"FE PE BE OE".to_vec());
    assert_eq!(RxFlags::new(0b1000).describe(), b"OE".to_vec());
    assert!(RxFlags::from_data(0x0400).brk());
}

#[test]
fn line_feeds_go_out_with_carriage_returns() {
    let mut out = Vec::new();
    write_str(b"a\nb\n", &mut out);
    assert_eq!(out, b"a\r\nb\r\n".to_vec());
}

#[test]
fn the_uart_is_driven_through_its_registers() {
    let uart = UARTDriver::new(0x0900_0000);
    let writes = uart.init();
    assert_eq!(writes.len(), 8);
    assert_eq!(writes[0], RegisterWrite { address: 0x0900_0030, value: 0 });
    assert_eq!(writes[2], RegisterWrite { address: 0x0900_0024, value: 13 });
    assert_eq!(writes[3], RegisterWrite { address: 0x0900_0028, value: 1 });
    assert_eq!(writes[7], RegisterWrite { address: 0x0900_0030, value: 0x301 });
    assert_eq!(uart.enable_interrupt(), RegisterWrite { address: 0x0900_0038, value: 0x50 });
    assert_eq!(uart.putc(0x20, b'x'), None);
    assert_eq!(uart.putc(0, b'x'), Some(RegisterWrite { address: 0x0900_0000, value: 0x78 }));
    assert!(UARTDriver::has_byte(0));
    assert!(!UARTDriver::has_byte(0x10));
    let got = UARTDriver::try_getc(0, 0x0141).unwrap();
    assert_eq!(got.byte, 0x41);
    assert!(got.flags.framing());
    assert!(UARTDriver::try_getc(0x10, 0x41).is_none());
    assert!(UARTDriver::flush(0x08));
    assert!(!UARTDriver::flush(0));
}
