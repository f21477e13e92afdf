use lib::board::{Board, Conduit, PSCI, UART};
use lib::dtb::Dtb;

/// A flattened device tree, built up node by node.
struct Fdt {
    structs: Vec<u8>,
    strings: Vec<u8>,
}

fn word(out: &mut Vec<u8>, value: u32) {
    out.extend_from_slice(&value.to_be_bytes());
}

fn pad(out: &mut Vec<u8>) {
    while out.len() % 4 != 0 {
        out.push(0);
    }
}

fn cells(values: &[u32]) -> Vec<u8> {
    let mut out = Vec::new();
    for v in values {
        word(&mut out, *v);
    }
    out
}

impl Fdt {
    fn new() -> Self {
        Fdt { structs: Vec::new(), strings: Vec::new() }
    }

    fn begin(&mut self, name: &str) {
        word(&mut self.structs, 1);
        self.structs.extend_from_slice(name.as_bytes());
        self.structs.push(0);
        pad(&mut self.structs);
    }

    fn prop(&mut self, name: &str, value: &[u8]) {
        let offset = self.strings.len() as u32;
        self.strings.extend_from_slice(name.as_bytes());
        self.strings.push(0);
        word(&mut self.structs, 3);
        word(&mut self.structs, value.len() as u32);
        word(&mut self.structs, offset);
        self.structs.extend_from_slice(value);
        pad(&mut self.structs);
    }

    fn end(&mut self) {
        word(&mut self.structs, 2);
    }

    fn finish(mut self) -> Vec<u8> {
        word(&mut self.structs, 9);
        let header = 40u32;
        let rsvmap = header;
        let structs = rsvmap + 16;
        let strings = structs + self.structs.len() as u32;
        let total = strings + self.strings.len() as u32;
        let mut out = Vec::new();
        for v in [
            0xd00d_feed,
            total,
            structs,
            strings,
            rsvmap,
            17,
            16,
            0,
            self.strings.len() as u32,
            self.structs.len() as u32,
        ] {
            word(&mut out, v);
        }
        out.extend_from_slice(&[0u8; 16]);
        out.extend_from_slice(&self.structs);
        out.extend_from_slice(&self.strings);
        out
    }
}

fn virt(psci_method: &[u8], with_uart: bool) -> Vec<u8> {
    let mut fdt = Fdt::new();
    fdt.begin("");
    fdt.prop("#address-cells", &cells(&[2]));
    fdt.prop("#size-cells", &cells(&[2]));
    fdt.begin("memory@40000000");
    fdt.prop("device_type", b"memory\0");
    fdt.prop("reg", &cells(&[0, 0x4000_0000, 0, 0x0800_0000]));
    fdt.end();
    if with_uart {
        fdt.begin("pl011@9000000");
        fdt.prop("compatible", b"arm,pl011\0arm,primecell\0");
        fdt.prop("reg", &cells(&[0, 0x0900_0000, 0, 0x1000]));
        fdt.prop("interrupts", &cells(&[0, 1, 4]));
        fdt.end();
    }
    fdt.begin("intc@8000000");
    fdt.prop("compatible", b"arm,cortex-a15-gic\0");
    fdt.prop("reg", &cells(&[0, 0x0800_0000, 0, 0x1_0000, 0, 0x0801_0000, 0, 0x1_0000]));
    fdt.end();
    fdt.begin("timer");
    fdt.prop("compatible", b"arm,armv8-timer\0");
    fdt.prop("interrupts", &cells(&[1, 13, 4, 1, 14, 4, 1, 11, 4, 1, 10, 4]));
    fdt.end();
    fdt.begin("psci");
    fdt.prop("compatible", b"arm,psci-0.2\0arm,psci\0");
    fdt.prop("method", psci_method);
    fdt.end();
    fdt.end();
    fdt.finish()
}

#[test]
fn the_board_is_discovered_from_its_device_tree() {
    let blob = virt(b"hvc\0", true);
    let dtb = Dtb::from_bytes(&blob).expect("a valid device tree");
    assert_eq!(dtb.magic(), 0xd00d_feed);
    assert_eq!(dtb.total_size() as usize, blob.len());
    assert_eq!(dtb.root_cells(), Some((2, 2)));
    let memory = dtb.memory().unwrap();
    assert_eq!((memory.addr, memory.size), (0x4000_0000, 0x0800_0000));
    let board = Board::discover(&dtb).expect("every device");
    assert_eq!((board.memory.base, board.memory.size), (0x4000_0000, 0x0800_0000));
    assert_eq!((board.uart.base, board.uart.intid), (0x0900_0000, 33));
    assert_eq!((board.gic.distributor_base, board.gic.cpu_base), (0x0800_0000, 0x0801_0000));
    assert_eq!(board.timer_intid, 30);
    assert_eq!(board.psci, Conduit::Hvc);
}

#[test]
fn a_missing_device_is_named() {
    let blob = virt(b"hvc\0", false);
    let dtb = Dtb::from_bytes(&blob).unwrap();
    assert_eq!(Board::discover(&dtb).err(), Some(UART));
    let blob = virt(b"svc\0", true);
    let dtb = Dtb::from_bytes(&blob).unwrap();
    assert_eq!(Board::discover(&dtb).err(), Some(PSCI));
    let blob = virt(b"smc\0", true);
    let dtb = Dtb::from_bytes(&blob).unwrap();
    assert_eq!(Board::discover(&dtb).unwrap().psci, Conduit::Smc);
}

#[test]
fn a_blob_without_the_magic_is_refused() {
    let mut blob = virt(b"hvc\0", true);
    blob[0] = 0;
    assert!(Dtb::from_bytes(&blob).is_none());
    assert!(Dtb::from_bytes(&blob[..20]).is_none());
}

#[test]
fn nodes_are_found_by_what_they_are_compatible_with() {
    let blob = virt(b"hvc\0", true);
    let dtb = Dtb::from_bytes(&blob).unwrap();
    let uart = dtb.find_compatible(b"arm,primecell").expect("the second name counts too");
    assert!(uart.is_compatible(b"arm,pl011"));
    assert_eq!(uart.interrupt(0), Some((0, 1)));
    assert!(dtb.find_compatible(b"arm,nothing").is_none());
    assert!(dtb.find_memory().unwrap().is_memory());
}
