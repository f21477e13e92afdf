use vstd::prelude::*;
use vstd::string::StringSliceAdditionalSpecFns;

use crate::dtb::structure::{node_interrupt, node_region, prop_value, Node};
use crate::dtb::Dtb;
use crate::region::Region;

verus! {

/// The one address that cannot come from the device tree, because it is what
/// prints the message saying the device tree could not be read.
pub const EARLYCON_UART: usize = 0x0900_0000;

// Each doubles as its own error message, so a failed lookup names what it wanted.
pub const ROOT: &'static str = "/";
pub const MEMORY: &'static str = "/memory";
pub const UART: &'static str = "arm,pl011";
pub const GIC: &'static str = "arm,cortex-a15-gic";
pub const TIMER: &'static str = "arm,armv8-timer";
// 0.1 predates the standard function IDs, so anything older than this is a miss.
pub const PSCI: &'static str = "arm,psci-0.2";

/// The timer's `interrupts` lists secure physical, non-secure physical, virtual
/// and hypervisor. CNTP_* drives the second.
pub const NON_SECURE_PHYSICAL: usize = 1;

// The device tree numbers each interrupt space from zero; the GIC numbers them
// all in one space, as 0-15 SGI, 16-31 PPI, 32+ SPI.
pub const SPI: u32 = 0;
pub const PPI: u32 = 1;
pub const PPI_BASE: u32 = 16;
pub const SPI_BASE: u32 = 32;

/// Which instruction reaches the PSCI implementation, which depends on the
/// privilege level it runs at: EL2 for a hypervisor, EL3 for secure firmware.
#[derive(Clone, Copy, PartialEq, Eq, Structural, Debug)]
pub enum Conduit {
    Hvc,
    Smc,
}

/// The devices and memory the kernel runs on.
pub struct Board {
    pub uart: Device,
    pub gic: Gic,
    pub memory: Region,
    pub timer_intid: u32,
    pub psci: Conduit,
}

/// Where the interrupt controller's two register blocks are.
#[derive(Debug, Clone, Copy)]
pub struct Gic {
    pub distributor_base: usize,
    pub cpu_base: usize,
}

/// A device's registers and the interrupt it raises.
#[derive(Debug, Clone, Copy)]
pub struct Device {
    pub base: usize,
    pub intid: u32,
}

/// The GIC's number for interrupt `number` of the device tree's space
/// `kind`: shared peripheral interrupts start at 32, private ones at 16.
pub open spec fn spec_intid(kind: u32, number: u32) -> Option<u32> {
    if kind == SPI && number + SPI_BASE <= u32::MAX {
        Some((number + SPI_BASE) as u32)
    } else if kind == PPI && number + PPI_BASE <= u32::MAX {
        Some((number + PPI_BASE) as u32)
    } else {
        None
    }
}

/// The GIC's number for the `index`-th interrupt of the node whose
/// properties start at `props`.
pub open spec fn node_intid(blob: Seq<u8>, strings: Seq<u8>, props: int, index: int) -> Option<u32> {
    match node_interrupt(blob, strings, props, index) {
        Some((kind, number)) => spec_intid(kind, number),
        None => None,
    }
}

/// The conduit a `method` property value names.
pub open spec fn spec_conduit(method: Option<Seq<u8>>) -> Option<Conduit> {
    if method == Some("hvc\0".spec_bytes()) {
        Some(Conduit::Hvc)
    } else if method == Some("smc\0".spec_bytes()) {
        Some(Conduit::Smc)
    } else {
        None
    }
}

/// What the device tree says of the board, or the first lookup that failed.
pub open spec fn spec_discover(dtb: Dtb) -> Result<
    (Region, (usize, u32), (usize, usize), u32, Conduit),
    &'static str,
> {
    let s = dtb.spec_struct()->0;
    let st = dtb.spec_strings();
    match dtb.spec_root() {
        None => Err(ROOT),
        Some((_rd, root)) => {
            let (ac, sc) = crate::dtb::structure::node_cells(s, st, root);
            let region = |props: int, i: int| node_region(s, st, props, i, ac as int, sc as int);
            match dtb.spec_find_memory() {
                None => Err(MEMORY),
                Some((_md, mp)) => match region(mp, 0) {
                    None => Err(MEMORY),
                    Some(memory) => match dtb.spec_find_compatible(UART.spec_bytes()) {
                        None => Err(UART),
                        Some((_ud, up)) => match (region(up, 0), node_intid(s, st, up, 0)) {
                            (Some(uart), Some(uart_intid)) => match dtb.spec_find_compatible(
                                GIC.spec_bytes(),
                            ) {
                                None => Err(GIC),
                                Some((_gd, gp)) => match (region(gp, 0), region(gp, 1)) {
                                    (Some(dist), Some(cpu)) => match dtb.spec_find_compatible(
                                        TIMER.spec_bytes(),
                                    ) {
                                        None => Err(TIMER),
                                        Some((_td, tp)) => match node_intid(
                                            s,
                                            st,
                                            tp,
                                            NON_SECURE_PHYSICAL as int,
                                        ) {
                                            None => Err(TIMER),
                                            Some(timer) => match dtb.spec_find_compatible(
                                                PSCI.spec_bytes(),
                                            ) {
                                                None => Err(PSCI),
                                                Some((_pd, pp)) => match spec_conduit(
                                                    prop_value(s, st, pp, "method".spec_bytes()),
                                                ) {
                                                    None => Err(PSCI),
                                                    Some(conduit) => Ok(
                                                        (
                                                            memory,
                                                            (uart.base, uart_intid),
                                                            (dist.base, cpu.base),
                                                            timer,
                                                            conduit,
                                                        ),
                                                    ),
                                                },
                                            },
                                        },
                                    },
                                    _ => Err(GIC),
                                },
                            },
                            _ => Err(UART),
                        },
                    },
                },
            }
        },
    }
}

impl Board {
    /// Read the board off the device tree: memory, the UART, the interrupt
    /// controller, the timer's interrupt and how to reach PSCI. A lookup that
    /// fails names what it looked for.
    pub fn discover(dtb: &Dtb) -> (board: Result<Board, &'static str>)
        ensures
            match spec_discover(*dtb) {
                Ok((memory, uart, gic, timer, psci)) => board matches Ok(b) && b.memory == memory
                    && b.uart.base == uart.0 && b.uart.intid == uart.1 && b.gic.distributor_base
                    == gic.0 && b.gic.cpu_base == gic.1 && b.timer_intid == timer && b.psci == psci,
                Err(e) => board == Err::<Board, &'static str>(e),
            },
    {
        let cells = match dtb.root_cells() {
            Some(cells) => cells,
            None => {
                return Err(ROOT);
            },
        };
        let memory = match dtb.find_memory() {
            Some(node) => match node.region(0, cells) {
                Some(memory) => memory,
                None => {
                    return Err(MEMORY);
                },
            },
            None => {
                return Err(MEMORY);
            },
        };
        let node = match dtb.find_compatible(UART.as_bytes()) {
            Some(node) => node,
            None => {
                return Err(UART);
            },
        };
        let uart_region = node.region(0, cells);
        let uart_intid = intid(&node, 0);
        let uart = match (uart_region, uart_intid) {
            (Some(region), Some(intid)) => Device { base: region.base, intid },
            _ => {
                return Err(UART);
            },
        };
        let node = match dtb.find_compatible(GIC.as_bytes()) {
            Some(node) => node,
            None => {
                return Err(GIC);
            },
        };
        let gic = match (node.region(0, cells), node.region(1, cells)) {
            (Some(distributor), Some(cpu)) => Gic { distributor_base: distributor.base, cpu_base: cpu.base },
            _ => {
                return Err(GIC);
            },
        };
        let node = match dtb.find_compatible(TIMER.as_bytes()) {
            Some(node) => node,
            None => {
                return Err(TIMER);
            },
        };
        let timer_intid = match intid(&node, NON_SECURE_PHYSICAL) {
            Some(intid) => intid,
            None => {
                return Err(TIMER);
            },
        };
        let node = match dtb.find_compatible(PSCI.as_bytes()) {
            Some(node) => node,
            None => {
                return Err(PSCI);
            },
        };
        let method = match node.property("method".as_bytes()) {
            Some(property) => property.value,
            None => {
                return Err(PSCI);
            },
        };
        let psci = if crate::dtb::structure::same_bytes(method, "hvc\0".as_bytes()) {
            Conduit::Hvc
        } else if crate::dtb::structure::same_bytes(method, "smc\0".as_bytes()) {
            Conduit::Smc
        } else {
            return Err(PSCI);
        };
        Ok(Board { uart, gic, memory, timer_intid, psci })
    }
}

/// The GIC's number for the `index`-th interrupt of `node`.
fn intid(node: &Node, index: usize) -> (intid: Option<u32>)
    ensures
        intid == node_intid(node.spec_blob(), node.spec_strings(), node.spec_props(), index as int),
{
    let (kind, number) = match node.interrupt(index) {
        Some(interrupt) => interrupt,
        None => {
            return None;
        },
    };
    if kind == SPI {
        number.checked_add(SPI_BASE)
    } else if kind == PPI {
        number.checked_add(PPI_BASE)
    } else {
        None
    }
}

} // verus!
