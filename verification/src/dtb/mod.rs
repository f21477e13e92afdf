pub mod cursor;
pub mod header;
pub mod structure;

use vstd::prelude::*;
use vstd::string::StringSliceAdditionalSpecFns;

use crate::dtb::cursor::{first_zero, Cursor};
use crate::dtb::header::Header;
use crate::dtb::structure::{
    node_cells, node_compatible, node_is_memory, prop_value, read_cells, scan, spec_read_cells, Node,
    Nodes,
};

verus! {

/// The depth of the root's children, where `/memory` sits.
pub const ROOT_CHILD_DEPTH: u32 = 1;

/// The string of `strings` that starts at `offset`, without its terminator.
pub open spec fn spec_string_at(strings: Seq<u8>, offset: int) -> Option<Seq<u8>> {
    if offset < 0 || offset > strings.len() {
        None
    } else {
        match first_zero(strings, offset) {
            Some(z) => Some(strings.subrange(offset, z)),
            None => None,
        }
    }
}

/// The first node from `offset` on, at nesting `depth`, for which `wanted`
/// holds of its depth and where its properties start.
pub open spec fn first_node(
    blob: Seq<u8>,
    offset: int,
    depth: int,
    wanted: spec_fn(int, int) -> bool,
) -> Option<(int, int)>
    decreases blob.len() + 4 - offset,
{
    let (found, next, next_depth) = scan(blob, offset, depth);
    match found {
        None => None,
        Some((d, props)) => if wanted(d, props) {
            Some((d, props))
        } else if offset < next <= blob.len() + 4 {
            first_node(blob, next, next_depth, wanted)
        } else {
            None
        },
    }
}

/// A child of the root whose device type is memory.
pub open spec fn memory_node(blob: Seq<u8>, strings: Seq<u8>) -> spec_fn(int, int) -> bool {
    |d: int, props: int| d == ROOT_CHILD_DEPTH && node_is_memory(blob, strings, props)
}

/// A node whose `compatible` list names `name`.
pub open spec fn compatible_node(blob: Seq<u8>, strings: Seq<u8>, name: Seq<u8>) -> spec_fn(
    int,
    int,
) -> bool {
    |d: int, props: int| node_compatible(blob, strings, props, name)
}

/// A node found by a walk lies further on than where the walk started.
pub proof fn lemma_scan_advances(blob: Seq<u8>, offset: int, depth: int)
    ensures
        scan(blob, offset, depth).0 is Some ==> offset < scan(blob, offset, depth).1 <= blob.len()
            + 4,
        match scan(blob, offset, depth).0 {
            Some((_d, props)) => scan(blob, offset, depth).1 == props,
            None => true,
        },
    decreases blob.len() + 4 - offset,
{
    if 0 <= offset && offset + 4 <= blob.len() {
        let at = offset + 4;
        let token = crate::dtb::cursor::be_u32(blob, offset);
        if token == crate::dtb::structure::TOKEN_BEGIN_NODE {
            crate::dtb::cursor::lemma_first_zero(blob, at);
        } else if token == crate::dtb::structure::TOKEN_PROP {
            if at + 8 <= blob.len() && at + 8 + crate::dtb::cursor::be_u32(blob, at) <= blob.len() {
                lemma_scan_advances(
                    blob,
                    crate::dtb::cursor::align4(at + 8 + crate::dtb::cursor::be_u32(blob, at)),
                    depth,
                );
            }
        } else if token == crate::dtb::structure::TOKEN_END_NODE {
            lemma_scan_advances(blob, at, if depth > 0 { depth - 1 } else { 0 });
        } else if token == crate::dtb::structure::TOKEN_NOOP || token
            == crate::dtb::structure::TOKEN_END {
            lemma_scan_advances(blob, at, depth);
        }
    }
}

/// One step of the search for a node: the node the walk reaches is taken
/// if it is wanted, and otherwise the search goes on from where the walk
/// stopped.
pub proof fn lemma_first_node_step(blob: Seq<u8>, offset: int, depth: int, wanted: spec_fn(int, int) -> bool)
    ensures
        ({
            let (found, next, next_depth) = scan(blob, offset, depth);
            first_node(blob, offset, depth, wanted) == match found {
                None => None,
                Some((d, props)) => if wanted(d, props) {
                    Some((d, props))
                } else {
                    first_node(blob, next, next_depth, wanted)
                },
            }
        }),
{
    lemma_scan_advances(blob, offset, depth);
}

/// The physical memory a device tree describes.
pub struct Memory {
    pub addr: usize,
    pub size: usize,
}

/// The strings block, where property names live.
#[derive(Copy, Clone)]
pub struct Strings<'a> {
    strings_blob: &'a [u8],
}

impl<'a> Strings<'a> {
    #[verifier::type_invariant]
    closed spec fn inv(self) -> bool {
        self.strings_blob@.len() <= isize::MAX
    }

    pub closed spec fn spec_blob(self) -> Seq<u8> {
        self.strings_blob@
    }

    pub fn new(strings_blob: &'a [u8]) -> (strings: Self)
        requires
            strings_blob@.len() <= isize::MAX,
        ensures
            strings.spec_blob() == strings_blob@,
    {
        Strings { strings_blob }
    }

    /// The NUL-terminated string at `offset`, without its terminator.
    pub fn string_at(&self, offset: usize) -> (string: Option<&'a [u8]>)
        ensures
            match spec_string_at(self.spec_blob(), offset as int) {
                Some(s) => string matches Some(r) && r@ == s,
                None => string is None,
            },
    {
        proof {
            use_type_invariant(self);
        }
        if offset > self.strings_blob.len() {
            return None;
        }
        let mut cursor = Cursor::new(self.strings_blob, offset);
        cursor.cstring()
    }
}

/// A flattened device tree: its header, structure block and strings block.
pub struct Dtb<'a> {
    blob: &'a [u8],
    header: Header<'a>,
    strings: Strings<'a>,
}

/// The part `[start, start + len)` of `blob`, if it is all there.
pub open spec fn part(blob: Seq<u8>, start: int, len: int) -> Option<Seq<u8>> {
    if start + len <= blob.len() {
        Some(blob.subrange(start, start + len))
    } else {
        None
    }
}

impl<'a> Dtb<'a> {
    #[verifier::type_invariant]
    closed spec fn inv(self) -> bool {
        self.blob@.len() <= isize::MAX
    }

    /// The blob, as long as its header says.
    pub closed spec fn spec_blob(self) -> Seq<u8> {
        self.blob@
    }

    /// The bytes the header was read from.
    pub closed spec fn spec_header(self) -> Seq<u8> {
        self.header.spec_blob()
    }

    pub closed spec fn spec_strings(self) -> Seq<u8> {
        self.strings.spec_blob()
    }

    /// The header field at `offset`.
    pub open spec fn field(self, offset: usize) -> u32 {
        crate::dtb::cursor::be_u32(self.spec_header(), offset as int)
    }

    /// The structure block, if the blob holds all of it.
    pub open spec fn spec_struct(self) -> Option<Seq<u8>> {
        part(
            self.spec_blob(),
            self.field(header::OFF_DT_STRUCT_OFFSET) as int,
            self.field(header::SIZE_DT_STRUCT_OFFSET) as int,
        )
    }

    /// The device tree in `bytes`: its header must be one this parser
    /// accepts, and the blob, as long as the header says, must hold the
    /// strings block.
    pub fn from_bytes(bytes: &'a [u8]) -> (dtb: Option<Dtb<'a>>)
        requires
            bytes@.len() <= isize::MAX,
        ensures
            ({
                let total = crate::dtb::cursor::be_u32(bytes@, header::TOTAL_SIZE_OFFSET as int) as int;
                let blob = bytes@.subrange(0, total);
                let strings = part(
                    blob,
                    crate::dtb::cursor::be_u32(bytes@, header::OFF_DT_STRINGS_OFFSET as int) as int,
                    crate::dtb::cursor::be_u32(bytes@, header::SIZE_DT_STRINGS_OFFSET as int) as int,
                );
                match dtb {
                    Some(d) => {
                        &&& header::accepted(bytes@)
                        &&& total <= bytes@.len()
                        &&& d.spec_header() == bytes@
                        &&& d.spec_blob() == blob
                        &&& strings == Some(d.spec_strings())
                    },
                    None => !header::accepted(bytes@) || total > bytes@.len() || strings is None,
                }
            }),
    {
        let header = match Header::from_bytes(bytes) {
            Some(header) => header,
            None => {
                return None;
            },
        };
        let total_size = header.total_size() as usize;
        if total_size > bytes.len() {
            return None;
        }
        let blob = vstd::slice::slice_subrange(bytes, 0, total_size);
        let strings_start = header.off_dt_strings() as usize;
        let strings_size = header.size_dt_strings() as usize;
        if strings_start > blob.len() || blob.len() - strings_start < strings_size {
            return None;
        }
        let strings_blob = vstd::slice::slice_subrange(blob, strings_start, strings_start + strings_size);
        let strings = Strings::new(strings_blob);
        Some(Dtb { blob, header, strings })
    }

    pub fn magic(&self) -> (value: u32)
        ensures
            value == self.field(header::MAGIC_OFFSET),
    {
        self.header.magic()
    }

    pub fn total_size(&self) -> (value: u32)
        ensures
            value == self.field(header::TOTAL_SIZE_OFFSET),
    {
        self.header.total_size()
    }

    pub fn off_dt_struct(&self) -> (value: u32)
        ensures
            value == self.field(header::OFF_DT_STRUCT_OFFSET),
    {
        self.header.off_dt_struct()
    }

    pub fn off_dt_strings(&self) -> (value: u32)
        ensures
            value == self.field(header::OFF_DT_STRINGS_OFFSET),
    {
        self.header.off_dt_strings()
    }

    pub fn off_mem_rsvmap(&self) -> (value: u32)
        ensures
            value == self.field(header::OFF_MEM_RSVMAP_OFFSET),
    {
        self.header.off_mem_rsvmap()
    }

    pub fn version(&self) -> (value: u32)
        ensures
            value == self.field(header::VERSION_OFFSET),
    {
        self.header.version()
    }

    pub fn last_comp_version(&self) -> (value: u32)
        ensures
            value == self.field(header::LAST_COMP_VERSION_OFFSET),
    {
        self.header.last_comp_version()
    }

    pub fn boot_cpuid(&self) -> (value: u32)
        ensures
            value == self.field(header::BOOT_CPUID_OFFSET),
    {
        self.header.boot_cpuid()
    }

    pub fn size_dt_strings(&self) -> (value: u32)
        ensures
            value == self.field(header::SIZE_DT_STRINGS_OFFSET),
    {
        self.header.size_dt_strings()
    }

    pub fn size_dt_struct(&self) -> (value: u32)
        ensures
            value == self.field(header::SIZE_DT_STRUCT_OFFSET),
    {
        self.header.size_dt_struct()
    }

    /// The nodes of the structure block, if the blob holds all of it.
    pub fn nodes(&self) -> (nodes: Option<Nodes<'a>>)
        ensures
            match self.spec_struct() {
                Some(s) => nodes matches Some(n) && n.wf() && n.spec_blob() == s
                    && n.spec_strings() == self.spec_strings() && n.spec_offset() == 0
                    && n.spec_depth() == 0,
                None => nodes is None,
            },
    {
        proof {
            use_type_invariant(self);
        }
        let start = self.header.off_dt_struct() as usize;
        let size = self.header.size_dt_struct() as usize;
        if start > self.blob.len() || self.blob.len() - start < size {
            return None;
        }
        let struct_blob = vstd::slice::slice_subrange(self.blob, start, start + size);
        Some(Nodes::new(struct_blob, self.strings))
    }

    /// The first node of the structure block: the root.
    pub open spec fn spec_root(self) -> Option<(int, int)> {
        match self.spec_struct() {
            Some(s) => scan(s, 0, 0).0,
            None => None,
        }
    }

    /// The root's `#address-cells` and `#size-cells`.
    pub fn root_cells(&self) -> (cells: Option<(usize, usize)>)
        ensures
            match self.spec_root() {
                Some((_d, props)) => cells == Some(
                    node_cells(self.spec_struct()->0, self.spec_strings(), props),
                ),
                None => cells is None,
            },
    {
        let mut nodes = match self.nodes() {
            Some(nodes) => nodes,
            None => {
                return None;
            },
        };
        match nodes.next() {
            Some(root) => Some(root.cells()),
            None => None,
        }
    }

    /// The first node below the root whose device type is memory.
    pub open spec fn spec_find_memory(self) -> Option<(int, int)> {
        match self.spec_struct() {
            Some(s) => first_node(s, 0, 0, memory_node(s, self.spec_strings())),
            None => None,
        }
    }

    /// The first node that names `name` in its `compatible` list.
    pub open spec fn spec_find_compatible(self, name: Seq<u8>) -> Option<(int, int)> {
        match self.spec_struct() {
            Some(s) => first_node(s, 0, 0, compatible_node(s, self.spec_strings(), name)),
            None => None,
        }
    }

    /// The memory node: a child of the root whose device type is memory.
    pub fn find_memory(&self) -> (node: Option<Node<'a>>)
        ensures
            match self.spec_find_memory() {
                Some((d, props)) => node matches Some(n) && n.spec_depth() == d && n.spec_props()
                    == props && n.spec_blob() == self.spec_struct()->0 && n.spec_strings()
                    == self.spec_strings(),
                None => node is None,
            },
    {
        let mut nodes = match self.nodes() {
            Some(nodes) => nodes,
            None => {
                return None;
            },
        };
        let ghost s = self.spec_struct()->0;
        let ghost strings = self.spec_strings();
        let ghost wanted = memory_node(s, strings);
        loop
            invariant
                nodes.wf(),
                nodes.spec_blob() == s,
                nodes.spec_strings() == strings,
                strings == self.spec_strings(),
                self.spec_struct() == Some(s),
                wanted == memory_node(s, strings),
                first_node(s, nodes.spec_offset(), nodes.spec_depth(), wanted) == self.spec_find_memory(),
            decreases s.len() + 4 - nodes.spec_offset(),
        {
            let ghost before = nodes.spec_offset();
            let ghost before_depth = nodes.spec_depth();
            proof {
                lemma_scan_advances(s, before, before_depth);
                lemma_first_node_step(s, before, before_depth, wanted);
            }
            match nodes.next() {
                None => {
                    return None;
                },
                Some(node) => {
                    if node.depth() == ROOT_CHILD_DEPTH && node.is_memory() {
                        return Some(node);
                    }
                },
            }
        }
    }

    /// The first node compatible with `name`.
    pub fn find_compatible(&self, name: &[u8]) -> (node: Option<Node<'a>>)
        ensures
            match self.spec_find_compatible(name@) {
                Some((d, props)) => node matches Some(n) && n.spec_depth() == d && n.spec_props()
                    == props && n.spec_blob() == self.spec_struct()->0 && n.spec_strings()
                    == self.spec_strings(),
                None => node is None,
            },
    {
        let mut nodes = match self.nodes() {
            Some(nodes) => nodes,
            None => {
                return None;
            },
        };
        let ghost s = self.spec_struct()->0;
        let ghost strings = self.spec_strings();
        let ghost wanted = compatible_node(s, strings, name@);
        loop
            invariant
                nodes.wf(),
                nodes.spec_blob() == s,
                nodes.spec_strings() == strings,
                strings == self.spec_strings(),
                self.spec_struct() == Some(s),
                wanted == compatible_node(s, strings, name@),
                first_node(s, nodes.spec_offset(), nodes.spec_depth(), wanted)
                    == self.spec_find_compatible(name@),
            decreases s.len() + 4 - nodes.spec_offset(),
        {
            let ghost before = nodes.spec_offset();
            let ghost before_depth = nodes.spec_depth();
            proof {
                lemma_scan_advances(s, before, before_depth);
                lemma_first_node_step(s, before, before_depth, wanted);
            }
            match nodes.next() {
                None => {
                    return None;
                },
                Some(node) => {
                    if node.is_compatible(name) {
                        return Some(node);
                    }
                },
            }
        }
    }

    /// The memory the device tree describes: the first `reg` range of the
    /// memory node, in the root's cell counts.
    pub open spec fn spec_memory(self) -> Option<(u64, u64)> {
        match (self.spec_root(), self.spec_find_memory()) {
            (Some((_rd, root)), Some((_d, props))) => {
                let s = self.spec_struct()->0;
                let (address_cells, size_cells) = node_cells(s, self.spec_strings(), root);
                match prop_value(s, self.spec_strings(), props, "reg".spec_bytes()) {
                    Some(reg) => if address_cells * 4 <= reg.len() {
                        match (
                            spec_read_cells(reg, address_cells as int),
                            spec_read_cells(reg.subrange(address_cells * 4, reg.len() as int), size_cells as int),
                        ) {
                            (Some(addr), Some(size)) => Some((addr, size)),
                            _ => None,
                        }
                    } else {
                        None
                    },
                    None => None,
                }
            },
            _ => None,
        }
    }

    /// Where physical memory is and how much of it there is.
    pub fn memory(&self) -> (memory: Option<Memory>)
        ensures
            match self.spec_memory() {
                Some((addr, size)) => memory matches Some(m) && m.addr == addr as usize && m.size
                    == size as usize,
                None => memory is None,
            },
    {
        let (address_cells, size_cells) = match self.root_cells() {
            Some(cells) => cells,
            None => {
                return None;
            },
        };
        let node = match self.find_memory() {
            Some(node) => node,
            None => {
                return None;
            },
        };
        let reg = match node.property("reg".as_bytes()) {
            Some(reg) => reg,
            None => {
                return None;
            },
        };
        let addr = match read_cells(reg.value, address_cells) {
            Some(addr) => addr,
            None => {
                return None;
            },
        };
        if address_cells > 2 || reg.value.len() < address_cells * 4 {
            return None;
        }
        let size = match read_cells(
            vstd::slice::slice_subrange(reg.value, address_cells * 4, reg.value.len()),
            size_cells,
        ) {
            Some(size) => size,
            None => {
                return None;
            },
        };
        Some(Memory { addr: addr as usize, size: size as usize })
    }
}

/// Size of one entry of the memory reservation block: an address and a
/// size, two cells each.
pub const RESERVATION_ITEM_SIZE: usize = 16;

/// The memory reservation block, read entry by entry.
pub struct Reservations<'a> {
    addr: usize,
    end: usize,
    blob: &'a [u8],
}

impl<'a> Reservations<'a> {
    pub closed spec fn spec_addr(self) -> int {
        self.addr as int
    }

    pub closed spec fn spec_end(self) -> int {
        self.end as int
    }

    pub closed spec fn spec_blob(self) -> Seq<u8> {
        self.blob@
    }

    /// The next reserved range; `None` at the entry of zeros that ends the
    /// block, past the block's end or past the blob's.
    pub fn next(&mut self) -> (entry: Option<(usize, usize)>)
        ensures
            final(self).spec_blob() == old(self).spec_blob(),
            final(self).spec_end() == old(self).spec_end(),
            ({
                let a = old(self).spec_addr();
                let item = old(self).spec_blob().subrange(a, a + 16);
                let base = spec_read_cells(item, 2)->0;
                let size = spec_read_cells(item.subrange(8, 16), 2)->0;
                if a + 16 > old(self).spec_end() || a + 16 > old(self).spec_blob().len() || (base
                    == 0 && size == 0) {
                    &&& entry is None
                    &&& final(self).spec_addr() == a
                } else {
                    &&& entry == Some((base as usize, size as usize))
                    &&& final(self).spec_addr() == a + 16
                }
            }),
    {
        if self.addr > self.end || self.end - self.addr < RESERVATION_ITEM_SIZE {
            return None;
        }
        if self.addr > self.blob.len() || self.blob.len() - self.addr < RESERVATION_ITEM_SIZE {
            return None;
        }
        let item = vstd::slice::slice_subrange(self.blob, self.addr, self.addr + RESERVATION_ITEM_SIZE);
        let base = match read_cells(item, 2) {
            Some(base) => base,
            None => {
                return None;
            },
        };
        let size = match read_cells(vstd::slice::slice_subrange(item, 8, RESERVATION_ITEM_SIZE), 2) {
            Some(size) => size,
            None => {
                return None;
            },
        };
        if base == 0 && size == 0 {
            return None;
        }
        self.addr = self.addr + RESERVATION_ITEM_SIZE;
        Some((base as usize, size as usize))
    }
}

impl<'a> Dtb<'a> {
    /// The memory reservation block, from where the header says it starts
    /// to the end of the blob.
    pub fn reservations(&self) -> (reservations: Reservations<'a>)
        ensures
            reservations.spec_addr() == self.field(header::OFF_MEM_RSVMAP_OFFSET),
            reservations.spec_end() == self.field(header::TOTAL_SIZE_OFFSET),
            reservations.spec_blob() == self.spec_blob(),
    {
        Reservations {
            addr: self.header.off_mem_rsvmap() as usize,
            end: self.header.total_size() as usize,
            blob: self.blob,
        }
    }
}

} // verus!
