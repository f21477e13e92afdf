use vstd::prelude::*;
use vstd::string::StringSliceAdditionalSpecFns;

use crate::dtb::cursor::{align4, be_u32, be_u32_at, first_zero, lemma_first_zero, Cursor};
use crate::dtb::{spec_string_at, Strings};
use crate::region::Region;

verus! {

// Defaults mandated by the spec for a node that declares neither.
pub const DEFAULT_ADDRESS_CELLS: u32 = 2;
pub const DEFAULT_SIZE_CELLS: u32 = 1;

pub const TOKEN_BEGIN_NODE: u32 = 0x01;
pub const TOKEN_END_NODE: u32 = 0x02;
pub const TOKEN_PROP: u32 = 0x03;
pub const TOKEN_NOOP: u32 = 0x04;
pub const TOKEN_END: u32 = 0x09;

/// Cells per interrupt specifier of the interrupt controller.
pub const INTERRUPT_CELLS: usize = 3;

/// Walking the structure block from `offset` at nesting `depth` to the next
/// node: the node found (its depth and where its properties start), if any,
/// and the position and depth the walk stops at. Properties are skipped, an
/// end of node steps out, no-ops and the end token are passed over, and any
/// other token, or a record cut short, stops the walk.
pub open spec fn scan(blob: Seq<u8>, offset: int, depth: int) -> (Option<(int, int)>, int, int)
    decreases blob.len() + 4 - offset,
{
    if offset < 0 || offset + 4 > blob.len() {
        (None, offset, depth)
    } else {
        let token = be_u32(blob, offset);
        let at = offset + 4;
        if token == TOKEN_BEGIN_NODE {
            match first_zero(blob, at) {
                None => (None, at, depth),
                Some(z) => (Some((depth, align4(z + 1))), align4(z + 1), depth + 1),
            }
        } else if token == TOKEN_PROP {
            if at + 4 > blob.len() {
                (None, at, depth)
            } else if at + 8 > blob.len() {
                (None, at + 4, depth)
            } else if at + 8 + be_u32(blob, at) > blob.len() {
                (None, at + 8, depth)
            } else {
                scan(blob, align4(at + 8 + be_u32(blob, at)), depth)
            }
        } else if token == TOKEN_END_NODE {
            scan(
                blob,
                at,
                if depth > 0 {
                    depth - 1
                } else {
                    0
                },
            )
        } else if token == TOKEN_NOOP || token == TOKEN_END {
            scan(blob, at, depth)
        } else {
            (None, at, depth)
        }
    }
}

/// Reading the property record at `offset`: its name and value, if it is
/// one, and where reading stops.
pub open spec fn prop_at(blob: Seq<u8>, strings: Seq<u8>, offset: int) -> (
    Option<(Seq<u8>, Seq<u8>)>,
    int,
) {
    if offset < 0 || offset + 4 > blob.len() {
        (None, offset)
    } else if be_u32(blob, offset) != TOKEN_PROP {
        (None, offset + 4)
    } else if offset + 8 > blob.len() {
        (None, offset + 4)
    } else if offset + 12 > blob.len() {
        (None, offset + 8)
    } else {
        let len = be_u32(blob, offset + 4) as int;
        match spec_string_at(strings, be_u32(blob, offset + 8) as int) {
            None => (None, offset + 12),
            Some(name) => if offset + 12 + len > blob.len() {
                (None, offset + 12)
            } else {
                (
                    Some((name, blob.subrange(offset + 12, offset + 12 + len))),
                    align4(offset + 12 + len),
                )
            },
        }
    }
}

/// How reading a property record ends, case by case.
pub proof fn lemma_prop_at(b: Seq<u8>, s: Seq<u8>, o: int)
    requires
        0 <= o,
    ensures
        o + 4 > b.len() ==> prop_at(b, s, o) == (None::<(Seq<u8>, Seq<u8>)>, o),
        o + 4 <= b.len() && be_u32(b, o) != TOKEN_PROP ==> prop_at(b, s, o) == (
            None::<(Seq<u8>, Seq<u8>)>,
            o + 4,
        ),
        o + 4 <= b.len() && be_u32(b, o) == TOKEN_PROP && o + 8 > b.len() ==> prop_at(b, s, o) == (
            None::<(Seq<u8>, Seq<u8>)>,
            o + 4,
        ),
        o + 8 <= b.len() && be_u32(b, o) == TOKEN_PROP && o + 12 > b.len() ==> prop_at(b, s, o) == (
            None::<(Seq<u8>, Seq<u8>)>,
            o + 8,
        ),
        o + 12 <= b.len() && be_u32(b, o) == TOKEN_PROP && spec_string_at(s, be_u32(b, o + 8) as int)
            is None ==> prop_at(b, s, o) == (None::<(Seq<u8>, Seq<u8>)>, o + 12),
        o + 12 <= b.len() && be_u32(b, o) == TOKEN_PROP && spec_string_at(s, be_u32(b, o + 8) as int)
            is Some && o + 12 + be_u32(b, o + 4) > b.len() ==> prop_at(b, s, o) == (
            None::<(Seq<u8>, Seq<u8>)>,
            o + 12,
        ),
        o + 12 <= b.len() && be_u32(b, o) == TOKEN_PROP && spec_string_at(s, be_u32(b, o + 8) as int)
            is Some && o + 12 + be_u32(b, o + 4) <= b.len() ==> prop_at(b, s, o) == (
            Some(
                (
                    spec_string_at(s, be_u32(b, o + 8) as int)->0,
                    b.subrange(o + 12, o + 12 + be_u32(b, o + 4)),
                ),
            ),
            align4(o + 12 + be_u32(b, o + 4)),
        ),
{
}

/// A property record that is read moves the position forward.
pub proof fn lemma_prop_advances(blob: Seq<u8>, strings: Seq<u8>, offset: int)
    ensures
        prop_at(blob, strings, offset).0 is Some ==> prop_at(blob, strings, offset).1 > offset,
{
}

/// The first property at or after `offset` called `name`: its name and
/// value.
pub open spec fn find_prop(blob: Seq<u8>, strings: Seq<u8>, offset: int, name: Seq<u8>) -> Option<
    (Seq<u8>, Seq<u8>),
>
    decreases blob.len() + 4 - offset,
{
    match prop_at(blob, strings, offset).0 {
        None => None,
        Some((n, v)) => if n == name {
            Some((n, v))
        } else if prop_at(blob, strings, offset).1 > offset {
            find_prop(blob, strings, prop_at(blob, strings, offset).1, name)
        } else {
            None
        },
    }
}

/// Two byte strings hold the same bytes.
pub fn same_bytes(a: &[u8], b: &[u8]) -> (same: bool)
    ensures
        same == (a@ == b@),
{
    if a.len() != b.len() {
        return false;
    }
    let mut i: usize = 0;
    while i < a.len()
        invariant
            i <= a@.len(),
            a@.len() == b@.len(),
            forall|k: int| 0 <= k < i ==> a@[k] == b@[k],
        decreases a@.len() - i,
    {
        if a[i] != b[i] {
            return false;
        }
        i += 1;
    }
    assert(a@ =~= b@);
    true
}

/// The nodes of a structure block, in the order they begin.
pub struct Nodes<'a> {
    cursor: Cursor<'a>,
    strings: Strings<'a>,
    depth: u32,
}

impl<'a> Nodes<'a> {
    pub closed spec fn spec_blob(self) -> Seq<u8> {
        self.cursor.spec_blob()
    }

    pub closed spec fn spec_strings(self) -> Seq<u8> {
        self.strings.spec_blob()
    }

    pub closed spec fn spec_offset(self) -> int {
        self.cursor.spec_offset()
    }

    pub closed spec fn spec_depth(self) -> int {
        self.depth as int
    }

    /// The block fits the `u32` sizes of the format, and the nesting is
    /// never deeper than the words read so far.
    pub closed spec fn wf(self) -> bool {
        &&& self.cursor.spec_blob().len() <= u32::MAX
        &&& self.depth * 4 <= self.cursor.spec_offset()
    }

    /// The nodes of the structure block `blob`, from its start.
    pub fn new(blob: &'a [u8], strings: Strings<'a>) -> (nodes: Self)
        requires
            blob@.len() <= u32::MAX,
            blob@.len() <= isize::MAX,
        ensures
            nodes.wf(),
            nodes.spec_blob() == blob@,
            nodes.spec_strings() == strings.spec_blob(),
            nodes.spec_offset() == 0,
            nodes.spec_depth() == 0,
    {
        let cursor = Cursor::new(blob, 0);
        proof {
            use_type_invariant(&cursor);
        }
        Nodes { cursor, strings, depth: 0 }
    }

    /// The next node to begin, at the depth it begins at; `None` at the end
    /// of the block or at a record that cannot be read.
    pub fn next(&mut self) -> (node: Option<Node<'a>>)
        requires
            old(self).wf(),
        ensures
            final(self).wf(),
            final(self).spec_blob() == old(self).spec_blob(),
            final(self).spec_strings() == old(self).spec_strings(),
            ({
                let (found, offset, depth) = scan(
                    old(self).spec_blob(),
                    old(self).spec_offset(),
                    old(self).spec_depth(),
                );
                &&& final(self).spec_offset() == offset
                &&& final(self).spec_depth() == depth
                &&& match found {
                    Some((d, props)) => node matches Some(n) && n.spec_depth() == d
                        && n.spec_props() == props && n.spec_blob() == old(self).spec_blob()
                        && n.spec_strings() == old(self).spec_strings(),
                    None => node is None,
                }
            }),
    {
        let ghost blob = self.spec_blob();
        let ghost target = scan(blob, self.spec_offset(), self.spec_depth());
        loop
            invariant
                self.wf(),
                self.spec_blob() == blob,
                blob == old(self).spec_blob(),
                self.spec_strings() == old(self).spec_strings(),
                scan(blob, self.spec_offset(), self.spec_depth()) == target,
                target == scan(old(self).spec_blob(), old(self).spec_offset(), old(self).spec_depth()),
            ensures
                self.wf(),
                self.spec_blob() == blob,
                self.spec_strings() == old(self).spec_strings(),
            decreases blob.len() + 4 - self.spec_offset(),
        {
            proof {
                use_type_invariant(&self.cursor);
                self.cursor.lemma_inv();
            }
            if self.cursor.done() {
                return None;
            }
            let token = match self.cursor.read_u32() {
                Some(token) => token,
                None => {
                    return None;
                },
            };
            if token == TOKEN_BEGIN_NODE {
                proof {
                    lemma_first_zero(blob, self.spec_offset());
                }
                if self.cursor.cstring().is_none() {
                    return None;
                }
                self.cursor.align_u32();
                let depth = self.depth;
                self.depth = self.depth + 1;
                return Some(Node { depth, properties: Properties { cursor: self.cursor, strings: self.strings } });
            } else if token == TOKEN_PROP {
                let len = match self.cursor.read_u32() {
                    Some(len) => len as usize,
                    None => {
                        return None;
                    },
                };
                if self.cursor.read_u32().is_none() {
                    return None;
                }
                if self.cursor.bytes(len).is_none() {
                    return None;
                }
                self.cursor.align_u32();
            } else if token == TOKEN_END_NODE {
                self.depth = if self.depth > 0 {
                    self.depth - 1
                } else {
                    0
                };
            } else if token == TOKEN_NOOP || token == TOKEN_END {
            } else {
                return None;
            }
        }
    }
}

/// A node of the structure block: its depth below the root, and its
/// properties.
pub struct Node<'a> {
    depth: u32,
    properties: Properties<'a>,
}

/// The properties of one node, read in order.
#[derive(Clone, Copy)]
pub struct Properties<'a> {
    cursor: Cursor<'a>,
    strings: Strings<'a>,
}

/// A property: its name, and its value as raw bytes.
pub struct Property<'a> {
    pub name: &'a [u8],
    pub value: &'a [u8],
}

impl<'a> Node<'a> {
    pub closed spec fn spec_depth(self) -> int {
        self.depth as int
    }

    /// Where the node's properties start in the structure block.
    pub closed spec fn spec_props(self) -> int {
        self.properties.cursor.spec_offset()
    }

    pub closed spec fn spec_blob(self) -> Seq<u8> {
        self.properties.cursor.spec_blob()
    }

    pub closed spec fn spec_strings(self) -> Seq<u8> {
        self.properties.strings.spec_blob()
    }

    /// The node's property called `name`: its name and value.
    pub open spec fn spec_property(self, name: Seq<u8>) -> Option<(Seq<u8>, Seq<u8>)> {
        find_prop(self.spec_blob(), self.spec_strings(), self.spec_props(), name)
    }

    pub fn depth(&self) -> (depth: u32)
        ensures
            depth == self.spec_depth(),
    {
        self.depth
    }

    /// The first property called `name`.
    pub fn property(&self, name: &[u8]) -> (property: Option<Property<'a>>)
        ensures
            match self.spec_property(name@) {
                Some((n, v)) => property matches Some(p) && p.name@ == n && p.value@ == v,
                None => property is None,
            },
    {
        let mut properties = self.properties;
        let ghost blob = self.spec_blob();
        let ghost strings = self.spec_strings();
        loop
            invariant
                properties.cursor.spec_blob() == blob,
                properties.strings.spec_blob() == strings,
                find_prop(blob, strings, properties.cursor.spec_offset(), name@) == self.spec_property(
                    name@,
                ),
            decreases blob.len() + 4 - properties.cursor.spec_offset(),
        {
            let ghost before = properties.cursor.spec_offset();
            proof {
                use_type_invariant(&properties.cursor);
                properties.cursor.lemma_inv();
            }
            match properties.next() {
                None => {
                    return None;
                },
                Some(property) => {
                    proof {
                        lemma_prop_advances(blob, strings, before);
                    }
                    if same_bytes(property.name, name) {
                        return Some(property);
                    }
                },
            }
        }
    }

    /// The device type names this node as memory.
    pub fn is_memory(&self) -> (is: bool)
        ensures
            is == node_is_memory(self.spec_blob(), self.spec_strings(), self.spec_props()),
    {
        match self.property("device_type".as_bytes()) {
            Some(property) => same_bytes(property.value, "memory\0".as_bytes()),
            None => false,
        }
    }

    /// The node's `#address-cells` and `#size-cells`, or the defaults where
    /// it gives none.
    pub fn cells(&self) -> (cells: (usize, usize))
        ensures
            cells == node_cells(self.spec_blob(), self.spec_strings(), self.spec_props()),
    {
        let address_cells = match self.property("#address-cells".as_bytes()) {
            Some(property) => match property.as_u32() {
                Some(value) => value,
                None => DEFAULT_ADDRESS_CELLS,
            },
            None => DEFAULT_ADDRESS_CELLS,
        };
        let size_cells = match self.property("#size-cells".as_bytes()) {
            Some(property) => match property.as_u32() {
                Some(value) => value,
                None => DEFAULT_SIZE_CELLS,
            },
            None => DEFAULT_SIZE_CELLS,
        };
        (address_cells as usize, size_cells as usize)
    }

    /// One of the names in the node's `compatible` list is `name`.
    pub fn is_compatible(&self, name: &[u8]) -> (is: bool)
        ensures
            is == node_compatible(self.spec_blob(), self.spec_strings(), self.spec_props(), name@),
    {
        let list = match self.property("compatible".as_bytes()) {
            Some(property) => property.value,
            None => {
                return false;
            },
        };
        let mut from: usize = 0;
        while from < list.len()
            invariant
                from <= list@.len(),
                list_contains(list@, from as int, name@) == list_contains(list@, 0, name@),
                prop_value(self.spec_blob(), self.spec_strings(), self.spec_props(), "compatible".spec_bytes())
                    == Some(list@),
            decreases list@.len() - from,
        {
            let mut end = from;
            while end < list.len() && list[end] != 0
                invariant
                    from <= end <= list@.len(),
                    forall|k: int| from <= k < end ==> list@[k] != 0,
                decreases list@.len() - end,
            {
                end += 1;
            }
            proof {
                lemma_first_zero(list@, from as int);
            }
            if end == list.len() {
                return false;
            }
            if same_bytes(vstd::slice::slice_subrange(list, from, end), name) {
                return true;
            }
            from = end + 1;
        }
        false
    }

    /// The `index`-th address range of the node's `reg`, with the parent's
    /// cell counts.
    pub fn region(&self, index: usize, cells: (usize, usize)) -> (region: Option<Region>)
        ensures
            region == node_region(
                self.spec_blob(),
                self.spec_strings(),
                self.spec_props(),
                index as int,
                cells.0 as int,
                cells.1 as int,
            ),
    {
        let reg = match self.property("reg".as_bytes()) {
            Some(property) => property.value,
            None => {
                return None;
            },
        };
        let (address_cells, size_cells) = cells;
        if address_cells > 2 || size_cells > 2 {
            return None;
        }
        let entry = (address_cells + size_cells) * 4;
        let len = reg.len();
        proof {
            assert(index * entry == index * (address_cells + size_cells) * 4) by (nonlinear_arith)
                requires
                    entry == (address_cells + size_cells) * 4,
            ;
        }
        let start = match index.checked_mul(entry) {
            Some(start) => start,
            None => {
                return None;
            },
        };
        if start > len {
            return None;
        }
        let base = match read_cells(vstd::slice::slice_subrange(reg, start, reg.len()), address_cells) {
            Some(base) => base,
            None => {
                return None;
            },
        };
        let at = start + address_cells * 4;
        let size = match read_cells(vstd::slice::slice_subrange(reg, at, reg.len()), size_cells) {
            Some(size) => size,
            None => {
                return None;
            },
        };
        Some(Region { base: base as usize, size: size as usize })
    }

    /// The `index`-th interrupt of the node: its kind and its number within
    /// that kind.
    pub fn interrupt(&self, index: usize) -> (interrupt: Option<(u32, u32)>)
        ensures
            interrupt == node_interrupt(self.spec_blob(), self.spec_strings(), self.spec_props(), index as int),
    {
        let value = match self.property("interrupts".as_bytes()) {
            Some(property) => property.value,
            None => {
                return None;
            },
        };
        let len = value.len();
        let at = match index.checked_mul(INTERRUPT_CELLS * 4) {
            Some(at) => at,
            None => {
                return None;
            },
        };
        if at > len || len - at < 8 {
            return None;
        }
        Some((be_u32_at(value, at), be_u32_at(value, at + 4)))
    }
}

/// The value of the property called `name` of the node whose properties
/// start at `props`.
pub open spec fn prop_value(blob: Seq<u8>, strings: Seq<u8>, props: int, name: Seq<u8>) -> Option<Seq<u8>> {
    match find_prop(blob, strings, props, name) {
        Some((_n, v)) => Some(v),
        None => None,
    }
}

/// The node's device type is `memory`.
pub open spec fn node_is_memory(blob: Seq<u8>, strings: Seq<u8>, props: int) -> bool {
    prop_value(blob, strings, props, "device_type".spec_bytes()) == Some("memory\0".spec_bytes())
}

/// A cell count the node declares, or the default.
pub open spec fn cell_count(blob: Seq<u8>, strings: Seq<u8>, props: int, name: Seq<u8>, default: u32) -> usize {
    match prop_value(blob, strings, props, name) {
        Some(v) => match spec_be_read(v, 0) {
            Some(n) => n as usize,
            None => default as usize,
        },
        None => default as usize,
    }
}

/// The node's `#address-cells` and `#size-cells`, defaults filled in.
pub open spec fn node_cells(blob: Seq<u8>, strings: Seq<u8>, props: int) -> (usize, usize) {
    (
        cell_count(blob, strings, props, "#address-cells".spec_bytes(), DEFAULT_ADDRESS_CELLS),
        cell_count(blob, strings, props, "#size-cells".spec_bytes(), DEFAULT_SIZE_CELLS),
    )
}

/// A list of NUL-terminated names holds `name` at or after `from`; a last
/// name without its terminator does not count.
pub open spec fn list_contains(list: Seq<u8>, from: int, name: Seq<u8>) -> bool
    decreases list.len() - from,
{
    if from < 0 || from >= list.len() {
        false
    } else {
        match first_zero(list, from) {
            None => false,
            Some(z) => {
                proof {
                    lemma_first_zero(list, from);
                }
                list.subrange(from, z) == name || list_contains(list, z + 1, name)
            },
        }
    }
}

/// The node's `compatible` list names `name`.
pub open spec fn node_compatible(blob: Seq<u8>, strings: Seq<u8>, props: int, name: Seq<u8>) -> bool {
    match prop_value(blob, strings, props, "compatible".spec_bytes()) {
        Some(list) => list_contains(list, 0, name),
        None => false,
    }
}

/// The `index`-th `(address, size)` pair of the node's `reg`, each taking the
/// given number of cells (at most two).
pub open spec fn node_region(
    blob: Seq<u8>,
    strings: Seq<u8>,
    props: int,
    index: int,
    address_cells: int,
    size_cells: int,
) -> Option<Region> {
    match prop_value(blob, strings, props, "reg".spec_bytes()) {
        None => None,
        Some(reg) => {
            let start = index * (address_cells + size_cells) * 4;
            if address_cells > 2 || size_cells > 2 || start > reg.len() {
                None
            } else {
                match (
                    spec_read_cells(reg.subrange(start, reg.len() as int), address_cells),
                    spec_read_cells(
                        reg.subrange(
                            if start + address_cells * 4 <= reg.len() {
                                start + address_cells * 4
                            } else {
                                reg.len() as int
                            },
                            reg.len() as int,
                        ),
                        size_cells,
                    ),
                ) {
                    (Some(base), Some(size)) => Some(Region { base: base as usize, size: size as usize }),
                    _ => None,
                }
            }
        },
    }
}

/// The kind and number of the `index`-th interrupt of the node, each
/// specifier taking three cells.
pub open spec fn node_interrupt(blob: Seq<u8>, strings: Seq<u8>, props: int, index: int) -> Option<(u32, u32)> {
    match prop_value(blob, strings, props, "interrupts".spec_bytes()) {
        None => None,
        Some(v) => {
            let at = index * (INTERRUPT_CELLS * 4);
            if at + 8 <= v.len() {
                Some((be_u32(v, at), be_u32(v, at + 4)))
            } else {
                None
            }
        },
    }
}

impl<'a> Properties<'a> {
    pub closed spec fn spec_blob(self) -> Seq<u8> {
        self.cursor.spec_blob()
    }

    pub closed spec fn spec_strings(self) -> Seq<u8> {
        self.strings.spec_blob()
    }

    pub closed spec fn spec_offset(self) -> int {
        self.cursor.spec_offset()
    }

    /// The property record at the position, which moves past it.
    pub fn next(&mut self) -> (property: Option<Property<'a>>)
        ensures
            final(self).spec_blob() == old(self).spec_blob(),
            final(self).spec_strings() == old(self).spec_strings(),
            ({
                let (found, offset) = prop_at(
                    old(self).spec_blob(),
                    old(self).spec_strings(),
                    old(self).spec_offset(),
                );
                &&& final(self).spec_offset() == offset
                &&& match found {
                    Some((n, v)) => property matches Some(p) && p.name@ == n && p.value@ == v,
                    None => property is None,
                }
            }),
    {
        proof {
            use_type_invariant(&self.cursor);
            self.cursor.lemma_inv();
            lemma_prop_at(self.spec_blob(), self.spec_strings(), self.spec_offset());
        }
        if self.cursor.done() {
            return None;
        }
        let token = match self.cursor.read_u32() {
            Some(token) => token,
            None => {
                return None;
            },
        };
        if token != TOKEN_PROP {
            return None;
        }
        let len = match self.cursor.read_u32() {
            Some(len) => len as usize,
            None => {
                return None;
            },
        };
        let name_offset = match self.cursor.read_u32() {
            Some(name_offset) => name_offset as usize,
            None => {
                return None;
            },
        };
        let name = match self.strings.string_at(name_offset) {
            Some(name) => name,
            None => {
                return None;
            },
        };
        let value = match self.cursor.bytes(len) {
            Some(value) => value,
            None => {
                return None;
            },
        };
        self.cursor.align_u32();
        Some(Property { name, value })
    }
}

impl<'a> Property<'a> {
    /// The value read as one big-endian `u32`.
    pub fn as_u32(&self) -> (value: Option<u32>)
        ensures
            value == spec_be_read(self.value@, 0),
    {
        be_read_from_arr(self.value, 0)
    }
}

/// The big-endian `u32` at `offset`, if four bytes are there.
pub open spec fn spec_be_read(arr: Seq<u8>, offset: int) -> Option<u32> {
    if 0 <= offset && offset + 4 <= arr.len() {
        Some(be_u32(arr, offset))
    } else {
        None
    }
}

/// `cells` big-endian `u32`s at the start of `bytes` as one number, for one
/// or two cells.
pub open spec fn spec_read_cells(bytes: Seq<u8>, cells: int) -> Option<u64> {
    if cells == 1 && bytes.len() >= 4 {
        Some(be_u32(bytes, 0) as u64)
    } else if cells == 2 && bytes.len() >= 8 {
        Some((be_u32(bytes, 0) as int * 0x1_0000_0000 + be_u32(bytes, 4) as int) as u64)
    } else {
        None
    }
}

/// Reads `cells` big-endian u32s as one number. Two cells is the widest a
/// u64 holds.
pub fn read_cells(bytes: &[u8], cells: usize) -> (value: Option<u64>)
    ensures
        value == spec_read_cells(bytes@, cells as int),
{
    if cells == 0 || cells > 2 {
        return None;
    }
    if bytes.len() < cells * 4 {
        return None;
    }
    let high = be_u32_at(bytes, 0) as u64;
    if cells == 1 {
        return Some(high);
    }
    let low = be_u32_at(bytes, 4) as u64;
    let value = high << 32u64 | low;
    assert(value == (high * 0x1_0000_0000 + low) as u64) by (bit_vector)
        requires
            value == high << 32u64 | low,
            high < 0x1_0000_0000,
            low < 0x1_0000_0000,
    ;
    Some(value)
}

/// The big-endian `u32` at `offset`, if four bytes are there.
pub fn be_read_from_arr(arr: &[u8], offset: usize) -> (value: Option<u32>)
    ensures
        value == spec_be_read(arr@, offset as int),
{
    if offset > arr.len() || arr.len() - offset < 4 {
        return None;
    }
    Some(be_u32_at(arr, offset))
}

} // verus!
