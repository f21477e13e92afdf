use vstd::prelude::*;

verus! {

pub const U32_SIZE: usize = 4;

/// The big-endian `u32` whose first byte is `s[i]`.
pub open spec fn be_u32(s: Seq<u8>, i: int) -> u32 {
    (s[i] as int * 0x100_0000 + s[i + 1] as int * 0x1_0000 + s[i + 2] as int * 0x100 + s[
        i + 3
    ] as int) as u32
}

/// The first NUL byte of `s` at or after `from`.
pub open spec fn first_zero(s: Seq<u8>, from: int) -> Option<int>
    decreases s.len() - from,
{
    if from < 0 || from >= s.len() {
        None
    } else if s[from] == 0 {
        Some(from)
    } else {
        first_zero(s, from + 1)
    }
}

/// `n` rounded up to a multiple of four.
pub open spec fn align4(n: int) -> int {
    (n + 3) / 4 * 4
}

/// Where the first NUL byte lies, in words that need no recursion.
pub proof fn lemma_first_zero(s: Seq<u8>, from: int)
    requires
        0 <= from,
    ensures
        match first_zero(s, from) {
            Some(z) => from <= z < s.len() && s[z] == 0 && forall|k: int|
                from <= k < z ==> s[k] != 0,
            None => forall|k: int| from <= k < s.len() ==> s[k] != 0,
        },
    decreases s.len() - from,
{
    if from < s.len() && s[from] != 0 {
        lemma_first_zero(s, from + 1);
    }
}

/// The four bytes at `i` read as a big-endian `u32`.
pub fn be_u32_at(bytes: &[u8], i: usize) -> (value: u32)
    requires
        i + 4 <= bytes@.len(),
    ensures
        value == be_u32(bytes@, i as int),
{
    let b0 = bytes[i] as u32;
    let b1 = bytes[i + 1] as u32;
    let b2 = bytes[i + 2] as u32;
    let b3 = bytes[i + 3] as u32;
    let value = (b0 << 24u32) | (b1 << 16u32) | (b2 << 8u32) | b3;
    assert(value == (b0 * 0x100_0000 + b1 * 0x1_0000 + b2 * 0x100 + b3) as u32) by (bit_vector)
        requires
            value == (b0 << 24u32) | (b1 << 16u32) | (b2 << 8u32) | b3,
            b0 < 256,
            b1 < 256,
            b2 < 256,
            b3 < 256,
    ;
    value
}

/// A read position inside a byte blob.
#[derive(Clone, Copy)]
pub struct Cursor<'a> {
    blob: &'a [u8],
    offset: usize,
}

impl<'a> Cursor<'a> {
    #[verifier::type_invariant]
    pub closed spec fn inv(self) -> bool {
        &&& self.blob@.len() <= isize::MAX
        &&& self.offset <= self.blob@.len() + 3
    }

    /// The bytes read from.
    pub closed spec fn spec_blob(self) -> Seq<u8> {
        self.blob@
    }

    /// Where the next read starts.
    pub closed spec fn spec_offset(self) -> int {
        self.offset as int
    }

    /// The blob's length fits an `isize`, and the position lies at most three
    /// bytes past its end.
    pub proof fn lemma_inv(self)
        requires
            self.inv(),
        ensures
            self.spec_blob().len() <= isize::MAX,
            0 <= self.spec_offset() <= self.spec_blob().len() + 3,
    {
    }

    pub fn new(blob: &'a [u8], offset: usize) -> (cursor: Self)
        requires
            blob@.len() <= isize::MAX,
            offset <= blob@.len(),
        ensures
            cursor.spec_blob() == blob@,
            cursor.spec_offset() == offset,
    {
        Cursor { blob, offset }
    }

    /// The blob itself.
    pub fn blob(&self) -> (blob: &'a [u8])
        ensures
            blob@ == self.spec_blob(),
    {
        self.blob
    }

    /// The big-endian `u32` at the position, which moves past it; `None`,
    /// not moving, when fewer than four bytes are left.
    pub fn read_u32(&mut self) -> (value: Option<u32>)
        ensures
            final(self).spec_blob() == old(self).spec_blob(),
            old(self).spec_offset() + 4 <= old(self).spec_blob().len() ==> {
                &&& value == Some(be_u32(old(self).spec_blob(), old(self).spec_offset()))
                &&& final(self).spec_offset() == old(self).spec_offset() + 4
            },
            old(self).spec_offset() + 4 > old(self).spec_blob().len() ==> {
                &&& value is None
                &&& final(self).spec_offset() == old(self).spec_offset()
            },
    {
        proof {
            use_type_invariant(&*self);
        }
        if self.offset > self.blob.len() || self.blob.len() - self.offset < U32_SIZE {
            return None;
        }
        let value = be_u32_at(self.blob, self.offset);
        self.offset = self.offset + U32_SIZE;
        Some(value)
    }

    /// The next `size` bytes, which the position moves past; `None`, not
    /// moving, when fewer are left.
    pub fn bytes(&mut self, size: usize) -> (bytes: Option<&'a [u8]>)
        ensures
            final(self).spec_blob() == old(self).spec_blob(),
            old(self).spec_offset() + size <= old(self).spec_blob().len() ==> {
                &&& bytes matches Some(b) && b@ == old(self).spec_blob().subrange(
                    old(self).spec_offset(),
                    old(self).spec_offset() + size,
                )
                &&& final(self).spec_offset() == old(self).spec_offset() + size
            },
            old(self).spec_offset() + size > old(self).spec_blob().len() ==> {
                &&& bytes is None
                &&& final(self).spec_offset() == old(self).spec_offset()
            },
    {
        proof {
            use_type_invariant(&*self);
        }
        if self.offset > self.blob.len() || self.blob.len() - self.offset < size {
            return None;
        }
        let bytes = vstd::slice::slice_subrange(self.blob, self.offset, self.offset + size);
        self.offset = self.offset + size;
        Some(bytes)
    }

    /// The NUL-terminated string at the position, without its terminator;
    /// the position moves past the terminator. `None`, not moving, when no
    /// terminator follows.
    pub fn cstring(&mut self) -> (string: Option<&'a [u8]>)
        ensures
            final(self).spec_blob() == old(self).spec_blob(),
            match first_zero(old(self).spec_blob(), old(self).spec_offset()) {
                Some(z) => {
                    &&& string matches Some(s) && s@ == old(self).spec_blob().subrange(
                        old(self).spec_offset(),
                        z,
                    )
                    &&& final(self).spec_offset() == z + 1
                },
                None => {
                    &&& string is None
                    &&& final(self).spec_offset() == old(self).spec_offset()
                },
            },
    {
        proof {
            use_type_invariant(&*self);
            lemma_first_zero(self.blob@, self.offset as int);
        }
        let blob = self.blob;
        let start = self.offset;
        if start > blob.len() {
            return None;
        }
        let mut i = start;
        while i < blob.len()
            invariant
                start <= i <= blob@.len(),
                blob@.len() <= isize::MAX,
                self.blob == blob,
                self.offset == start,
                *old(self) == *self,
                forall|k: int| start <= k < i ==> blob@[k] != 0,
            decreases blob@.len() - i,
        {
            if blob[i] == 0 {
                let string = vstd::slice::slice_subrange(blob, start, i);
                proof {
                    lemma_first_zero(blob@, start as int);
                }
                self.offset = i + 1;
                return Some(string);
            }
            i += 1;
        }
        None
    }

    /// Fewer than four bytes are left.
    pub fn done(&self) -> (done: bool)
        ensures
            done == (self.spec_offset() + 4 > self.spec_blob().len()),
    {
        proof {
            use_type_invariant(self);
        }
        self.offset + U32_SIZE > self.blob.len()
    }

    /// Move the position up to the next multiple of four.
    pub fn align_u32(&mut self)
        requires
            old(self).spec_offset() <= old(self).spec_blob().len(),
        ensures
            final(self).spec_blob() == old(self).spec_blob(),
            final(self).spec_offset() == align4(old(self).spec_offset()),
    {
        proof {
            use_type_invariant(&*self);
        }
        let t = self.offset + 3;
        let aligned = t & !3usize;
        assert(aligned == t / 4 * 4) by (bit_vector)
            requires
                aligned == t & !3usize,
        ;
        self.offset = aligned;
    }
}

} // verus!
