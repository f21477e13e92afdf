use vstd::prelude::*;

verus! {

/// The first position at or after `pos` that does not hold a space.
pub open spec fn skip_spaces(s: Seq<u8>, pos: int) -> int
    decreases s.len() - pos,
{
    if 0 <= pos < s.len() && s[pos] == 0x20u8 {
        skip_spaces(s, pos + 1)
    } else {
        pos
    }
}

/// Skipping spaces moves forward, stops inside the line or where it started,
/// and passes nothing but spaces.
pub proof fn lemma_skip_spaces(s: Seq<u8>, pos: int)
    requires
        0 <= pos,
    ensures
        pos <= skip_spaces(s, pos),
        pos <= s.len() ==> skip_spaces(s, pos) <= s.len(),
        skip_spaces(s, pos) < s.len() ==> s[skip_spaces(s, pos)] != 0x20u8,
        forall|i: int| pos <= i < skip_spaces(s, pos) ==> s[i] == 0x20u8,
    decreases s.len() - pos,
{
    if 0 <= pos < s.len() && s[pos] == 0x20u8 {
        lemma_skip_spaces(s, pos + 1);
    }
}

/// A position in a line of bytes.
pub struct Cursor<'a> {
    bytes: &'a [u8],
    pos: usize,
}

impl<'a> Cursor<'a> {
    /// The bytes the cursor moves over.
    pub closed spec fn spec_bytes(self) -> Seq<u8> {
        self.bytes@
    }

    /// Where the cursor stands.
    pub closed spec fn spec_pos(self) -> int {
        self.pos as int
    }

    /// The position is a machine word, and so is the length of the line.
    pub proof fn lemma_bounds(self)
        ensures
            0 <= self.spec_pos() <= usize::MAX,
            self.spec_bytes().len() <= usize::MAX,
    {
        assert(self.bytes.len() == self.bytes@.len());
    }

    /// A cursor at the start of `bytes`.
    pub fn new(bytes: &'a [u8]) -> (cursor: Self)
        ensures
            cursor.spec_bytes() == bytes@,
            cursor.spec_pos() == 0,
    {
        Self { bytes, pos: 0 }
    }

    /// Where the cursor stands.
    pub fn pos(&self) -> (pos: usize)
        ensures
            pos == self.spec_pos(),
    {
        self.pos
    }

    /// The byte under the cursor, if it stands inside the line.
    pub fn peek(&self) -> (byte: Option<u8>)
        ensures
            byte == (if self.spec_pos() < self.spec_bytes().len() {
                Some(self.spec_bytes()[self.spec_pos()])
            } else {
                None
            }),
    {
        if self.pos < self.bytes.len() {
            Some(self.bytes[self.pos])
        } else {
            None
        }
    }

    /// The byte `offset` places past the cursor, if that is inside the line.
    pub fn peek_offset(&self, offset: usize) -> (byte: Option<u8>)
        ensures
            byte == (if self.spec_pos() + offset < self.spec_bytes().len() {
                Some(self.spec_bytes()[self.spec_pos() + offset])
            } else {
                None
            }),
    {
        if self.pos < self.bytes.len() && offset < self.bytes.len() - self.pos {
            Some(self.bytes[self.pos + offset])
        } else {
            None
        }
    }

    /// Move past the spaces under the cursor.
    pub fn consume_spaces(&mut self)
        ensures
            final(self).spec_bytes() == old(self).spec_bytes(),
            final(self).spec_pos() == skip_spaces(old(self).spec_bytes(), old(self).spec_pos()),
    {
        while self.pos < self.bytes.len() && self.bytes[self.pos] == 0x20
            invariant
                self.bytes@ == old(self).bytes@,
                old(self).pos <= self.pos,
                skip_spaces(self.bytes@, self.pos as int) == skip_spaces(
                    old(self).bytes@,
                    old(self).pos as int,
                ),
            decreases self.bytes@.len() - self.pos,
        {
            self.pos += 1;
        }
    }

    /// Move `amount` bytes forward.
    pub fn advance(&mut self, amount: usize)
        requires
            old(self).spec_pos() + amount <= usize::MAX,
        ensures
            final(self).spec_bytes() == old(self).spec_bytes(),
            final(self).spec_pos() == old(self).spec_pos() + amount,
    {
        self.pos += amount;
    }

    /// Move to `pos`.
    pub fn set_pos(&mut self, pos: usize)
        ensures
            final(self).spec_bytes() == old(self).spec_bytes(),
            final(self).spec_pos() == pos,
    {
        self.pos = pos;
    }
}

} // verus!
