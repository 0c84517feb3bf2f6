//! Offsets into a text and ranges of such offsets, both measured in UTF-8 bytes.

use vstd::prelude::*;
use vstd::string::StringSliceAdditionalSpecFns;
use vstd::utf8::*;

verus! {

/// Whether two texts are the same.
pub fn text_eq(left: &str, right: &str) -> (same: bool)
    ensures
        same == (left@ == right@),
{
    let a = left.as_bytes();
    let b = right.as_bytes();
    proof {
        encode_utf8_decode_utf8(left@);
        encode_utf8_decode_utf8(right@);
    }
    if a.len() != b.len() {
        return false;
    }
    let mut i: usize = 0;
    while i < a.len()
        invariant
            i <= a@.len(),
            a@.len() == b@.len(),
            a@ == encode_utf8(left@),
            b@ == encode_utf8(right@),
            a@.take(i as int) =~= b@.take(i as int),
        decreases a@.len() - i,
    {
        if a[i] != b[i] {
            return false;
        }
        i = i + 1;
        assert(a@.take(i as int) =~= a@.take(i - 1).push(a@[i - 1]));
        assert(b@.take(i as int) =~= b@.take(i - 1).push(b@[i - 1]));
    }
    assert(a@.take(i as int) =~= a@ && b@.take(i as int) =~= b@);
    assert(decode_utf8(a@) == decode_utf8(b@));
    true
}

/// An offset into a text, or the length of a text, in bytes.
#[derive(Debug, Clone, Copy, PartialEq, Eq, PartialOrd, Ord, Hash, Structural)]
pub struct TextSize {
    pub raw: u32,
}

impl TextSize {
    /// The size of `raw` bytes.
    pub fn new(raw: u32) -> (size: TextSize)
        ensures
            size == (TextSize { raw }),
    {
        TextSize { raw }
    }

    /// The number of bytes that this size stands for.
    pub open spec fn bytes(self) -> nat {
        self.raw as nat
    }
}

impl From<u32> for TextSize {
    fn from(raw: u32) -> (size: TextSize) {
        TextSize { raw }
    }
}

impl vstd::std_specs::convert::FromSpecImpl<u32> for TextSize {
    open spec fn obeys_from_spec() -> bool {
        true
    }

    open spec fn from_spec(raw: u32) -> TextSize {
        TextSize { raw }
    }
}

impl From<TextSize> for u32 {
    fn from(size: TextSize) -> (raw: u32) {
        size.raw
    }
}

impl vstd::std_specs::convert::FromSpecImpl<TextSize> for u32 {
    open spec fn obeys_from_spec() -> bool {
        true
    }

    open spec fn from_spec(size: TextSize) -> u32 {
        size.raw
    }
}

/// A range of offsets whose start does not lie after its end.
#[derive(Debug, Clone, Copy, PartialEq, Eq, Hash)]
pub struct TextRange {
    start: TextSize,
    end: TextSize,
}

/// How one range lies relative to another.
#[derive(Debug, Clone, Copy, PartialEq, Eq, Structural)]
pub enum RangeOrder {
    /// The range ends before, or where, the other starts.
    Before,
    /// The two ranges overlap.
    Overlapping,
    /// The range starts after, or where, the other ends.
    After,
}

impl TextRange {
    #[verifier::type_invariant]
    closed spec fn ordered(self) -> bool {
        self.start.raw <= self.end.raw
    }

    /// Where the range starts.
    pub closed spec fn lo(self) -> nat {
        self.start.bytes()
    }

    /// Where the range ends.
    pub closed spec fn hi(self) -> nat {
        self.end.bytes()
    }

    /// The range from `start` to `end`.
    pub fn new(start: TextSize, end: TextSize) -> (range: TextRange)
        requires
            start.raw <= end.raw,
        ensures
            range.lo() == start.bytes(),
            range.hi() == end.bytes(),
    {
        TextRange { start, end }
    }

    /// The range of `len` bytes that starts at `offset`.
    pub fn at(offset: TextSize, len: TextSize) -> (range: TextRange)
        requires
            offset.raw + len.raw <= u32::MAX,
        ensures
            range.lo() == offset.bytes(),
            range.hi() == offset.bytes() + len.bytes(),
    {
        TextRange { start: offset, end: TextSize { raw: offset.raw + len.raw } }
    }

    /// Where the range starts.
    pub fn start(self) -> (start: TextSize)
        ensures
            start.bytes() == self.lo(),
            self.lo() <= self.hi() <= u32::MAX,
    {
        proof {
            use_type_invariant(&self);
        }
        self.start
    }

    /// Where the range ends.
    pub fn end(self) -> (end: TextSize)
        ensures
            end.bytes() == self.hi(),
            self.lo() <= self.hi() <= u32::MAX,
    {
        proof {
            use_type_invariant(&self);
        }
        self.end
    }

    /// Whether every offset of `other` lies in this range, ends included.
    pub fn contains_range(self, other: TextRange) -> (contains: bool)
        ensures
            contains == (self.lo() <= other.lo() && other.hi() <= self.hi()),
    {
        self.start.raw <= other.start.raw && other.end.raw <= self.end.raw
    }

    /// How `left` lies relative to `right`.
    pub fn ordering(left: TextRange, right: TextRange) -> (order: RangeOrder)
        ensures
            order == (if left.hi() <= right.lo() {
                RangeOrder::Before
            } else if right.hi() <= left.lo() {
                RangeOrder::After
            } else {
                RangeOrder::Overlapping
            }),
    {
        if left.end.raw <= right.start.raw {
            RangeOrder::Before
        } else if right.end.raw <= left.start.raw {
            RangeOrder::After
        } else {
            RangeOrder::Overlapping
        }
    }
}

} // verus!
