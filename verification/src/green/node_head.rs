//! The packed head of a node: its kind, the number of its children and the length of its text.
//!
//! The common case takes one word. Its low ten bits hold the kind, the next eight the number of
//! children, and the upper fourteen the length of the text. A word of all ones says that one of
//! them did not fit and that all three stand in a wide head instead.

use crate::green::SyntaxKind;
use crate::text::TextSize;
use vstd::prelude::*;

verus! {

/// How many bits of the packed word hold the kind.
pub const PACKED_KIND_BITS: u32 = 10;

/// How many bits of the packed word hold the number of children.
pub const PACKED_CHILD_COUNT_BITS: u32 = 8;

/// The smallest kind that the packed word does not hold.
pub const PACKED_KIND_LIMIT: u32 = 1023;

/// The smallest number of children that the packed word does not hold.
pub const PACKED_CHILD_COUNT_LIMIT: u32 = 255;

/// The smallest length that the packed word does not hold.
pub const PACKED_TEXT_LEN_LIMIT: u32 = 16383;

/// The packed word that says that there is a wide head.
pub const WIDE_PACKED_HEAD: u32 = 0xffff_ffff;

/// The kind, child count and text length of a node that do not fit the packed word.
#[derive(Debug, Clone, Copy, PartialEq, Eq, Structural)]
pub struct WideGreenNodeHead {
    pub child_count: u32,
    pub text_len: TextSize,
    pub kind: SyntaxKind,
}

/// The head of a node.
#[derive(Debug, Clone, Copy, PartialEq, Eq, Structural)]
pub struct NodeHead {
    packed: u32,
    wide: Option<WideGreenNodeHead>,
}

/// Whether the packed word can hold such a head.
pub open spec fn fits_packed(kind: SyntaxKind, child_count: u32, text_len: TextSize) -> bool {
    &&& kind.0 < PACKED_KIND_LIMIT
    &&& child_count < PACKED_CHILD_COUNT_LIMIT
    &&& text_len.raw < PACKED_TEXT_LEN_LIMIT
}

/// The packed word of a head that fits.
pub open spec fn packed_word(kind: SyntaxKind, child_count: u32, text_len: TextSize) -> int {
    kind.0 + 1024 * child_count + 262144 * text_len.raw
}

proof fn lemma_pack(kind: u32, child_count: u32, text_len: u32)
    requires
        kind < 1023,
        child_count < 255,
        text_len < 16383,
    ensures
        ({
            let packed = kind | (child_count << 10u32) | (text_len << 18u32);
            &&& packed & 1023u32 == kind
            &&& (packed >> 10u32) & 255u32 == child_count
            &&& packed >> 18u32 == text_len
            &&& packed == kind + 1024 * child_count + 262144 * text_len
            &&& packed != 0xffff_ffff
        }),
{
    assert({
        let packed = kind | (child_count << 10u32) | (text_len << 18u32);
        &&& packed & 1023u32 == kind
        &&& (packed >> 10u32) & 255u32 == child_count
        &&& packed >> 18u32 == text_len
        &&& packed == kind + 1024 * child_count + 262144 * text_len
        &&& packed != 0xffff_ffffu32
    }) by (bit_vector)
        requires
            kind < 1023,
            child_count < 255,
            text_len < 16383,
    ;
}

impl NodeHead {
    #[verifier::type_invariant]
    closed spec fn consistent(self) -> bool {
        self.packed == WIDE_PACKED_HEAD <==> self.wide is Some
    }

    /// Whether the head is a wide one.
    pub closed spec fn is_wide_spec(self) -> bool {
        self.wide is Some
    }

    /// The packed word.
    pub closed spec fn word(self) -> u32 {
        self.packed
    }

    /// The kind of the node.
    pub closed spec fn kind_spec(self) -> SyntaxKind {
        match self.wide {
            Some(wide) => wide.kind,
            None => SyntaxKind((self.packed & 1023u32) as u16),
        }
    }

    /// The number of children of the node.
    pub closed spec fn child_count_spec(self) -> u32 {
        match self.wide {
            Some(wide) => wide.child_count,
            None => (self.packed >> 10u32) & 255u32,
        }
    }

    /// The length of the text of the node.
    pub closed spec fn text_len_spec(self) -> TextSize {
        match self.wide {
            Some(wide) => wide.text_len,
            None => TextSize { raw: self.packed >> 18u32 },
        }
    }

    /// Whether kind and number of children alone call for a wide head.
    pub fn starts_wide(kind: SyntaxKind, child_count: u32) -> (wide: bool)
        ensures
            wide == (kind.0 >= PACKED_KIND_LIMIT || child_count >= PACKED_CHILD_COUNT_LIMIT),
    {
        kind.0 as u32 >= PACKED_KIND_LIMIT || child_count >= PACKED_CHILD_COUNT_LIMIT
    }

    /// Whether a text of this length calls for a wide head.
    pub fn ends_wide(text_len: TextSize) -> (wide: bool)
        ensures
            wide == (text_len.raw >= PACKED_TEXT_LEN_LIMIT),
    {
        text_len.raw >= PACKED_TEXT_LEN_LIMIT
    }

    /// The head that holds these values, wide or packed as asked.
    pub fn new(kind: SyntaxKind, child_count: u32, text_len: TextSize, wide: bool) -> (head:
        NodeHead)
        requires
            wide || fits_packed(kind, child_count, text_len),
        ensures
            head.is_wide_spec() == wide,
            head.kind_spec() == kind,
            head.child_count_spec() == child_count,
            head.text_len_spec() == text_len,
            head.word() == (if wide {
                WIDE_PACKED_HEAD as int
            } else {
                packed_word(kind, child_count, text_len)
            }),
    {
        if wide {
            NodeHead {
                packed: WIDE_PACKED_HEAD,
                wide: Some(WideGreenNodeHead { child_count, text_len, kind }),
            }
        } else {
            proof {
                lemma_pack(kind.0 as u32, child_count, text_len.raw);
            }
            let packed: u32 = kind.0 as u32 | (child_count << PACKED_KIND_BITS) | (text_len.raw
                << (PACKED_KIND_BITS + PACKED_CHILD_COUNT_BITS));
            NodeHead { packed, wide: None }
        }
    }

    /// The head that is stored as this packed word and, if the word says so, this wide head.
    pub fn from_raw(packed: u32, wide: Option<WideGreenNodeHead>) -> (head: NodeHead)
        requires
            packed == WIDE_PACKED_HEAD <==> wide is Some,
        ensures
            head.word() == packed,
            head.is_wide_spec() == wide is Some,
            match wide {
                Some(wide) => {
                    &&& head.kind_spec() == wide.kind
                    &&& head.child_count_spec() == wide.child_count
                    &&& head.text_len_spec() == wide.text_len
                },
                None => packed_word(
                    head.kind_spec(),
                    head.child_count_spec(),
                    head.text_len_spec(),
                ) == packed && head.kind_spec().0 < 1024 && head.child_count_spec() < 256,
            },
    {
        assert({
            &&& packed == (packed & 1023u32) + 1024 * ((packed >> 10u32) & 255u32) + 262144 * (
            packed >> 18u32)
            &&& packed & 1023u32 < 1024
            &&& (packed >> 10u32) & 255u32 < 256
        }) by (bit_vector);
        NodeHead { packed, wide }
    }

    /// Whether the head is a wide one.
    pub fn is_wide(&self) -> (wide: bool)
        ensures
            wide == self.is_wide_spec(),
            wide == (self.word() == WIDE_PACKED_HEAD),
    {
        proof {
            use_type_invariant(self);
        }
        self.packed == WIDE_PACKED_HEAD
    }

    /// The packed word.
    pub fn raw(&self) -> (word: u32)
        ensures
            word == self.word(),
    {
        self.packed
    }

    /// The wide head.
    fn wide_head(&self) -> (wide: WideGreenNodeHead)
        requires
            self.wide is Some,
        ensures
            self.wide == Some(wide),
    {
        self.wide.unwrap()
    }

    /// The kind of the node.
    pub fn kind(&self) -> (kind: SyntaxKind)
        ensures
            kind == self.kind_spec(),
    {
        if !self.is_wide() {
            let packed: u32 = self.packed;
            assert(packed & 1023u32 <= 1023) by (bit_vector);
            return SyntaxKind((packed & PACKED_KIND_LIMIT) as u16);
        }
        self.wide_head().kind
    }

    /// The number of children of the node.
    pub fn child_count(&self) -> (child_count: usize)
        ensures
            child_count == self.child_count_spec(),
    {
        if !self.is_wide() {
            return ((self.packed >> PACKED_KIND_BITS) & PACKED_CHILD_COUNT_LIMIT) as usize;
        }
        self.wide_head().child_count as usize
    }

    /// The length of the text of the node.
    pub fn text_len(&self) -> (text_len: TextSize)
        ensures
            text_len == self.text_len_spec(),
    {
        if !self.is_wide() {
            return TextSize::new(self.packed >> (PACKED_KIND_BITS + PACKED_CHILD_COUNT_BITS));
        }
        self.wide_head().text_len
    }
}

} // verus!
