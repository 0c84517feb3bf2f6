//! How a node stores where its children lie.
//!
//! A packed node stores each child as a signed distance from itself, in units of four bytes, with
//! the lowest bit saying whether the child is a token. A wide node stores addresses, tagged in the
//! same way. Nodes and tokens lie at multiples of four, so that the bit is free.

use vstd::prelude::*;

verus! {

/// Where a child lies, and whether it is a token.
#[derive(Debug, Clone, Copy, PartialEq, Eq, Structural)]
pub struct ChildAddress {
    pub address: usize,
    pub is_token: bool,
}

/// A child pointer compressed into a signed offset from its parent node.
///
/// The low bit distinguishes tokens from nodes. The remaining bits store a signed offset in
/// four-byte units, covering the 8 GiB range centered on the parent; green nodes and tokens are
/// both at least four-byte aligned.
#[derive(Debug, Clone, Copy, PartialEq, Eq, Structural)]
pub struct PackedGreenChild(u32);

/// A node-or-token address.
///
/// The address's low bit distinguishes tokens from nodes.
#[derive(Debug, Clone, Copy, PartialEq, Eq, Structural)]
pub struct GreenChild {
    ptr: usize,
}

/// The largest distance in front of a parent, in units of four bytes.
pub const MAX_OFFSET_UNITS: usize = 0x3fff_ffff;

/// The largest distance behind a parent, in units of four bytes.
pub const MAX_BACKWARD_UNITS: usize = 0x4000_0000;

/// How many addresses there are.
pub open spec fn address_count() -> int {
    usize::MAX + 1
}

/// How far `to` lies in front of `from`, on the circle of all addresses.
pub open spec fn forward(from: int, to: int) -> int {
    if to >= from {
        to - from
    } else {
        to - from + address_count()
    }
}

/// Whether the distance from a parent to its child fits a packed child.
pub open spec fn in_reach(parent: usize, child: usize) -> bool {
    forward(parent as int, child as int) / 4 <= MAX_OFFSET_UNITS || forward(
        child as int,
        parent as int,
    ) / 4 <= MAX_BACKWARD_UNITS
}

fn distance(from: usize, to: usize) -> (distance: usize)
    ensures
        distance == forward(from as int, to as int),
{
    if to >= from {
        to - from
    } else {
        usize::MAX - (from - to) + 1
    }
}

impl PackedGreenChild {
    /// The distance from the parent, in units of four bytes.
    pub closed spec fn units(self) -> int {
        if self.0 < 0x8000_0000 {
            self.0 as int / 2
        } else {
            self.0 as int / 2 - 0x8000_0000
        }
    }

    /// Whether the child is a token.
    pub closed spec fn is_token_spec(self) -> bool {
        self.0 % 2 == 1
    }

    /// The word that is stored: the distance above the lowest bit, the tag in it.
    pub closed spec fn word(self) -> u32 {
        self.0
    }

    /// Where the child of a parent at this address lies.
    pub open spec fn target(self, parent: usize) -> int {
        let address = parent + 4 * self.units();
        if address < 0 {
            address + address_count()
        } else if address > usize::MAX {
            address - address_count()
        } else {
            address
        }
    }

    /// The packed form of a child; the child itself if it lies too far from its parent.
    pub fn try_from_element(parent: usize, element: ChildAddress) -> (packed: Result<
        PackedGreenChild,
        ChildAddress,
    >)
        requires
            parent % 4 == 0,
            element.address % 4 == 0,
        ensures
            match packed {
                Ok(packed) => {
                    &&& in_reach(parent, element.address)
                    &&& packed.target(parent) == element.address
                    &&& packed.is_token_spec() == element.is_token
                },
                Err(unpacked) => !in_reach(parent, element.address) && unpacked == element,
            },
    {
        let tag: u32 = if element.is_token {
            1
        } else {
            0
        };
        let ahead: usize = distance(parent, element.address);
        if ahead / 4 <= MAX_OFFSET_UNITS {
            let units: u32 = (ahead / 4) as u32;
            return Ok(PackedGreenChild(2 * units + tag));
        }
        let behind: usize = distance(element.address, parent);
        if behind / 4 <= MAX_BACKWARD_UNITS {
            let units: u32 = (behind / 4) as u32;
            return Ok(PackedGreenChild(0xffff_ffff - (2 * units - 1) + tag));
        }
        Err(element)
    }

    /// The child that is stored as this word.
    pub fn from_raw(word: u32) -> (child: PackedGreenChild)
        ensures
            child.word() == word,
            forall|other: PackedGreenChild| #[trigger] other.word() == word ==> other == child,
    {
        PackedGreenChild(word)
    }

    /// The word that is stored: the distance above the lowest bit, the tag in it.
    pub fn raw(self) -> (word: u32)
        ensures
            word == self.word(),
            ({
                let tag: int = if self.is_token_spec() {
                    1
                } else {
                    0
                };
                word == (if self.units() >= 0 {
                    2 * self.units() + tag
                } else {
                    0x1_0000_0000 + 2 * self.units() + tag
                })
            }),
    {
        self.0
    }

    /// Whether the child is a token.
    pub fn is_token(self) -> (is_token: bool)
        ensures
            is_token == self.is_token_spec(),
    {
        self.0 % 2 == 1
    }

    /// Where the child of a parent at this address lies.
    pub fn untagged(self, parent: usize) -> (address: usize)
        ensures
            address == self.target(parent),
    {
        if self.0 < 0x8000_0000 {
            let ahead: usize = 4 * (self.0 as usize / 2);
            if ahead <= usize::MAX - parent {
                parent + ahead
            } else {
                ahead - (usize::MAX - parent) - 1
            }
        } else {
            let behind: u64 = 4 * (0x8000_0000 - (self.0 as u64 / 2));
            if behind <= parent as u64 {
                parent - behind as usize
            } else {
                usize::MAX - (behind - parent as u64 - 1) as usize
            }
        }
    }

    /// The child that was packed.
    pub fn into_element(self, parent: usize) -> (element: ChildAddress)
        ensures
            element.address == self.target(parent),
            element.is_token == self.is_token_spec(),
    {
        ChildAddress { address: self.untagged(parent), is_token: self.is_token() }
    }
}

impl PackedGreenChild {
    /// The word of a child is twice its distance, as a signed number, with the lowest bit set for a
    /// token.
    pub proof fn lemma_word(self)
        ensures
            -0x4000_0000 <= self.units() < 0x4000_0000,
            self.word() == 2 * self.units() + (if self.is_token_spec() {
                1int
            } else {
                0
            }) + (if self.units() < 0 {
                0x1_0000_0000int
            } else {
                0
            }),
    {
    }
}

impl GreenChild {
    /// The child.
    pub closed spec fn view(&self) -> ChildAddress {
        ChildAddress { address: (self.ptr - self.ptr % 2) as usize, is_token: self.ptr % 2 == 1 }
    }

    fn from_node(address: usize) -> (child: GreenChild)
        requires
            address % 4 == 0,
        ensures
            child@ == (ChildAddress { address, is_token: false }),
    {
        GreenChild { ptr: address }
    }

    fn from_token(address: usize) -> (child: GreenChild)
        requires
            address % 4 == 0,
        ensures
            child@ == (ChildAddress { address, is_token: true }),
    {
        GreenChild { ptr: address + 1 }
    }

    /// Stores a child.
    pub fn from_element(element: ChildAddress) -> (child: GreenChild)
        requires
            element.address % 4 == 0,
        ensures
            child@ == element,
    {
        if element.is_token {
            GreenChild::from_token(element.address)
        } else {
            GreenChild::from_node(element.address)
        }
    }

    /// The child that is stored as this word.
    pub fn from_raw(ptr: usize) -> (child: GreenChild)
        ensures
            child@ == (ChildAddress {
                address: (ptr - ptr % 2) as usize,
                is_token: ptr % 2 == 1,
            }),
    {
        GreenChild { ptr }
    }

    /// The word that is stored: the address, with the tag in its lowest bit.
    pub fn ptr(&self) -> (ptr: usize)
        ensures
            self@.address % 4 == 0 ==> ptr == self@.address + (if self@.is_token {
                1int
            } else {
                0
            }),
    {
        self.ptr
    }

    /// Whether the child is a token.
    pub fn is_token(&self) -> (is_token: bool)
        ensures
            is_token == self@.is_token,
    {
        self.ptr % 2 == 1
    }

    /// Where the child lies.
    pub fn untagged(&self) -> (address: usize)
        ensures
            address == self@.address,
    {
        self.ptr - self.ptr % 2
    }

    /// The child that was stored.
    pub fn into_element(&self) -> (element: ChildAddress)
        ensures
            element == self@,
    {
        ChildAddress { address: self.untagged(), is_token: self.is_token() }
    }
}

} // verus!
