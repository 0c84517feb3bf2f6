//! Green tokens, the leaves of a green tree.

use crate::green::identity::same_allocation;
use crate::green::token_head::TokenHead;
use crate::green::tree::Tree;
use crate::green::SyntaxKind;
use crate::text::{text_eq, TextSize};
use std::sync::Arc;
use vstd::prelude::*;
use vstd::utf8::*;

verus! {

/// The contents of a token.
///
/// Handles to a token are counted by their `Arc`. The counts that a [`TokenHead`] can hold are for
/// tokens in storage that is managed by hand.
#[derive(Debug)]
pub struct GreenTokenData {
    head: TokenHead,
    text: String,
}

/// Leaf node in the immutable tree.
#[derive(Debug)]
pub struct GreenToken {
    ptr: Arc<GreenTokenData>,
}

impl GreenTokenData {
    #[verifier::type_invariant]
    closed spec fn measured(self) -> bool {
        self.head.text_len() == encode_utf8(self.text@).len()
    }

    /// The token as a tree.
    pub closed spec fn view(&self) -> Tree {
        Tree::Token { kind: self.head.kind(), text: self.text@ }
    }

    /// Kind of this Token.
    pub fn kind(&self) -> (kind: SyntaxKind)
        ensures
            kind == self@.kind(),
    {
        self.head.get_kind()
    }

    /// Text of this Token.
    pub fn text(&self) -> (text: &str)
        ensures
            self@ == (Tree::Token { kind: self@.kind(), text: text@ }),
    {
        self.text.as_str()
    }

    /// Returns the length of the text covered by this token.
    pub fn text_len(&self) -> (len: TextSize)
        ensures
            len.bytes() == self@.text_len(),
    {
        proof {
            use_type_invariant(self);
        }
        TextSize::new(self.head.get_text_len())
    }

    /// The text of this token, as a string of its own.
    pub fn to_string(&self) -> (text: String)
        ensures
            text@ == self@.text(),
    {
        self.text.clone()
    }

    fn same(&self, other: &GreenTokenData) -> (same: bool)
        ensures
            same == (self@ == other@),
    {
        self.head.get_kind() == other.head.get_kind() && text_eq(self.text(), other.text())
    }
}

impl PartialEq for GreenTokenData {
    fn eq(&self, other: &GreenTokenData) -> (same: bool) {
        self.same(other)
    }
}

impl vstd::std_specs::cmp::PartialEqSpecImpl for GreenTokenData {
    open spec fn obeys_eq_spec() -> bool {
        true
    }

    open spec fn eq_spec(&self, other: &GreenTokenData) -> bool {
        self@ == other@
    }
}

impl Eq for GreenTokenData {}

impl GreenToken {
    /// The token as a tree.
    pub closed spec fn view(&self) -> Tree {
        self.ptr.view()
    }

    /// A token is a tree with a token at its root.
    pub proof fn lemma_is_token(&self)
        ensures
            self@ is Token,
    {
    }

    /// Creates new Token.
    pub fn new(kind: SyntaxKind, text: &str) -> (token: GreenToken)
        requires
            encode_utf8(text@).len() <= u32::MAX,
        ensures
            token@ == (Tree::Token { kind, text: text@ }),
    {
        let text_len: usize = text.as_bytes().len();
        let head = TokenHead::new(kind, text_len as u32);
        GreenToken { ptr: Arc::new(GreenTokenData { head, text: text.to_owned() }) }
    }

    /// Whether the two handles share one token.
    pub(crate) fn is_same(&self, other: &GreenToken) -> (same: bool)
        ensures
            same ==> *self == *other,
            self.is_same_gives(other, same),
    {
        let ask = same_allocation::<GreenTokenData>;
        ask(&self.ptr, &other.ptr)
    }

    /// Whether `same` is an answer of [`same_allocation`] when asked about these two handles.
    pub(crate) closed spec fn is_same_gives(&self, other: &GreenToken, same: bool) -> bool {
        call_ensures(same_allocation::<GreenTokenData>, (&self.ptr, &other.ptr), same)
    }

    /// Two handles are told to be the same only if they were asked whether they share one
    /// allocation.
    proof fn lemma_same_is_asked(self, other: GreenToken, same: bool)
        requires
            self.is_same_gives(&other, same),
        ensures
            call_ensures(same_allocation::<GreenTokenData>, (&self.ptr, &other.ptr), same),
            same ==> self@ == other@,
    {
    }
}

impl Clone for GreenToken {
    fn clone(&self) -> (token: GreenToken)
        ensures
            token == *self,
    {
        GreenToken { ptr: self.ptr.clone() }
    }
}

impl core::ops::Deref for GreenToken {
    type Target = GreenTokenData;

    fn deref(&self) -> (data: &GreenTokenData)
        ensures
            data@ == self@,
    {
        &*self.ptr
    }
}

impl PartialEq for GreenToken {
    fn eq(&self, other: &GreenToken) -> (same: bool) {
        self.is_same(other) || self.ptr.same(&other.ptr)
    }
}

impl vstd::std_specs::cmp::PartialEqSpecImpl for GreenToken {
    open spec fn obeys_eq_spec() -> bool {
        true
    }

    open spec fn eq_spec(&self, other: &GreenToken) -> bool {
        self@ == other@
    }
}

impl Eq for GreenToken {}

} // verus!
