//! Elements together with what an interner knows of them.

use crate::green::element::{GreenElement, GreenElementRef};
use crate::green::hash::{fx_node_digest, node_hash_parts};
use crate::green::layout::{node_weight_for_count, own_node_weight};
use crate::green::node::GreenNode;
use crate::green::tree::Tree;
use crate::green::SyntaxKind;
use vstd::prelude::*;

verus! {

/// An element of a tree that is being built.
#[derive(Debug)]
pub struct CachedElement {
    hash: u64,
    interned: bool,
    shareable: bool,
    retained_weight: u32,
    green: GreenElement,
}

impl CachedElement {
    #[verifier::type_invariant]
    closed spec fn consistent(self) -> bool {
        &&& self.interned ==> self.hash == self.green@.digest()
        &&& self.shareable ==> self.interned
    }

    /// The element as a tree.
    pub closed spec fn view(&self) -> Tree {
        self.green@
    }

    /// The element by itself.
    pub closed spec fn element(self) -> GreenElement {
        self.green
    }

    /// The digest of the element if it is interned.
    pub closed spec fn hash_spec(self) -> u64 {
        self.hash
    }

    /// Whether the element is in an interner.
    pub closed spec fn is_interned(self) -> bool {
        self.interned
    }

    /// Whether the element is in an interner that builders share.
    pub closed spec fn is_shareable(self) -> bool {
        self.shareable
    }

    /// What an interner that builders share is charged for the element and all below it.
    pub closed spec fn weight(self) -> u32 {
        self.retained_weight
    }

    /// Whether the element is a node.
    pub closed spec fn is_node(self) -> bool {
        self.green is Node
    }

    /// A node is a node as a tree, too.
    pub proof fn lemma_variant(&self)
        ensures
            self.is_node() == self@ is Node,
    {
        self.green.lemma_variant();
    }

    /// The element is the same tree by itself.
    pub proof fn lemma_element(&self)
        ensures
            self.element()@ == self@,
    {
    }

    /// The trees that the elements are.
    pub open spec fn trees(elements: Seq<CachedElement>) -> Seq<Tree> {
        elements.map_values(|element: CachedElement| element@)
    }

    /// The elements by themselves.
    pub open spec fn elements(elements: Seq<CachedElement>) -> Seq<GreenElement> {
        elements.map_values(|element: CachedElement| element.element())
    }

    /// The digests of the elements.
    pub open spec fn hashes(elements: Seq<CachedElement>) -> Seq<u64> {
        elements.map_values(|element: CachedElement| element.hash_spec())
    }

    /// Whether all of the elements are in an interner.
    pub open spec fn all_interned(elements: Seq<CachedElement>) -> bool {
        forall|i: int| 0 <= i < elements.len() ==> (#[trigger] elements[i]).is_interned()
    }

    /// Whether all of the elements are in an interner that builders share.
    pub open spec fn all_shareable(elements: Seq<CachedElement>) -> bool {
        forall|i: int| 0 <= i < elements.len() ==> (#[trigger] elements[i]).is_shareable()
    }

    /// What the first `n` of the elements weigh together.
    pub open spec fn weight_before(elements: Seq<CachedElement>, n: nat) -> nat
        decreases n,
    {
        if n == 0 || n > elements.len() {
            0
        } else {
            CachedElement::weight_before(elements, (n - 1) as nat) + elements[n - 1].weight() as nat
        }
    }

    /// What a node with these children weighs.
    pub open spec fn node_weight_spec(children: Seq<CachedElement>) -> nat {
        let weight = own_node_weight(children.len())
            + CachedElement::weight_before(children, children.len());
        if weight <= u32::MAX {
            weight
        } else {
            u32::MAX as nat
        }
    }

    /// An element that is not shared between builders.
    pub fn local(hash: u64, interned: bool, green: GreenElement) -> (element: CachedElement)
        requires
            interned ==> hash == green@.digest(),
        ensures
            element@ == green@,
            element.element() == green,
            element.is_node() == (green is Node),
            element.hash_spec() == hash,
            element.is_interned() == interned,
            !element.is_shareable(),
            element.weight() == 0,
    {
        CachedElement { hash, interned, shareable: false, retained_weight: 0, green }
    }

    /// An element that is shared between builders.
    pub fn shared(hash: u64, retained_weight: u32, green: GreenElement) -> (element: CachedElement)
        requires
            hash == green@.digest(),
        ensures
            element@ == green@,
            element.element() == green,
            element.is_node() == (green is Node),
            element.hash_spec() == hash,
            element.is_interned(),
            element.is_shareable(),
            element.weight() == retained_weight,
    {
        CachedElement { hash, interned: true, shareable: true, retained_weight, green }
    }

    /// The digest of the element if it is interned.
    pub fn hash(&self) -> (hash: u64)
        ensures
            hash == self.hash_spec(),
            self.is_interned() ==> hash == self@.digest(),
    {
        proof {
            use_type_invariant(self);
        }
        self.hash
    }

    /// Whether the element is in an interner.
    pub fn interned(&self) -> (interned: bool)
        ensures
            interned == self.is_interned(),
    {
        self.interned
    }

    /// Whether the element is in an interner that builders share.
    pub fn shareable(&self) -> (shareable: bool)
        ensures
            shareable == self.is_shareable(),
            shareable ==> self.is_interned(),
    {
        proof {
            use_type_invariant(self);
        }
        self.shareable
    }

    /// What an interner that builders share is charged for the element and all below it.
    pub fn retained_weight(&self) -> (weight: u32)
        ensures
            weight == self.weight(),
    {
        self.retained_weight
    }

    /// The element.
    pub fn green(&self) -> (green: &GreenElement)
        ensures
            *green == self.element(),
            green@ == self@,
            green is Node == self.is_node(),
    {
        &self.green
    }

    /// The element, by itself.
    pub fn into_green(self) -> (green: GreenElement)
        ensures
            green == self.element(),
            green@ == self@,
            green is Node == self.is_node(),
    {
        self.green
    }

    /// The elements, by themselves.
    pub(crate) fn into_greens(elements: Vec<CachedElement>) -> (greens: Vec<GreenElement>)
        ensures
            greens@ == CachedElement::elements(elements@),
            GreenNode::trees(greens@) == CachedElement::trees(elements@),
    {
        let mut greens: Vec<GreenElement> = Vec::new();
        let ghost all = elements@;
        for element in it: elements
            invariant
                it.seq() == all,
                greens@ == CachedElement::elements(all.take(it.index())),
                GreenNode::trees(greens@) == CachedElement::trees(all.take(it.index())),
        {
            let ghost before = greens@;
            greens.push(element.into_green());
            proof {
                assert(greens@ =~= CachedElement::elements(all.take(it.index() + 1)));
                assert(GreenNode::trees(greens@) =~= GreenNode::trees(before).push(element@));
                assert(CachedElement::trees(all.take(it.index() + 1)) =~= CachedElement::trees(
                    all.take(it.index()),
                ).push(all[it.index()]@));
            }
        }
        proof {
            assert(all.take(all.len() as int) =~= all);
        }
        greens
    }

    /// Borrows the elements.
    pub(crate) fn borrow_greens(elements: &[CachedElement]) -> (greens: Vec<GreenElementRef<'_>>)
        ensures
            greens@.len() == elements@.len(),
            forall|i: int|
                0 <= i < greens@.len() ==> #[trigger] greens@[i] == elements@[i].element().as_ref(),
            GreenElementRef::trees(greens@) == CachedElement::trees(elements@),
    {
        let mut greens: Vec<GreenElementRef<'_>> = Vec::new();
        let mut index: usize = 0;
        while index < elements.len()
            invariant
                index <= elements@.len(),
                greens@.len() == index,
                forall|i: int|
                    0 <= i < index ==> #[trigger] greens@[i] == elements@[i].element().as_ref(),
                GreenElementRef::trees(greens@) == CachedElement::trees(elements@).take(
                    index as int,
                ),
            decreases elements@.len() - index,
        {
            let ghost before = greens@;
            greens.push(elements[index].green().as_deref());
            index = index + 1;
            proof {
                assert(GreenElementRef::trees(greens@) =~= GreenElementRef::trees(before).push(
                    elements@[index - 1]@,
                ));
                assert(CachedElement::trees(elements@).take(index as int) =~= CachedElement::trees(
                    elements@,
                ).take(index - 1).push(elements@[index - 1]@));
            }
        }
        proof {
            assert(CachedElement::trees(elements@).take(index as int) =~= CachedElement::trees(
                elements@,
            ));
        }
        greens
    }
}

/// The digest of a node with this kind and these children, from the digests of the children.
pub fn cached_node_hash(kind: SyntaxKind, children: &[CachedElement]) -> (hash: u64)
    ensures
        hash == fx_node_digest(
            usize::BITS,
            kind.0,
            CachedElement::hashes(children@),
        ),
        CachedElement::all_interned(children@) ==> hash == (Tree::Node {
            kind,
            children: CachedElement::trees(children@),
        }).digest(),
{
    let mut words: Vec<u64> = Vec::new();
    let mut index: usize = 0;
    while index < children.len()
        invariant
            index <= children@.len(),
            words@ == CachedElement::hashes(children@).take(index as int),
            forall|i: int|
                0 <= i < index && (#[trigger] children@[i]).is_interned() ==> words@[i]
                    == children@[i]@.digest(),
        decreases children@.len() - index,
    {
        words.push(children[index].hash());
        index = index + 1;
        proof {
            assert(words@ =~= CachedElement::hashes(children@).take(index as int));
        }
    }
    proof {
        let trees = CachedElement::trees(children@);
        assert(words@ =~= CachedElement::hashes(children@));
        if CachedElement::all_interned(children@) {
            Tree::lemma_digests(trees, trees.len());
            assert(words@ =~= Tree::digests(trees));
        }
    }
    node_hash_parts(kind, words.as_slice())
}

/// What an interner that builders share is charged for a node with these children and all below
/// it, if all of them are shared between builders.
pub fn node_weight(children: &[CachedElement]) -> (weight: Option<u32>)
    ensures
        weight is Some == CachedElement::all_shareable(children@),
        weight is Some ==> CachedElement::all_interned(children@),
        weight matches Some(weight) ==> weight == CachedElement::node_weight_spec(children@),
{
    let own: u32 = node_weight_for_count(children.len());
    let mut weight: u32 = own;
    let mut index: usize = 0;
    while index < children.len()
        invariant
            index <= children@.len(),
            own == own_node_weight(children@.len()),
            forall|i: int| 0 <= i < index ==> (#[trigger] children@[i]).is_shareable(),
            forall|i: int| 0 <= i < index ==> (#[trigger] children@[i]).is_interned(),
            weight == (if own + CachedElement::weight_before(children@, index as nat)
                <= u32::MAX {
                own + CachedElement::weight_before(children@, index as nat)
            } else {
                u32::MAX as int
            }),
        decreases children@.len() - index,
    {
        if !children[index].shareable() {
            return None;
        }
        weight = weight.saturating_add(children[index].retained_weight());
        index = index + 1;
    }
    Some(weight)
}

} // verus!
