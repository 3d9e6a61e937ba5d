//! Mesh entities: nodes, elements, vectors and other entities, each with its
//! attributes.
use vstd::prelude::*;

use crate::attribute::{AttrKey, AttributeMap};
use crate::text::views_of;

verus! {

#[derive(Clone, Copy, Debug, PartialEq, Eq, Structural, Hash)]
pub enum EntityKind {
    /// A mesh node or vertex.
    Node,
    /// A mesh element, face or volume.
    Element,
    /// A vector, such as a normal.
    Vector,
    /// Any other entity.
    Other,
}

/// Anything that carries attributes and knows its kind.
pub trait Entity {
    spec fn entity_kind(&self) -> EntityKind;

    spec fn entity_attributes(&self) -> Seq<(AttrKey, Seq<char>)>;

    fn kind(&self) -> (r: EntityKind)
        ensures
            r == self.entity_kind(),
    ;

    fn attributes(&self) -> (r: &AttributeMap)
        ensures
            r@ == self.entity_attributes(),
    ;
}

/// A node: its position, one coordinate per mesh dimension, and attributes.
/// Coordinates are kept as the decimal text they were read from.
#[derive(Debug)]
pub struct Node {
    pub position: Vec<String>,
    pub attr: AttributeMap,
}

/// An element: the indices of its nodes, and attributes.
#[derive(Debug)]
pub struct Element {
    pub indices: Vec<usize>,
    pub attr: AttributeMap,
}

/// A vector: its components, one per mesh dimension, and attributes.
#[derive(Debug)]
pub struct Vector {
    pub components: Vec<String>,
    pub attr: AttributeMap,
}

/// An entity of any kind, reduced to its kind and attributes.
#[derive(Debug)]
pub struct EntityBox {
    kind: EntityKind,
    attr: AttributeMap,
}

pub struct NodeView {
    pub position: Seq<Seq<char>>,
    pub attr: Seq<(AttrKey, Seq<char>)>,
}

pub struct ElementView {
    pub indices: Seq<usize>,
    pub attr: Seq<(AttrKey, Seq<char>)>,
}

pub struct VectorView {
    pub components: Seq<Seq<char>>,
    pub attr: Seq<(AttrKey, Seq<char>)>,
}

pub struct EntityBoxView {
    pub kind: EntityKind,
    pub attr: Seq<(AttrKey, Seq<char>)>,
}

impl View for Node {
    type V = NodeView;

    open spec fn view(&self) -> NodeView {
        NodeView { position: views_of(self.position@), attr: self.attr@ }
    }
}

impl View for Element {
    type V = ElementView;

    open spec fn view(&self) -> ElementView {
        ElementView { indices: self.indices@, attr: self.attr@ }
    }
}

impl View for Vector {
    type V = VectorView;

    open spec fn view(&self) -> VectorView {
        VectorView { components: views_of(self.components@), attr: self.attr@ }
    }
}

impl View for EntityBox {
    type V = EntityBoxView;

    closed spec fn view(&self) -> EntityBoxView {
        EntityBoxView { kind: self.kind, attr: self.attr@ }
    }
}

/// A copy of a vector of strings.
pub fn clone_texts(v: &Vec<String>) -> (r: Vec<String>)
    ensures
        views_of(r@) == views_of(v@),
{
    let mut out: Vec<String> = Vec::new();
    let mut i: usize = 0;
    while i < v.len()
        invariant
            0 <= i <= v@.len(),
            out@ =~= v@.take(i as int),
        decreases v@.len() - i,
    {
        out.push(v[i].clone());
        i = i + 1;
        assert(out@ =~= v@.take(i as int));
    }
    assert(v@.take(i as int) =~= v@);
    out
}

impl Clone for Node {
    fn clone(&self) -> (r: Self)
        ensures
            r@ == self@,
    {
        Node { position: clone_texts(&self.position), attr: self.attr.clone() }
    }
}

impl Clone for Element {
    fn clone(&self) -> (r: Self)
        ensures
            r@ == self@,
    {
        Element { indices: self.indices.clone(), attr: self.attr.clone() }
    }
}

impl Clone for Vector {
    fn clone(&self) -> (r: Self)
        ensures
            r@ == self@,
    {
        Vector { components: clone_texts(&self.components), attr: self.attr.clone() }
    }
}

impl Clone for EntityBox {
    fn clone(&self) -> (r: Self)
        ensures
            r@ == self@,
    {
        EntityBox { kind: self.kind, attr: self.attr.clone() }
    }
}

impl Entity for Node {
    open spec fn entity_kind(&self) -> EntityKind {
        EntityKind::Node
    }

    open spec fn entity_attributes(&self) -> Seq<(AttrKey, Seq<char>)> {
        self.attr@
    }

    fn kind(&self) -> (r: EntityKind) {
        EntityKind::Node
    }

    fn attributes(&self) -> (r: &AttributeMap) {
        &self.attr
    }
}

impl Entity for Element {
    open spec fn entity_kind(&self) -> EntityKind {
        EntityKind::Element
    }

    open spec fn entity_attributes(&self) -> Seq<(AttrKey, Seq<char>)> {
        self.attr@
    }

    fn kind(&self) -> (r: EntityKind) {
        EntityKind::Element
    }

    fn attributes(&self) -> (r: &AttributeMap) {
        &self.attr
    }
}

impl Entity for Vector {
    open spec fn entity_kind(&self) -> EntityKind {
        EntityKind::Vector
    }

    open spec fn entity_attributes(&self) -> Seq<(AttrKey, Seq<char>)> {
        self.attr@
    }

    fn kind(&self) -> (r: EntityKind) {
        EntityKind::Vector
    }

    fn attributes(&self) -> (r: &AttributeMap) {
        &self.attr
    }
}

impl Entity for EntityBox {
    open spec fn entity_kind(&self) -> EntityKind {
        self@.kind
    }

    open spec fn entity_attributes(&self) -> Seq<(AttrKey, Seq<char>)> {
        self@.attr
    }

    fn kind(&self) -> (r: EntityKind) {
        self.kind
    }

    fn attributes(&self) -> (r: &AttributeMap) {
        &self.attr
    }
}

impl EntityBox {
    pub fn new(kind: EntityKind, attr: AttributeMap) -> (r: EntityBox)
        ensures
            r@ == (EntityBoxView { kind, attr: attr@ }),
    {
        EntityBox { kind, attr }
    }

    /// The kind and attributes of `e`.
    pub fn from_entity<E: Entity>(e: &E) -> (r: EntityBox)
        ensures
            r@ == (EntityBoxView { kind: e.entity_kind(), attr: e.entity_attributes() }),
    {
        EntityBox { kind: e.kind(), attr: e.attributes().clone() }
    }
}

} // verus!
