//! The push protocol through which a format reader fills a mesh container.
//!
//! Per group the reader calls `de_group_begin`, then one of the entity methods
//! for each entity, then `de_group_end`. Every container keeps account, as a
//! specification, of the calls it accepted: an accepted call is appended to
//! `accepted()`, a refused one leaves it as it was.
use vstd::prelude::*;

use crate::entity::{
    Element, ElementView, EntityBox, EntityBoxView, Node, NodeView, Vector, VectorView,
};
use crate::group::{Group, GroupView};

verus! {

/// An error that a mesh container reports while it is filled.
#[derive(Debug)]
pub enum DeserializerError {
    Io(String),
    /// The protocol was not followed, e.g. an entity arrived for a group
    /// that is not the open one.
    BrokenInvariant(String),
    Other(String),
}

/// One call of the push protocol, with what it handed over.
pub enum DeEvent {
    Dimension(u8),
    GroupBegin(GroupView),
    GroupEnd(GroupView),
    Entity(EntityBoxView, GroupView),
    Node(NodeView, GroupView),
    Element(ElementView, GroupView),
    Vector(VectorView, GroupView),
}

/// Whether a container of type `T` that has accepted `log` accepts each of
/// the calls `es` in turn.
pub open spec fn accepts_all<T: DeserializeMesh>(log: Seq<DeEvent>, es: Seq<DeEvent>) -> bool
    decreases es.len(),
{
    es.len() == 0 || (T::accepts(log, es[0]) && accepts_all::<T>(log.push(es[0]), es.drop_first()))
}

/// A container that a format reader can fill.
///
/// A container with no use for the kind of an entity may store it as it
/// stores `de_entity`'s, but it accounts for the call under its own kind.
/// Whether it accepts a call depends only on the calls it accepted before.
pub trait DeserializeMesh {
    /// The calls accepted so far, in order.
    spec fn accepted(&self) -> Seq<DeEvent>;

    /// Whether a container of this type that has accepted `log` accepts `e`.
    spec fn accepts(log: Seq<DeEvent>, e: DeEvent) -> bool;

    /// Sets the dimension of the mesh.
    fn de_dimension(&mut self, dim: u8) -> (r: Result<(), DeserializerError>)
        ensures
            r is Ok <==> Self::accepts(old(self).accepted(), DeEvent::Dimension(dim)),
            r is Ok ==> final(self).accepted() == old(self).accepted().push(DeEvent::Dimension(dim)),
            r is Err ==> final(self).accepted() == old(self).accepted(),
    ;

    /// Opens `group`: the entities that follow belong to it.
    fn de_group_begin(&mut self, group: &Group) -> (r: Result<(), DeserializerError>)
        ensures
            r is Ok <==> Self::accepts(old(self).accepted(), DeEvent::GroupBegin(group@)),
            r is Ok ==> final(self).accepted() == old(self).accepted().push(
                DeEvent::GroupBegin(group@),
            ),
            r is Err ==> final(self).accepted() == old(self).accepted(),
    ;

    /// Closes `group`.
    fn de_group_end(&mut self, group: &Group) -> (r: Result<(), DeserializerError>)
        ensures
            r is Ok <==> Self::accepts(old(self).accepted(), DeEvent::GroupEnd(group@)),
            r is Ok ==> final(self).accepted() == old(self).accepted().push(DeEvent::GroupEnd(group@)),
            r is Err ==> final(self).accepted() == old(self).accepted(),
    ;

    /// Adds an entity of no more specific kind to `group`.
    fn de_entity(&mut self, entity: &EntityBox, group: &Group) -> (r: Result<(), DeserializerError>)
        ensures
            r is Ok <==> Self::accepts(old(self).accepted(), DeEvent::Entity(entity@, group@)),
            r is Ok ==> final(self).accepted() == old(self).accepted().push(
                DeEvent::Entity(entity@, group@),
            ),
            r is Err ==> final(self).accepted() == old(self).accepted(),
    ;

    /// Adds a node to `group`.
    fn de_node(&mut self, node: &Node, group: &Group) -> (r: Result<(), DeserializerError>)
        ensures
            r is Ok <==> Self::accepts(old(self).accepted(), DeEvent::Node(node@, group@)),
            r is Ok ==> final(self).accepted() == old(self).accepted().push(
                DeEvent::Node(node@, group@),
            ),
            r is Err ==> final(self).accepted() == old(self).accepted(),
    ;

    /// Adds an element to `group`.
    fn de_element(&mut self, element: &Element, group: &Group) -> (r: Result<(), DeserializerError>)
        ensures
            r is Ok <==> Self::accepts(old(self).accepted(), DeEvent::Element(element@, group@)),
            r is Ok ==> final(self).accepted() == old(self).accepted().push(
                DeEvent::Element(element@, group@),
            ),
            r is Err ==> final(self).accepted() == old(self).accepted(),
    ;

    /// Adds a vector to `group`.
    fn de_vector(&mut self, vector: &Vector, group: &Group) -> (r: Result<(), DeserializerError>)
        ensures
            r is Ok <==> Self::accepts(old(self).accepted(), DeEvent::Vector(vector@, group@)),
            r is Ok ==> final(self).accepted() == old(self).accepted().push(
                DeEvent::Vector(vector@, group@),
            ),
            r is Err ==> final(self).accepted() == old(self).accepted(),
    ;
}

} // verus!
