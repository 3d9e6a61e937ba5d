//! Groups: named, kind-homogeneous collections of entities, identified within
//! one parsing pass by a counter.
use vstd::prelude::*;

use crate::attribute::{AttrKey, AttributeMap};
use crate::entity::EntityKind;
use crate::naming::{Name, NameView};

verus! {

/// The kind of the entities of a group.
pub type GroupKind = EntityKind;

/// What describes a group: its identity within a parse, its name, a size
/// hint and the kind of its entities.
///
/// Two groups are equal when their `parsing_uid`s are, whatever their names.
#[derive(Debug)]
pub struct Group {
    parsing_uid: u64,
    name: Name,
    attr: AttributeMap,
    size: Option<usize>,
    kind: EntityKind,
}

pub struct GroupView {
    pub parsing_uid: u64,
    pub name: NameView,
    pub attr: Seq<(AttrKey, Seq<char>)>,
    pub size: Option<usize>,
    pub kind: EntityKind,
}

impl View for Group {
    type V = GroupView;

    closed spec fn view(&self) -> GroupView {
        GroupView {
            parsing_uid: self.parsing_uid,
            name: self.name@,
            attr: self.attr@,
            size: self.size,
            kind: self.kind,
        }
    }
}

impl Group {
    pub fn new(parsing_uid: u64, name: Name, size: Option<usize>, kind: GroupKind) -> (r: Group)
        ensures
            r@.parsing_uid == parsing_uid,
            r@.name == name@,
            r@.attr == Seq::<(AttrKey, Seq<char>)>::empty(),
            r@.size == size,
            r@.kind == kind,
    {
        Group { parsing_uid, name, attr: AttributeMap::new(), size, kind }
    }

    pub fn parsing_uid(&self) -> (r: u64)
        ensures
            r == self@.parsing_uid,
    {
        self.parsing_uid
    }

    pub fn name(&self) -> (r: &Name)
        ensures
            r@ == self@.name,
    {
        &self.name
    }

    pub fn attr(&self) -> (r: &AttributeMap)
        ensures
            r@ == self@.attr,
    {
        &self.attr
    }

    pub fn size(&self) -> (r: Option<usize>)
        ensures
            r == self@.size,
    {
        self.size
    }

    pub fn kind(&self) -> (r: GroupKind)
        ensures
            r == self@.kind,
    {
        self.kind
    }
}

impl Clone for Group {
    fn clone(&self) -> (r: Self)
        ensures
            r@ == self@,
    {
        Group {
            parsing_uid: self.parsing_uid,
            name: self.name.clone(),
            attr: self.attr.clone(),
            size: self.size,
            kind: self.kind,
        }
    }
}

impl PartialEq for Group {
    fn eq(&self, other: &Group) -> (r: bool) {
        self.parsing_uid == other.parsing_uid
    }
}

impl vstd::std_specs::cmp::PartialEqSpecImpl for Group {
    open spec fn obeys_eq_spec() -> bool {
        true
    }

    open spec fn eq_spec(&self, other: &Group) -> bool {
        self@.parsing_uid == other@.parsing_uid
    }
}

} // verus!
