//! The pull side: what a format writer reads from a mesh container.
use vstd::prelude::*;

use crate::naming::{Name, NameView};

verus! {

/// Facts about a whole mesh.
#[derive(Clone, Copy, Debug)]
pub struct MeshMetadata {
    pub(crate) dimension: u8,
}

impl View for MeshMetadata {
    type V = u8;

    closed spec fn view(&self) -> u8 {
        self.dimension
    }
}

impl MeshMetadata {
    pub fn new(dimension: u8) -> (r: MeshMetadata)
        ensures
            r@ == dimension,
    {
        MeshMetadata { dimension }
    }

    /// The dimension of the mesh, usually 2 or 3.
    pub fn dimension(&self) -> (r: u8)
        ensures
            r == self@,
    {
        self.dimension
    }
}

/// Facts about one group.
#[derive(Debug)]
pub struct GroupMetadata {
    pub(crate) name: Name,
    pub(crate) size: usize,
}

impl View for GroupMetadata {
    type V = (NameView, usize);

    closed spec fn view(&self) -> (NameView, usize) {
        (self.name@, self.size)
    }
}

impl GroupMetadata {
    pub fn new(name: Name, size: usize) -> (r: GroupMetadata)
        ensures
            r@ == (name@, size),
    {
        GroupMetadata { name, size }
    }

    pub fn name(&self) -> (r: &Name)
        ensures
            r@ == self@.0,
    {
        &self.name
    }

    /// The number of entities of the group.
    pub fn len(&self) -> (r: usize)
        ensures
            r == self@.1,
    {
        self.size
    }
}

/// A group that a writer can read entity by entity.
pub trait SerializableGroup {
    type Item;

    spec fn group_items(&self) -> Seq<Self::Item>;

    spec fn group_name(&self) -> NameView;

    fn metadata(&self) -> (r: GroupMetadata)
        ensures
            r@ == (self.group_name(), self.group_items().len() as usize),
    ;

    fn len(&self) -> (r: usize)
        ensures
            r == self.group_items().len(),
    ;

    /// The entity at `index`; `None` from the length on.
    fn item_at(&self, index: usize) -> (r: Option<&Self::Item>)
        ensures
            index < self.group_items().len() ==> r == Some(&self.group_items()[index as int]),
            index >= self.group_items().len() ==> r is None,
    ;
}

} // verus!
