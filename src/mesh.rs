//! A face-vertex mesh: per kind of entity, the groups in the order they were
//! opened, each with its entities.
use vstd::prelude::*;

use crate::de::{DeEvent, DeserializeMesh, DeserializerError};
use crate::entity::{
    Element, ElementView, EntityBox, EntityBoxView, EntityKind, Node, NodeView, Vector, VectorView,
};
use crate::group::{Group, GroupView};
use crate::naming::NameView;
use crate::ser::{GroupMetadata, MeshMetadata, SerializableGroup};

verus! {

/// A group and its entities.
#[derive(Debug)]
pub struct EntityGroup<T> {
    group: Group,
    items: Vec<T>,
}

impl<T: View> View for EntityGroup<T> {
    type V = (GroupView, Seq<T::V>);

    closed spec fn view(&self) -> (GroupView, Seq<T::V>) {
        (self.group@, self.items@.map_values(|t: T| t@))
    }
}

impl<T: View> EntityGroup<T> {
    pub fn group(&self) -> (r: &Group)
        ensures
            r@ == self@.0,
    {
        &self.group
    }
}

impl<T: View> SerializableGroup for EntityGroup<T> {
    type Item = T;

    closed spec fn group_items(&self) -> Seq<T> {
        self.items@
    }

    closed spec fn group_name(&self) -> NameView {
        self.group@.name
    }

    fn metadata(&self) -> (r: GroupMetadata) {
        GroupMetadata::new(self.group.name().clone(), self.items.len())
    }

    fn len(&self) -> (r: usize) {
        self.items.len()
    }

    fn item_at(&self, index: usize) -> (r: Option<&T>) {
        if index < self.items.len() {
            Some(&self.items[index])
        } else {
            None
        }
    }
}

/// The items of a group as seen through its view.
pub proof fn lemma_group_items_view<T: View>(g: &EntityGroup<T>)
    ensures
        g@.1 == g.group_items().map_values(|t: T| t@),
        g@.0.name == g.group_name(),
{
}

pub struct MeshView {
    pub dimension: u8,
    pub nodes: Seq<(GroupView, Seq<NodeView>)>,
    pub elements: Seq<(GroupView, Seq<ElementView>)>,
    pub vectors: Seq<(GroupView, Seq<VectorView>)>,
    pub others: Seq<(GroupView, Seq<EntityBoxView>)>,
}

pub open spec fn empty_mesh() -> MeshView {
    MeshView {
        dimension: 0,
        nodes: seq![],
        elements: seq![],
        vectors: seq![],
        others: seq![],
    }
}

pub open spec fn has_groups(m: MeshView) -> bool {
    m.nodes.len() > 0 || m.elements.len() > 0 || m.vectors.len() > 0 || m.others.len() > 0
}

/// Whether the group opened last in `groups` has identity `uid`.
pub open spec fn is_open<V>(groups: Seq<(GroupView, Seq<V>)>, uid: u64) -> bool {
    groups.len() > 0 && groups.last().0.parsing_uid == uid
}

/// `groups` with `item` added to the group opened last.
pub open spec fn append_to_last<V>(groups: Seq<(GroupView, Seq<V>)>, item: V) -> Seq<
    (GroupView, Seq<V>),
> {
    groups.update(groups.len() - 1, (groups.last().0, groups.last().1.push(item)))
}

/// The mesh after opening `g`.
pub open spec fn begin_group(m: MeshView, g: GroupView) -> MeshView {
    match g.kind {
        EntityKind::Node => MeshView { nodes: m.nodes.push((g, seq![])), ..m },
        EntityKind::Element => MeshView { elements: m.elements.push((g, seq![])), ..m },
        EntityKind::Vector => MeshView { vectors: m.vectors.push((g, seq![])), ..m },
        EntityKind::Other => MeshView { others: m.others.push((g, seq![])), ..m },
    }
}

/// The mesh after one protocol call, or `None` where the mesh refuses it: a
/// dimension change once groups exist, or an entity for a group that is not
/// the open one of its kind.
pub open spec fn apply_event(m: MeshView, e: DeEvent) -> Option<MeshView> {
    match e {
        DeEvent::Dimension(d) => if has_groups(m) && d != m.dimension {
            None
        } else {
            Some(MeshView { dimension: d, ..m })
        },
        DeEvent::GroupBegin(g) => Some(begin_group(m, g)),
        DeEvent::GroupEnd(_) => Some(m),
        DeEvent::Node(n, g) => if is_open(m.nodes, g.parsing_uid) {
            Some(MeshView { nodes: append_to_last(m.nodes, n), ..m })
        } else {
            None
        },
        DeEvent::Element(x, g) => if is_open(m.elements, g.parsing_uid) {
            Some(MeshView { elements: append_to_last(m.elements, x), ..m })
        } else {
            None
        },
        DeEvent::Vector(x, g) => if is_open(m.vectors, g.parsing_uid) {
            Some(MeshView { vectors: append_to_last(m.vectors, x), ..m })
        } else {
            None
        },
        DeEvent::Entity(x, g) => if is_open(m.others, g.parsing_uid) {
            Some(MeshView { others: append_to_last(m.others, x), ..m })
        } else {
            None
        },
    }
}

/// The mesh after the calls `es`, in order.
pub open spec fn apply_events(m: MeshView, es: Seq<DeEvent>) -> Option<MeshView>
    decreases es.len(),
{
    if es.len() == 0 {
        Some(m)
    } else {
        match apply_events(m, es.drop_last()) {
            Some(m1) => apply_event(m1, es.last()),
            None => None,
        }
    }
}

/// Replaying one more call.
pub proof fn lemma_apply_push(m: MeshView, es: Seq<DeEvent>, e: DeEvent)
    ensures
        apply_events(m, es.push(e)) == match apply_events(m, es) {
            Some(m1) => apply_event(m1, e),
            None => None,
        },
{
    assert(es.push(e).drop_last() =~= es);
}

/// A face-vertex mesh, filled through the push protocol and read through
/// the pull side. It is always what its accepted calls build from an empty
/// mesh.
pub struct Mesh {
    dimension: u8,
    nodes: Vec<EntityGroup<Node>>,
    elements: Vec<EntityGroup<Element>>,
    vectors: Vec<EntityGroup<Vector>>,
    others: Vec<EntityGroup<EntityBox>>,
    accepted: Ghost<Seq<DeEvent>>,
}

pub open spec fn groups_view<T: View>(v: Seq<EntityGroup<T>>) -> Seq<(GroupView, Seq<T::V>)> {
    v.map_values(|g: EntityGroup<T>| g@)
}

impl View for Mesh {
    type V = MeshView;

    closed spec fn view(&self) -> MeshView {
        MeshView {
            dimension: self.dimension,
            nodes: groups_view(self.nodes@),
            elements: groups_view(self.elements@),
            vectors: groups_view(self.vectors@),
            others: groups_view(self.others@),
        }
    }
}

/// Adds `item` to the last group of `groups` if that group has identity
/// `uid`.
fn push_to_open<T: View>(groups: &mut Vec<EntityGroup<T>>, item: T, uid: u64) -> (r: bool)
    ensures
        r == is_open(groups_view(old(groups)@), uid),
        r ==> groups_view(final(groups)@) == append_to_last(groups_view(old(groups)@), item@),
        !r ==> final(groups)@ == old(groups)@,
{
    let n = groups.len();
    if n == 0 || groups[n - 1].group.parsing_uid() != uid {
        return false;
    }
    let ghost before = groups_view(groups@);
    let mut last = groups.pop().unwrap();
    let ghost prev_items = last.items@.map_values(|t: T| t@);
    let ghost item_view = item@;
    last.items.push(item);
    assert(last.items@.map_values(|t: T| t@) =~= prev_items.push(item_view));
    groups.push(last);
    assert(groups_view(groups@) =~= append_to_last(before, item_view));
    true
}

/// Opens a group in `groups`, with room for `size` entities if known.
fn open_in<T: View>(groups: &mut Vec<EntityGroup<T>>, group: &Group)
    ensures
        groups_view(final(groups)@) == groups_view(old(groups)@).push((group@, seq![])),
{
    let items: Vec<T> = match group.size() {
        Some(size) => Vec::with_capacity(size),
        None => Vec::new(),
    };
    let g = EntityGroup { group: group.clone(), items };
    assert(g@ == (group@, Seq::<T::V>::empty()));
    let ghost before = groups_view(groups@);
    groups.push(g);
    assert(groups_view(groups@) =~= before.push((group@, seq![])));
}

fn broken(what: &str) -> (r: DeserializerError)
    ensures
        r is BrokenInvariant,
{
    DeserializerError::BrokenInvariant(what.to_string())
}

impl Mesh {
    #[verifier::type_invariant]
    closed spec fn replays(self) -> bool {
        apply_events(empty_mesh(), self.accepted@) == Some(self@)
    }

    /// States for callers' proofs that the mesh is what its accepted calls
    /// build from an empty mesh; it does nothing when run.
    pub fn replays_accepted(&self)
        ensures
            apply_events(empty_mesh(), self.accepted()) == Some(self@),
    {
        proof {
            use_type_invariant(self);
        }
    }

    /// An empty mesh of dimension 0.
    pub fn new() -> (r: Mesh)
        ensures
            r@ == empty_mesh(),
            r.accepted() == Seq::<DeEvent>::empty(),
    {
        let nodes: Vec<EntityGroup<Node>> = Vec::new();
        let elements: Vec<EntityGroup<Element>> = Vec::new();
        let vectors: Vec<EntityGroup<Vector>> = Vec::new();
        let others: Vec<EntityGroup<EntityBox>> = Vec::new();
        assert(groups_view(nodes@) =~= Seq::<(GroupView, Seq<NodeView>)>::empty());
        assert(groups_view(elements@) =~= Seq::<(GroupView, Seq<ElementView>)>::empty());
        assert(groups_view(vectors@) =~= Seq::<(GroupView, Seq<VectorView>)>::empty());
        assert(groups_view(others@) =~= Seq::<(GroupView, Seq<EntityBoxView>)>::empty());
        let r = Mesh {
            dimension: 0,
            nodes,
            elements,
            vectors,
            others,
            accepted: Ghost(Seq::empty()),
        };
        r
    }

    pub fn metadata(&self) -> (r: MeshMetadata)
        ensures
            r@ == self@.dimension,
    {
        MeshMetadata::new(self.dimension)
    }

    pub fn node_groups(&self) -> (r: &Vec<EntityGroup<Node>>)
        ensures
            groups_view(r@) == self@.nodes,
    {
        &self.nodes
    }

    pub fn element_groups(&self) -> (r: &Vec<EntityGroup<Element>>)
        ensures
            groups_view(r@) == self@.elements,
    {
        &self.elements
    }

    pub fn vector_groups(&self) -> (r: &Vec<EntityGroup<Vector>>)
        ensures
            groups_view(r@) == self@.vectors,
    {
        &self.vectors
    }

    pub fn other_groups(&self) -> (r: &Vec<EntityGroup<EntityBox>>)
        ensures
            groups_view(r@) == self@.others,
    {
        &self.others
    }

    /// Sets the dimension. Once a group exists the dimension can no longer
    /// change: a different one is refused.
    pub fn set_dimension(&mut self, dim: u8) -> (r: Result<(), DeserializerError>)
        ensures
            has_groups(old(self)@) && dim != old(self)@.dimension ==> r is Err && r->Err_0 is BrokenInvariant
                && final(self)@ == old(self)@,
            !(has_groups(old(self)@) && dim != old(self)@.dimension) ==> r is Ok && final(self)@
                == (MeshView { dimension: dim, ..old(self)@ }),
            r is Ok ==> final(self).accepted() == old(self).accepted().push(DeEvent::Dimension(dim)),
            r is Err ==> final(self).accepted() == old(self).accepted(),
    {
        proof {
            use_type_invariant(&*self);
        }
        if (self.nodes.len() > 0 || self.elements.len() > 0 || self.vectors.len() > 0
            || self.others.len() > 0) && dim != self.dimension {
            return Err(broken("dimension changed after groups were added"));
        }
        let mut taken = Mesh::new();
        core::mem::swap(self, &mut taken);
        proof {
            use_type_invariant(&taken);
        }
        let Mesh { dimension: _, nodes, elements, vectors, others, accepted } = taken;
        proof {
            lemma_apply_push(empty_mesh(), accepted@, DeEvent::Dimension(dim));
        }
        *self = Mesh {
            dimension: dim,
            nodes,
            elements,
            vectors,
            others,
            accepted: Ghost(accepted@.push(DeEvent::Dimension(dim))),
        };
        Ok(())
    }

    /// Opens `group` among the groups of its kind.
    pub fn begin_group(&mut self, group: &Group)
        ensures
            final(self)@ == begin_group(old(self)@, group@),
            final(self).accepted() == old(self).accepted().push(DeEvent::GroupBegin(group@)),
    {
        proof {
            use_type_invariant(&*self);
        }
        let mut taken = Mesh::new();
        core::mem::swap(self, &mut taken);
        proof {
            use_type_invariant(&taken);
        }
        let Mesh { dimension, mut nodes, mut elements, mut vectors, mut others, accepted } = taken;
        match group.kind() {
            EntityKind::Node => open_in(&mut nodes, group),
            EntityKind::Element => open_in(&mut elements, group),
            EntityKind::Vector => open_in(&mut vectors, group),
            EntityKind::Other => open_in(&mut others, group),
        }
        proof {
            lemma_apply_push(empty_mesh(), accepted@, DeEvent::GroupBegin(group@));
        }
        *self = Mesh {
            dimension,
            nodes,
            elements,
            vectors,
            others,
            accepted: Ghost(accepted@.push(DeEvent::GroupBegin(group@))),
        };
    }

    /// Closes `group`; the mesh does not change.
    pub fn end_group(&mut self, group: &Group)
        ensures
            final(self)@ == old(self)@,
            final(self).accepted() == old(self).accepted().push(DeEvent::GroupEnd(group@)),
    {
        proof {
            use_type_invariant(&*self);
        }
        let mut taken = Mesh::new();
        core::mem::swap(self, &mut taken);
        proof {
            use_type_invariant(&taken);
        }
        let Mesh { dimension, nodes, elements, vectors, others, accepted } = taken;
        proof {
            lemma_apply_push(empty_mesh(), accepted@, DeEvent::GroupEnd(group@));
        }
        *self = Mesh {
            dimension,
            nodes,
            elements,
            vectors,
            others,
            accepted: Ghost(accepted@.push(DeEvent::GroupEnd(group@))),
        };
    }

    /// Adds `node` to the node group opened last, which must be `group`.
    pub fn add_node(&mut self, node: &Node, group: &Group) -> (r: Result<(), DeserializerError>)
        ensures
            is_open(old(self)@.nodes, group@.parsing_uid) ==> r is Ok && final(self)@ == (MeshView {
                nodes: append_to_last(old(self)@.nodes, node@),
                ..old(self)@
            }),
            !is_open(old(self)@.nodes, group@.parsing_uid) ==> r is Err && r->Err_0 is BrokenInvariant
                && final(self)@ == old(self)@,
            r is Ok ==> final(self).accepted() == old(self).accepted().push(DeEvent::Node(node@, group@)),
            r is Err ==> final(self).accepted() == old(self).accepted(),
    {
        proof {
            use_type_invariant(&*self);
        }
        let mut taken = Mesh::new();
        core::mem::swap(self, &mut taken);
        proof {
            use_type_invariant(&taken);
        }
        let Mesh { dimension, mut nodes, elements, vectors, others, accepted } = taken;
        let ok = push_to_open(&mut nodes, node.clone(), group.parsing_uid());
        let ghost acc = if ok {
            accepted@.push(DeEvent::Node(node@, group@))
        } else {
            accepted@
        };
        proof {
            lemma_apply_push(empty_mesh(), accepted@, DeEvent::Node(node@, group@));
        }
        *self = Mesh { dimension, nodes, elements, vectors, others, accepted: Ghost(acc) };
        if ok {
            Ok(())
        } else {
            Err(broken("node for a group that is not open"))
        }
    }

    /// Adds `element` to the element group opened last, which must be
    /// `group`.
    pub fn add_element(&mut self, element: &Element, group: &Group) -> (r: Result<
        (),
        DeserializerError,
    >)
        ensures
            is_open(old(self)@.elements, group@.parsing_uid) ==> r is Ok && final(self)@ == (
            MeshView { elements: append_to_last(old(self)@.elements, element@), ..old(self)@ }),
            !is_open(old(self)@.elements, group@.parsing_uid) ==> r is Err && r->Err_0 is BrokenInvariant
                && final(self)@ == old(self)@,
            r is Ok ==> final(self).accepted() == old(self).accepted().push(
                DeEvent::Element(element@, group@),
            ),
            r is Err ==> final(self).accepted() == old(self).accepted(),
    {
        proof {
            use_type_invariant(&*self);
        }
        let mut taken = Mesh::new();
        core::mem::swap(self, &mut taken);
        proof {
            use_type_invariant(&taken);
        }
        let Mesh { dimension, nodes, mut elements, vectors, others, accepted } = taken;
        let ok = push_to_open(&mut elements, element.clone(), group.parsing_uid());
        let ghost acc = if ok {
            accepted@.push(DeEvent::Element(element@, group@))
        } else {
            accepted@
        };
        proof {
            lemma_apply_push(empty_mesh(), accepted@, DeEvent::Element(element@, group@));
        }
        *self = Mesh { dimension, nodes, elements, vectors, others, accepted: Ghost(acc) };
        if ok {
            Ok(())
        } else {
            Err(broken("element for a group that is not open"))
        }
    }

    /// Adds `vector` to the vector group opened last, which must be `group`.
    pub fn add_vector(&mut self, vector: &Vector, group: &Group) -> (r: Result<
        (),
        DeserializerError,
    >)
        ensures
            is_open(old(self)@.vectors, group@.parsing_uid) ==> r is Ok && final(self)@ == (
            MeshView { vectors: append_to_last(old(self)@.vectors, vector@), ..old(self)@ }),
            !is_open(old(self)@.vectors, group@.parsing_uid) ==> r is Err && r->Err_0 is BrokenInvariant
                && final(self)@ == old(self)@,
            r is Ok ==> final(self).accepted() == old(self).accepted().push(
                DeEvent::Vector(vector@, group@),
            ),
            r is Err ==> final(self).accepted() == old(self).accepted(),
    {
        proof {
            use_type_invariant(&*self);
        }
        let mut taken = Mesh::new();
        core::mem::swap(self, &mut taken);
        proof {
            use_type_invariant(&taken);
        }
        let Mesh { dimension, nodes, elements, mut vectors, others, accepted } = taken;
        let ok = push_to_open(&mut vectors, vector.clone(), group.parsing_uid());
        let ghost acc = if ok {
            accepted@.push(DeEvent::Vector(vector@, group@))
        } else {
            accepted@
        };
        proof {
            lemma_apply_push(empty_mesh(), accepted@, DeEvent::Vector(vector@, group@));
        }
        *self = Mesh { dimension, nodes, elements, vectors, others, accepted: Ghost(acc) };
        if ok {
            Ok(())
        } else {
            Err(broken("vector for a group that is not open"))
        }
    }

    /// Adds `entity` to the group of other entities opened last, which must
    /// be `group`.
    pub fn add_entity(&mut self, entity: &EntityBox, group: &Group) -> (r: Result<
        (),
        DeserializerError,
    >)
        ensures
            is_open(old(self)@.others, group@.parsing_uid) ==> r is Ok && final(self)@ == (
            MeshView { others: append_to_last(old(self)@.others, entity@), ..old(self)@ }),
            !is_open(old(self)@.others, group@.parsing_uid) ==> r is Err && r->Err_0 is BrokenInvariant
                && final(self)@ == old(self)@,
            r is Ok ==> final(self).accepted() == old(self).accepted().push(
                DeEvent::Entity(entity@, group@),
            ),
            r is Err ==> final(self).accepted() == old(self).accepted(),
    {
        proof {
            use_type_invariant(&*self);
        }
        let mut taken = Mesh::new();
        core::mem::swap(self, &mut taken);
        proof {
            use_type_invariant(&taken);
        }
        let Mesh { dimension, nodes, elements, vectors, mut others, accepted } = taken;
        let ok = push_to_open(&mut others, entity.clone(), group.parsing_uid());
        let ghost acc = if ok {
            accepted@.push(DeEvent::Entity(entity@, group@))
        } else {
            accepted@
        };
        proof {
            lemma_apply_push(empty_mesh(), accepted@, DeEvent::Entity(entity@, group@));
        }
        *self = Mesh { dimension, nodes, elements, vectors, others, accepted: Ghost(acc) };
        if ok {
            Ok(())
        } else {
            Err(broken("entity for a group that is not open"))
        }
    }
}

impl Default for Mesh {
    fn default() -> (r: Mesh)
        ensures
            r@ == empty_mesh(),
            r.accepted() == Seq::<DeEvent>::empty(),
    {
        Mesh::new()
    }
}

impl DeserializeMesh for Mesh {
    closed spec fn accepted(&self) -> Seq<DeEvent> {
        self.accepted@
    }

    /// A mesh accepts a call when the call applies to the mesh its log
    /// builds.
    open spec fn accepts(log: Seq<DeEvent>, e: DeEvent) -> bool {
        match apply_events(empty_mesh(), log) {
            Some(m) => apply_event(m, e) is Some,
            None => false,
        }
    }

    fn de_dimension(&mut self, dim: u8) -> (r: Result<(), DeserializerError>)
        ensures
            has_groups(old(self)@) && dim != old(self)@.dimension ==> r is Err && r->Err_0 is BrokenInvariant
                && final(self)@ == old(self)@,
            !(has_groups(old(self)@) && dim != old(self)@.dimension) ==> r is Ok && final(self)@
                == (MeshView { dimension: dim, ..old(self)@ }),
    {
        proof {
            use_type_invariant(&*self);
        }
        self.set_dimension(dim)
    }

    fn de_group_begin(&mut self, group: &Group) -> (r: Result<(), DeserializerError>)
        ensures
            r is Ok,
            final(self)@ == begin_group(old(self)@, group@),
    {
        proof {
            use_type_invariant(&*self);
        }
        self.begin_group(group);
        Ok(())
    }

    fn de_group_end(&mut self, group: &Group) -> (r: Result<(), DeserializerError>)
        ensures
            r is Ok,
            final(self)@ == old(self)@,
    {
        proof {
            use_type_invariant(&*self);
        }
        self.end_group(group);
        Ok(())
    }

    fn de_entity(&mut self, entity: &EntityBox, group: &Group) -> (r: Result<(), DeserializerError>)
        ensures
            is_open(old(self)@.others, group@.parsing_uid) ==> r is Ok && final(self)@ == (
            MeshView { others: append_to_last(old(self)@.others, entity@), ..old(self)@ }),
            !is_open(old(self)@.others, group@.parsing_uid) ==> r is Err && r->Err_0 is BrokenInvariant
                && final(self)@ == old(self)@,
    {
        proof {
            use_type_invariant(&*self);
        }
        self.add_entity(entity, group)
    }

    fn de_node(&mut self, node: &Node, group: &Group) -> (r: Result<(), DeserializerError>)
        ensures
            is_open(old(self)@.nodes, group@.parsing_uid) ==> r is Ok && final(self)@ == (MeshView {
                nodes: append_to_last(old(self)@.nodes, node@),
                ..old(self)@
            }),
            !is_open(old(self)@.nodes, group@.parsing_uid) ==> r is Err && r->Err_0 is BrokenInvariant
                && final(self)@ == old(self)@,
    {
        proof {
            use_type_invariant(&*self);
        }
        self.add_node(node, group)
    }

    fn de_element(&mut self, element: &Element, group: &Group) -> (r: Result<(), DeserializerError>)
        ensures
            is_open(old(self)@.elements, group@.parsing_uid) ==> r is Ok && final(self)@ == (
            MeshView { elements: append_to_last(old(self)@.elements, element@), ..old(self)@ }),
            !is_open(old(self)@.elements, group@.parsing_uid) ==> r is Err && r->Err_0 is BrokenInvariant
                && final(self)@ == old(self)@,
    {
        proof {
            use_type_invariant(&*self);
        }
        self.add_element(element, group)
    }

    fn de_vector(&mut self, vector: &Vector, group: &Group) -> (r: Result<(), DeserializerError>)
        ensures
            is_open(old(self)@.vectors, group@.parsing_uid) ==> r is Ok && final(self)@ == (
            MeshView { vectors: append_to_last(old(self)@.vectors, vector@), ..old(self)@ }),
            !is_open(old(self)@.vectors, group@.parsing_uid) ==> r is Err && r->Err_0 is BrokenInvariant
                && final(self)@ == old(self)@,
    {
        proof {
            use_type_invariant(&*self);
        }
        self.add_vector(vector, group)
    }
}

/// Once a group has been opened, it is the open group of its kind: an
/// entity meant for any group with another identity, such as one of the same
/// name opened before, is refused until that group is opened again.
pub proof fn lemma_stale_group_refused(m: MeshView, newer: GroupView, older_uid: u64)
    requires
        older_uid != newer.parsing_uid,
    ensures
        newer.kind == EntityKind::Node ==> is_open(begin_group(m, newer).nodes, newer.parsing_uid)
            && !is_open(begin_group(m, newer).nodes, older_uid),
        newer.kind == EntityKind::Element ==> is_open(begin_group(m, newer).elements, newer.parsing_uid)
            && !is_open(begin_group(m, newer).elements, older_uid),
        newer.kind == EntityKind::Vector ==> is_open(begin_group(m, newer).vectors, newer.parsing_uid)
            && !is_open(begin_group(m, newer).vectors, older_uid),
        newer.kind == EntityKind::Other ==> is_open(begin_group(m, newer).others, newer.parsing_uid)
            && !is_open(begin_group(m, newer).others, older_uid),
{
}

} // verus!
