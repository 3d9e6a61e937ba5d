//! The MEDIT text format.
//!
//! A file is a sequence of keywords, each followed by its data:
//! `MeshVersionFormatted 1`, `Dimension <d>`, node groups (`Vertices`,
//! `Normals`, `Tangents`) and element groups (`Edges`, `Triangles`,
//! `Quadrilaterals`, `Tetrahedra`, `Hexahedra`), each a count and that many
//! rows, and `End`, after which nothing is read.
use vstd::prelude::*;

use crate::attribute::{
    lookup, AttrKey, AttributeContainer, AttributeContainerMut, AttributeMap, AttributeName,
};
use crate::de::{accepts_all, DeEvent, DeserializeMesh, DeserializerError};
use crate::entity::{Element, ElementView, EntityKind, Node, NodeView};
use crate::group::{Group, GroupView};
use crate::item_reader::{items_of, ItemReader};
use crate::mesh::{
    append_to_last, apply_event, apply_events, begin_group, empty_mesh, has_groups, is_open,
    lemma_apply_push, lemma_group_items_view, EntityGroup, Mesh, MeshView,
};
use crate::naming::{Format, Name, NameView};
use crate::ser::SerializableGroup;
use crate::text::{
    chars_of, decimal_of, decimal_text, is_real, is_real_text, is_unsigned_text, parse_usize,
    same_text, unsigned_value, views_of,
};

verus! {

/// The number of nodes of an element of the group named `name`.
pub open spec fn arity_of(name: Seq<char>) -> Option<usize> {
    if name == "Edges"@ {
        Some(2)
    } else if name == "Triangles"@ {
        Some(3)
    } else if name == "Quadrilaterals"@ {
        Some(4)
    } else if name == "Tetrahedra"@ {
        Some(4)
    } else if name == "Hexahedra"@ {
        Some(8)
    } else {
        None
    }
}

/// The number of nodes of an element of the group named `element_name`.
pub fn element_nary(element_name: &str) -> (r: Option<usize>)
    ensures
        r == arity_of(element_name@),
{
    let c = chars_of(element_name);
    if same_text(&c, "Edges") {
        Some(2)
    } else if same_text(&c, "Triangles") {
        Some(3)
    } else if same_text(&c, "Quadrilaterals") {
        Some(4)
    } else if same_text(&c, "Tetrahedra") {
        Some(4)
    } else if same_text(&c, "Hexahedra") {
        Some(8)
    } else {
        None
    }
}

pub open spec fn is_node_keyword(k: Seq<char>) -> bool {
    k == "Vertices"@ || k == "Normals"@ || k == "Tangents"@
}

/// An error of reading MEDIT text.
#[derive(Debug)]
pub enum DeserializeError {
    /// The source could not be read.
    Io(String),
    /// A version or variant of the format that is not handled.
    Unsupported(String),
    /// Malformed text: an unknown keyword, a missing or unparseable item.
    Syntax(String),
    /// The container being filled refused what it was given.
    Deserializer(DeserializerError),
}

impl From<DeserializerError> for DeserializeError {
    fn from(e: DeserializerError) -> (r: DeserializeError) {
        DeserializeError::Deserializer(e)
    }
}

impl vstd::std_specs::convert::FromSpecImpl<DeserializerError> for DeserializeError {
    open spec fn obeys_from_spec() -> bool {
        true
    }

    open spec fn from_spec(e: DeserializerError) -> DeserializeError {
        DeserializeError::Deserializer(e)
    }
}

/// How reading MEDIT text fails.
pub enum MeditFailure {
    Syntax,
    Unsupported,
}

pub open spec fn failure_of(e: DeserializeError) -> Option<MeditFailure> {
    match e {
        DeserializeError::Syntax(_) => Some(MeditFailure::Syntax),
        DeserializeError::Unsupported(_) => Some(MeditFailure::Unsupported),
        _ => None,
    }
}

/// What a MEDIT text holds, in the order it holds it.
#[derive(Debug)]
pub enum MeditBlock {
    Dimension(u8),
    Nodes(Group, Vec<Node>),
    Elements(Group, Vec<Element>),
}

pub enum BlockView {
    Dimension(u8),
    Nodes(GroupView, Seq<NodeView>),
    Elements(GroupView, Seq<ElementView>),
}

impl View for MeditBlock {
    type V = BlockView;

    open spec fn view(&self) -> BlockView {
        match self {
            MeditBlock::Dimension(d) => BlockView::Dimension(*d),
            MeditBlock::Nodes(g, ns) => BlockView::Nodes(g@, ns@.map_values(|n: Node| n@)),
            MeditBlock::Elements(g, es) => BlockView::Elements(
                g@,
                es@.map_values(|e: Element| e@),
            ),
        }
    }
}

pub open spec fn blocks_view(v: Seq<MeditBlock>) -> Seq<BlockView> {
    v.map_values(|b: MeditBlock| b@)
}

/// The description of a group read from MEDIT text.
pub open spec fn medit_group(uid: u64, name: Seq<char>, kind: EntityKind, size: usize) -> GroupView {
    GroupView {
        parsing_uid: uid,
        name: NameView { name, format: Format::Medit, kind },
        attr: Seq::empty(),
        size: Some(size),
        kind,
    }
}

pub open spec fn parses_as_usize(t: Seq<char>) -> bool {
    is_unsigned_text(t) && unsigned_value(t) <= usize::MAX
}

pub open spec fn all_real(toks: Seq<Seq<char>>, from: int, to: int) -> bool {
    forall|i: int| from <= i < to ==> is_real_text(#[trigger] toks[i])
}

/// The items of one node row: its coordinates, and a reference where the
/// group has one.
pub open spec fn node_width(dim: nat, with_ref: bool) -> nat {
    if with_ref {
        dim + 1
    } else {
        dim
    }
}

/// The node whose row starts at item `q`.
pub open spec fn node_at(toks: Seq<Seq<char>>, q: int, dim: nat, with_ref: bool) -> NodeView {
    NodeView {
        position: toks.subrange(q, q + dim),
        attr: if with_ref {
            seq![(AttrKey::Index(0), toks[q + dim])]
        } else {
            seq![]
        },
    }
}

/// `count` node rows from item `q` on, and the item after them.
pub open spec fn read_nodes(
    toks: Seq<Seq<char>>,
    q: int,
    count: nat,
    dim: nat,
    with_ref: bool,
) -> Option<(Seq<NodeView>, int)>
    decreases count,
{
    if count == 0 {
        Some((seq![], q))
    } else {
        let w = node_width(dim, with_ref);
        if 0 <= q && q + w <= toks.len() && all_real(toks, q, q + w) {
            match read_nodes(toks, q + w, (count - 1) as nat, dim, with_ref) {
                Some((ns, e)) => Some((seq![node_at(toks, q, dim, with_ref)] + ns, e)),
                None => None,
            }
        } else {
            None
        }
    }
}

/// The element whose row starts at item `q`: node indices, then a reference.
pub open spec fn element_at(toks: Seq<Seq<char>>, q: int, arity: nat) -> ElementView {
    ElementView {
        indices: Seq::new(arity, |i: int| unsigned_value(toks[q + i]) as usize),
        attr: seq![(AttrKey::Index(0), toks[q + arity])],
    }
}

pub open spec fn element_row_ok(toks: Seq<Seq<char>>, q: int, arity: nat) -> bool {
    &&& 0 <= q
    &&& q + arity + 1 <= toks.len()
    &&& forall|i: int| q <= i < q + arity ==> parses_as_usize(#[trigger] toks[i])
    &&& is_real_text(toks[q + arity])
}

/// `count` element rows from item `q` on, and the item after them.
pub open spec fn read_elements(toks: Seq<Seq<char>>, q: int, count: nat, arity: nat) -> Option<
    (Seq<ElementView>, int),
>
    decreases count,
{
    if count == 0 {
        Some((seq![], q))
    } else if element_row_ok(toks, q, arity) {
        match read_elements(toks, q + arity + 1, (count - 1) as nat, arity) {
            Some((es, e)) => Some((seq![element_at(toks, q, arity)] + es, e)),
            None => None,
        }
    } else {
        None
    }
}

pub proof fn lemma_read_nodes_end(
    toks: Seq<Seq<char>>,
    q: int,
    count: nat,
    dim: nat,
    with_ref: bool,
)
    requires
        0 <= q,
    ensures
        read_nodes(toks, q, count, dim, with_ref) matches Some((ns, e)) ==> q <= e <= toks.len()
            || (count == 0 && e == q),
        read_nodes(toks, q, count, dim, with_ref) matches Some((ns, e)) ==> ns.len() == count,
    decreases count,
{
    if count > 0 {
        let w = node_width(dim, with_ref);
        if q + w <= toks.len() {
            lemma_read_nodes_end(toks, q + w, (count - 1) as nat, dim, with_ref);
        }
    }
}

pub proof fn lemma_read_elements_end(toks: Seq<Seq<char>>, q: int, count: nat, arity: nat)
    requires
        0 <= q,
    ensures
        read_elements(toks, q, count, arity) matches Some((es, e)) ==> q <= e <= toks.len()
            || (count == 0 && e == q),
        read_elements(toks, q, count, arity) matches Some((es, e)) ==> es.len() == count,
    decreases count,
{
    if count > 0 && element_row_ok(toks, q, arity) {
        lemma_read_elements_end(toks, q + arity + 1, (count - 1) as nat, arity);
    }
}

pub open spec fn with_block(b: BlockView, r: Result<Seq<BlockView>, MeditFailure>) -> Result<
    Seq<BlockView>,
    MeditFailure,
> {
    match r {
        Ok(bs) => Ok(seq![b] + bs),
        Err(f) => Err(f),
    }
}

/// What the items from `p` on hold, given the dimension read so far and the
/// identity of the last group.
pub open spec fn medit_from(toks: Seq<Seq<char>>, p: int, dim: Option<u8>, uid: u64) -> Result<
    Seq<BlockView>,
    MeditFailure,
>
    decreases toks.len() - p,
{
    if p < 0 || p >= toks.len() {
        Ok(seq![])
    } else {
        let k = toks[p];
        if k == "MeshVersionFormatted"@ {
            if p + 1 >= toks.len() {
                Err(MeditFailure::Syntax)
            } else if toks[p + 1] != "1"@ {
                Err(MeditFailure::Unsupported)
            } else {
                medit_from(toks, p + 2, dim, uid)
            }
        } else if k == "Dimension"@ {
            if p + 1 >= toks.len() || !is_unsigned_text(toks[p + 1]) || unsigned_value(toks[p + 1])
                > 255 {
                Err(MeditFailure::Syntax)
            } else {
                let d = unsigned_value(toks[p + 1]) as u8;
                with_block(BlockView::Dimension(d), medit_from(toks, p + 2, Some(d), uid))
            }
        } else if is_node_keyword(k) {
            if dim is None || p + 1 >= toks.len() || !parses_as_usize(toks[p + 1]) {
                Err(MeditFailure::Syntax)
            } else if uid == u64::MAX {
                Err(MeditFailure::Unsupported)
            } else {
                let count = unsigned_value(toks[p + 1]);
                match read_nodes(toks, p + 2, count, dim->0 as nat, k == "Vertices"@) {
                    None => Err(MeditFailure::Syntax),
                    Some((ns, e)) => {
                        proof {
                            lemma_read_nodes_end(toks, p + 2, count, dim->0 as nat, k == "Vertices"@);
                        }
                        with_block(
                            BlockView::Nodes(
                                medit_group((uid + 1) as u64, k, EntityKind::Node, count as usize),
                                ns,
                            ),
                            medit_from(toks, e, dim, (uid + 1) as u64),
                        )
                    },
                }
            }
        } else if arity_of(k) is Some {
            if p + 1 >= toks.len() || !parses_as_usize(toks[p + 1]) {
                Err(MeditFailure::Syntax)
            } else if uid == u64::MAX {
                Err(MeditFailure::Unsupported)
            } else {
                let count = unsigned_value(toks[p + 1]);
                let arity = arity_of(k)->0 as nat;
                match read_elements(toks, p + 2, count, arity) {
                    None => Err(MeditFailure::Syntax),
                    Some((es, e)) => {
                        proof {
                            lemma_read_elements_end(toks, p + 2, count, arity);
                        }
                        with_block(
                            BlockView::Elements(
                                medit_group(
                                    (uid + 1) as u64,
                                    k,
                                    EntityKind::Element,
                                    count as usize,
                                ),
                                es,
                            ),
                            medit_from(toks, e, dim, (uid + 1) as u64),
                        )
                    },
                }
            }
        } else if k == "End"@ {
            Ok(seq![])
        } else if k.len() > 0 && k[0] == '#' {
            medit_from(toks, p + 1, dim, uid)
        } else {
            Err(MeditFailure::Syntax)
        }
    }
}

/// What a MEDIT text holds, or how reading it fails.
pub open spec fn parse_medit(text: Seq<char>) -> Result<Seq<BlockView>, MeditFailure> {
    medit_from(items_of(text), 0, None, 0)
}

/// `Ok(bs)` becomes `Ok(done + bs)`.
pub open spec fn after_blocks(done: Seq<BlockView>, r: Result<Seq<BlockView>, MeditFailure>) -> Result<
    Seq<BlockView>,
    MeditFailure,
> {
    match r {
        Ok(bs) => Ok(done + bs),
        Err(f) => Err(f),
    }
}

pub open spec fn reads_as(r: Result<Vec<MeditBlock>, DeserializeError>, m: Result<Seq<BlockView>, MeditFailure>) -> bool {
    match m {
        Ok(bs) => r is Ok && blocks_view(r->Ok_0@) == bs,
        Err(f) => r is Err && failure_of(r->Err_0) == Some(f),
    }
}

fn syntax_error(what: &str) -> (r: DeserializeError)
    ensures
        failure_of(r) == Some(MeditFailure::Syntax),
{
    DeserializeError::Syntax(what.to_string())
}

/// The next item, or a syntax error at the end of the text.
fn next_item(reader: &mut ItemReader) -> (r: Result<Vec<char>, DeserializeError>)
    requires
        old(reader).wf(),
    ensures
        final(reader).wf(),
        old(reader).stream().len() == 0 ==> r is Err && failure_of(r->Err_0) == Some(
            MeditFailure::Syntax,
        ),
        old(reader).stream().len() > 0 ==> r is Ok && r->Ok_0@ == old(reader).stream()[0]
            && final(reader).stream() == old(reader).stream().drop_first(),
{
    match reader.next() {
        Some(item) => Ok(chars_of(item.as_str())),
        None => Err(syntax_error("unexpected end of input")),
    }
}

/// Reads `count` node rows.
fn read_node_rows(
    reader: &mut ItemReader,
    count: usize,
    dim: u8,
    with_ref: bool,
    Ghost(toks): Ghost<Seq<Seq<char>>>,
    Ghost(q): Ghost<int>,
) -> (r: Result<Vec<Node>, DeserializeError>)
    requires
        old(reader).wf(),
        0 <= q <= toks.len(),
        old(reader).stream() == toks.skip(q),
    ensures
        final(reader).wf(),
        match read_nodes(toks, q, count as nat, dim as nat, with_ref) {
            Some((ns, e)) => r is Ok && r->Ok_0@.map_values(|n: Node| n@) == ns
                && final(reader).stream() == toks.skip(e),
            None => r is Err && failure_of(r->Err_0) == Some(MeditFailure::Syntax),
        },
{
    let ghost w = node_width(dim as nat, with_ref);
    let mut nodes: Vec<Node> = Vec::new();
    let ghost mut at: int = q;
    let mut i: usize = 0;
    while i < count
        invariant
            reader.wf(),
            0 <= q <= at <= toks.len(),
            reader.stream() == toks.skip(at),
            w == node_width(dim as nat, with_ref),
            i <= count,
            read_nodes(toks, q, count as nat, dim as nat, with_ref) == match read_nodes(
                toks,
                at,
                (count - i) as nat,
                dim as nat,
                with_ref,
            ) {
                Some((ns, e)) => Some((nodes@.map_values(|n: Node| n@) + ns, e)),
                None => None,
            },
        decreases count - i,
    {
        let mut position: Vec<String> = Vec::new();
        let mut j: u8 = 0;
        while j < dim
            invariant
                reader.wf(),
                0 <= q <= at <= toks.len(),
                i < count,
                w == node_width(dim as nat, with_ref),
                read_nodes(toks, q, count as nat, dim as nat, with_ref) == match read_nodes(
                    toks,
                    at,
                    (count - i) as nat,
                    dim as nat,
                    with_ref,
                ) {
                    Some((ns, e)) => Some((nodes@.map_values(|n: Node| n@) + ns, e)),
                    None => None,
                },
                j <= dim,
                at + j <= toks.len(),
                reader.stream() == toks.skip(at + j),
                views_of(position@) == toks.subrange(at, at + j),
                all_real(toks, at, at + j),
            decreases dim - j,
        {
            let ghost before = reader.stream();
            let item = match reader.next() {
                Some(item) => item,
                None => {
                    assert(toks.skip(at + j).len() == 0);
                    return Err(syntax_error("unexpected end of input"));
                },
            };
            assert(before =~= toks.skip(at + j));
            assert(item@ == toks[at + j]);
            let c = chars_of(item.as_str());
            if !is_real(&c) {
                assert(!is_real_text(toks[at + j]));
                assert(!all_real(toks, at, at + w));
                return Err(syntax_error("unparseable coordinate"));
            }
            let ghost prev = views_of(position@);
            let ghost item_view = item@;
            position.push(item);
            assert(views_of(position@) =~= prev.push(item_view));
            assert(reader.stream() =~= toks.skip(at + j + 1));
            assert(views_of(position@) =~= toks.subrange(at, at + j + 1));
            j = j + 1;
        }
        let mut attr = AttributeMap::new();
        if with_ref {
            let ghost before = reader.stream();
            let item = match reader.next() {
                Some(item) => item,
                None => {
                    assert(toks.skip(at + dim).len() == 0);
                    return Err(syntax_error("unexpected end of input"));
                },
            };
            assert(before =~= toks.skip(at + dim));
            assert(item@ == toks[at + dim]);
            let c = chars_of(item.as_str());
            if !is_real(&c) {
                assert(!is_real_text(toks[at + dim]));
                assert(!all_real(toks, at, at + w));
                return Err(syntax_error("unparseable reference"));
            }
            attr.set(AttributeName::Index(0), item);
            assert(reader.stream() =~= toks.skip(at + w));
        }
        let node = Node { position, attr };
        proof {
            assert(all_real(toks, at, at + w));
            assert(node@ == node_at(toks, at, dim as nat, with_ref));
            let rest = read_nodes(toks, at + w, (count - i - 1) as nat, dim as nat, with_ref);
            assert(read_nodes(toks, at, (count - i) as nat, dim as nat, with_ref) == match rest {
                Some((ns, e)) => Some((seq![node@] + ns, e)),
                None => None,
            });
            match rest {
                Some((ns, e)) => {
                    assert(nodes@.map_values(|n: Node| n@).push(node@) + ns =~= nodes@.map_values(
                        |n: Node| n@,
                    ) + (seq![node@] + ns));
                },
                None => {},
            }
        }
        let ghost prev = nodes@.map_values(|n: Node| n@);
        let ghost node_view = node@;
        nodes.push(node);
        proof {
            assert(nodes@.map_values(|n: Node| n@) =~= prev.push(node_view));
            at = at + w;
        }
        i = i + 1;
    }
    assert(nodes@.map_values(|n: Node| n@) + seq![] =~= nodes@.map_values(|n: Node| n@));
    Ok(nodes)
}

/// Reads `count` element rows of `arity` node indices and a reference each.
fn read_element_rows(
    reader: &mut ItemReader,
    count: usize,
    arity: usize,
    Ghost(toks): Ghost<Seq<Seq<char>>>,
    Ghost(q): Ghost<int>,
) -> (r: Result<Vec<Element>, DeserializeError>)
    requires
        old(reader).wf(),
        0 <= q <= toks.len(),
        old(reader).stream() == toks.skip(q),
    ensures
        final(reader).wf(),
        match read_elements(toks, q, count as nat, arity as nat) {
            Some((es, e)) => r is Ok && r->Ok_0@.map_values(|x: Element| x@) == es
                && final(reader).stream() == toks.skip(e),
            None => r is Err && failure_of(r->Err_0) == Some(MeditFailure::Syntax),
        },
{
    let mut elements: Vec<Element> = Vec::new();
    let ghost mut at: int = q;
    let mut i: usize = 0;
    while i < count
        invariant
            reader.wf(),
            0 <= q <= at <= toks.len(),
            reader.stream() == toks.skip(at),
            i <= count,
            read_elements(toks, q, count as nat, arity as nat) == match read_elements(
                toks,
                at,
                (count - i) as nat,
                arity as nat,
            ) {
                Some((es, e)) => Some((elements@.map_values(|x: Element| x@) + es, e)),
                None => None,
            },
        decreases count - i,
    {
        let mut indices: Vec<usize> = Vec::new();
        let mut j: usize = 0;
        while j < arity
            invariant
                reader.wf(),
                0 <= q <= at <= toks.len(),
                i < count,
                read_elements(toks, q, count as nat, arity as nat) == match read_elements(
                    toks,
                    at,
                    (count - i) as nat,
                    arity as nat,
                ) {
                    Some((es, e)) => Some((elements@.map_values(|x: Element| x@) + es, e)),
                    None => None,
                },
                j <= arity,
                at + j <= toks.len(),
                reader.stream() == toks.skip(at + j),
                indices@ =~= Seq::new(j as nat, |k: int| unsigned_value(toks[at + k]) as usize),
                forall|k: int| at <= k < at + j ==> parses_as_usize(#[trigger] toks[k]),
            decreases arity - j,
        {
            let ghost before = reader.stream();
            let item = match reader.next() {
                Some(item) => item,
                None => {
                    assert(toks.skip(at + j).len() == 0);
                    return Err(syntax_error("unexpected end of input"));
                },
            };
            assert(before =~= toks.skip(at + j));
            assert(item@ == toks[at + j]);
            let c = chars_of(item.as_str());
            let v = match parse_usize(&c) {
                Some(v) => v,
                None => {
                    assert(!parses_as_usize(toks[at + j]));
                    return Err(syntax_error("unparseable node index"));
                },
            };
            indices.push(v);
            assert(reader.stream() =~= toks.skip(at + j + 1));
            j = j + 1;
        }
        let ghost before = reader.stream();
        let item = match reader.next() {
            Some(item) => item,
            None => {
                assert(toks.skip(at + arity).len() == 0);
                return Err(syntax_error("unexpected end of input"));
            },
        };
        assert(before =~= toks.skip(at + arity));
        assert(item@ == toks[at + arity]);
        let c = chars_of(item.as_str());
        if !is_real(&c) {
            return Err(syntax_error("unparseable reference"));
        }
        let mut attr = AttributeMap::new();
        attr.set(AttributeName::Index(0), item);
        assert(reader.stream() =~= toks.skip(at + arity + 1));
        let element = Element { indices, attr };
        proof {
            assert(element_row_ok(toks, at, arity as nat));
            assert(element@ == element_at(toks, at, arity as nat));
            let rest = read_elements(toks, at + arity + 1, (count - i - 1) as nat, arity as nat);
            match rest {
                Some((es, e)) => {
                    assert(elements@.map_values(|x: Element| x@).push(element@) + es
                        =~= elements@.map_values(|x: Element| x@) + (seq![element@] + es));
                },
                None => {},
            }
        }
        let ghost prev = elements@.map_values(|x: Element| x@);
        let ghost element_view = element@;
        elements.push(element);
        proof {
            assert(elements@.map_values(|x: Element| x@) =~= prev.push(element_view));
            at = at + arity + 1;
        }
        i = i + 1;
    }
    assert(elements@.map_values(|x: Element| x@) + seq![] =~= elements@.map_values(
        |x: Element| x@,
    ));
    Ok(elements)
}

/// Reader of the MEDIT format.
pub struct MeditDeserializer {}

impl MeditDeserializer {
    /// What `source` holds, in order, or the first error in it. Items after
    /// `End` are not read.
    pub fn parse(source: &str) -> (r: Result<Vec<MeditBlock>, DeserializeError>)
        ensures
            reads_as(r, parse_medit(source@)),
    {
        let mut reader = ItemReader::new(source);
        let ghost toks = reader.stream();
        let ghost mut p: int = 0;
        let mut dim: Option<u8> = None;
        let mut uid: u64 = 0;
        let mut blocks: Vec<MeditBlock> = Vec::new();
        assert(toks.skip(0) =~= toks);
        assert(blocks_view(blocks@) + seq![] =~= seq![]);
        loop
            invariant
                reader.wf(),
                toks == items_of(source@),
                0 <= p <= toks.len(),
                reader.stream() == toks.skip(p),
                parse_medit(source@) == after_blocks(blocks_view(blocks@), medit_from(toks, p, dim, uid)),
            decreases toks.len() - p,
        {
            let ghost before = reader.stream();
            let keyword = match reader.next() {
                Some(k) => k,
                None => {
                    assert(p == toks.len());
                    assert(blocks_view(blocks@) + seq![] =~= blocks_view(blocks@));
                    return Ok(blocks);
                },
            };
            assert(before =~= toks.skip(p));
            assert(keyword@ == toks[p]);
            assert(reader.stream() =~= toks.skip(p + 1));
            let k = chars_of(keyword.as_str());
            if same_text(&k, "MeshVersionFormatted") {
                let version = next_item(&mut reader)?;
                assert(version@ == toks[p + 1]);
                if !same_text(&version, "1") {
                    return Err(DeserializeError::Unsupported("MeshVersionFormatted other than 1".to_string()));
                }
                assert(reader.stream() =~= toks.skip(p + 2));
                proof { p = p + 2; }
            } else if same_text(&k, "Dimension") {
                let t = next_item(&mut reader)?;
                assert(t@ == toks[p + 1]);
                let d = match parse_usize(&t) {
                    Some(d) if d <= 255 => d as u8,
                    _ => {
                        return Err(syntax_error("bad dimension"));
                    },
                };
                assert(reader.stream() =~= toks.skip(p + 2));
                let ghost prev = blocks_view(blocks@);
                blocks.push(MeditBlock::Dimension(d));
                proof {
                    assert(blocks_view(blocks@) =~= prev.push(BlockView::Dimension(d)));
                    assert forall|x: Seq<BlockView>| prev + (seq![BlockView::Dimension(d)] + x)
                        == #[trigger] (blocks_view(blocks@) + x) by {
                        assert(prev + (seq![BlockView::Dimension(d)] + x) =~= blocks_view(blocks@) + x);
                    }
                    p = p + 2;
                }
                dim = Some(d);
            } else if same_text(&k, "Vertices") || same_text(&k, "Normals") || same_text(&k, "Tangents") {
                let d = match dim {
                    Some(d) => d,
                    None => {
                        return Err(syntax_error("node group before Dimension"));
                    },
                };
                let t = next_item(&mut reader)?;
                assert(t@ == toks[p + 1]);
                let count = match parse_usize(&t) {
                    Some(c) => c,
                    None => {
                        return Err(syntax_error("bad node count"));
                    },
                };
                if uid == u64::MAX {
                    return Err(DeserializeError::Unsupported("too many groups".to_string()));
                }
                assert(reader.stream() =~= toks.skip(p + 2));
                let with_ref = same_text(&k, "Vertices");
                let name = match Name::parse(keyword, Format::Medit, EntityKind::Node) {
                    Some(n) => n,
                    None => {
                        proof {
                            reveal_strlit("Vertices");
                        }
                        assert(false);
                        return Err(syntax_error("unknown node group"));
                    },
                };
                uid = uid + 1;
                let group = Group::new(uid, name, Some(count), EntityKind::Node);
                let nodes = read_node_rows(&mut reader, count, d, with_ref, Ghost(toks), Ghost(p + 2))?;
                proof {
                    lemma_read_nodes_end(toks, p + 2, count as nat, d as nat, with_ref);
                }
                let ghost e = match read_nodes(toks, p + 2, count as nat, d as nat, with_ref) {
                    Some((_, e)) => e,
                    None => 0,
                };
                let ghost prev = blocks_view(blocks@);
                let block = MeditBlock::Nodes(group, nodes);
                let ghost bv = block@;
                assert(bv == BlockView::Nodes(medit_group(uid, toks[p], EntityKind::Node, count), match read_nodes(toks, p + 2, count as nat, d as nat, with_ref) {
                    Some((ns, _)) => ns,
                    None => seq![],
                }));
                blocks.push(block);
                proof {
                    assert(blocks_view(blocks@) =~= prev.push(bv));
                    assert forall|x: Seq<BlockView>| prev + (seq![bv] + x)
                        == #[trigger] (blocks_view(blocks@) + x) by {
                        assert(prev + (seq![bv] + x) =~= blocks_view(blocks@) + x);
                    }
                    p = e;
                }
            } else {
                match element_nary(keyword.as_str()) {
                    Some(arity) => {
                        let t = next_item(&mut reader)?;
                        assert(t@ == toks[p + 1]);
                        let count = match parse_usize(&t) {
                            Some(c) => c,
                            None => {
                                return Err(syntax_error("bad element count"));
                            },
                        };
                        if uid == u64::MAX {
                            return Err(DeserializeError::Unsupported("too many groups".to_string()));
                        }
                        assert(reader.stream() =~= toks.skip(p + 2));
                        let name = match Name::parse(keyword, Format::Medit, EntityKind::Element) {
                            Some(n) => n,
                            None => {
                                assert(false);
                                return Err(syntax_error("unknown element group"));
                            },
                        };
                        uid = uid + 1;
                        let group = Group::new(uid, name, Some(count), EntityKind::Element);
                        let elements = read_element_rows(&mut reader, count, arity, Ghost(toks), Ghost(p + 2))?;
                        proof {
                            lemma_read_elements_end(toks, p + 2, count as nat, arity as nat);
                        }
                        let ghost e = match read_elements(toks, p + 2, count as nat, arity as nat) {
                            Some((_, e)) => e,
                            None => 0,
                        };
                        let ghost prev = blocks_view(blocks@);
                        let block = MeditBlock::Elements(group, elements);
                        let ghost bv = block@;
                        blocks.push(block);
                        proof {
                            assert(blocks_view(blocks@) =~= prev.push(bv));
                            assert forall|x: Seq<BlockView>| prev + (seq![bv] + x)
                                == #[trigger] (blocks_view(blocks@) + x) by {
                                assert(prev + (seq![bv] + x) =~= blocks_view(blocks@) + x);
                            }
                            p = e;
                        }
                    },
                    None => {
                        if same_text(&k, "End") {
                            assert(blocks_view(blocks@) + seq![] =~= blocks_view(blocks@));
                            return Ok(blocks);
                        }
                        if !(k.len() > 0 && k[0] == '#') {
                            let mut message = "unsupported keyword: ".to_string();
                            message.append(keyword.as_str());
                            return Err(DeserializeError::Syntax(message));
                        }
                        // A token that starts a comment is passed over.
                        proof {
                            p = p + 1;
                        }
                    },
                }
            }
        }
    }
}

/// The group that a block opens.
pub open spec fn block_group(b: BlockView) -> Option<GroupView> {
    match b {
        BlockView::Dimension(_) => None,
        BlockView::Nodes(g, _) => Some(g),
        BlockView::Elements(g, _) => Some(g),
    }
}

/// Node blocks open node groups and element blocks element groups; every
/// group has an identity above `uid`, and identities increase along `bs`.
pub open spec fn blocks_ordered(bs: Seq<BlockView>, uid: u64) -> bool {
    &&& forall|i: int|
        0 <= i < bs.len() ==> match #[trigger] bs[i] {
            BlockView::Nodes(g, _) => g.kind == EntityKind::Node,
            BlockView::Elements(g, _) => g.kind == EntityKind::Element,
            BlockView::Dimension(_) => true,
        }
    &&& forall|i: int|
        0 <= i < bs.len() && (#[trigger] block_group(bs[i])) is Some ==> block_group(
            bs[i],
        )->0.parsing_uid > uid
    &&& forall|i: int, j: int|
        0 <= i < j < bs.len() && (#[trigger] block_group(bs[i])) is Some && (#[trigger] block_group(
            bs[j],
        )) is Some ==> block_group(bs[i])->0.parsing_uid < block_group(bs[j])->0.parsing_uid
}

proof fn lemma_ordered_cons(b: BlockView, bs: Seq<BlockView>, uid: u64, next: u64)
    requires
        blocks_ordered(bs, next),
        uid <= next,
        match b {
            BlockView::Nodes(g, _) => g.kind == EntityKind::Node && g.parsing_uid == next,
            BlockView::Elements(g, _) => g.kind == EntityKind::Element && g.parsing_uid == next,
            BlockView::Dimension(_) => true,
        },
        block_group(b) is Some ==> uid < next,
    ensures
        blocks_ordered(seq![b] + bs, uid),
{
    let r = seq![b] + bs;
    assert forall|i: int| 0 <= i < r.len() implies match #[trigger] r[i] {
        BlockView::Nodes(g, _) => g.kind == EntityKind::Node,
        BlockView::Elements(g, _) => g.kind == EntityKind::Element,
        BlockView::Dimension(_) => true,
    } by {
        if i > 0 {
            assert(r[i] == bs[i - 1]);
        }
    }
    assert forall|i: int|
        0 <= i < r.len() && (#[trigger] block_group(r[i])) is Some implies block_group(
            r[i],
        )->0.parsing_uid > uid by {
        if i > 0 {
            assert(r[i] == bs[i - 1]);
        }
    }
    assert forall|i: int, j: int|
        0 <= i < j < r.len() && (#[trigger] block_group(r[i])) is Some && (#[trigger] block_group(
            r[j],
        )) is Some implies block_group(r[i])->0.parsing_uid < block_group(r[j])->0.parsing_uid by {
        assert(r[j] == bs[j - 1]);
        if i > 0 {
            assert(r[i] == bs[i - 1]);
        }
    }
}

/// The groups that MEDIT text opens have identities that increase from one
/// group to the next, so two groups never share one, whatever their names.
pub proof fn lemma_medit_groups_ordered(toks: Seq<Seq<char>>, p: int, dim: Option<u8>, uid: u64)
    ensures
        medit_from(toks, p, dim, uid) matches Ok(bs) ==> blocks_ordered(bs, uid),
    decreases toks.len() - p,
{
    if p < 0 || p >= toks.len() {
        return;
    }
    let k = toks[p];
    if k == "MeshVersionFormatted"@ {
        if p + 1 < toks.len() && toks[p + 1] == "1"@ {
            lemma_medit_groups_ordered(toks, p + 2, dim, uid);
        }
    } else if k == "Dimension"@ {
        if !(p + 1 >= toks.len() || !is_unsigned_text(toks[p + 1]) || unsigned_value(toks[p + 1])
            > 255) {
            let d = unsigned_value(toks[p + 1]) as u8;
            lemma_medit_groups_ordered(toks, p + 2, Some(d), uid);
            if let Ok(bs) = medit_from(toks, p + 2, Some(d), uid) {
                lemma_ordered_cons(BlockView::Dimension(d), bs, uid, uid);
            }
        }
    } else if is_node_keyword(k) {
        if !(dim is None || p + 1 >= toks.len() || !parses_as_usize(toks[p + 1])) && uid < u64::MAX {
            let count = unsigned_value(toks[p + 1]);
            if let Some((ns, e)) = read_nodes(toks, p + 2, count, dim->0 as nat, k == "Vertices"@) {
                lemma_read_nodes_end(toks, p + 2, count, dim->0 as nat, k == "Vertices"@);
                lemma_medit_groups_ordered(toks, e, dim, (uid + 1) as u64);
                if let Ok(bs) = medit_from(toks, e, dim, (uid + 1) as u64) {
                    lemma_ordered_cons(
                        BlockView::Nodes(
                            medit_group((uid + 1) as u64, k, EntityKind::Node, count as usize),
                            ns,
                        ),
                        bs,
                        uid,
                        (uid + 1) as u64,
                    );
                }
            }
        }
    } else if arity_of(k) is Some {
        if !(p + 1 >= toks.len() || !parses_as_usize(toks[p + 1])) && uid < u64::MAX {
            let count = unsigned_value(toks[p + 1]);
            let arity = arity_of(k)->0 as nat;
            if let Some((es, e)) = read_elements(toks, p + 2, count, arity) {
                lemma_read_elements_end(toks, p + 2, count, arity);
                lemma_medit_groups_ordered(toks, e, dim, (uid + 1) as u64);
                if let Ok(bs) = medit_from(toks, e, dim, (uid + 1) as u64) {
                    lemma_ordered_cons(
                        BlockView::Elements(
                            medit_group((uid + 1) as u64, k, EntityKind::Element, count as usize),
                            es,
                        ),
                        bs,
                        uid,
                        (uid + 1) as u64,
                    );
                }
            }
        }
    } else if k.len() > 0 && k[0] == '#' {
        lemma_medit_groups_ordered(toks, p + 1, dim, uid);
    }
}

/// The mesh after one block, or `None` where the mesh refuses it.
pub open spec fn apply_block(m: MeshView, b: BlockView) -> Option<MeshView> {
    match b {
        BlockView::Dimension(d) => if has_groups(m) && d != m.dimension {
            None
        } else {
            Some(MeshView { dimension: d, ..m })
        },
        BlockView::Nodes(g, ns) => Some(MeshView { nodes: m.nodes.push((g, ns)), ..m }),
        BlockView::Elements(g, es) => Some(MeshView { elements: m.elements.push((g, es)), ..m }),
    }
}

/// The mesh after the blocks `bs`, in order.
pub open spec fn apply_blocks(m: MeshView, bs: Seq<BlockView>) -> Option<MeshView>
    decreases bs.len(),
{
    if bs.len() == 0 {
        Some(m)
    } else {
        match apply_block(m, bs[0]) {
            Some(m2) => apply_blocks(m2, bs.drop_first()),
            None => None,
        }
    }
}

/// The mesh that MEDIT text describes, or how reading it into a mesh fails.
pub enum MeshReading {
    Read(MeshView),
    Refused,
    Failed(MeditFailure),
}

pub open spec fn medit_mesh(text: Seq<char>) -> MeshReading {
    match parse_medit(text) {
        Err(f) => MeshReading::Failed(f),
        Ok(bs) => match apply_blocks(empty_mesh(), bs) {
            Some(m) => MeshReading::Read(m),
            None => MeshReading::Refused,
        },
    }
}

/// Replays `blocks` into `mesh`.
fn fill_mesh(blocks: &Vec<MeditBlock>, mesh: &mut Mesh) -> (r: Result<(), DeserializerError>)
    requires
        blocks_ordered(blocks_view(blocks@), 0),
    ensures
        match apply_blocks(old(mesh)@, blocks_view(blocks@)) {
            Some(m) => r is Ok && final(mesh)@ == m,
            None => r is Err,
        },
{
    let ghost bs = blocks_view(blocks@);
    let mut i: usize = 0;
    assert(bs.skip(0) =~= bs);
    while i < blocks.len()
        invariant
            bs == blocks_view(blocks@),
            blocks_ordered(bs, 0),
            0 <= i <= blocks@.len(),
            apply_blocks(old(mesh)@, bs) == apply_blocks(mesh@, bs.skip(i as int)),
        decreases blocks@.len() - i,
    {
        let ghost m0 = mesh@;
        assert(bs.skip(i as int).drop_first() =~= bs.skip(i + 1));
        assert(bs.skip(i as int)[0] == bs[i as int]);
        assert(bs[i as int] == blocks@[i as int]@);
        match &blocks[i] {
            MeditBlock::Dimension(d) => {
                mesh.set_dimension(*d)?;
            },
            MeditBlock::Nodes(group, nodes) => {
                assert(group@.kind == EntityKind::Node);
                mesh.begin_group(group);
                assert(nodes@.map_values(|n: Node| n@).take(0) =~= Seq::<NodeView>::empty());
                let mut j: usize = 0;
                while j < nodes.len()
                    invariant
                        0 <= j <= nodes@.len(),
                        group@.kind == EntityKind::Node,
                        mesh@ == (MeshView {
                            nodes: m0.nodes.push(
                                (group@, nodes@.map_values(|n: Node| n@).take(j as int)),
                            ),
                            ..m0
                        }),
                    decreases nodes@.len() - j,
                {
                    let ghost before = mesh@;
                    assert(is_open(before.nodes, group@.parsing_uid));
                    let added = mesh.add_node(&nodes[j], group);
                    assert(added is Ok);
                    assert(nodes@.map_values(|n: Node| n@).take(j + 1) =~= nodes@.map_values(
                        |n: Node| n@,
                    ).take(j as int).push(nodes@[j as int]@));
                    assert(mesh@.nodes =~= m0.nodes.push(
                        (group@, nodes@.map_values(|n: Node| n@).take(j + 1)),
                    ));
                    j = j + 1;
                }
                assert(nodes@.map_values(|n: Node| n@).take(j as int) =~= nodes@.map_values(
                    |n: Node| n@,
                ));
            },
            MeditBlock::Elements(group, elements) => {
                assert(group@.kind == EntityKind::Element);
                mesh.begin_group(group);
                assert(elements@.map_values(|x: Element| x@).take(0) =~= Seq::<ElementView>::empty());
                let mut j: usize = 0;
                while j < elements.len()
                    invariant
                        0 <= j <= elements@.len(),
                        group@.kind == EntityKind::Element,
                        mesh@ == (MeshView {
                            elements: m0.elements.push(
                                (group@, elements@.map_values(|x: Element| x@).take(j as int)),
                            ),
                            ..m0
                        }),
                    decreases elements@.len() - j,
                {
                    let ghost before = mesh@;
                    assert(is_open(before.elements, group@.parsing_uid));
                    let added = mesh.add_element(&elements[j], group);
                    assert(added is Ok);
                    assert(elements@.map_values(|x: Element| x@).take(j + 1) =~= elements@.map_values(
                        |x: Element| x@,
                    ).take(j as int).push(elements@[j as int]@));
                    assert(mesh@.elements =~= m0.elements.push(
                        (group@, elements@.map_values(|x: Element| x@).take(j + 1)),
                    ));
                    j = j + 1;
                }
                assert(elements@.map_values(|x: Element| x@).take(j as int) =~= elements@.map_values(
                    |x: Element| x@,
                ));
            },
        }
        i = i + 1;
    }
    Ok(())
}

/// The protocol calls that hand over one block: a dimension, or a group's
/// begin, one call per entity in order, and its end.
pub open spec fn block_events(b: BlockView) -> Seq<DeEvent> {
    match b {
        BlockView::Dimension(d) => seq![DeEvent::Dimension(d)],
        BlockView::Nodes(g, ns) => seq![DeEvent::GroupBegin(g)] + ns.map_values(
            |n: NodeView| DeEvent::Node(n, g),
        ) + seq![DeEvent::GroupEnd(g)],
        BlockView::Elements(g, es) => seq![DeEvent::GroupBegin(g)] + es.map_values(
            |e: ElementView| DeEvent::Element(e, g),
        ) + seq![DeEvent::GroupEnd(g)],
    }
}

/// The protocol calls that hand over the blocks `bs`, in order.
pub open spec fn blocks_events(bs: Seq<BlockView>) -> Seq<DeEvent>
    decreases bs.len(),
{
    if bs.len() == 0 {
        seq![]
    } else {
        blocks_events(bs.drop_last()) + block_events(bs.last())
    }
}

/// Handing over blocks one list after another.
pub proof fn lemma_blocks_events_append(a: Seq<BlockView>, b: Seq<BlockView>)
    ensures
        blocks_events(a + b) == blocks_events(a) + blocks_events(b),
    decreases b.len(),
{
    if b.len() == 0 {
        assert(a + b =~= a);
        assert(blocks_events(a) + Seq::<DeEvent>::empty() =~= blocks_events(a));
    } else {
        lemma_blocks_events_append(a, b.drop_last());
        assert((a + b).drop_last() =~= a + b.drop_last());
        assert((a + b).last() == b.last());
        assert(blocks_events(a) + blocks_events(b.drop_last()) + block_events(b.last()) =~= blocks_events(a)
            + (blocks_events(b.drop_last()) + block_events(b.last())));
    }
}

/// The calls still owed from block `i` on: those of block `i`, then the
/// rest.
proof fn lemma_owed_from(bs: Seq<BlockView>, i: int)
    requires
        0 <= i < bs.len(),
    ensures
        blocks_events(bs.skip(i)) == block_events(bs[i]) + blocks_events(bs.skip(i + 1)),
        blocks_events(bs.take(i + 1)) == blocks_events(bs.take(i)) + block_events(bs[i]),
        blocks_events(bs) == blocks_events(bs.take(i)) + blocks_events(bs.skip(i)),
{
    assert(bs.skip(i) =~= seq![bs[i]] + bs.skip(i + 1));
    lemma_blocks_events_append(seq![bs[i]], bs.skip(i + 1));
    let one = seq![bs[i]];
    assert(one.drop_last() =~= Seq::<BlockView>::empty());
    assert(one.last() == bs[i]);
    assert(blocks_events(Seq::<BlockView>::empty()) == Seq::<DeEvent>::empty());
    assert(blocks_events(one) == blocks_events(one.drop_last()) + block_events(one.last()));
    assert(blocks_events(one) =~= block_events(bs[i]));
    assert(bs.take(i + 1).drop_last() =~= bs.take(i));
    assert(bs =~= bs.take(i) + bs.skip(i));
    lemma_blocks_events_append(bs.take(i), bs.skip(i));
}

/// Replays `blocks` into any container. On success it has accepted exactly
/// the calls of the blocks, in order; it succeeds whenever the container
/// accepts each of them; when the container refuses one, it has accepted the
/// calls before it and no more.
fn fill<T: DeserializeMesh>(blocks: &Vec<MeditBlock>, target: &mut T) -> (r: Result<(), DeserializerError>)
    ensures
        r is Ok ==> final(target).accepted() == old(target).accepted() + blocks_events(blocks_view(blocks@)),
        accepts_all::<T>(old(target).accepted(), blocks_events(blocks_view(blocks@))) ==> r is Ok,
        r is Err ==> exists|k: int|
            0 <= k < blocks_events(blocks_view(blocks@)).len() && final(target).accepted() == old(
                target,
            ).accepted() + blocks_events(blocks_view(blocks@)).take(k),
        blocks@.len() == 0 ==> r is Ok && *final(target) == *old(target),
{
    if blocks.len() == 0 {
        return Ok(());
    }
    let ghost bs = blocks_view(blocks@);
    let ghost es = blocks_events(bs);
    let ghost start = target.accepted();
    let ghost mut done: Seq<DeEvent> = seq![];
    let ghost mut rem: Seq<DeEvent> = es;
    let mut i: usize = 0;
    assert(bs.take(0) =~= Seq::<BlockView>::empty());
    assert(bs.skip(0) =~= bs);
    assert(start + done =~= start);
    assert(done + rem =~= es);
    while i < blocks.len()
        invariant
            bs == blocks_view(blocks@),
            es == blocks_events(bs),
            start == old(target).accepted(),
            0 <= i <= blocks@.len(),
            blocks@.len() > 0,
            done == blocks_events(bs.take(i as int)),
            rem == blocks_events(bs.skip(i as int)),
            es == done + rem,
            target.accepted() == start + done,
            accepts_all::<T>(start, es) ==> accepts_all::<T>(start + done, rem),
        decreases blocks@.len() - i,
    {
        proof {
            lemma_owed_from(bs, i as int);
        }
        let ghost tail = blocks_events(bs.skip(i + 1));
        let ghost done_i = done;
        assert(bs[i as int] == blocks@[i as int]@);
        match &blocks[i] {
            MeditBlock::Dimension(d) => {
                let ghost e = DeEvent::Dimension(*d);
                assert(rem == seq![e] + tail);
                assert(rem[0] == e);
                match target.de_dimension(*d) {
                    Ok(()) => {},
                    Err(err) => {
                        assert(es.take(done.len() as int) =~= done);
                        proof {
                            if accepts_all::<T>(start, es) {
                                assert(accepts_all::<T>(start + done, rem));
                                assert(T::accepts(start + done, rem[0]));
                            }
                        }
                        return Err(err);
                    },
                }
                proof {
                    assert((start + done).push(e) =~= start + done.push(e));
                    assert(rem.drop_first() =~= tail);
                    done = done.push(e);
                    rem = tail;
                    assert(done =~= done_i + block_events(bs[i as int]));
                }
            },
            MeditBlock::Nodes(group, nodes) => {
                let ghost ns = nodes@.map_values(|n: Node| n@);
                let ghost g = group@;
                let ghost mid = ns.map_values(|n: NodeView| DeEvent::Node(n, g));
                let ghost end_e = DeEvent::GroupEnd(g);
                assert(block_events(bs[i as int]) == seq![DeEvent::GroupBegin(g)] + mid + seq![end_e]);
                assert(rem =~= seq![DeEvent::GroupBegin(g)] + (mid + seq![end_e] + tail));
                assert(rem[0] == DeEvent::GroupBegin(g));
                match target.de_group_begin(group) {
                    Ok(()) => {},
                    Err(err) => {
                        assert(es.take(done.len() as int) =~= done);
                        proof {
                            if accepts_all::<T>(start, es) {
                                assert(accepts_all::<T>(start + done, rem));
                                assert(T::accepts(start + done, rem[0]));
                            }
                        }
                        return Err(err);
                    },
                }
                proof {
                    assert((start + done).push(DeEvent::GroupBegin(g)) =~= start + done.push(DeEvent::GroupBegin(g)));
                    assert(rem.drop_first() =~= mid + seq![end_e] + tail);
                    done = done.push(DeEvent::GroupBegin(g));
                    rem = mid + seq![end_e] + tail;
                    assert(mid.skip(0) =~= mid);
                    assert(mid.take(0) =~= Seq::<DeEvent>::empty());
                    assert(done =~= done_i + seq![DeEvent::GroupBegin(g)] + mid.take(0));
                }
                let mut j: usize = 0;
                while j < nodes.len()
                    invariant
                        0 <= j <= nodes@.len(),
                        ns == nodes@.map_values(|n: Node| n@),
                        bs == blocks_view(blocks@),
                        es == blocks_events(bs),
                        start == old(target).accepted(),
                        g == group@,
                        mid == ns.map_values(|n: NodeView| DeEvent::Node(n, g)),
                        end_e == DeEvent::GroupEnd(g),
                        es.len() == done.len() + rem.len(),
                        es == done + rem,
                        done == done_i + seq![DeEvent::GroupBegin(g)] + mid.take(j as int),
                        rem == mid.skip(j as int) + seq![end_e] + tail,
                        target.accepted() == start + done,
                        accepts_all::<T>(start, es) ==> accepts_all::<T>(start + done, rem),
                    decreases nodes@.len() - j,
                {
                    let ghost e = DeEvent::Node(nodes@[j as int]@, g);
                    assert(mid[j as int] == e);
                    assert(rem[0] == e);
                    match target.de_node(&nodes[j], group) {
                        Ok(()) => {},
                        Err(err) => {
                            assert(es.take(done.len() as int) =~= done);
                            proof {
                                if accepts_all::<T>(start, es) {
                                    assert(accepts_all::<T>(start + done, rem));
                                    assert(T::accepts(start + done, rem[0]));
                                }
                            }
                            return Err(err);
                        },
                    }
                    proof {
                        assert((start + done).push(e) =~= start + done.push(e));
                        assert(rem.drop_first() =~= mid.skip(j + 1) + seq![end_e] + tail);
                        assert(mid.take(j + 1) =~= mid.take(j as int).push(e));
                        done = done.push(e);
                        rem = mid.skip(j + 1) + seq![end_e] + tail;
                    }
                    j = j + 1;
                }
                assert(mid.skip(j as int) =~= Seq::<DeEvent>::empty());
                assert(rem =~= seq![end_e] + tail);
                assert(rem[0] == end_e);
                match target.de_group_end(group) {
                    Ok(()) => {},
                    Err(err) => {
                        assert(es.take(done.len() as int) =~= done);
                        proof {
                            if accepts_all::<T>(start, es) {
                                assert(accepts_all::<T>(start + done, rem));
                                assert(T::accepts(start + done, rem[0]));
                            }
                        }
                        return Err(err);
                    },
                }
                proof {
                    assert((start + done).push(end_e) =~= start + done.push(end_e));
                    assert(rem.drop_first() =~= tail);
                    assert(mid.take(j as int) =~= mid);
                    done = done.push(end_e);
                    rem = tail;
                    assert(done =~= done_i + block_events(bs[i as int]));
                }
            },
            MeditBlock::Elements(group, elements) => {
                let ghost xs = elements@.map_values(|x: Element| x@);
                let ghost g = group@;
                let ghost mid = xs.map_values(|x: ElementView| DeEvent::Element(x, g));
                let ghost end_e = DeEvent::GroupEnd(g);
                assert(block_events(bs[i as int]) == seq![DeEvent::GroupBegin(g)] + mid + seq![end_e]);
                assert(rem =~= seq![DeEvent::GroupBegin(g)] + (mid + seq![end_e] + tail));
                assert(rem[0] == DeEvent::GroupBegin(g));
                match target.de_group_begin(group) {
                    Ok(()) => {},
                    Err(err) => {
                        assert(es.take(done.len() as int) =~= done);
                        proof {
                            if accepts_all::<T>(start, es) {
                                assert(accepts_all::<T>(start + done, rem));
                                assert(T::accepts(start + done, rem[0]));
                            }
                        }
                        return Err(err);
                    },
                }
                proof {
                    assert((start + done).push(DeEvent::GroupBegin(g)) =~= start + done.push(DeEvent::GroupBegin(g)));
                    assert(rem.drop_first() =~= mid + seq![end_e] + tail);
                    done = done.push(DeEvent::GroupBegin(g));
                    rem = mid + seq![end_e] + tail;
                    assert(mid.skip(0) =~= mid);
                    assert(mid.take(0) =~= Seq::<DeEvent>::empty());
                    assert(done =~= done_i + seq![DeEvent::GroupBegin(g)] + mid.take(0));
                }
                let mut j: usize = 0;
                while j < elements.len()
                    invariant
                        0 <= j <= elements@.len(),
                        xs == elements@.map_values(|x: Element| x@),
                        bs == blocks_view(blocks@),
                        es == blocks_events(bs),
                        start == old(target).accepted(),
                        g == group@,
                        mid == xs.map_values(|x: ElementView| DeEvent::Element(x, g)),
                        end_e == DeEvent::GroupEnd(g),
                        es.len() == done.len() + rem.len(),
                        es == done + rem,
                        done == done_i + seq![DeEvent::GroupBegin(g)] + mid.take(j as int),
                        rem == mid.skip(j as int) + seq![end_e] + tail,
                        target.accepted() == start + done,
                        accepts_all::<T>(start, es) ==> accepts_all::<T>(start + done, rem),
                    decreases elements@.len() - j,
                {
                    let ghost e = DeEvent::Element(elements@[j as int]@, g);
                    assert(mid[j as int] == e);
                    assert(rem[0] == e);
                    match target.de_element(&elements[j], group) {
                        Ok(()) => {},
                        Err(err) => {
                            assert(es.take(done.len() as int) =~= done);
                            proof {
                                if accepts_all::<T>(start, es) {
                                    assert(accepts_all::<T>(start + done, rem));
                                    assert(T::accepts(start + done, rem[0]));
                                }
                            }
                            return Err(err);
                        },
                    }
                    proof {
                        assert((start + done).push(e) =~= start + done.push(e));
                        assert(rem.drop_first() =~= mid.skip(j + 1) + seq![end_e] + tail);
                        assert(mid.take(j + 1) =~= mid.take(j as int).push(e));
                        done = done.push(e);
                        rem = mid.skip(j + 1) + seq![end_e] + tail;
                    }
                    j = j + 1;
                }
                assert(mid.skip(j as int) =~= Seq::<DeEvent>::empty());
                assert(rem =~= seq![end_e] + tail);
                assert(rem[0] == end_e);
                match target.de_group_end(group) {
                    Ok(()) => {},
                    Err(err) => {
                        assert(es.take(done.len() as int) =~= done);
                        proof {
                            if accepts_all::<T>(start, es) {
                                assert(accepts_all::<T>(start + done, rem));
                                assert(T::accepts(start + done, rem[0]));
                            }
                        }
                        return Err(err);
                    },
                }
                proof {
                    assert((start + done).push(end_e) =~= start + done.push(end_e));
                    assert(rem.drop_first() =~= tail);
                    assert(mid.take(j as int) =~= mid);
                    done = done.push(end_e);
                    rem = tail;
                    assert(done =~= done_i + block_events(bs[i as int]));
                }
            },
        }
        i = i + 1;
    }
    assert(bs.take(i as int) =~= bs);
    Ok(())
}

impl MeditDeserializer {
    /// Reads `source` and hands what it holds to `target`: per block, in
    /// the order of the text, the dimension, or a group's begin, its
    /// entities and its end. Where `source` is malformed, `target` is left
    /// untouched. On success it has accepted exactly those calls; it
    /// succeeds whenever `target` accepts each of them; when `target`
    /// refuses one, it has accepted the calls before it and no more.
    pub fn deserialize_into<T: DeserializeMesh>(source: &str, target: &mut T) -> (r: Result<
        (),
        DeserializeError,
    >)
        ensures
            parse_medit(source@) matches Err(f) ==> r is Err && failure_of(r->Err_0) == Some(f)
                && *final(target) == *old(target),
            parse_medit(source@) is Ok ==> r is Ok || r->Err_0 is Deserializer,
            parse_medit(source@) is Ok && r is Ok ==> final(target).accepted() == old(
                target,
            ).accepted() + blocks_events(parse_medit(source@)->Ok_0),
            parse_medit(source@) == Ok::<Seq<BlockView>, MeditFailure>(Seq::empty()) ==> r is Ok
                && *final(target) == *old(target),
            parse_medit(source@) is Ok && accepts_all::<T>(
                old(target).accepted(),
                blocks_events(parse_medit(source@)->Ok_0),
            ) ==> r is Ok,
            parse_medit(source@) is Ok && r is Err ==> exists|k: int|
                0 <= k < blocks_events(parse_medit(source@)->Ok_0).len() && final(target).accepted()
                    == old(target).accepted() + blocks_events(parse_medit(source@)->Ok_0).take(k),
    {
        let blocks = MeditDeserializer::parse(source)?;
        match fill(&blocks, target) {
            Ok(()) => Ok(()),
            Err(e) => Err(DeserializeError::Deserializer(e)),
        }
    }

    /// The mesh that `source` describes.
    pub fn read_mesh(source: &str) -> (r: Result<Mesh, DeserializeError>)
        ensures
            match medit_mesh(source@) {
                MeshReading::Read(m) => r is Ok && r->Ok_0@ == m,
                MeshReading::Refused => r is Err && r->Err_0 is Deserializer,
                MeshReading::Failed(f) => r is Err && failure_of(r->Err_0) == Some(f),
            },
    {
        let blocks = MeditDeserializer::parse(source)?;
        proof {
            lemma_medit_groups_ordered(items_of(source@), 0, None, 0);
        }
        let mut mesh = Mesh::new();
        match fill_mesh(&blocks, &mut mesh) {
            Ok(()) => Ok(mesh),
            Err(e) => Err(DeserializeError::Deserializer(e)),
        }
    }
}

/// An error of writing MEDIT text.
#[derive(Debug)]
pub enum SerializeError {
    /// A group whose name MEDIT does not know, or whose entities do not fit
    /// its name.
    InvalidElementGroup(String),
    Io(String),
}

/// `ts` separated by single spaces.
pub open spec fn join_words(ts: Seq<Seq<char>>) -> Seq<char>
    decreases ts.len(),
{
    if ts.len() == 0 {
        seq![]
    } else if ts.len() == 1 {
        ts[0]
    } else {
        join_words(ts.drop_last()) + seq![' '] + ts.last()
    }
}

/// Each line of words, then a line break.
pub open spec fn text_of_lines(ls: Seq<Seq<Seq<char>>>) -> Seq<char>
    decreases ls.len(),
{
    if ls.len() == 0 {
        seq![]
    } else {
        text_of_lines(ls.drop_last()) + join_words(ls.last()) + seq!['\n']
    }
}

/// The reference written after a row: attribute 0, or `0` without one.
pub open spec fn ref_text(attr: Seq<(AttrKey, Seq<char>)>) -> Seq<char> {
    match lookup(attr, AttrKey::Index(0)) {
        Some(v) => v,
        None => seq!['0'],
    }
}

pub open spec fn node_row(n: NodeView, with_ref: bool) -> Seq<Seq<char>> {
    if with_ref {
        n.position.push(ref_text(n.attr))
    } else {
        n.position
    }
}

pub open spec fn element_row(e: ElementView) -> Seq<Seq<char>> {
    e.indices.map_values(|i: usize| decimal_of(i as nat)).push(ref_text(e.attr))
}

/// The lines of one node group: name, count, one row per node, a blank line.
pub open spec fn node_group_lines(g: (GroupView, Seq<NodeView>)) -> Seq<Seq<Seq<char>>> {
    seq![seq![g.0.name.name], seq![decimal_of(g.1.len())]] + g.1.map_values(
        |n: NodeView| node_row(n, g.0.name.name == "Vertices"@),
    ) + seq![seq![]]
}

pub open spec fn element_group_lines(g: (GroupView, Seq<ElementView>)) -> Seq<Seq<Seq<char>>> {
    seq![seq![g.0.name.name], seq![decimal_of(g.1.len())]] + g.1.map_values(
        |e: ElementView| element_row(e),
    ) + seq![seq![]]
}

pub open spec fn all_node_lines(gs: Seq<(GroupView, Seq<NodeView>)>) -> Seq<Seq<Seq<char>>>
    decreases gs.len(),
{
    if gs.len() == 0 {
        seq![]
    } else {
        all_node_lines(gs.drop_last()) + node_group_lines(gs.last())
    }
}

pub open spec fn all_element_lines(gs: Seq<(GroupView, Seq<ElementView>)>) -> Seq<Seq<Seq<char>>>
    decreases gs.len(),
{
    if gs.len() == 0 {
        seq![]
    } else {
        all_element_lines(gs.drop_last()) + element_group_lines(gs.last())
    }
}

pub open spec fn header_lines(dim: u8) -> Seq<Seq<Seq<char>>> {
    seq![
        seq!["MeshVersionFormatted"@, "1"@],
        seq!["#"@, "MEDIT"@, "mesh"@, "file"@],
        seq!["Dimension"@, decimal_of(dim as nat)],
        seq![],
    ]
}

/// The lines of MEDIT text for `m`: node groups, then element groups.
pub open spec fn medit_lines(m: MeshView) -> Seq<Seq<Seq<char>>> {
    header_lines(m.dimension) + all_node_lines(m.nodes) + all_element_lines(m.elements) + seq![
        seq!["End"@],
    ]
}

pub open spec fn render_medit(m: MeshView) -> Seq<char> {
    text_of_lines(medit_lines(m))
}

/// Whether MEDIT can hold `m`: every node and element group has a MEDIT name,
/// each element group's name gives its arity, and each element has that many
/// node indices. Vector and other groups are not written.
pub open spec fn writable(m: MeshView) -> bool {
    &&& forall|i: int| 0 <= i < m.nodes.len() ==> (#[trigger] m.nodes[i]).0.name.format == Format::Medit
    &&& forall|i: int| 0 <= i < m.elements.len() ==> element_group_writable(#[trigger] m.elements[i])
}

/// Writing lines one after the other writes their concatenation.
pub proof fn lemma_text_of_lines_append(a: Seq<Seq<Seq<char>>>, b: Seq<Seq<Seq<char>>>)
    ensures
        text_of_lines(a + b) == text_of_lines(a) + text_of_lines(b),
    decreases b.len(),
{
    if b.len() == 0 {
        assert(a + b =~= a);
    } else {
        lemma_text_of_lines_append(a, b.drop_last());
        assert((a + b).drop_last() =~= a + b.drop_last());
        assert((a + b).last() == b.last());
    }
}

/// Appends the words of `words`, separated by spaces, and a line break.
fn push_line(out: &mut String, words: &Vec<String>)
    ensures
        final(out)@ == old(out)@ + text_of_lines(seq![views_of(words@)]),
{
    let ghost start = out@;
    let mut i: usize = 0;
    while i < words.len()
        invariant
            0 <= i <= words@.len(),
            out@ == start + join_words(views_of(words@.take(i as int))),
        decreases words@.len() - i,
    {
        proof {
            reveal_strlit(" ");
        }
        let ghost before = views_of(words@.take(i as int));
        assert(views_of(words@.take(i + 1)).drop_last() =~= before);
        assert(views_of(words@.take(i + 1)).last() == words@[i as int]@);
        if i > 0 {
            out.append(" ");
        }
        out.append(words[i].as_str());
        proof {
            if i == 0 {
                assert(views_of(words@.take(1)) =~= seq![words@[0]@]);
                assert(out@ =~= start + join_words(views_of(words@.take(1))));
            } else {
                assert(out@ =~= start + (join_words(before) + seq![' '] + words@[i as int]@));
            }
        }
        i = i + 1;
    }
    assert(words@.take(i as int) =~= words@);
    proof {
        reveal_strlit("\n");
    }
    out.append("\n");
    let ghost one = seq![views_of(words@)];
    assert(one.drop_last() =~= Seq::<Seq<Seq<char>>>::empty());
    assert(text_of_lines(one.drop_last()) =~= Seq::<char>::empty());
    assert(text_of_lines(one) == text_of_lines(one.drop_last()) + join_words(one.last()) + seq!['\n']);
    assert(out@ =~= start + text_of_lines(one));
}

/// Appends one line, and the line to `lines`.
proof fn lemma_push_line(lines: Seq<Seq<Seq<char>>>, l: Seq<Seq<char>>)
    ensures
        text_of_lines(lines) + text_of_lines(seq![l]) == text_of_lines(lines.push(l)),
{
    lemma_text_of_lines_append(lines, seq![l]);
    assert(lines + seq![l] =~= lines.push(l));
}

fn words_of(a: &str) -> (r: Vec<String>)
    ensures
        views_of(r@) == seq![a@],
{
    let r = vec![a.to_string()];
    assert(views_of(r@) =~= seq![a@]);
    r
}

/// The reference text of `attr`.
fn write_ref(attr: &AttributeMap) -> (r: String)
    ensures
        r@ == ref_text(attr@),
{
    match attr.get(&AttributeName::Index(0)) {
        Some(v) => v.clone(),
        None => {
            proof {
                reveal_strlit("0");
            }
            "0".to_string()
        },
    }
}

/// Writes the name and count lines of a group.
fn write_group_header(out: &mut String, name: String, n: usize)
    ensures
        final(out)@ == old(out)@ + text_of_lines(seq![seq![name@], seq![decimal_of(n as nat)]]),
{
    let ghost start = out@;
    let ghost nv = name@;
    let first = vec![name];
    assert(views_of(first@) =~= seq![nv]);
    push_line(out, &first);
    let second = vec![decimal_text(n)];
    assert(views_of(second@) =~= seq![decimal_of(n as nat)]);
    push_line(out, &second);
    proof {
        lemma_push_line(seq![seq![nv]], seq![decimal_of(n as nat)]);
        assert(seq![seq![nv]].push(seq![decimal_of(n as nat)]) =~= seq![seq![nv], seq![decimal_of(n as nat)]]);
        assert(seq![seq![nv]].drop_last() =~= Seq::<Seq<Seq<char>>>::empty());
    }
}

pub open spec fn node_group_writable(g: (GroupView, Seq<NodeView>)) -> bool {
    g.0.name.format == Format::Medit
}

fn write_node_group(out: &mut String, group: &EntityGroup<Node>) -> (r: Result<(), SerializeError>)
    ensures
        node_group_writable(group@) ==> r is Ok && final(out)@ == old(out)@ + text_of_lines(
            node_group_lines(group@),
        ),
        !node_group_writable(group@) ==> r is Err && r->Err_0 is InvalidElementGroup,
{
    proof {
        lemma_group_items_view(group);
    }
    let ghost gv = group@;
    let meta = group.metadata();
    let name = match meta.name().get_as(Format::Medit) {
        Some(n) => n,
        None => {
            return Err(SerializeError::InvalidElementGroup("no MEDIT name".to_string()));
        },
    };
    assert(name@ == gv.0.name.name);
    let with_ref = same_text(&chars_of(name.as_str()), "Vertices");
    let ghost start = out@;
    let n = group.len();
    write_group_header(out, name, n);
    let ghost head: Seq<Seq<Seq<char>>> = seq![seq![gv.0.name.name], seq![decimal_of(gv.1.len())]];
    let mut i: usize = 0;
    while i < n
        invariant
            0 <= i <= n,
            n == gv.1.len(),
            gv == group@,
            gv.1 == group.group_items().map_values(|t: Node| t@),
            with_ref == (gv.0.name.name == "Vertices"@),
            out@ == start + text_of_lines(
                head + gv.1.take(i as int).map_values(|x: NodeView| node_row(x, with_ref)),
            ),
        decreases n - i,
    {
        let node = match group.item_at(i) {
            Some(x) => x,
            None => {
                return Err(SerializeError::InvalidElementGroup("missing node".to_string()));
            },
        };
        assert(node@ == gv.1[i as int]);
        let mut row = crate::entity::clone_texts(&node.position);
        if with_ref {
            let ghost before = views_of(row@);
            let rt = write_ref(&node.attr);
            let ghost rv = rt@;
            row.push(rt);
            assert(views_of(row@) =~= before.push(rv));
        }
        let ghost lines = head + gv.1.take(i as int).map_values(|x: NodeView| node_row(x, with_ref));
        push_line(out, &row);
        proof {
            let l = node_row(gv.1[i as int], with_ref);
            assert(views_of(row@) == l);
            lemma_push_line(lines, l);
            assert(head + gv.1.take(i + 1).map_values(|x: NodeView| node_row(x, with_ref))
                =~= lines.push(l));
        }
        i = i + 1;
    }
    let ghost lines = head + gv.1.take(i as int).map_values(|x: NodeView| node_row(x, with_ref));
    push_line(out, &Vec::new());
    proof {
        let l: Seq<Seq<char>> = seq![];
        assert(views_of(Seq::<String>::empty()) =~= l);
        lemma_push_line(lines, l);
        assert(gv.1.take(n as int) =~= gv.1);
        assert(lines.push(l) =~= node_group_lines(gv));
    }
    Ok(())
}

pub open spec fn element_group_writable(g: (GroupView, Seq<ElementView>)) -> bool {
    &&& g.0.name.format == Format::Medit
    &&& arity_of(g.0.name.name) is Some
    &&& forall|j: int| 0 <= j < g.1.len() ==> (#[trigger] g.1[j]).indices.len() == arity_of(g.0.name.name)->0
}

fn write_element_group(out: &mut String, group: &EntityGroup<Element>) -> (r: Result<(), SerializeError>)
    ensures
        element_group_writable(group@) ==> r is Ok && final(out)@ == old(out)@ + text_of_lines(
            element_group_lines(group@),
        ),
        !element_group_writable(group@) ==> r is Err && r->Err_0 is InvalidElementGroup,
{
    proof {
        lemma_group_items_view(group);
    }
    let ghost gv = group@;
    let meta = group.metadata();
    let name = match meta.name().get_as(Format::Medit) {
        Some(n) => n,
        None => {
            return Err(SerializeError::InvalidElementGroup("no MEDIT name".to_string()));
        },
    };
    assert(name@ == gv.0.name.name);
    let arity = match element_nary(name.as_str()) {
        Some(a) => a,
        None => {
            return Err(SerializeError::InvalidElementGroup("not an element group".to_string()));
        },
    };
    let ghost start = out@;
    let n = group.len();
    write_group_header(out, name, n);
    let ghost head: Seq<Seq<Seq<char>>> = seq![seq![gv.0.name.name], seq![decimal_of(gv.1.len())]];
    let mut i: usize = 0;
    while i < n
        invariant
            0 <= i <= n,
            n == gv.1.len(),
            gv == group@,
            gv.1 == group.group_items().map_values(|t: Element| t@),
            arity_of(gv.0.name.name) == Some(arity),
            gv.0.name.format == Format::Medit,
            forall|j: int| 0 <= j < i ==> (#[trigger] gv.1[j]).indices.len() == arity,
            out@ == start + text_of_lines(
                head + gv.1.take(i as int).map_values(|x: ElementView| element_row(x)),
            ),
        decreases n - i,
    {
        let element = match group.item_at(i) {
            Some(x) => x,
            None => {
                return Err(SerializeError::InvalidElementGroup("missing element".to_string()));
            },
        };
        assert(element@ == gv.1[i as int]);
        if element.indices.len() != arity {
            assert(!element_group_writable(gv)) by {
                assert(gv.1[i as int].indices.len() != arity);
            }
            return Err(SerializeError::InvalidElementGroup("wrong number of node indices".to_string()));
        }
        let mut row: Vec<String> = Vec::new();
        let mut k: usize = 0;
        while k < element.indices.len()
            invariant
                0 <= k <= element.indices@.len(),
                views_of(row@) =~= element.indices@.take(k as int).map_values(|x: usize| decimal_of(x as nat)),
            decreases element.indices@.len() - k,
        {
            let ghost before = views_of(row@);
            let t = decimal_text(element.indices[k]);
            let ghost tv = t@;
            row.push(t);
            assert(views_of(row@) =~= before.push(tv));
            k = k + 1;
        }
        assert(element.indices@.take(k as int) =~= element.indices@);
        let ghost before = views_of(row@);
        let rt = write_ref(&element.attr);
        let ghost rv = rt@;
        row.push(rt);
        assert(views_of(row@) =~= before.push(rv));
        let ghost lines = head + gv.1.take(i as int).map_values(|x: ElementView| element_row(x));
        push_line(out, &row);
        proof {
            let l = element_row(gv.1[i as int]);
            assert(views_of(row@) =~= l);
            lemma_push_line(lines, l);
            assert(head + gv.1.take(i + 1).map_values(|x: ElementView| element_row(x))
                =~= lines.push(l));
        }
        i = i + 1;
    }
    let ghost lines = head + gv.1.take(i as int).map_values(|x: ElementView| element_row(x));
    push_line(out, &Vec::new());
    proof {
        let l: Seq<Seq<char>> = seq![];
        assert(views_of(Seq::<String>::empty()) =~= l);
        lemma_push_line(lines, l);
        assert(gv.1.take(n as int) =~= gv.1);
        assert(lines.push(l) =~= element_group_lines(gv));
    }
    Ok(())
}

/// Writer of the MEDIT format.
pub struct MeditSerializer {}

impl MeditSerializer {
    pub fn new() -> (r: MeditSerializer) {
        MeditSerializer {}
    }

    /// MEDIT text for `mesh`: its dimension, its node groups, then its element
    /// groups, each row as it was read.
    pub fn serialize(&self, mesh: &Mesh) -> (r: Result<String, SerializeError>)
        ensures
            writable(mesh@) ==> r is Ok && r->Ok_0@ == render_medit(mesh@),
            !writable(mesh@) ==> r is Err && r->Err_0 is InvalidElementGroup,
    {
        let ghost m = mesh@;
        let mut out = String::new();
        let header = vec![
            vec!["MeshVersionFormatted".to_string(), "1".to_string()],
            vec!["#".to_string(), "MEDIT".to_string(), "mesh".to_string(), "file".to_string()],
            vec!["Dimension".to_string(), decimal_text(mesh.metadata().dimension() as usize)],
            Vec::new(),
        ];
        assert(out@ =~= text_of_lines(seq![]));
        let mut h: usize = 0;
        while h < header.len()
            invariant
                0 <= h <= header@.len(),
                header@.len() == 4,
                out@ == text_of_lines(header@.take(h as int).map_values(|l: Vec<String>| views_of(l@))),
            decreases header@.len() - h,
        {
            let ghost lines = header@.take(h as int).map_values(|l: Vec<String>| views_of(l@));
            push_line(&mut out, &header[h]);
            proof {
                let l = views_of(header@[h as int]@);
                lemma_push_line(lines, l);
                assert(header@.take(h + 1).map_values(|l: Vec<String>| views_of(l@)) =~= lines.push(l));
            }
            h = h + 1;
        }
        assert(header@.take(4).map_values(|l: Vec<String>| views_of(l@)) =~= header_lines(m.dimension)) by {
            assert(views_of(header@[0]@) =~= seq!["MeshVersionFormatted"@, "1"@]);
            assert(views_of(header@[1]@) =~= seq!["#"@, "MEDIT"@, "mesh"@, "file"@]);
            assert(views_of(header@[2]@) =~= seq!["Dimension"@, decimal_of(m.dimension as nat)]);
            assert(views_of(header@[3]@) =~= Seq::<Seq<char>>::empty());
        }
        let groups = mesh.node_groups();
        let mut g: usize = 0;
        while g < groups.len()
            invariant
                0 <= g <= groups@.len(),
                m == mesh@,
                crate::mesh::groups_view(groups@) == m.nodes,
                out@ == text_of_lines(header_lines(m.dimension) + all_node_lines(m.nodes.take(g as int))),
                forall|i: int| 0 <= i < g ==> (#[trigger] m.nodes[i]).0.name.format == Format::Medit,
            decreases groups@.len() - g,
        {
            assert(m.nodes[g as int] == groups@[g as int]@);
            let ghost lines = header_lines(m.dimension) + all_node_lines(m.nodes.take(g as int));
            write_node_group(&mut out, &groups[g])?;
            proof {
                lemma_text_of_lines_append(lines, node_group_lines(m.nodes[g as int]));
                assert(m.nodes.take(g + 1).drop_last() =~= m.nodes.take(g as int));
                assert(lines + node_group_lines(m.nodes[g as int]) =~= header_lines(m.dimension)
                    + all_node_lines(m.nodes.take(g + 1)));
            }
            g = g + 1;
        }
        assert(m.nodes.take(g as int) =~= m.nodes);
        let groups = mesh.element_groups();
        let mut g: usize = 0;
        assert(header_lines(m.dimension) + all_node_lines(m.nodes) + all_element_lines(m.elements.take(0))
            =~= header_lines(m.dimension) + all_node_lines(m.nodes));
        while g < groups.len()
            invariant
                0 <= g <= groups@.len(),
                m == mesh@,
                crate::mesh::groups_view(groups@) == m.elements,
                forall|i: int| 0 <= i < m.nodes.len() ==> (#[trigger] m.nodes[i]).0.name.format == Format::Medit,
                out@ == text_of_lines(header_lines(m.dimension) + all_node_lines(m.nodes) + all_element_lines(m.elements.take(g as int))),
                forall|i: int| 0 <= i < g ==> element_group_writable(#[trigger] m.elements[i]),
            decreases groups@.len() - g,
        {
            assert(m.elements[g as int] == groups@[g as int]@);
            let ghost lines = header_lines(m.dimension) + all_node_lines(m.nodes) + all_element_lines(m.elements.take(g as int));
            write_element_group(&mut out, &groups[g])?;
            proof {
                lemma_text_of_lines_append(lines, element_group_lines(m.elements[g as int]));
                assert(m.elements.take(g + 1).drop_last() =~= m.elements.take(g as int));
                assert(lines + element_group_lines(m.elements[g as int]) =~= header_lines(m.dimension)
                    + all_node_lines(m.nodes) + all_element_lines(m.elements.take(g + 1)));
            }
            g = g + 1;
        }
        assert(m.elements.take(g as int) =~= m.elements);
        let ghost lines = header_lines(m.dimension) + all_node_lines(m.nodes) + all_element_lines(m.elements);
        push_line(&mut out, &words_of("End"));
        proof {
            lemma_push_line(lines, seq!["End"@]);
            assert(lines.push(seq!["End"@]) =~= medit_lines(m));
        }
        Ok(out)
    }
}

/// A keyword that MEDIT does not know fails the whole text with a syntax
/// error, whatever was read before it.
pub proof fn lemma_unknown_keyword(toks: Seq<Seq<char>>, p: int, dim: Option<u8>, uid: u64)
    requires
        0 <= p < toks.len(),
        toks[p] != "MeshVersionFormatted"@,
        toks[p] != "Dimension"@,
        !is_node_keyword(toks[p]),
        arity_of(toks[p]) is None,
        toks[p] != "End"@,
        !(toks[p].len() > 0 && toks[p][0] == '#'),
    ensures
        medit_from(toks, p, dim, uid) == Err::<Seq<BlockView>, MeditFailure>(MeditFailure::Syntax),
{
}

/// A node group before any `Dimension` fails with a syntax error.
pub proof fn lemma_nodes_need_dimension(toks: Seq<Seq<char>>, p: int, uid: u64)
    requires
        0 <= p < toks.len(),
        is_node_keyword(toks[p]),
    ensures
        medit_from(toks, p, None, uid) == Err::<Seq<BlockView>, MeditFailure>(MeditFailure::Syntax),
{
    reveal_strlit("Vertices");
    reveal_strlit("Normals");
    reveal_strlit("Tangents");
    reveal_strlit("MeshVersionFormatted");
    reveal_strlit("Dimension");
    let k = toks[p];
    assert(k.len() == 7 || k.len() == 8);
    assert("MeshVersionFormatted"@.len() == 20);
    assert("Dimension"@.len() == 9);
    assert(k != "MeshVersionFormatted"@);
    assert(k != "Dimension"@);
}

/// `End` is no number and no other keyword.
pub proof fn lemma_end_facts()
    ensures
        !is_real_text("End"@),
        !is_unsigned_text("End"@),
        "End"@ != "1"@,
        "End"@ != "MeshVersionFormatted"@,
        "End"@ != "Dimension"@,
        !is_node_keyword("End"@),
        arity_of("End"@) is None,
{
    reveal_strlit("End");
    reveal_strlit("1");
    reveal_strlit("MeshVersionFormatted");
    reveal_strlit("Dimension");
    reveal_strlit("Vertices");
    reveal_strlit("Normals");
    reveal_strlit("Tangents");
    reveal_strlit("Edges");
    reveal_strlit("Triangles");
    reveal_strlit("Quadrilaterals");
    reveal_strlit("Tetrahedra");
    reveal_strlit("Hexahedra");
    let e = "End"@;
    assert(e.len() == 3 && e[0] == 'E' && e[1] == 'n' && e[2] == 'd');
    assert(!crate::text::is_special_real(e));
    assert(!crate::text::is_mantissa(e.take(0)));
    assert(!crate::text::no_exp_marker(e));
    assert forall|k: int| 0 <= k < e.len() && crate::text::is_exp_marker(#[trigger] e[k]) && crate::text::no_exp_marker(e.take(k))
        implies k == 0 by {
        if k > 0 {
            assert(e.take(k)[0] == 'E');
        }
    }
    assert(!crate::text::is_decimal_number(e));
    assert(!crate::text::is_digit(e[0]));
}

/// Node rows read the same from two item sequences that agree up to an
/// `End` at `n`, and end at or before it.
proof fn lemma_read_nodes_prefix(
    t1: Seq<Seq<char>>,
    t2: Seq<Seq<char>>,
    n: int,
    q: int,
    count: nat,
    dim: nat,
    with_ref: bool,
)
    requires
        0 <= q <= n < t1.len(),
        n < t2.len(),
        t1.take(n + 1) == t2.take(n + 1),
        t1[n] == "End"@,
    ensures
        read_nodes(t1, q, count, dim, with_ref) == read_nodes(t2, q, count, dim, with_ref),
        read_nodes(t1, q, count, dim, with_ref) matches Some((_, e)) ==> e <= n,
    decreases count,
{
    lemma_end_facts();
    if count > 0 {
        let w = node_width(dim, with_ref);
        assert(t2[n] == t2.take(n + 1)[n]);
        if q + w <= n {
            assert forall|i: int| q <= i < q + w implies t1[i] == t2[i] by {
                assert(t1[i] == t1.take(n + 1)[i]);
                assert(t2[i] == t2.take(n + 1)[i]);
            }
            assert(all_real(t1, q, q + w) == all_real(t2, q, q + w));
            assert(t1.subrange(q, q + dim) =~= t2.subrange(q, q + dim));
            assert(node_at(t1, q, dim, with_ref) == node_at(t2, q, dim, with_ref));
            lemma_read_nodes_prefix(t1, t2, n, q + w, (count - 1) as nat, dim, with_ref);
        } else {
            assert(!all_real(t1, q, q + w));
            assert(!all_real(t2, q, q + w));
        }
    }
}

proof fn lemma_read_elements_prefix(
    t1: Seq<Seq<char>>,
    t2: Seq<Seq<char>>,
    n: int,
    q: int,
    count: nat,
    arity: nat,
)
    requires
        0 <= q <= n < t1.len(),
        n < t2.len(),
        t1.take(n + 1) == t2.take(n + 1),
        t1[n] == "End"@,
    ensures
        read_elements(t1, q, count, arity) == read_elements(t2, q, count, arity),
        read_elements(t1, q, count, arity) matches Some((_, e)) ==> e <= n,
    decreases count,
{
    lemma_end_facts();
    if count > 0 {
        assert(t2[n] == t2.take(n + 1)[n]);
        if q + arity + 1 <= n {
            assert forall|i: int| q <= i <= q + arity implies t1[i] == t2[i] by {
                assert(t1[i] == t1.take(n + 1)[i]);
                assert(t2[i] == t2.take(n + 1)[i]);
            }
            assert(element_row_ok(t1, q, arity) == element_row_ok(t2, q, arity));
            assert(element_at(t1, q, arity).indices =~= element_at(t2, q, arity).indices);
            lemma_read_elements_prefix(t1, t2, n, q + arity + 1, (count - 1) as nat, arity);
        } else if n < q + arity {
            assert(!parses_as_usize(t1[n]));
            assert(!element_row_ok(t1, q, arity));
            assert(!element_row_ok(t2, q, arity));
        } else {
            assert(!element_row_ok(t1, q, arity));
            assert(!element_row_ok(t2, q, arity));
        }
    }
}

/// Reading from `p` gives the same result on two item sequences that agree
/// up to an `End` at `n`.
proof fn lemma_medit_prefix(
    t1: Seq<Seq<char>>,
    t2: Seq<Seq<char>>,
    n: int,
    p: int,
    dim: Option<u8>,
    uid: u64,
)
    requires
        0 <= p <= n < t1.len(),
        n < t2.len(),
        t1.take(n + 1) == t2.take(n + 1),
        t1[n] == "End"@,
    ensures
        medit_from(t1, p, dim, uid) == medit_from(t2, p, dim, uid),
    decreases n - p,
{
    lemma_end_facts();
    assert(t1[p] == t1.take(n + 1)[p]);
    assert(t2[p] == t2.take(n + 1)[p]);
    assert(t2[n] == t2.take(n + 1)[n]);
    let k = t1[p];
    if p == n {
        return;
    }
    assert(t1[p + 1] == t1.take(n + 1)[p + 1]);
    assert(t2[p + 1] == t2.take(n + 1)[p + 1]);
    if k == "MeshVersionFormatted"@ {
        if t1[p + 1] == "1"@ {
            lemma_medit_prefix(t1, t2, n, p + 2, dim, uid);
        }
    } else if k == "Dimension"@ {
        if is_unsigned_text(t1[p + 1]) && unsigned_value(t1[p + 1]) <= 255 {
            let d = unsigned_value(t1[p + 1]) as u8;
            lemma_medit_prefix(t1, t2, n, p + 2, Some(d), uid);
        }
    } else if is_node_keyword(k) {
        if dim is Some && parses_as_usize(t1[p + 1]) && uid < u64::MAX {
            let count = unsigned_value(t1[p + 1]);
            let vr = k == "Vertices"@;
            lemma_read_nodes_prefix(t1, t2, n, p + 2, count, dim->0 as nat, vr);
            lemma_read_nodes_end(t1, p + 2, count, dim->0 as nat, vr);
            if let Some((ns, e)) = read_nodes(t1, p + 2, count, dim->0 as nat, vr) {
                lemma_medit_prefix(t1, t2, n, e, dim, (uid + 1) as u64);
            }
        }
    } else if arity_of(k) is Some {
        if parses_as_usize(t1[p + 1]) && uid < u64::MAX {
            let count = unsigned_value(t1[p + 1]);
            let arity = arity_of(k)->0 as nat;
            lemma_read_elements_prefix(t1, t2, n, p + 2, count, arity);
            lemma_read_elements_end(t1, p + 2, count, arity);
            if let Some((es, e)) = read_elements(t1, p + 2, count, arity) {
                lemma_medit_prefix(t1, t2, n, e, dim, (uid + 1) as u64);
            }
        }
    } else if k.len() > 0 && k[0] == '#' {
        lemma_medit_prefix(t1, t2, n, p + 1, dim, uid);
    }
}

/// Whatever follows an `End`, it is not read: items that go on after the
/// `End` read exactly as items that stop there.
pub proof fn lemma_end_ignores_rest(before: Seq<Seq<char>>, rest: Seq<Seq<char>>)
    ensures
        medit_from(before.push("End"@) + rest, 0, None, 0) == medit_from(before.push("End"@), 0, None, 0),
{
    let t1 = before.push("End"@) + rest;
    let t2 = before.push("End"@);
    let n = before.len() as int;
    assert(t1.take(n + 1) =~= t2.take(n + 1));
    assert(t1[n] == "End"@);
    lemma_medit_prefix(t1, t2, n, 0, None, 0);
}


/// Replaying calls one list after another.
pub proof fn lemma_apply_events_append(m: MeshView, a: Seq<DeEvent>, b: Seq<DeEvent>)
    ensures
        apply_events(m, a + b) == match apply_events(m, a) {
            Some(m1) => apply_events(m1, b),
            None => None,
        },
    decreases b.len(),
{
    if b.len() == 0 {
        assert(a + b =~= a);
    } else {
        lemma_apply_events_append(m, a, b.drop_last());
        assert((a + b).drop_last() =~= a + b.drop_last());
        assert((a + b).last() == b.last());
    }
}

proof fn lemma_apply_blocks_push(m: MeshView, bs: Seq<BlockView>, b: BlockView)
    ensures
        apply_blocks(m, bs.push(b)) == match apply_blocks(m, bs) {
            Some(m1) => apply_block(m1, b),
            None => None,
        },
    decreases bs.len(),
{
    if bs.len() == 0 {
        assert(bs.push(b).drop_first() =~= Seq::<BlockView>::empty());
        assert(bs.push(b)[0] == b);
        assert(apply_blocks(m, bs) == Some(m));
        if let Some(m2) = apply_block(m, b) {
            assert(apply_blocks(m2, Seq::<BlockView>::empty()) == Some(m2));
        }
    } else {
        assert(bs.push(b)[0] == bs[0]);
        assert(bs.push(b).drop_first() =~= bs.drop_first().push(b));
        if let Some(m1) = apply_block(m, bs[0]) {
            lemma_apply_blocks_push(m1, bs.drop_first(), b);
        }
    }
}

/// Entity calls for the open group append to it, in order.
proof fn lemma_node_calls(m: MeshView, g: GroupView, pre: Seq<NodeView>, ns: Seq<NodeView>)
    requires
        m.nodes.len() > 0,
        m.nodes.last() == (g, pre),
    ensures
        apply_events(m, ns.map_values(|n: NodeView| DeEvent::Node(n, g))) == Some(
            MeshView { nodes: m.nodes.update(m.nodes.len() - 1, (g, pre + ns)), ..m },
        ),
    decreases ns.len(),
{
    let es = ns.map_values(|n: NodeView| DeEvent::Node(n, g));
    if ns.len() == 0 {
        assert(pre + ns =~= pre);
        assert(m.nodes.update(m.nodes.len() - 1, (g, pre)) =~= m.nodes);
    } else {
        let ns0 = ns.drop_last();
        lemma_node_calls(m, g, pre, ns0);
        assert(es.drop_last() =~= ns0.map_values(|n: NodeView| DeEvent::Node(n, g)));
        let m1 = MeshView { nodes: m.nodes.update(m.nodes.len() - 1, (g, pre + ns0)), ..m };
        assert(is_open(m1.nodes, g.parsing_uid));
        assert((pre + ns0).push(ns.last()) =~= pre + ns);
        assert(append_to_last(m1.nodes, ns.last()) =~= m.nodes.update(m.nodes.len() - 1, (g, pre + ns)));
    }
}

proof fn lemma_element_calls(m: MeshView, g: GroupView, pre: Seq<ElementView>, es: Seq<ElementView>)
    requires
        m.elements.len() > 0,
        m.elements.last() == (g, pre),
    ensures
        apply_events(m, es.map_values(|e: ElementView| DeEvent::Element(e, g))) == Some(
            MeshView { elements: m.elements.update(m.elements.len() - 1, (g, pre + es)), ..m },
        ),
    decreases es.len(),
{
    let evs = es.map_values(|e: ElementView| DeEvent::Element(e, g));
    if es.len() == 0 {
        assert(pre + es =~= pre);
        assert(m.elements.update(m.elements.len() - 1, (g, pre)) =~= m.elements);
    } else {
        let es0 = es.drop_last();
        lemma_element_calls(m, g, pre, es0);
        assert(evs.drop_last() =~= es0.map_values(|e: ElementView| DeEvent::Element(e, g)));
        let m1 = MeshView { elements: m.elements.update(m.elements.len() - 1, (g, pre + es0)), ..m };
        assert(is_open(m1.elements, g.parsing_uid));
        assert((pre + es0).push(es.last()) =~= pre + es);
        assert(append_to_last(m1.elements, es.last()) =~= m.elements.update(m.elements.len() - 1, (g, pre + es)));
    }
}

pub open spec fn block_kinded(b: BlockView) -> bool {
    match b {
        BlockView::Nodes(g, _) => g.kind == EntityKind::Node,
        BlockView::Elements(g, _) => g.kind == EntityKind::Element,
        BlockView::Dimension(_) => true,
    }
}

/// The calls of one block build what the block builds.
proof fn lemma_block_calls(m: MeshView, b: BlockView)
    requires
        block_kinded(b),
    ensures
        apply_events(m, block_events(b)) == apply_block(m, b),
{
    match b {
        BlockView::Dimension(d) => {
            assert(seq![DeEvent::Dimension(d)].drop_last() =~= Seq::<DeEvent>::empty());
            assert(apply_events(m, Seq::<DeEvent>::empty()) == Some(m));
            let es = seq![DeEvent::Dimension(d)];
            assert(block_events(b) == es);
            assert(es.last() == DeEvent::Dimension(d));
            assert(apply_events(m, es) == apply_event(m, DeEvent::Dimension(d)));
            if has_groups(m) && d != m.dimension {
                assert(apply_block(m, b) is None);
            } else {
                assert(apply_block(m, b) == Some(MeshView { dimension: d, ..m }));
                assert(apply_event(m, DeEvent::Dimension(d)) == Some(MeshView { dimension: d, ..m }));
            }
        },
        BlockView::Nodes(g, ns) => {
            let begin = seq![DeEvent::GroupBegin(g)];
            let mid = ns.map_values(|n: NodeView| DeEvent::Node(n, g));
            let end = seq![DeEvent::GroupEnd(g)];
            assert(begin.drop_last() =~= Seq::<DeEvent>::empty());
            assert(end.drop_last() =~= Seq::<DeEvent>::empty());
            lemma_apply_events_append(m, begin + mid, end);
            lemma_apply_events_append(m, begin, mid);
            let m1 = begin_group(m, g);
            assert(m1.nodes.last() == (g, Seq::<NodeView>::empty()));
            lemma_node_calls(m1, g, Seq::empty(), ns);
            assert(Seq::<NodeView>::empty() + ns =~= ns);
            assert(m1.nodes.update(m1.nodes.len() - 1, (g, ns)) =~= m.nodes.push((g, ns)));
            assert(block_events(b) == begin + mid + end);
            assert(apply_events(m, Seq::<DeEvent>::empty()) == Some(m));
            assert(apply_events(m, begin) == Some(m1));
            let m3 = MeshView { nodes: m1.nodes.update(m1.nodes.len() - 1, (g, ns)), ..m1 };
            assert(apply_events(m3, Seq::<DeEvent>::empty()) == Some(m3));
            assert(apply_events(m3, end) == Some(m3));
            assert(m3 == MeshView { nodes: m.nodes.push((g, ns)), ..m });
            assert(apply_events(m, block_events(b)) == apply_block(m, b));
        },
        BlockView::Elements(g, es) => {
            let begin = seq![DeEvent::GroupBegin(g)];
            let mid = es.map_values(|e: ElementView| DeEvent::Element(e, g));
            let end = seq![DeEvent::GroupEnd(g)];
            assert(begin.drop_last() =~= Seq::<DeEvent>::empty());
            assert(end.drop_last() =~= Seq::<DeEvent>::empty());
            lemma_apply_events_append(m, begin + mid, end);
            lemma_apply_events_append(m, begin, mid);
            let m1 = begin_group(m, g);
            assert(m1.elements.last() == (g, Seq::<ElementView>::empty()));
            lemma_element_calls(m1, g, Seq::empty(), es);
            assert(Seq::<ElementView>::empty() + es =~= es);
            assert(m1.elements.update(m1.elements.len() - 1, (g, es)) =~= m.elements.push((g, es)));
            assert(block_events(b) == begin + mid + end);
            assert(apply_events(m, Seq::<DeEvent>::empty()) == Some(m));
            assert(apply_events(m, begin) == Some(m1));
            let m3 = MeshView { elements: m1.elements.update(m1.elements.len() - 1, (g, es)), ..m1 };
            assert(apply_events(m3, Seq::<DeEvent>::empty()) == Some(m3));
            assert(apply_events(m3, end) == Some(m3));
            assert(m3 == MeshView { elements: m.elements.push((g, es)), ..m });
            assert(apply_events(m, block_events(b)) == apply_block(m, b));
        },
    }
}

proof fn lemma_blocks_calls(m: MeshView, bs: Seq<BlockView>)
    requires
        forall|i: int| 0 <= i < bs.len() ==> block_kinded(#[trigger] bs[i]),
    ensures
        apply_events(m, blocks_events(bs)) == apply_blocks(m, bs),
    decreases bs.len(),
{
    if bs.len() == 0 {
    } else {
        let bs0 = bs.drop_last();
        assert forall|i: int| 0 <= i < bs0.len() implies block_kinded(#[trigger] bs0[i]) by {
            assert(bs0[i] == bs[i]);
        }
        lemma_blocks_calls(m, bs0);
        lemma_apply_events_append(m, blocks_events(bs0), block_events(bs.last()));
        lemma_apply_blocks_push(m, bs0, bs.last());
        assert(bs0.push(bs.last()) =~= bs);
        if let Some(m1) = apply_blocks(m, bs0) {
            assert(block_kinded(bs[bs.len() - 1]));
            lemma_block_calls(m1, bs.last());
        }
    }
}

/// The calls that reading MEDIT text hands to a container build, on an
/// empty mesh, exactly the mesh the text describes: a `Mesh` that accepted
/// them, starting empty, is that mesh.
pub proof fn lemma_calls_build_mesh(text: Seq<char>)
    requires
        parse_medit(text) is Ok,
    ensures
        apply_events(empty_mesh(), blocks_events(parse_medit(text)->Ok_0)) == match medit_mesh(text) {
            MeshReading::Read(m) => Some(m),
            _ => None,
        },
{
    let bs = parse_medit(text)->Ok_0;
    lemma_medit_groups_ordered(items_of(text), 0, None, 0);
    assert forall|i: int| 0 <= i < bs.len() implies block_kinded(#[trigger] bs[i]) by {
        assert(blocks_ordered(bs, 0));
    }
    lemma_blocks_calls(empty_mesh(), bs);
}

/// The groups that `es` opens have strictly increasing identities.
pub open spec fn begins_increasing(es: Seq<DeEvent>) -> bool {
    forall|i: int, j: int|
        0 <= i < j < es.len() && (#[trigger] es[i]) is GroupBegin && (#[trigger] es[j]) is GroupBegin
            ==> es[i]->GroupBegin_0.parsing_uid < es[j]->GroupBegin_0.parsing_uid
}

proof fn lemma_block_begins(b: BlockView, k: int)
    requires
        0 <= k < block_events(b).len(),
        block_events(b)[k] is GroupBegin,
    ensures
        k == 0,
        block_group(b) == Some(block_events(b)[k]->GroupBegin_0),
{
    match b {
        BlockView::Dimension(_) => {},
        BlockView::Nodes(g, ns) => {
            let mid = ns.map_values(|n: NodeView| DeEvent::Node(n, g));
            let es = seq![DeEvent::GroupBegin(g)] + mid + seq![DeEvent::GroupEnd(g)];
            if 0 < k <= mid.len() {
                assert(es[k] == mid[k - 1]);
            }
        },
        BlockView::Elements(g, xs) => {
            let mid = xs.map_values(|e: ElementView| DeEvent::Element(e, g));
            let es = seq![DeEvent::GroupBegin(g)] + mid + seq![DeEvent::GroupEnd(g)];
            if 0 < k <= mid.len() {
                assert(es[k] == mid[k - 1]);
            }
        },
    }
}

proof fn lemma_begins_bounded(bs: Seq<BlockView>, bound: int)
    requires
        forall|i: int, j: int|
            0 <= i < j < bs.len() && (#[trigger] block_group(bs[i])) is Some && (#[trigger] block_group(
                bs[j],
            )) is Some ==> block_group(bs[i])->0.parsing_uid < block_group(bs[j])->0.parsing_uid,
        forall|i: int| 0 <= i < bs.len() && (#[trigger] block_group(bs[i])) is Some ==> block_group(bs[i])->0.parsing_uid < bound,
    ensures
        begins_increasing(blocks_events(bs)),
        forall|k: int| 0 <= k < blocks_events(bs).len() && (#[trigger] blocks_events(bs)[k]) is GroupBegin
            ==> blocks_events(bs)[k]->GroupBegin_0.parsing_uid < bound,
    decreases bs.len(),
{
    if bs.len() > 0 {
        let bs0 = bs.drop_last();
        let b = bs.last();
        assert forall|i: int| 0 <= i < bs0.len() ==> bs0[i] == bs[i] by {}
        let a = blocks_events(bs0);
        let c = block_events(b);
        let es = blocks_events(bs);
        assert(es == a + c);
        let inner: int = match block_group(b) {
            Some(g) => g.parsing_uid as int,
            None => bound,
        };
        assert forall|i: int| 0 <= i < bs0.len() && (#[trigger] block_group(bs0[i])) is Some implies block_group(bs0[i])->0.parsing_uid < inner by {
            assert(bs0[i] == bs[i]);
            if block_group(b) is Some {
                assert(block_group(bs[bs.len() - 1]) is Some);
            }
        }
        assert forall|i: int, j: int|
            0 <= i < j < bs0.len() && (#[trigger] block_group(bs0[i])) is Some && (#[trigger] block_group(
                bs0[j],
            )) is Some implies block_group(bs0[i])->0.parsing_uid < block_group(bs0[j])->0.parsing_uid by {
            assert(bs0[i] == bs[i] && bs0[j] == bs[j]);
        }
        lemma_begins_bounded(bs0, inner);
        assert forall|k: int| 0 <= k < es.len() && (#[trigger] es[k]) is GroupBegin implies es[k]->GroupBegin_0.parsing_uid < bound by {
            if k < a.len() {
                assert(es[k] == a[k]);
            } else {
                assert(es[k] == c[k - a.len()]);
                lemma_block_begins(b, k - a.len());
                assert(block_group(bs[bs.len() - 1]) is Some);
            }
        }
        assert forall|i: int, j: int|
            0 <= i < j < es.len() && (#[trigger] es[i]) is GroupBegin && (#[trigger] es[j]) is GroupBegin
                implies es[i]->GroupBegin_0.parsing_uid < es[j]->GroupBegin_0.parsing_uid by {
            if j < a.len() {
                assert(es[i] == a[i] && es[j] == a[j]);
            } else if i < a.len() {
                assert(es[i] == a[i]);
                assert(es[j] == c[j - a.len()]);
                lemma_block_begins(b, j - a.len());
            } else {
                assert(es[i] == c[i - a.len()]);
                assert(es[j] == c[j - a.len()]);
                lemma_block_begins(b, i - a.len());
                lemma_block_begins(b, j - a.len());
            }
        }
    }
}

/// The groups that reading MEDIT text opens on a container have strictly
/// increasing identities: two groups of the same name are never the same
/// group.
pub proof fn lemma_calls_open_distinct_groups(text: Seq<char>)
    requires
        parse_medit(text) is Ok,
    ensures
        begins_increasing(blocks_events(parse_medit(text)->Ok_0)),
{
    let bs = parse_medit(text)->Ok_0;
    lemma_medit_groups_ordered(items_of(text), 0, None, 0);
    assert(blocks_ordered(bs, 0));
    lemma_begins_bounded(bs, u64::MAX as int + 1);
}

/// A `Mesh` that has accepted `log` accepts each of the calls `es` in turn
/// exactly when replaying all of them still builds a mesh.
pub proof fn lemma_mesh_accepts_all(log: Seq<DeEvent>, es: Seq<DeEvent>)
    requires
        apply_events(empty_mesh(), log) is Some,
    ensures
        accepts_all::<Mesh>(log, es) <==> apply_events(empty_mesh(), log + es) is Some,
    decreases es.len(),
{
    if es.len() == 0 {
        assert(log + es =~= log);
    } else {
        let e = es[0];
        let log1 = log.push(e);
        assert(log + es =~= log1 + es.drop_first());
        lemma_apply_push(empty_mesh(), log, e);
        if apply_events(empty_mesh(), log1) is Some {
            lemma_mesh_accepts_all(log1, es.drop_first());
        } else {
            lemma_apply_events_append(empty_mesh(), log1, es.drop_first());
        }
    }
}

/// Text that reads as a mesh is accepted, call for call, by a new `Mesh`:
/// reading it into one succeeds.
pub proof fn lemma_mesh_accepts_text(text: Seq<char>)
    requires
        medit_mesh(text) is Read,
    ensures
        accepts_all::<Mesh>(Seq::empty(), blocks_events(parse_medit(text)->Ok_0)),
{
    lemma_calls_build_mesh(text);
    let es = blocks_events(parse_medit(text)->Ok_0);
    assert(apply_events(empty_mesh(), Seq::<DeEvent>::empty()) == Some(empty_mesh()));
    lemma_mesh_accepts_all(Seq::empty(), es);
    assert(Seq::<DeEvent>::empty() + es =~= es);
}

/// Node rows read from items that a longer sequence starts with read the
/// same from the longer one.
proof fn lemma_read_nodes_extend(pre: Seq<Seq<char>>, t: Seq<Seq<char>>, q: int, count: nat, dim: nat, with_ref: bool)
    requires
        0 <= q,
        pre.len() <= t.len(),
        t.take(pre.len() as int) == pre,
        read_nodes(pre, q, count, dim, with_ref) is Some,
    ensures
        read_nodes(t, q, count, dim, with_ref) == read_nodes(pre, q, count, dim, with_ref),
    decreases count,
{
    if count > 0 {
        let w = node_width(dim, with_ref);
        assert forall|i: int| q <= i < q + w implies t[i] == pre[i] by {
            assert(t.take(pre.len() as int)[i] == t[i]);
        }
        assert(all_real(t, q, q + w) == all_real(pre, q, q + w));
        assert(t.subrange(q, q + dim) =~= pre.subrange(q, q + dim));
        assert(node_at(t, q, dim, with_ref) == node_at(pre, q, dim, with_ref));
        lemma_read_nodes_extend(pre, t, q + w, (count - 1) as nat, dim, with_ref);
    }
}

proof fn lemma_read_elements_extend(pre: Seq<Seq<char>>, t: Seq<Seq<char>>, q: int, count: nat, arity: nat)
    requires
        0 <= q,
        pre.len() <= t.len(),
        t.take(pre.len() as int) == pre,
        read_elements(pre, q, count, arity) is Some,
    ensures
        read_elements(t, q, count, arity) == read_elements(pre, q, count, arity),
    decreases count,
{
    if count > 0 {
        assert forall|i: int| q <= i <= q + arity implies t[i] == pre[i] by {
            assert(t.take(pre.len() as int)[i] == t[i]);
        }
        assert(element_row_ok(t, q, arity) == element_row_ok(pre, q, arity));
        assert(element_at(t, q, arity).indices =~= element_at(pre, q, arity).indices);
        lemma_read_elements_extend(pre, t, q + arity + 1, (count - 1) as nat, arity);
    }
}

/// A keyword MEDIT does not know, and that is no comment.
pub open spec fn is_unknown_keyword(k: Seq<char>) -> bool {
    &&& k != "MeshVersionFormatted"@
    &&& k != "Dimension"@
    &&& !is_node_keyword(k)
    &&& arity_of(k) is None
    &&& k != "End"@
    &&& !(k.len() > 0 && k[0] == '#')
}

proof fn lemma_unknown_after_from(
    pre: Seq<Seq<char>>,
    t: Seq<Seq<char>>,
    p: int,
    dim: Option<u8>,
    uid: u64,
)
    requires
        pre.len() < t.len(),
        t.take(pre.len() as int) == pre,
        is_unknown_keyword(t[pre.len() as int]),
        forall|i: int| 0 <= i < pre.len() ==> #[trigger] pre[i] != "End"@,
        0 <= p <= pre.len(),
        medit_from(pre, p, dim, uid) is Ok,
    ensures
        medit_from(t, p, dim, uid) == Err::<Seq<BlockView>, MeditFailure>(MeditFailure::Syntax),
    decreases pre.len() - p,
{
    if p == pre.len() {
        return;
    }
    let k = pre[p];
    assert(t[p] == t.take(pre.len() as int)[p]);
    assert(k != "End"@);
    if k == "MeshVersionFormatted"@ {
        assert(t[p + 1] == t.take(pre.len() as int)[p + 1]);
        lemma_unknown_after_from(pre, t, p + 2, dim, uid);
    } else if k == "Dimension"@ {
        assert(t[p + 1] == t.take(pre.len() as int)[p + 1]);
        let d = unsigned_value(pre[p + 1]) as u8;
        lemma_unknown_after_from(pre, t, p + 2, Some(d), uid);
    } else if is_node_keyword(k) {
        assert(t[p + 1] == t.take(pre.len() as int)[p + 1]);
        let count = unsigned_value(pre[p + 1]);
        let vr = k == "Vertices"@;
        lemma_read_nodes_extend(pre, t, p + 2, count, dim->0 as nat, vr);
        lemma_read_nodes_end(pre, p + 2, count, dim->0 as nat, vr);
        let e = match read_nodes(pre, p + 2, count, dim->0 as nat, vr) {
            Some((_, e)) => e,
            None => p,
        };
        lemma_unknown_after_from(pre, t, e, dim, (uid + 1) as u64);
    } else if arity_of(k) is Some {
        assert(t[p + 1] == t.take(pre.len() as int)[p + 1]);
        let count = unsigned_value(pre[p + 1]);
        let arity = arity_of(k)->0 as nat;
        lemma_read_elements_extend(pre, t, p + 2, count, arity);
        lemma_read_elements_end(pre, p + 2, count, arity);
        let e = match read_elements(pre, p + 2, count, arity) {
            Some((_, e)) => e,
            None => p,
        };
        lemma_unknown_after_from(pre, t, e, dim, (uid + 1) as u64);
    } else if k.len() > 0 && k[0] == '#' {
        lemma_unknown_after_from(pre, t, p + 1, dim, uid);
    }
}

/// Items that read completely, without `End`, followed by a keyword MEDIT
/// does not know and anything after it, fail with a syntax error: the
/// groups read before are never reported as a result.
pub proof fn lemma_unknown_keyword_after(pre: Seq<Seq<char>>, k: Seq<char>, rest: Seq<Seq<char>>)
    requires
        medit_from(pre, 0, None, 0) is Ok,
        forall|i: int| 0 <= i < pre.len() ==> #[trigger] pre[i] != "End"@,
        is_unknown_keyword(k),
    ensures
        medit_from(pre.push(k) + rest, 0, None, 0) == Err::<Seq<BlockView>, MeditFailure>(MeditFailure::Syntax),
{
    let t = pre.push(k) + rest;
    assert(t.take(pre.len() as int) =~= pre);
    assert(t[pre.len() as int] == k);
    lemma_unknown_after_from(pre, t, 0, None, 0);
}

} // verus!
