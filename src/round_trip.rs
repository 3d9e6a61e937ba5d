//! Proofs that writing MEDIT text and reading it back keeps a mesh: the text
//! splits into the items written, and those items read back as the same
//! dimension, groups and entities.
use vstd::prelude::*;

use crate::attribute::AttrKey;
use crate::entity::{ElementView, EntityKind, NodeView};
use crate::group::GroupView;
use crate::item_reader::{is_comment, items_of, items_of_lines, line_items};
use crate::medit::{
    blocks_events, lemma_calls_build_mesh, MeshReading,
    after_blocks, all_element_lines, all_node_lines, all_real, apply_block, apply_blocks, arity_of,
    block_group, element_at, element_group_lines, element_group_writable, element_row,
    element_row_ok, header_lines, is_node_keyword, join_words, lemma_end_facts,
    lemma_end_ignores_rest, lemma_nodes_need_dimension, lemma_read_elements_end,
    lemma_read_nodes_end, medit_from, medit_group, medit_lines, medit_mesh, node_at,
    node_group_lines, node_row, node_width, parse_medit, parses_as_usize, read_elements,
    read_nodes, ref_text, render_medit, text_of_lines, with_block, writable, BlockView,
    MeditFailure,
};
use crate::mesh::{apply_events, empty_mesh, has_groups, MeshView};
use crate::naming::Format;
use crate::ply::flatten;
use crate::text::{
    all_digits, decimal_of, digit_char, digits_value, has_content, is_digit, is_real_text,
    is_unsigned_text, is_white_space, newline_pieces, nonempty, split_on_white_space, strip_cr,
    text_lines, unsigned_digits, unsigned_value,
};

verus! {

/// A node row as MEDIT reads it: `dim` coordinates, then a reference where
/// the group has one.
pub open spec fn is_node_row(n: NodeView, dim: nat, with_ref: bool) -> bool {
    &&& n.position.len() == dim
    &&& forall|i: int| 0 <= i < n.position.len() ==> is_real_text(#[trigger] n.position[i])
    &&& if with_ref {
        n.attr.len() == 1 && n.attr[0].0 == AttrKey::Index(0) && is_real_text(n.attr[0].1)
    } else {
        n.attr.len() == 0
    }
}

/// An element row as MEDIT reads it: `arity` node indices and a reference.
pub open spec fn is_element_row(e: ElementView, arity: nat) -> bool {
    &&& e.indices.len() == arity
    &&& e.attr.len() == 1 && e.attr[0].0 == AttrKey::Index(0) && is_real_text(e.attr[0].1)
}

pub open spec fn node_group_read(g: (GroupView, Seq<NodeView>), dim: nat) -> bool {
    &&& g.0.name.format == Format::Medit
    &&& g.0.name.kind == EntityKind::Node
    &&& is_node_keyword(g.0.name.name)
    &&& g.1.len() <= usize::MAX
    &&& forall|i: int|
        0 <= i < g.1.len() ==> is_node_row(#[trigger] g.1[i], dim, g.0.name.name == "Vertices"@)
}

pub open spec fn element_group_read(g: (GroupView, Seq<ElementView>)) -> bool {
    &&& g.0.name.format == Format::Medit
    &&& g.0.name.kind == EntityKind::Element
    &&& arity_of(g.0.name.name) is Some
    &&& g.1.len() <= usize::MAX
    &&& forall|i: int|
        0 <= i < g.1.len() ==> is_element_row(#[trigger] g.1[i], arity_of(g.0.name.name)->0 as nat)
}

/// The shape of a mesh read from MEDIT text: only node and element groups,
/// with MEDIT names, and rows as MEDIT reads them, every node with one
/// coordinate per dimension of the mesh.
pub open spec fn medit_shaped(m: MeshView) -> bool {
    &&& m.vectors.len() == 0
    &&& m.others.len() == 0
    &&& forall|i: int| 0 <= i < m.nodes.len() ==> node_group_read(#[trigger] m.nodes[i], m.dimension as nat)
    &&& forall|i: int| 0 <= i < m.elements.len() ==> element_group_read(#[trigger] m.elements[i])
}

/// The blocks as MEDIT reads them, `dim` being the dimension read so far.
pub open spec fn blocks_shaped(bs: Seq<BlockView>, dim: Option<u8>) -> bool
    decreases bs.len(),
{
    if bs.len() == 0 {
        true
    } else {
        match bs[0] {
            BlockView::Dimension(d) => blocks_shaped(bs.drop_first(), Some(d)),
            BlockView::Nodes(g, ns) => dim is Some && g.kind == EntityKind::Node && node_group_read(
                (g, ns),
                dim->0 as nat,
            ) && blocks_shaped(bs.drop_first(), dim),
            BlockView::Elements(g, es) => g.kind == EntityKind::Element && element_group_read((g, es))
                && blocks_shaped(bs.drop_first(), dim),
        }
    }
}

proof fn lemma_read_nodes_rows(toks: Seq<Seq<char>>, q: int, count: nat, dim: nat, with_ref: bool)
    requires
        0 <= q,
    ensures
        read_nodes(toks, q, count, dim, with_ref) matches Some((ns, e)) ==> forall|i: int|
            0 <= i < ns.len() ==> is_node_row(#[trigger] ns[i], dim, with_ref),
    decreases count,
{
    if count > 0 {
        let w = node_width(dim, with_ref);
        if q + w <= toks.len() && all_real(toks, q, q + w) {
            lemma_read_nodes_rows(toks, q + w, (count - 1) as nat, dim, with_ref);
            if let Some((ns, e)) = read_nodes(toks, q, count, dim, with_ref) {
                let n0 = node_at(toks, q, dim, with_ref);
                assert forall|i: int| 0 <= i < n0.position.len() implies is_real_text(#[trigger] n0.position[i]) by {
                    assert(n0.position[i] == toks[q + i]);
                }
                assert forall|i: int| 0 <= i < ns.len() implies is_node_row(#[trigger] ns[i], dim, with_ref) by {
                    if i == 0 {
                        assert(ns[0] == n0);
                        if with_ref {
                            assert(is_real_text(toks[q + dim]));
                        }
                    } else {
                        let rest = match read_nodes(toks, q + w, (count - 1) as nat, dim, with_ref) {
                            Some((r, _)) => r,
                            None => seq![],
                        };
                        assert(ns[i] == rest[i - 1]);
                    }
                }
            }
        }
    }
}

proof fn lemma_read_elements_rows(toks: Seq<Seq<char>>, q: int, count: nat, arity: nat)
    requires
        0 <= q,
    ensures
        read_elements(toks, q, count, arity) matches Some((es, e)) ==> forall|i: int|
            0 <= i < es.len() ==> is_element_row(#[trigger] es[i], arity),
    decreases count,
{
    if count > 0 && element_row_ok(toks, q, arity) {
        lemma_read_elements_rows(toks, q + arity + 1, (count - 1) as nat, arity);
        if let Some((es, e)) = read_elements(toks, q, count, arity) {
            assert forall|i: int| 0 <= i < es.len() implies is_element_row(#[trigger] es[i], arity) by {
                if i > 0 {
                    let rest = match read_elements(toks, q + arity + 1, (count - 1) as nat, arity) {
                        Some((r, _)) => r,
                        None => seq![],
                    };
                    assert(es[i] == rest[i - 1]);
                }
            }
        }
    }
}

proof fn lemma_shaped_cons(b: BlockView, bs: Seq<BlockView>, dim: Option<u8>, next: Option<u8>)
    requires
        blocks_shaped(bs, next),
        match b {
            BlockView::Dimension(d) => next == Some(d),
            BlockView::Nodes(g, ns) => next == dim && dim is Some && g.kind == EntityKind::Node
                && node_group_read((g, ns), dim->0 as nat),
            BlockView::Elements(g, es) => next == dim && g.kind == EntityKind::Element
                && element_group_read((g, es)),
        },
    ensures
        blocks_shaped(seq![b] + bs, dim),
{
    assert((seq![b] + bs).drop_first() =~= bs);
    assert((seq![b] + bs)[0] == b);
}

/// What MEDIT text yields has the shape that MEDIT reads.
pub proof fn lemma_medit_blocks_shaped(toks: Seq<Seq<char>>, p: int, dim: Option<u8>, uid: u64)
    ensures
        medit_from(toks, p, dim, uid) matches Ok(bs) ==> blocks_shaped(bs, dim),
    decreases toks.len() - p,
{
    if p < 0 || p >= toks.len() {
        return;
    }
    let k = toks[p];
    reveal_strlit("Vertices");
    reveal_strlit("Normals");
    reveal_strlit("Tangents");
    if k == "MeshVersionFormatted"@ {
        if p + 1 < toks.len() && toks[p + 1] == "1"@ {
            lemma_medit_blocks_shaped(toks, p + 2, dim, uid);
        }
    } else if k == "Dimension"@ {
        if !(p + 1 >= toks.len() || !is_unsigned_text(toks[p + 1]) || unsigned_value(toks[p + 1])
            > 255) {
            let d = unsigned_value(toks[p + 1]) as u8;
            lemma_medit_blocks_shaped(toks, p + 2, Some(d), uid);
            if let Ok(bs) = medit_from(toks, p + 2, Some(d), uid) {
                lemma_shaped_cons(BlockView::Dimension(d), bs, dim, Some(d));
            }
        }
    } else if is_node_keyword(k) {
        if !(dim is None || p + 1 >= toks.len() || !parses_as_usize(toks[p + 1])) && uid < u64::MAX {
            let count = unsigned_value(toks[p + 1]);
            let vr = k == "Vertices"@;
            if let Some((ns, e)) = read_nodes(toks, p + 2, count, dim->0 as nat, vr) {
                lemma_read_nodes_end(toks, p + 2, count, dim->0 as nat, vr);
                lemma_read_nodes_rows(toks, p + 2, count, dim->0 as nat, vr);
                lemma_medit_blocks_shaped(toks, e, dim, (uid + 1) as u64);
                if let Ok(bs) = medit_from(toks, e, dim, (uid + 1) as u64) {
                    let g = medit_group((uid + 1) as u64, k, EntityKind::Node, count as usize);
                    lemma_shaped_cons(BlockView::Nodes(g, ns), bs, dim, dim);
                }
            }
        }
    } else if arity_of(k) is Some {
        if !(p + 1 >= toks.len() || !parses_as_usize(toks[p + 1])) && uid < u64::MAX {
            let count = unsigned_value(toks[p + 1]);
            let arity = arity_of(k)->0 as nat;
            if let Some((es, e)) = read_elements(toks, p + 2, count, arity) {
                lemma_read_elements_end(toks, p + 2, count, arity);
                lemma_read_elements_rows(toks, p + 2, count, arity);
                lemma_medit_blocks_shaped(toks, e, dim, (uid + 1) as u64);
                if let Ok(bs) = medit_from(toks, e, dim, (uid + 1) as u64) {
                    let g = medit_group((uid + 1) as u64, k, EntityKind::Element, count as usize);
                    lemma_shaped_cons(BlockView::Elements(g, es), bs, dim, dim);
                }
            }
        }
    } else if k.len() > 0 && k[0] == '#' {
        lemma_medit_blocks_shaped(toks, p + 1, dim, uid);
    }
}

/// Applying blocks of that shape keeps a mesh in the shape MEDIT reads.
pub proof fn lemma_apply_shaped(m: MeshView, bs: Seq<BlockView>, dim: Option<u8>)
    requires
        medit_shaped(m),
        blocks_shaped(bs, dim),
        dim matches Some(d) ==> d == m.dimension,
        dim is None ==> m.nodes.len() == 0,
    ensures
        apply_blocks(m, bs) matches Some(m2) ==> medit_shaped(m2),
    decreases bs.len(),
{
    if bs.len() > 0 {
        match apply_block(m, bs[0]) {
            Some(m1) => {
                match bs[0] {
                    BlockView::Dimension(d) => {
                        assert forall|i: int| 0 <= i < m1.nodes.len() implies node_group_read(
                            #[trigger] m1.nodes[i],
                            m1.dimension as nat,
                        ) by {
                            assert(has_groups(m));
                            assert(m1.nodes[i] == m.nodes[i]);
                        }
                        lemma_apply_shaped(m1, bs.drop_first(), Some(d));
                    },
                    BlockView::Nodes(g, ns) => {
                        assert forall|i: int| 0 <= i < m1.nodes.len() implies node_group_read(
                            #[trigger] m1.nodes[i],
                            m1.dimension as nat,
                        ) by {
                            if i < m.nodes.len() {
                                assert(m1.nodes[i] == m.nodes[i]);
                            }
                        }
                        lemma_apply_shaped(m1, bs.drop_first(), dim);
                    },
                    BlockView::Elements(g, es) => {
                        assert forall|i: int| 0 <= i < m1.elements.len() implies element_group_read(
                            #[trigger] m1.elements[i],
                        ) by {
                            if i < m.elements.len() {
                                assert(m1.elements[i] == m.elements[i]);
                            }
                        }
                        lemma_apply_shaped(m1, bs.drop_first(), dim);
                    },
                }
            },
            None => {},
        }
    }
}

/// A mesh read from MEDIT text can be written back: writing it cannot fail.
pub proof fn lemma_read_mesh_writable(text: Seq<char>)
    requires
        medit_mesh(text) is Read,
    ensures
        medit_shaped(medit_mesh(text)->Read_0),
        writable(medit_mesh(text)->Read_0),
{
    let toks = items_of(text);
    lemma_medit_blocks_shaped(toks, 0, None, 0);
    let bs = parse_medit(text)->Ok_0;
    assert(medit_shaped(empty_mesh()));
    lemma_apply_shaped(empty_mesh(), bs, None);
    let m = medit_mesh(text)->Read_0;
    assert forall|i: int| 0 <= i < m.elements.len() implies element_group_writable(#[trigger] m.elements[i]) by {
        let g = m.elements[i];
        assert(element_group_read(g));
        assert forall|j: int| 0 <= j < g.1.len() implies (#[trigger] g.1[j]).indices.len() == arity_of(g.0.name.name)->0 by {
            assert(is_element_row(g.1[j], arity_of(g.0.name.name)->0 as nat));
        }
    }
}

/// The items of a node group as written: name, count, then its rows.
pub open spec fn node_group_items(g: (GroupView, Seq<NodeView>)) -> Seq<Seq<char>> {
    seq![g.0.name.name, decimal_of(g.1.len())] + flatten(
        g.1.map_values(|n: NodeView| node_row(n, g.0.name.name == "Vertices"@)),
    )
}

pub open spec fn element_group_items(g: (GroupView, Seq<ElementView>)) -> Seq<Seq<char>> {
    seq![g.0.name.name, decimal_of(g.1.len())] + flatten(
        g.1.map_values(|e: ElementView| element_row(e)),
    )
}

pub open spec fn node_items(gs: Seq<(GroupView, Seq<NodeView>)>) -> Seq<Seq<char>>
    decreases gs.len(),
{
    if gs.len() == 0 {
        seq![]
    } else {
        node_group_items(gs[0]) + node_items(gs.drop_first())
    }
}

pub open spec fn element_items(gs: Seq<(GroupView, Seq<ElementView>)>) -> Seq<Seq<char>>
    decreases gs.len(),
{
    if gs.len() == 0 {
        seq![]
    } else {
        element_group_items(gs[0]) + element_items(gs.drop_first())
    }
}

/// The items of the MEDIT text written for `m`.
pub open spec fn medit_items(m: MeshView) -> Seq<Seq<char>> {
    seq!["MeshVersionFormatted"@, "1"@, "Dimension"@, decimal_of(m.dimension as nat)] + node_items(
        m.nodes,
    ) + element_items(m.elements) + seq!["End"@]
}

/// The blocks that reading the node groups `gs` back yields, identities
/// counting from `uid + 1`.
pub open spec fn node_blocks(gs: Seq<(GroupView, Seq<NodeView>)>, uid: u64) -> Seq<BlockView>
    decreases gs.len(),
{
    if gs.len() == 0 {
        seq![]
    } else {
        seq![
            BlockView::Nodes(
                medit_group((uid + 1) as u64, gs[0].0.name.name, EntityKind::Node, gs[0].1.len() as usize),
                gs[0].1,
            ),
        ] + node_blocks(gs.drop_first(), (uid + 1) as u64)
    }
}

pub open spec fn element_blocks(gs: Seq<(GroupView, Seq<ElementView>)>, uid: u64) -> Seq<BlockView>
    decreases gs.len(),
{
    if gs.len() == 0 {
        seq![]
    } else {
        seq![
            BlockView::Elements(
                medit_group((uid + 1) as u64, gs[0].0.name.name, EntityKind::Element, gs[0].1.len() as usize),
                gs[0].1,
            ),
        ] + element_blocks(gs.drop_first(), (uid + 1) as u64)
    }
}

/// The decimal text of `n` reads back as `n`.
pub proof fn lemma_decimal_reads_back(n: nat)
    ensures
        is_unsigned_text(decimal_of(n)),
        unsigned_value(decimal_of(n)) == n,
        decimal_of(n).len() > 0,
        all_digits(decimal_of(n)),
    decreases n,
{
    let s = decimal_of(n);
    if n >= 10 {
        lemma_decimal_reads_back(n / 10);
        let t = decimal_of(n / 10);
        assert(s == t.push(digit_char(n % 10)));
        assert(s.drop_last() =~= t);
        assert forall|i: int| 0 <= i < s.len() implies is_digit(#[trigger] s[i]) by {
            if i < t.len() {
                assert(s[i] == t[i]);
            }
        }
        assert(unsigned_digits(s) == s);
        assert(unsigned_digits(t) == t);
        let k = n % 10;
        assert(crate::text::digit_value(digit_char(k)) == k);
        assert(digits_value(s) == digits_value(t) * 10 + crate::text::digit_value(digit_char(k)));
        assert(n / 10 * 10 + k == n);
    } else {
        assert(s.drop_last() =~= Seq::<char>::empty());
        assert(crate::text::digit_value(digit_char(n)) == n);
        assert(digits_value(s) == digits_value(s.drop_last()) * 10 + crate::text::digit_value(s.last()));
    }
    assert(unsigned_digits(s) == s);
}

proof fn lemma_lookup_single(attr: Seq<(AttrKey, Seq<char>)>)
    requires
        attr.len() == 1,
        attr[0].0 == AttrKey::Index(0),
    ensures
        ref_text(attr) == attr[0].1,
{
    assert(exists|i: int| 0 <= i < attr.len() && (#[trigger] attr[i]).0 == AttrKey::Index(0)) by {
        assert(attr[0].0 == AttrKey::Index(0));
    }
}

proof fn lemma_flatten_cons(a: Seq<Seq<char>>, ls: Seq<Seq<Seq<char>>>)
    ensures
        flatten(seq![a] + ls) == a + flatten(ls),
{
    assert((seq![a] + ls).drop_first() =~= ls);
    assert((seq![a] + ls)[0] == a);
}

/// Node rows written at item `q` read back as the same nodes.
proof fn lemma_rows_read_back(t: Seq<Seq<char>>, q: int, ns: Seq<NodeView>, dim: nat, with_ref: bool)
    requires
        0 <= q,
        forall|i: int| 0 <= i < ns.len() ==> is_node_row(#[trigger] ns[i], dim, with_ref),
        q + flatten(ns.map_values(|n: NodeView| node_row(n, with_ref))).len() <= t.len(),
        t.subrange(q, q + flatten(ns.map_values(|n: NodeView| node_row(n, with_ref))).len())
            == flatten(ns.map_values(|n: NodeView| node_row(n, with_ref))),
    ensures
        read_nodes(t, q, ns.len(), dim, with_ref) == Some(
            (ns, q + flatten(ns.map_values(|n: NodeView| node_row(n, with_ref))).len()),
        ),
    decreases ns.len(),
{
    let rows = ns.map_values(|n: NodeView| node_row(n, with_ref));
    if ns.len() == 0 {
        assert(ns =~= Seq::<NodeView>::empty());
    } else {
        let n0 = ns[0];
        let rest = ns.drop_first();
        let rrows = rest.map_values(|n: NodeView| node_row(n, with_ref));
        assert(rows =~= seq![node_row(n0, with_ref)] + rrows);
        lemma_flatten_cons(node_row(n0, with_ref), rrows);
        let w = node_width(dim, with_ref);
        let r0 = node_row(n0, with_ref);
        assert(is_node_row(n0, dim, with_ref));
        if with_ref {
            lemma_lookup_single(n0.attr);
        }
        assert(r0.len() == w);
        assert forall|i: int| q <= i < q + w implies is_real_text(#[trigger] t[i]) by {
            assert(t[i] == t.subrange(q, q + flatten(rows).len())[i - q]);
            assert(flatten(rows)[i - q] == r0[i - q]);
        }
        assert forall|i: int| 0 <= i < rest.len() implies is_node_row(#[trigger] rest[i], dim, with_ref) by {
            assert(rest[i] == ns[i + 1]);
        }
        assert(t.subrange(q + w, q + w + flatten(rrows).len()) =~= flatten(rrows)) by {
            assert forall|i: int| 0 <= i < flatten(rrows).len() implies t.subrange(q + w, q + w + flatten(rrows).len())[i] == flatten(rrows)[i] by {
                assert(t[q + w + i] == t.subrange(q, q + flatten(rows).len())[w + i]);
                assert(flatten(rows)[w + i] == flatten(rrows)[i]);
            }
        }
        lemma_rows_read_back(t, q + w, rest, dim, with_ref);
        let na = node_at(t, q, dim, with_ref);
        assert(na.position =~= n0.position) by {
            assert forall|i: int| 0 <= i < dim implies na.position[i] == n0.position[i] by {
                assert(t[q + i] == t.subrange(q, q + flatten(rows).len())[i]);
                assert(flatten(rows)[i] == r0[i]);
            }
        }
        if with_ref {
            assert(t[q + dim] == t.subrange(q, q + flatten(rows).len())[dim as int]);
            assert(flatten(rows)[dim as int] == r0[dim as int]);
            assert(na.attr =~= n0.attr);
        } else {
            assert(na.attr =~= n0.attr);
        }
        assert(seq![n0] + rest =~= ns);
    }
}

/// Element rows written at item `q` read back as the same elements.
proof fn lemma_element_rows_read_back(t: Seq<Seq<char>>, q: int, es: Seq<ElementView>, arity: nat)
    requires
        0 <= q,
        forall|i: int| 0 <= i < es.len() ==> is_element_row(#[trigger] es[i], arity),
        q + flatten(es.map_values(|e: ElementView| element_row(e))).len() <= t.len(),
        t.subrange(q, q + flatten(es.map_values(|e: ElementView| element_row(e))).len())
            == flatten(es.map_values(|e: ElementView| element_row(e))),
    ensures
        read_elements(t, q, es.len(), arity) == Some(
            (es, q + flatten(es.map_values(|e: ElementView| element_row(e))).len()),
        ),
    decreases es.len(),
{
    let rows = es.map_values(|e: ElementView| element_row(e));
    if es.len() == 0 {
        assert(es =~= Seq::<ElementView>::empty());
    } else {
        let e0 = es[0];
        let rest = es.drop_first();
        let rrows = rest.map_values(|e: ElementView| element_row(e));
        assert(rows =~= seq![element_row(e0)] + rrows);
        lemma_flatten_cons(element_row(e0), rrows);
        let r0 = element_row(e0);
        assert(is_element_row(e0, arity));
        lemma_lookup_single(e0.attr);
        assert(r0.len() == arity + 1);
        assert forall|i: int| 0 <= i <= arity implies t[q + i] == r0[i] by {
            assert(t[q + i] == t.subrange(q, q + flatten(rows).len())[i]);
            assert(flatten(rows)[i] == r0[i]);
        }
        assert forall|i: int| q <= i < q + arity implies parses_as_usize(#[trigger] t[i]) by {
            assert(t[i] == r0[i - q]);
            lemma_decimal_reads_back(e0.indices[i - q] as nat);
        }
        assert(t[q + arity] == r0[arity as int]);
        assert(element_row_ok(t, q, arity));
        assert forall|i: int| 0 <= i < rest.len() implies is_element_row(#[trigger] rest[i], arity) by {
            assert(rest[i] == es[i + 1]);
        }
        assert(t.subrange(q + arity + 1, q + arity + 1 + flatten(rrows).len()) =~= flatten(rrows)) by {
            assert forall|i: int| 0 <= i < flatten(rrows).len() implies t.subrange(q + arity + 1, q + arity + 1 + flatten(rrows).len())[i] == flatten(rrows)[i] by {
                assert(t[q + arity + 1 + i] == t.subrange(q, q + flatten(rows).len())[arity + 1 + i]);
                assert(flatten(rows)[arity + 1 + i] == flatten(rrows)[i]);
            }
        }
        lemma_element_rows_read_back(t, q + arity + 1, rest, arity);
        let ea = element_at(t, q, arity);
        assert(ea.indices =~= e0.indices) by {
            assert forall|i: int| 0 <= i < arity implies ea.indices[i] == e0.indices[i] by {
                assert(t[q + i] == r0[i]);
                lemma_decimal_reads_back(e0.indices[i] as nat);
            }
        }
        assert(ea.attr =~= e0.attr);
        assert(seq![e0] + rest =~= es);
    }
}

/// Keywords of groups are none of the other keywords.
proof fn lemma_keywords_distinct(k: Seq<char>)
    ensures
        is_node_keyword(k) ==> k != "MeshVersionFormatted"@ && k != "Dimension"@,
        arity_of(k) is Some ==> k != "MeshVersionFormatted"@ && k != "Dimension"@ && !is_node_keyword(k),
        "Dimension"@ != "MeshVersionFormatted"@,
{
    reveal_strlit("MeshVersionFormatted");
    reveal_strlit("Dimension");
    reveal_strlit("Vertices");
    reveal_strlit("Normals");
    reveal_strlit("Tangents");
    reveal_strlit("Edges");
    reveal_strlit("Triangles");
    reveal_strlit("Quadrilaterals");
    reveal_strlit("Tetrahedra");
    reveal_strlit("Hexahedra");
    if is_node_keyword(k) {
        assert(k.len() == 7 || k.len() == 8);
    }
    if arity_of(k) is Some {
        assert(k.len() == 5 || k.len() == 9 || k.len() == 14 || k.len() == 10);
        if k.len() == 9 {
            assert(k == "Triangles"@ || k == "Hexahedra"@);
            assert(k[0] == 'T' || k[0] == 'H');
            assert("Dimension"@[0] == 'D');
        }
    }
    assert("Dimension"@.len() == 9 && "MeshVersionFormatted"@.len() == 20);
}

proof fn lemma_with_after(b: BlockView, bs: Seq<BlockView>, r: Result<Seq<BlockView>, MeditFailure>)
    ensures
        with_block(b, after_blocks(bs, r)) == after_blocks(seq![b] + bs, r),
        after_blocks(Seq::<BlockView>::empty(), r) == r,
{
    match r {
        Ok(x) => {
            assert(seq![b] + (bs + x) =~= (seq![b] + bs) + x);
            assert(Seq::<BlockView>::empty() + x =~= x);
        },
        Err(_) => {},
    }
}

proof fn lemma_after_after(a: Seq<BlockView>, b: Seq<BlockView>, r: Result<Seq<BlockView>, MeditFailure>)
    ensures
        after_blocks(a, after_blocks(b, r)) == after_blocks(a + b, r),
{
    match r {
        Ok(x) => {
            assert(a + (b + x) =~= (a + b) + x);
        },
        Err(_) => {},
    }
}

/// Node groups written from item `p` on read back as the same groups.
proof fn lemma_node_groups_read_back(t: Seq<Seq<char>>, p: int, gs: Seq<(GroupView, Seq<NodeView>)>, d: u8, uid: u64)
    requires
        0 <= p,
        forall|i: int| 0 <= i < gs.len() ==> node_group_read(#[trigger] gs[i], d as nat),
        uid + gs.len() <= u64::MAX,
        p + node_items(gs).len() <= t.len(),
        t.subrange(p, p + node_items(gs).len()) == node_items(gs),
    ensures
        medit_from(t, p, Some(d), uid) == after_blocks(
            node_blocks(gs, uid),
            medit_from(t, p + node_items(gs).len(), Some(d), (uid + gs.len()) as u64),
        ),
    decreases gs.len(),
{
    if gs.len() == 0 {
        lemma_with_after(BlockView::Dimension(0), seq![], medit_from(t, p, Some(d), uid));
        return;
    }
    let g = gs[0];
    let rest = gs.drop_first();
    let items = node_items(gs);
    let gi = node_group_items(g);
    let vr = g.0.name.name == "Vertices"@;
    let rows = g.1.map_values(|n: NodeView| node_row(n, vr));
    assert(items == gi + node_items(rest));
    assert(node_group_read(g, d as nat));
    assert forall|i: int| 0 <= i < gi.len() implies t[p + i] == gi[i] by {
        assert(t[p + i] == t.subrange(p, p + items.len())[i]);
        assert(items[i] == gi[i]);
    }
    let k = g.0.name.name;
    assert(gi[0] == k && gi[1] == decimal_of(g.1.len()));
    assert(t[p + 0] == gi[0]);
    assert(t[p + 1] == gi[1]);
    assert(t[p] == k);
    lemma_keywords_distinct(k);
    lemma_decimal_reads_back(g.1.len());
    assert(t.subrange(p + 2, p + 2 + flatten(rows).len()) =~= flatten(rows)) by {
        assert forall|i: int| 0 <= i < flatten(rows).len() implies t.subrange(p + 2, p + 2 + flatten(rows).len())[i] == flatten(rows)[i] by {
            assert(t[p + 2 + i] == gi[2 + i]);
        }
    }
    lemma_rows_read_back(t, p + 2, g.1, d as nat, vr);
    let e = p + gi.len();
    assert(e == p + 2 + flatten(rows).len());
    assert forall|i: int| 0 <= i < rest.len() implies node_group_read(#[trigger] rest[i], d as nat) by {
        assert(rest[i] == gs[i + 1]);
    }
    assert(t.subrange(e, e + node_items(rest).len()) =~= node_items(rest)) by {
        assert forall|i: int| 0 <= i < node_items(rest).len() implies t.subrange(e, e + node_items(rest).len())[i] == node_items(rest)[i] by {
            assert(t[e + i] == t.subrange(p, p + items.len())[gi.len() + i]);
            assert(items[gi.len() + i] == node_items(rest)[i]);
        }
    }
    lemma_node_groups_read_back(t, e, rest, d, (uid + 1) as u64);
    let b = BlockView::Nodes(medit_group((uid + 1) as u64, k, EntityKind::Node, g.1.len() as usize), g.1);
    lemma_with_after(b, node_blocks(rest, (uid + 1) as u64), medit_from(t, e + node_items(rest).len(), Some(d), (uid + gs.len()) as u64));
    assert(e + node_items(rest).len() == p + items.len());
}

/// Element groups written from item `p` on read back as the same groups.
proof fn lemma_element_groups_read_back(t: Seq<Seq<char>>, p: int, gs: Seq<(GroupView, Seq<ElementView>)>, d: Option<u8>, uid: u64)
    requires
        0 <= p,
        forall|i: int| 0 <= i < gs.len() ==> element_group_read(#[trigger] gs[i]),
        uid + gs.len() <= u64::MAX,
        p + element_items(gs).len() <= t.len(),
        t.subrange(p, p + element_items(gs).len()) == element_items(gs),
    ensures
        medit_from(t, p, d, uid) == after_blocks(
            element_blocks(gs, uid),
            medit_from(t, p + element_items(gs).len(), d, (uid + gs.len()) as u64),
        ),
    decreases gs.len(),
{
    if gs.len() == 0 {
        lemma_with_after(BlockView::Dimension(0), seq![], medit_from(t, p, d, uid));
        return;
    }
    let g = gs[0];
    let rest = gs.drop_first();
    let items = element_items(gs);
    let gi = element_group_items(g);
    let rows = g.1.map_values(|x: ElementView| element_row(x));
    assert(items == gi + element_items(rest));
    assert(element_group_read(g));
    assert forall|i: int| 0 <= i < gi.len() implies t[p + i] == gi[i] by {
        assert(t[p + i] == t.subrange(p, p + items.len())[i]);
        assert(items[i] == gi[i]);
    }
    let k = g.0.name.name;
    let arity = arity_of(k)->0 as nat;
    assert(gi[0] == k && gi[1] == decimal_of(g.1.len()));
    assert(t[p + 0] == gi[0]);
    assert(t[p + 1] == gi[1]);
    assert(t[p] == k);
    lemma_keywords_distinct(k);
    lemma_decimal_reads_back(g.1.len());
    assert(t.subrange(p + 2, p + 2 + flatten(rows).len()) =~= flatten(rows)) by {
        assert forall|i: int| 0 <= i < flatten(rows).len() implies t.subrange(p + 2, p + 2 + flatten(rows).len())[i] == flatten(rows)[i] by {
            assert(t[p + 2 + i] == gi[2 + i]);
        }
    }
    lemma_element_rows_read_back(t, p + 2, g.1, arity);
    let e = p + gi.len();
    assert forall|i: int| 0 <= i < rest.len() implies element_group_read(#[trigger] rest[i]) by {
        assert(rest[i] == gs[i + 1]);
    }
    assert(t.subrange(e, e + element_items(rest).len()) =~= element_items(rest)) by {
        assert forall|i: int| 0 <= i < element_items(rest).len() implies t.subrange(e, e + element_items(rest).len())[i] == element_items(rest)[i] by {
            assert(t[e + i] == t.subrange(p, p + items.len())[gi.len() + i]);
            assert(items[gi.len() + i] == element_items(rest)[i]);
        }
    }
    lemma_element_groups_read_back(t, e, rest, d, (uid + 1) as u64);
    let b = BlockView::Elements(medit_group((uid + 1) as u64, k, EntityKind::Element, g.1.len() as usize), g.1);
    lemma_with_after(b, element_blocks(rest, (uid + 1) as u64), medit_from(t, e + element_items(rest).len(), d, (uid + gs.len()) as u64));
}

/// The items written for a mesh of the shape MEDIT reads read back as its
/// dimension, then its node groups, then its element groups, each with the
/// same name and entities.
pub proof fn lemma_items_read_back(m: MeshView)
    requires
        medit_shaped(m),
        m.nodes.len() + m.elements.len() <= u64::MAX,
    ensures
        medit_from(medit_items(m), 0, None, 0) == Ok::<Seq<BlockView>, MeditFailure>(
            seq![BlockView::Dimension(m.dimension)] + node_blocks(m.nodes, 0) + element_blocks(
                m.elements,
                m.nodes.len() as u64,
            ),
        ),
{
    let t = medit_items(m);
    let ni = node_items(m.nodes);
    let ei = element_items(m.elements);
    let h = seq!["MeshVersionFormatted"@, "1"@, "Dimension"@, decimal_of(m.dimension as nat)];
    assert(t == h + ni + ei + seq!["End"@]);
    lemma_keywords_distinct("Dimension"@);
    lemma_decimal_reads_back(m.dimension as nat);
    lemma_end_facts();
    assert(t[0] == "MeshVersionFormatted"@);
    assert(t[1] == "1"@);
    assert(t[2] == "Dimension"@);
    assert(t[3] == decimal_of(m.dimension as nat));
    let d = m.dimension;
    assert(medit_from(t, 0, None, 0) == medit_from(t, 2, None, 0));
    assert(unsigned_value(t[3]) == d);
    assert(medit_from(t, 2, None, 0) == with_block(BlockView::Dimension(d), medit_from(t, 4, Some(d), 0)));
    assert(t.subrange(4, 4 + ni.len() as int) =~= ni);
    lemma_node_groups_read_back(t, 4, m.nodes, d, 0);
    let p2: int = 4 + ni.len() as int;
    assert(t.subrange(p2, p2 + ei.len()) =~= ei);
    lemma_element_groups_read_back(t, p2, m.elements, Some(d), m.nodes.len() as u64);
    let p3: int = p2 + ei.len() as int;
    assert(t[p3] == "End"@);
    assert(medit_from(t, p3, Some(d), (m.nodes.len() + m.elements.len()) as u64) == Ok::<Seq<BlockView>, MeditFailure>(seq![]));
    let nb = node_blocks(m.nodes, 0);
    let eb = element_blocks(m.elements, m.nodes.len() as u64);
    let end_r = medit_from(t, p3, Some(d), (m.nodes.len() + m.elements.len()) as u64);
    lemma_after_after(nb, eb, end_r);
    lemma_with_after(BlockView::Dimension(d), nb + eb, end_r);
    assert(seq![BlockView::Dimension(d)] + (nb + eb) + seq![] =~= seq![BlockView::Dimension(d)] + nb + eb);
}

/// The node groups `gs` as read back, identities counting from `uid + 1`.
pub open spec fn renamed_nodes(gs: Seq<(GroupView, Seq<NodeView>)>, uid: u64) -> Seq<(GroupView, Seq<NodeView>)> {
    Seq::new(
        gs.len(),
        |i: int|
            (medit_group((uid + 1 + i) as u64, gs[i].0.name.name, EntityKind::Node, gs[i].1.len() as usize), gs[i].1),
    )
}

pub open spec fn renamed_elements(gs: Seq<(GroupView, Seq<ElementView>)>, uid: u64) -> Seq<(GroupView, Seq<ElementView>)> {
    Seq::new(
        gs.len(),
        |i: int|
            (medit_group((uid + 1 + i) as u64, gs[i].0.name.name, EntityKind::Element, gs[i].1.len() as usize), gs[i].1),
    )
}

proof fn lemma_apply_cons(m: MeshView, b: BlockView, rest: Seq<BlockView>)
    ensures
        apply_blocks(m, seq![b] + rest) == match apply_block(m, b) {
            Some(m1) => apply_blocks(m1, rest),
            None => None,
        },
{
    assert((seq![b] + rest)[0] == b);
    assert((seq![b] + rest).drop_first() =~= rest);
}

proof fn lemma_apply_node_blocks(m: MeshView, gs: Seq<(GroupView, Seq<NodeView>)>, uid: u64, rest: Seq<BlockView>)
    requires
        uid + gs.len() <= u64::MAX,
    ensures
        apply_blocks(m, node_blocks(gs, uid) + rest) == apply_blocks(
            MeshView { nodes: m.nodes + renamed_nodes(gs, uid), ..m },
            rest,
        ),
    decreases gs.len(),
{
    if gs.len() == 0 {
        assert(node_blocks(gs, uid) + rest =~= rest);
        assert(m.nodes + renamed_nodes(gs, uid) =~= m.nodes);
        assert(MeshView { nodes: m.nodes + renamed_nodes(gs, uid), ..m } == m);
    } else {
        let g0 = (medit_group((uid + 1) as u64, gs[0].0.name.name, EntityKind::Node, gs[0].1.len() as usize), gs[0].1);
        let b = BlockView::Nodes(g0.0, g0.1);
        let tail = node_blocks(gs.drop_first(), (uid + 1) as u64);
        assert(node_blocks(gs, uid) + rest =~= seq![b] + (tail + rest));
        lemma_apply_cons(m, b, tail + rest);
        let m1 = MeshView { nodes: m.nodes.push(g0), ..m };
        lemma_apply_node_blocks(m1, gs.drop_first(), (uid + 1) as u64, rest);
        assert(m1.nodes + renamed_nodes(gs.drop_first(), (uid + 1) as u64) =~= m.nodes + renamed_nodes(gs, uid));
    }
}

proof fn lemma_apply_element_blocks(m: MeshView, gs: Seq<(GroupView, Seq<ElementView>)>, uid: u64, rest: Seq<BlockView>)
    requires
        uid + gs.len() <= u64::MAX,
    ensures
        apply_blocks(m, element_blocks(gs, uid) + rest) == apply_blocks(
            MeshView { elements: m.elements + renamed_elements(gs, uid), ..m },
            rest,
        ),
    decreases gs.len(),
{
    if gs.len() == 0 {
        assert(element_blocks(gs, uid) + rest =~= rest);
        assert(m.elements + renamed_elements(gs, uid) =~= m.elements);
        assert(MeshView { elements: m.elements + renamed_elements(gs, uid), ..m } == m);
    } else {
        let g0 = (medit_group((uid + 1) as u64, gs[0].0.name.name, EntityKind::Element, gs[0].1.len() as usize), gs[0].1);
        let b = BlockView::Elements(g0.0, g0.1);
        let tail = element_blocks(gs.drop_first(), (uid + 1) as u64);
        assert(element_blocks(gs, uid) + rest =~= seq![b] + (tail + rest));
        lemma_apply_cons(m, b, tail + rest);
        let m1 = MeshView { elements: m.elements.push(g0), ..m };
        lemma_apply_element_blocks(m1, gs.drop_first(), (uid + 1) as u64, rest);
        assert(m1.elements + renamed_elements(gs.drop_first(), (uid + 1) as u64) =~= m.elements + renamed_elements(gs, uid));
    }
}

/// The number of groups that blocks open.
pub open spec fn group_count(bs: Seq<BlockView>) -> nat
    decreases bs.len(),
{
    if bs.len() == 0 {
        0
    } else {
        (if block_group(bs[0]) is Some {
            1nat
        } else {
            0nat
        }) + group_count(bs.drop_first())
    }
}

proof fn lemma_medit_group_count(toks: Seq<Seq<char>>, p: int, dim: Option<u8>, uid: u64)
    ensures
        medit_from(toks, p, dim, uid) matches Ok(bs) ==> uid + group_count(bs) <= u64::MAX,
    decreases toks.len() - p,
{
    if p < 0 || p >= toks.len() {
        return;
    }
    let k = toks[p];
    if k == "MeshVersionFormatted"@ {
        if p + 1 < toks.len() && toks[p + 1] == "1"@ {
            lemma_medit_group_count(toks, p + 2, dim, uid);
        }
    } else if k == "Dimension"@ {
        if !(p + 1 >= toks.len() || !is_unsigned_text(toks[p + 1]) || unsigned_value(toks[p + 1]) > 255) {
            let d = unsigned_value(toks[p + 1]) as u8;
            lemma_medit_group_count(toks, p + 2, Some(d), uid);
            if let Ok(bs) = medit_from(toks, p + 2, Some(d), uid) {
                let b = BlockView::Dimension(d);
                assert((seq![b] + bs).drop_first() =~= bs);
            }
        }
    } else if is_node_keyword(k) {
        if !(dim is None || p + 1 >= toks.len() || !parses_as_usize(toks[p + 1])) && uid < u64::MAX {
            let count = unsigned_value(toks[p + 1]);
            let vr = k == "Vertices"@;
            if let Some((ns, e)) = read_nodes(toks, p + 2, count, dim->0 as nat, vr) {
                lemma_read_nodes_end(toks, p + 2, count, dim->0 as nat, vr);
                lemma_medit_group_count(toks, e, dim, (uid + 1) as u64);
                if let Ok(bs) = medit_from(toks, e, dim, (uid + 1) as u64) {
                    let b = BlockView::Nodes(medit_group((uid + 1) as u64, k, EntityKind::Node, count as usize), ns);
                    assert((seq![b] + bs).drop_first() =~= bs);
                    assert((seq![b] + bs)[0] == b);
                }
            }
        }
    } else if arity_of(k) is Some {
        if !(p + 1 >= toks.len() || !parses_as_usize(toks[p + 1])) && uid < u64::MAX {
            let count = unsigned_value(toks[p + 1]);
            let arity = arity_of(k)->0 as nat;
            if let Some((es, e)) = read_elements(toks, p + 2, count, arity) {
                lemma_read_elements_end(toks, p + 2, count, arity);
                lemma_medit_group_count(toks, e, dim, (uid + 1) as u64);
                if let Ok(bs) = medit_from(toks, e, dim, (uid + 1) as u64) {
                    let b = BlockView::Elements(medit_group((uid + 1) as u64, k, EntityKind::Element, count as usize), es);
                    assert((seq![b] + bs).drop_first() =~= bs);
                    assert((seq![b] + bs)[0] == b);
                }
            }
        }
    } else if k.len() > 0 && k[0] == '#' {
        lemma_medit_group_count(toks, p + 1, dim, uid);
    }
}

proof fn lemma_apply_group_count(m: MeshView, bs: Seq<BlockView>)
    ensures
        apply_blocks(m, bs) matches Some(m2) ==> m2.nodes.len() + m2.elements.len() + m2.vectors.len()
            + m2.others.len() == m.nodes.len() + m.elements.len() + m.vectors.len() + m.others.len()
            + group_count(bs),
    decreases bs.len(),
{
    if bs.len() > 0 {
        if let Some(m1) = apply_block(m, bs[0]) {
            lemma_apply_group_count(m1, bs.drop_first());
        }
    }
}

/// Two meshes with the same dimension, and the same node and element
/// groups by name and entities, in the same order.
pub open spec fn same_content(a: MeshView, b: MeshView) -> bool {
    &&& a.dimension == b.dimension
    &&& a.nodes.len() == b.nodes.len()
    &&& a.elements.len() == b.elements.len()
    &&& forall|i: int| 0 <= i < a.nodes.len() ==> (#[trigger] a.nodes[i]).1 == b.nodes[i].1
        && a.nodes[i].0.name == b.nodes[i].0.name
    &&& forall|i: int| 0 <= i < a.elements.len() ==> (#[trigger] a.elements[i]).1 == b.elements[i].1
        && a.elements[i].0.name == b.elements[i].0.name
}

/// The items written for a mesh read from MEDIT text read back, through the
/// mesh, as the same content: same dimension, same groups by name, same
/// entities.
pub proof fn lemma_round_trip_items(text: Seq<char>)
    requires
        medit_mesh(text) is Read,
    ensures
        ({
            let m = medit_mesh(text)->Read_0;
            match medit_from(medit_items(m), 0, None, 0) {
                Ok(bs) => apply_blocks(empty_mesh(), bs) matches Some(m2) && same_content(m, m2),
                Err(_) => false,
            }
        }),
{
    let m = medit_mesh(text)->Read_0;
    let bs0 = parse_medit(text)->Ok_0;
    lemma_read_mesh_writable(text);
    lemma_medit_group_count(items_of(text), 0, None, 0);
    lemma_apply_group_count(empty_mesh(), bs0);
    lemma_items_read_back(m);
    let d = m.dimension;
    let nb = node_blocks(m.nodes, 0);
    let eb = element_blocks(m.elements, m.nodes.len() as u64);
    let bs = seq![BlockView::Dimension(d)] + nb + eb;
    assert(bs =~= seq![BlockView::Dimension(d)] + (nb + (eb + seq![])));
    lemma_apply_cons(empty_mesh(), BlockView::Dimension(d), nb + (eb + seq![]));
    let m1 = MeshView { dimension: d, ..empty_mesh() };
    lemma_apply_node_blocks(m1, m.nodes, 0, eb + seq![]);
    let m2 = MeshView { nodes: m1.nodes + renamed_nodes(m.nodes, 0), ..m1 };
    lemma_apply_element_blocks(m2, m.elements, m.nodes.len() as u64, seq![]);
    let m3 = MeshView { elements: m2.elements + renamed_elements(m.elements, m.nodes.len() as u64), ..m2 };
    assert(apply_blocks(m3, seq![]) == Some(m3));
    assert(m3.nodes =~= renamed_nodes(m.nodes, 0));
    assert(m3.elements =~= renamed_elements(m.elements, m.nodes.len() as u64));
    assert(medit_shaped(m));
    assert forall|i: int| 0 <= i < m.nodes.len() implies (#[trigger] m.nodes[i]).1 == m3.nodes[i].1
        && m.nodes[i].0.name == m3.nodes[i].0.name by {
        assert(node_group_read(m.nodes[i], d as nat));
    }
    assert forall|i: int| 0 <= i < m.elements.len() implies (#[trigger] m.elements[i]).1 == m3.elements[i].1
        && m.elements[i].0.name == m3.elements[i].0.name by {
        assert(element_group_read(m.elements[i]));
    }
    assert(same_content(m, m3));
}

/// A word that splits off as itself: not empty, without white space or `#`.
pub open spec fn plain_word(w: Seq<char>) -> bool {
    w.len() > 0 && forall|i: int| 0 <= i < w.len() ==> !is_white_space(#[trigger] w[i]) && w[i] != '#'
}

pub open spec fn plain_line(l: Seq<Seq<char>>) -> bool {
    forall|i: int| 0 <= i < l.len() ==> plain_word(#[trigger] l[i])
}

/// A line whose words hold no line break.
pub open spec fn clean_line(l: Seq<Seq<char>>) -> bool {
    forall|i: int, j: int| 0 <= i < l.len() && 0 <= j < l[i].len() ==> #[trigger] l[i][j] != '\n' && l[i][j] != '\r'
}

proof fn lemma_split_len(s: Seq<char>)
    ensures
        split_on_white_space(s).len() >= 1,
    decreases s.len(),
{
    if s.len() > 0 {
        lemma_split_len(s.drop_last());
    }
}

proof fn lemma_split_append(x: Seq<char>, y: Seq<char>)
    requires
        forall|i: int| 0 <= i < y.len() ==> !is_white_space(#[trigger] y[i]),
    ensures
        split_on_white_space(x + y) == split_on_white_space(x).update(
            split_on_white_space(x).len() - 1,
            split_on_white_space(x).last() + y,
        ),
    decreases y.len(),
{
    lemma_split_len(x);
    let sx = split_on_white_space(x);
    if y.len() == 0 {
        assert(x + y =~= x);
        assert(sx.last() + y =~= sx.last());
        assert(sx.update(sx.len() - 1, sx.last()) =~= sx);
    } else {
        let y0 = y.drop_last();
        assert forall|i: int| 0 <= i < y0.len() implies !is_white_space(#[trigger] y0[i]) by {
            assert(y0[i] == y[i]);
        }
        lemma_split_append(x, y0);
        assert((x + y).drop_last() =~= x + y0);
        assert((x + y).last() == y.last());
        assert(!is_white_space(y.last()));
        let r = split_on_white_space(x + y0);
        assert(r.len() == sx.len());
        assert(r.last() == sx.last() + y0);
        assert((sx.last() + y0).push(y.last()) =~= sx.last() + y);
        assert(r.update(r.len() - 1, r.last().push(y.last())) =~= sx.update(sx.len() - 1, sx.last() + y));
    }
}

#[verifier::rlimit(60)]
proof fn lemma_join_facts(ws: Seq<Seq<char>>)
    requires
        plain_line(ws),
        ws.len() > 0,
    ensures
        split_on_white_space(join_words(ws)) == ws,
        join_words(ws).len() > 0,
        !is_white_space(join_words(ws).last()),
        join_words(ws)[0] == ws[0][0],
    decreases ws.len(),
{
    assert(plain_word(ws[0]));
    if ws.len() == 1 {
        let w = ws[0];
        lemma_split_append(Seq::<char>::empty(), w);
        assert(Seq::<char>::empty() + w =~= w);
        assert(split_on_white_space(Seq::<char>::empty()) == seq![Seq::<char>::empty()]);
        assert(seq![Seq::<char>::empty()].update(0, Seq::<char>::empty() + w) =~= ws);
        assert(!is_white_space(w[w.len() - 1]));
    } else {
        let ws0 = ws.drop_last();
        let w = ws.last();
        assert(plain_word(w));
        assert forall|i: int| 0 <= i < ws0.len() implies plain_word(#[trigger] ws0[i]) by {
            assert(ws0[i] == ws[i]);
        }
        lemma_join_facts(ws0);
        let x = join_words(ws0);
        let xs = x.push(' ');
        assert(xs.drop_last() =~= x);
        assert(xs[xs.len() - 2] == x.last());
        assert(split_on_white_space(xs) == ws0.push(Seq::<char>::empty()));
        assert forall|i: int| 0 <= i < w.len() implies !is_white_space(#[trigger] w[i]) by {}
        lemma_split_append(xs, w);
        assert(join_words(ws) == x + seq![' '] + w);
        assert(x + seq![' '] + w =~= xs + w);
        assert(ws0.push(Seq::<char>::empty()).update(ws0.len() as int, Seq::<char>::empty() + w) =~= ws);
        assert((xs + w).last() == w[w.len() - 1]);
        assert((xs + w)[0] == x[0]);
        assert(ws0[0] == ws[0]);
    }
}

proof fn lemma_nonempty_all(ps: Seq<Seq<char>>)
    requires
        forall|i: int| 0 <= i < ps.len() ==> (#[trigger] ps[i]).len() > 0,
    ensures
        nonempty(ps) == ps,
    decreases ps.len(),
{
    if ps.len() > 0 {
        assert forall|i: int| 0 <= i < ps.drop_first().len() implies (#[trigger] ps.drop_first()[i]).len() > 0 by {
            assert(ps.drop_first()[i] == ps[i + 1]);
        }
        lemma_nonempty_all(ps.drop_first());
        assert(seq![ps[0]] + ps.drop_first() =~= ps);
    }
}

/// A plain line reads back as its words.
proof fn lemma_line_items_join(ws: Seq<Seq<char>>)
    requires
        plain_line(ws),
    ensures
        line_items(join_words(ws)) == ws,
{
    if ws.len() == 0 {
        assert(!has_content(join_words(ws)));
    } else {
        lemma_join_facts(ws);
        let j = join_words(ws);
        assert(plain_word(ws[0]));
        assert(ws[0][0] != '#');
        assert(!is_comment(j));
        assert(has_content(j)) by {
            assert(!is_white_space(j[0]));
        }
        assert forall|i: int| 0 <= i < ws.len() implies (#[trigger] ws[i]).len() > 0 by {
            assert(plain_word(ws[i]));
        }
        lemma_nonempty_all(ws);
    }
}

proof fn lemma_join_clean(ws: Seq<Seq<char>>)
    requires
        clean_line(ws),
    ensures
        forall|k: int| 0 <= k < join_words(ws).len() ==> #[trigger] join_words(ws)[k] != '\n' && join_words(ws)[k] != '\r',
    decreases ws.len(),
{
    let j = join_words(ws);
    if ws.len() == 1 {
        assert forall|k: int| 0 <= k < j.len() implies #[trigger] j[k] != '\n' && j[k] != '\r' by {
            assert(ws[0][k] == j[k]);
        }
    } else if ws.len() >= 2 {
        let ws0 = ws.drop_last();
        assert forall|i: int, jj: int| 0 <= i < ws0.len() && 0 <= jj < ws0[i].len() implies #[trigger] ws0[i][jj] != '\n' && ws0[i][jj] != '\r' by {
            assert(ws0[i] == ws[i]);
        }
        lemma_join_clean(ws0);
        let x = join_words(ws0);
        let w = ws.last();
        assert(j == x + seq![' '] + w);
        assert forall|k: int| 0 <= k < j.len() implies #[trigger] j[k] != '\n' && j[k] != '\r' by {
            if k < x.len() {
                assert(j[k] == x[k]);
            } else if k == x.len() {
                assert(j[k] == ' ');
            } else {
                assert(j[k] == w[k - x.len() - 1]);
                assert(ws[ws.len() - 1] == w);
            }
        }
    }
}

proof fn lemma_pieces_len(s: Seq<char>)
    ensures
        newline_pieces(s).len() >= 1,
    decreases s.len(),
{
    if s.len() > 0 {
        lemma_pieces_len(s.drop_last());
    }
}

proof fn lemma_pieces_append(x: Seq<char>, y: Seq<char>)
    requires
        forall|i: int| 0 <= i < y.len() ==> #[trigger] y[i] != '\n',
    ensures
        newline_pieces(x + y) == newline_pieces(x).update(
            newline_pieces(x).len() - 1,
            newline_pieces(x).last() + y,
        ),
    decreases y.len(),
{
    lemma_pieces_len(x);
    let px = newline_pieces(x);
    if y.len() == 0 {
        assert(x + y =~= x);
        assert(px.last() + y =~= px.last());
        assert(px.update(px.len() - 1, px.last()) =~= px);
    } else {
        let y0 = y.drop_last();
        assert forall|i: int| 0 <= i < y0.len() implies #[trigger] y0[i] != '\n' by {
            assert(y0[i] == y[i]);
        }
        lemma_pieces_append(x, y0);
        assert((x + y).drop_last() =~= x + y0);
        assert((x + y).last() == y.last());
        let r = newline_pieces(x + y0);
        assert(r.last() == px.last() + y0);
        assert((px.last() + y0).push(y.last()) =~= px.last() + y);
        assert(r.update(r.len() - 1, r.last().push(y.last())) =~= px.update(px.len() - 1, px.last() + y));
    }
}

pub open spec fn joined(ls: Seq<Seq<Seq<char>>>) -> Seq<Seq<char>> {
    ls.map_values(|l: Seq<Seq<char>>| join_words(l))
}

proof fn lemma_pieces_of_lines(ls: Seq<Seq<Seq<char>>>)
    requires
        forall|i: int| 0 <= i < ls.len() ==> clean_line(#[trigger] ls[i]),
    ensures
        newline_pieces(text_of_lines(ls)) == joined(ls).push(Seq::<char>::empty()),
    decreases ls.len(),
{
    if ls.len() == 0 {
        assert(newline_pieces(Seq::<char>::empty()) =~= seq![Seq::<char>::empty()]);
        assert(joined(ls).push(Seq::<char>::empty()) =~= seq![Seq::<char>::empty()]);
    } else {
        let ls0 = ls.drop_last();
        assert forall|i: int| 0 <= i < ls0.len() implies clean_line(#[trigger] ls0[i]) by {
            assert(ls0[i] == ls[i]);
        }
        lemma_pieces_of_lines(ls0);
        let t0 = text_of_lines(ls0);
        let y = join_words(ls.last());
        assert(clean_line(ls.last()));
        lemma_join_clean(ls.last());
        lemma_pieces_append(t0, y);
        let t = text_of_lines(ls);
        assert(t == t0 + y + seq!['\n']);
        assert(t.drop_last() =~= t0 + y);
        assert(t.last() == '\n');
        assert(joined(ls0).push(Seq::<char>::empty()).update(joined(ls0).len() as int, Seq::<char>::empty() + y)
            =~= joined(ls));
    }
}

/// Lines of words, written one per line, read back as those lines.
proof fn lemma_text_lines_of(ls: Seq<Seq<Seq<char>>>)
    requires
        forall|i: int| 0 <= i < ls.len() ==> clean_line(#[trigger] ls[i]),
    ensures
        text_lines(text_of_lines(ls)) == joined(ls),
{
    lemma_pieces_of_lines(ls);
    let p = newline_pieces(text_of_lines(ls));
    assert(p.take(p.len() - 1) =~= joined(ls));
    assert forall|i: int| 0 <= i < ls.len() implies strip_cr(#[trigger] joined(ls)[i]) == joined(ls)[i] by {
        lemma_join_clean(ls[i]);
        let j = joined(ls)[i];
        if j.len() > 0 {
            assert(j.last() == j[j.len() - 1]);
        }
    }
    assert(joined(ls).map_values(|l: Seq<char>| strip_cr(l)) =~= joined(ls));
}

proof fn lemma_items_append(a: Seq<Seq<char>>, b: Seq<Seq<char>>)
    ensures
        items_of_lines(a + b) == items_of_lines(a) + items_of_lines(b),
    decreases a.len(),
{
    if a.len() == 0 {
        assert(a + b =~= b);
    } else {
        lemma_items_append(a.drop_first(), b);
        assert((a + b).drop_first() =~= a.drop_first() + b);
        assert((a + b)[0] == a[0]);
        assert(line_items(a[0]) + (items_of_lines(a.drop_first()) + items_of_lines(b)) =~= (line_items(a[0]) + items_of_lines(a.drop_first())) + items_of_lines(b));
    }
}

/// Plain lines read back as their words, one after the other.
proof fn lemma_plain_lines_items(ls: Seq<Seq<Seq<char>>>)
    requires
        forall|i: int| 0 <= i < ls.len() ==> plain_line(#[trigger] ls[i]),
    ensures
        items_of_lines(joined(ls)) == flatten(ls),
    decreases ls.len(),
{
    if ls.len() > 0 {
        let rest = ls.drop_first();
        assert forall|i: int| 0 <= i < rest.len() implies plain_line(#[trigger] rest[i]) by {
            assert(rest[i] == ls[i + 1]);
        }
        lemma_plain_lines_items(rest);
        lemma_line_items_join(ls[0]);
        assert(joined(ls).drop_first() =~= joined(rest));
        assert(joined(ls)[0] == join_words(ls[0]));
    }
}

proof fn lemma_plain_is_clean(l: Seq<Seq<char>>)
    requires
        plain_line(l),
    ensures
        clean_line(l),
{
    assert forall|i: int, j: int| 0 <= i < l.len() && 0 <= j < l[i].len() implies #[trigger] l[i][j] != '\n' && l[i][j] != '\r' by {
        assert(plain_word(l[i]));
        assert(!is_white_space(l[i][j]));
    }
}

/// Decimal text, reals and keywords are plain words.
proof fn lemma_decimal_plain(n: nat)
    ensures
        plain_word(decimal_of(n)),
{
    lemma_decimal_reads_back(n);
    let s = decimal_of(n);
    assert forall|i: int| 0 <= i < s.len() implies !is_white_space(#[trigger] s[i]) && s[i] != '#' by {
        assert(is_digit(s[i]));
    }
}

proof fn lemma_real_plain(t: Seq<char>)
    requires
        is_real_text(t),
    ensures
        plain_word(t),
{
    let signed = t.len() > 0 && crate::text::is_sign(t[0]);
    let b = if signed { t.drop_first() } else { t };
    let ok_char = |c: char| !is_white_space(c) && c != '#';
    if crate::text::is_special_real(b) {
        assert(b.len() > 0);
        assert forall|i: int| 0 <= i < b.len() implies !is_white_space(#[trigger] b[i]) && b[i] != '#' by {}
    } else {
        assert(crate::text::is_decimal_number(b));
        if crate::text::no_exp_marker(b) && crate::text::is_mantissa(b) {
            let w = choose|i: int| 0 <= i < b.len() && is_digit(#[trigger] b[i]);
            assert(b.len() > 0);
            assert forall|i: int| 0 <= i < b.len() implies !is_white_space(#[trigger] b[i]) && b[i] != '#' by {
                assert(is_digit(b[i]) || b[i] == '.');
            }
        } else {
            let e = choose|e: int|
                0 <= e < b.len() && crate::text::is_exp_marker(#[trigger] b[e]) && crate::text::no_exp_marker(b.take(e))
                    && crate::text::is_mantissa(b.take(e)) && crate::text::is_exponent(b.skip(e + 1));
            let m = b.take(e);
            let x = b.skip(e + 1);
            assert forall|i: int| 0 <= i < b.len() implies !is_white_space(#[trigger] b[i]) && b[i] != '#' by {
                if i < e {
                    assert(b[i] == m[i]);
                    assert(is_digit(m[i]) || m[i] == '.');
                } else if i == e {
                } else {
                    assert(b[i] == x[i - e - 1]);
                    if x.len() > 0 && crate::text::is_sign(x[0]) {
                        if i - e - 1 > 0 {
                            assert(x[i - e - 1] == x.drop_first()[i - e - 2]);
                            assert(is_digit(x.drop_first()[i - e - 2]));
                        }
                    } else {
                        assert(is_digit(x[i - e - 1]));
                    }
                }
            }
        }
    }
    assert(t.len() > 0);
    assert forall|i: int| 0 <= i < t.len() implies !is_white_space(#[trigger] t[i]) && t[i] != '#' by {
        if signed {
            if i > 0 {
                assert(t[i] == b[i - 1]);
            }
        } else {
            assert(t[i] == b[i]);
        }
    }
}

/// Letters and digits only.
pub open spec fn alnum_chars(w: Seq<char>) -> bool
    decreases w.len(),
{
    w.len() == 0 || ((('0' <= w[0] <= '9') || ('A' <= w[0] <= 'Z') || ('a' <= w[0] <= 'z'))
        && alnum_chars(w.drop_first()))
}

proof fn lemma_alnum_plain(w: Seq<char>)
    requires
        w.len() > 0,
        alnum_chars(w),
    ensures
        plain_word(w),
{
    assert forall|i: int| 0 <= i < w.len() implies !is_white_space(#[trigger] w[i]) && w[i] != '#' by {
        lemma_alnum_at(w, i);
    }
}

proof fn lemma_alnum_at(w: Seq<char>, i: int)
    requires
        alnum_chars(w),
        0 <= i < w.len(),
    ensures
        ('0' <= w[i] <= '9') || ('A' <= w[i] <= 'Z') || ('a' <= w[i] <= 'z'),
    decreases i,
{
    if i > 0 {
        lemma_alnum_at(w.drop_first(), i - 1);
    }
}

/// The keywords that MEDIT text holds are plain words.
proof fn lemma_keywords_plain()
    ensures
        plain_word("MeshVersionFormatted"@),
        plain_word("1"@),
        plain_word("Dimension"@),
        plain_word("End"@),
        forall|k: Seq<char>| is_node_keyword(k) ==> plain_word(k),
        forall|k: Seq<char>| arity_of(k) is Some ==> plain_word(k),
        clean_line(seq!["#"@, "MEDIT"@, "mesh"@, "file"@]),
{
    reveal_strlit("MeshVersionFormatted");
    reveal_strlit("1");
    reveal_strlit("Dimension");
    reveal_strlit("End");
    reveal_strlit("Vertices");
    reveal_strlit("Normals");
    reveal_strlit("Tangents");
    reveal_strlit("Edges");
    reveal_strlit("Triangles");
    reveal_strlit("Quadrilaterals");
    reveal_strlit("Tetrahedra");
    reveal_strlit("Hexahedra");
    reveal_strlit("#");
    reveal_strlit("MEDIT");
    reveal_strlit("mesh");
    reveal_strlit("file");
    reveal_with_fuel(alnum_chars, 21);
    lemma_alnum_plain("MeshVersionFormatted"@);
    lemma_alnum_plain("1"@);
    lemma_alnum_plain("Dimension"@);
    lemma_alnum_plain("End"@);
    lemma_alnum_plain("Vertices"@);
    lemma_alnum_plain("Normals"@);
    lemma_alnum_plain("Tangents"@);
    lemma_alnum_plain("Edges"@);
    lemma_alnum_plain("Triangles"@);
    lemma_alnum_plain("Quadrilaterals"@);
    lemma_alnum_plain("Tetrahedra"@);
    lemma_alnum_plain("Hexahedra"@);
    lemma_alnum_plain("MEDIT"@);
    lemma_alnum_plain("mesh"@);
    lemma_alnum_plain("file"@);
    let c = seq!["#"@, "MEDIT"@, "mesh"@, "file"@];
    assert forall|i: int, j: int| 0 <= i < c.len() && 0 <= j < c[i].len() implies #[trigger] c[i][j] != '\n' && c[i][j] != '\r' by {
        if i == 0 {
            assert(c[0] == seq!['#']);
        } else {
            assert(plain_word(c[i]));
            assert(!is_white_space(c[i][j]));
        }
    }
}

proof fn lemma_join_first(ws: Seq<Seq<char>>)
    requires
        ws.len() > 0,
        ws[0].len() > 0,
    ensures
        join_words(ws).len() > 0,
        join_words(ws)[0] == ws[0][0],
    decreases ws.len(),
{
    if ws.len() > 1 {
        lemma_join_first(ws.drop_last());
        assert(ws.drop_last()[0] == ws[0]);
    }
}

proof fn lemma_flatten_append(a: Seq<Seq<Seq<char>>>, b: Seq<Seq<Seq<char>>>)
    ensures
        flatten(a + b) == flatten(a) + flatten(b),
    decreases a.len(),
{
    if a.len() == 0 {
        assert(a + b =~= b);
    } else {
        lemma_flatten_append(a.drop_first(), b);
        assert((a + b).drop_first() =~= a.drop_first() + b);
        assert((a + b)[0] == a[0]);
        assert(a[0] + (flatten(a.drop_first()) + flatten(b)) =~= (a[0] + flatten(a.drop_first())) + flatten(b));
    }
}

proof fn lemma_joined_append(a: Seq<Seq<Seq<char>>>, b: Seq<Seq<Seq<char>>>)
    ensures
        joined(a + b) == joined(a) + joined(b),
{
    assert(joined(a + b) =~= joined(a) + joined(b));
}

/// A node group's lines are plain and read back as its items.
proof fn lemma_node_group_text(g: (GroupView, Seq<NodeView>), dim: nat)
    requires
        node_group_read(g, dim),
    ensures
        forall|i: int| 0 <= i < node_group_lines(g).len() ==> plain_line(#[trigger] node_group_lines(g)[i]),
        flatten(node_group_lines(g)) == node_group_items(g),
{
    lemma_keywords_plain();
    lemma_decimal_plain(g.1.len());
    let vr = g.0.name.name == "Vertices"@;
    let rows = g.1.map_values(|n: NodeView| node_row(n, vr));
    let head: Seq<Seq<Seq<char>>> = seq![seq![g.0.name.name], seq![decimal_of(g.1.len())]];
    let tail: Seq<Seq<Seq<char>>> = seq![seq![]];
    assert(node_group_lines(g) == head + rows + tail);
    assert forall|i: int| 0 <= i < rows.len() implies plain_line(#[trigger] rows[i]) by {
        let n = g.1[i];
        assert(is_node_row(n, dim, vr));
        assert forall|j: int| 0 <= j < rows[i].len() implies plain_word(#[trigger] rows[i][j]) by {
            if j < n.position.len() {
                assert(rows[i][j] == n.position[j]);
                lemma_real_plain(n.position[j]);
            } else {
                lemma_lookup_single(n.attr);
                lemma_real_plain(n.attr[0].1);
            }
        }
    }
    let all = node_group_lines(g);
    assert forall|i: int| 0 <= i < all.len() implies plain_line(#[trigger] all[i]) by {
        if i >= 2 && i < 2 + rows.len() {
            assert(all[i] == rows[i - 2]);
        }
    }
    lemma_flatten_append(head + rows, tail);
    lemma_flatten_append(head, rows);
    assert(flatten(tail) =~= Seq::<Seq<char>>::empty()) by {
        lemma_flatten_cons(Seq::<Seq<char>>::empty(), Seq::<Seq<Seq<char>>>::empty());
        assert(tail =~= seq![Seq::<Seq<char>>::empty()] + Seq::<Seq<Seq<char>>>::empty());
        assert(flatten(Seq::<Seq<Seq<char>>>::empty()) == Seq::<Seq<char>>::empty());
    }
    assert(flatten(head) =~= seq![g.0.name.name, decimal_of(g.1.len())]) by {
        lemma_flatten_cons(seq![g.0.name.name], seq![seq![decimal_of(g.1.len())]]);
        assert(head =~= seq![seq![g.0.name.name]] + seq![seq![decimal_of(g.1.len())]]);
        lemma_flatten_cons(seq![decimal_of(g.1.len())], Seq::<Seq<Seq<char>>>::empty());
        assert(seq![seq![decimal_of(g.1.len())]] =~= seq![seq![decimal_of(g.1.len())]] + Seq::<Seq<Seq<char>>>::empty());
    }
    assert(flatten(head) + flatten(rows) + flatten(tail) =~= node_group_items(g));
}

proof fn lemma_element_group_text(g: (GroupView, Seq<ElementView>))
    requires
        element_group_read(g),
    ensures
        forall|i: int| 0 <= i < element_group_lines(g).len() ==> plain_line(#[trigger] element_group_lines(g)[i]),
        flatten(element_group_lines(g)) == element_group_items(g),
{
    lemma_keywords_plain();
    lemma_decimal_plain(g.1.len());
    let rows = g.1.map_values(|e: ElementView| element_row(e));
    let head: Seq<Seq<Seq<char>>> = seq![seq![g.0.name.name], seq![decimal_of(g.1.len())]];
    let tail: Seq<Seq<Seq<char>>> = seq![seq![]];
    assert(element_group_lines(g) == head + rows + tail);
    assert forall|i: int| 0 <= i < rows.len() implies plain_line(#[trigger] rows[i]) by {
        let e = g.1[i];
        assert(is_element_row(e, arity_of(g.0.name.name)->0 as nat));
        assert forall|j: int| 0 <= j < rows[i].len() implies plain_word(#[trigger] rows[i][j]) by {
            if j < e.indices.len() {
                assert(rows[i][j] == decimal_of(e.indices[j] as nat));
                lemma_decimal_plain(e.indices[j] as nat);
            } else {
                lemma_lookup_single(e.attr);
                lemma_real_plain(e.attr[0].1);
            }
        }
    }
    let all = element_group_lines(g);
    assert forall|i: int| 0 <= i < all.len() implies plain_line(#[trigger] all[i]) by {
        if i >= 2 && i < 2 + rows.len() {
            assert(all[i] == rows[i - 2]);
        }
    }
    lemma_flatten_append(head + rows, tail);
    lemma_flatten_append(head, rows);
    assert(flatten(tail) =~= Seq::<Seq<char>>::empty()) by {
        lemma_flatten_cons(Seq::<Seq<char>>::empty(), Seq::<Seq<Seq<char>>>::empty());
        assert(tail =~= seq![Seq::<Seq<char>>::empty()] + Seq::<Seq<Seq<char>>>::empty());
        assert(flatten(Seq::<Seq<Seq<char>>>::empty()) == Seq::<Seq<char>>::empty());
    }
    assert(flatten(head) =~= seq![g.0.name.name, decimal_of(g.1.len())]) by {
        lemma_flatten_cons(seq![g.0.name.name], seq![seq![decimal_of(g.1.len())]]);
        assert(head =~= seq![seq![g.0.name.name]] + seq![seq![decimal_of(g.1.len())]]);
        lemma_flatten_cons(seq![decimal_of(g.1.len())], Seq::<Seq<Seq<char>>>::empty());
        assert(seq![seq![decimal_of(g.1.len())]] =~= seq![seq![decimal_of(g.1.len())]] + Seq::<Seq<Seq<char>>>::empty());
    }
    assert(flatten(head) + flatten(rows) + flatten(tail) =~= element_group_items(g));
}

proof fn lemma_node_items_push(gs: Seq<(GroupView, Seq<NodeView>)>, g: (GroupView, Seq<NodeView>))
    ensures
        node_items(gs.push(g)) == node_items(gs) + node_group_items(g),
    decreases gs.len(),
{
    if gs.len() == 0 {
        assert(gs.push(g).drop_first() =~= gs);
        assert(node_group_items(g) + Seq::<Seq<char>>::empty() =~= node_group_items(g));
        assert(Seq::<Seq<char>>::empty() + node_group_items(g) =~= node_group_items(g));
    } else {
        lemma_node_items_push(gs.drop_first(), g);
        assert(gs.push(g).drop_first() =~= gs.drop_first().push(g));
        assert(gs.push(g)[0] == gs[0]);
        assert(node_group_items(gs[0]) + (node_items(gs.drop_first()) + node_group_items(g))
            =~= (node_group_items(gs[0]) + node_items(gs.drop_first())) + node_group_items(g));
    }
}

proof fn lemma_element_items_push(gs: Seq<(GroupView, Seq<ElementView>)>, g: (GroupView, Seq<ElementView>))
    ensures
        element_items(gs.push(g)) == element_items(gs) + element_group_items(g),
    decreases gs.len(),
{
    if gs.len() == 0 {
        assert(gs.push(g).drop_first() =~= gs);
        assert(element_group_items(g) + Seq::<Seq<char>>::empty() =~= element_group_items(g));
        assert(Seq::<Seq<char>>::empty() + element_group_items(g) =~= element_group_items(g));
    } else {
        lemma_element_items_push(gs.drop_first(), g);
        assert(gs.push(g).drop_first() =~= gs.drop_first().push(g));
        assert(gs.push(g)[0] == gs[0]);
        assert(element_group_items(gs[0]) + (element_items(gs.drop_first()) + element_group_items(g))
            =~= (element_group_items(gs[0]) + element_items(gs.drop_first())) + element_group_items(g));
    }
}

/// The node group lines are clean and read back as the node items.
proof fn lemma_node_lines_text(gs: Seq<(GroupView, Seq<NodeView>)>, dim: nat)
    requires
        forall|i: int| 0 <= i < gs.len() ==> node_group_read(#[trigger] gs[i], dim),
    ensures
        forall|i: int| 0 <= i < all_node_lines(gs).len() ==> clean_line(#[trigger] all_node_lines(gs)[i]),
        items_of_lines(joined(all_node_lines(gs))) == node_items(gs),
    decreases gs.len(),
{
    if gs.len() > 0 {
        let gs0 = gs.drop_last();
        let g = gs.last();
        assert forall|i: int| 0 <= i < gs0.len() implies node_group_read(#[trigger] gs0[i], dim) by {
            assert(gs0[i] == gs[i]);
        }
        lemma_node_lines_text(gs0, dim);
        lemma_node_group_text(g, dim);
        let a = all_node_lines(gs0);
        let b = node_group_lines(g);
        assert(all_node_lines(gs) == a + b);
        assert forall|i: int| 0 <= i < (a + b).len() implies clean_line(#[trigger] (a + b)[i]) by {
            if i >= a.len() {
                assert((a + b)[i] == b[i - a.len()]);
                lemma_plain_is_clean(b[i - a.len()]);
            } else {
                assert((a + b)[i] == a[i]);
            }
        }
        lemma_joined_append(a, b);
        lemma_items_append(joined(a), joined(b));
        lemma_plain_lines_items(b);
        lemma_node_items_push(gs0, g);
        assert(gs0.push(g) =~= gs);
    }
}

proof fn lemma_element_lines_text(gs: Seq<(GroupView, Seq<ElementView>)>)
    requires
        forall|i: int| 0 <= i < gs.len() ==> element_group_read(#[trigger] gs[i]),
    ensures
        forall|i: int| 0 <= i < all_element_lines(gs).len() ==> clean_line(#[trigger] all_element_lines(gs)[i]),
        items_of_lines(joined(all_element_lines(gs))) == element_items(gs),
    decreases gs.len(),
{
    if gs.len() > 0 {
        let gs0 = gs.drop_last();
        let g = gs.last();
        assert forall|i: int| 0 <= i < gs0.len() implies element_group_read(#[trigger] gs0[i]) by {
            assert(gs0[i] == gs[i]);
        }
        lemma_element_lines_text(gs0);
        lemma_element_group_text(g);
        let a = all_element_lines(gs0);
        let b = element_group_lines(g);
        assert(all_element_lines(gs) == a + b);
        assert forall|i: int| 0 <= i < (a + b).len() implies clean_line(#[trigger] (a + b)[i]) by {
            if i >= a.len() {
                assert((a + b)[i] == b[i - a.len()]);
                lemma_plain_is_clean(b[i - a.len()]);
            } else {
                assert((a + b)[i] == a[i]);
            }
        }
        lemma_joined_append(a, b);
        lemma_items_append(joined(a), joined(b));
        lemma_plain_lines_items(b);
        lemma_element_items_push(gs0, g);
        assert(gs0.push(g) =~= gs);
    }
}

/// The text written for a mesh of the shape MEDIT reads splits into exactly
/// the items written for it.
pub proof fn lemma_render_items(m: MeshView)
    requires
        medit_shaped(m),
    ensures
        items_of(render_medit(m)) == medit_items(m),
{
    lemma_keywords_plain();
    lemma_decimal_plain(m.dimension as nat);
    lemma_node_lines_text(m.nodes, m.dimension as nat);
    lemma_element_lines_text(m.elements);
    let h = header_lines(m.dimension);
    let nl = all_node_lines(m.nodes);
    let el = all_element_lines(m.elements);
    let e: Seq<Seq<Seq<char>>> = seq![seq!["End"@]];
    let ls = medit_lines(m);
    assert(ls == h + nl + el + e);
    let l0 = h[0];
    let l2 = h[2];
    assert(plain_line(l0));
    assert(plain_line(l2));
    assert(plain_line(h[3]));
    assert(plain_line(e[0]));
    assert forall|i: int| 0 <= i < ls.len() implies clean_line(#[trigger] ls[i]) by {
        if i < 4 {
            if i != 1 {
                lemma_plain_is_clean(h[i]);
            }
            assert(ls[i] == h[i]);
        } else if i < 4 + nl.len() {
            assert(ls[i] == nl[i - 4]);
        } else if i < 4 + nl.len() + el.len() {
            assert(ls[i] == el[i - 4 - nl.len()]);
        } else {
            assert(ls[i] == e[0]);
            lemma_plain_is_clean(e[0]);
        }
    }
    lemma_text_lines_of(ls);
    lemma_joined_append(h + nl + el, e);
    lemma_joined_append(h + nl, el);
    lemma_joined_append(h, nl);
    lemma_items_append(joined(h + nl + el), joined(e));
    lemma_items_append(joined(h + nl), joined(el));
    lemma_items_append(joined(h), joined(nl));
    lemma_plain_lines_items(e);
    assert(flatten(e) =~= seq!["End"@]) by {
        lemma_flatten_cons(seq!["End"@], Seq::<Seq<Seq<char>>>::empty());
        assert(e =~= seq![seq!["End"@]] + Seq::<Seq<Seq<char>>>::empty());
        assert(flatten(Seq::<Seq<Seq<char>>>::empty()) == Seq::<Seq<char>>::empty());
        assert(seq!["End"@] + Seq::<Seq<char>>::empty() =~= seq!["End"@]);
    }
    // The header: two plain lines, a comment and a blank line.
    let jh = joined(h);
    lemma_line_items_join(l0);
    lemma_line_items_join(l2);
    lemma_line_items_join(h[3]);
    reveal_strlit("#");
    assert(h[1][0] == "#"@);
    assert("#"@[0] == '#');
    lemma_join_first(h[1]);
    assert(line_items(jh[1]) == Seq::<Seq<char>>::empty());
    assert(items_of_lines(jh) =~= seq!["MeshVersionFormatted"@, "1"@, "Dimension"@, decimal_of(m.dimension as nat)]) by {
        assert(jh.drop_first().drop_first().drop_first().drop_first() =~= Seq::<Seq<char>>::empty());
        assert(items_of_lines(jh) == line_items(jh[0]) + items_of_lines(jh.drop_first()));
        assert(items_of_lines(jh.drop_first()) == line_items(jh[1]) + items_of_lines(jh.drop_first().drop_first()));
        assert(items_of_lines(jh.drop_first().drop_first()) == line_items(jh[2]) + items_of_lines(jh.drop_first().drop_first().drop_first()));
        assert(items_of_lines(jh.drop_first().drop_first().drop_first()) == line_items(jh[3]) + items_of_lines(jh.drop_first().drop_first().drop_first().drop_first()));
    }
    assert(items_of(render_medit(m)) == items_of_lines(joined(ls)));
}

/// Reading MEDIT text into a mesh, writing the mesh and reading the text
/// again gives a mesh with the same dimension and the same node and element
/// groups: same names, same counts, same entities, in the same order.
pub proof fn lemma_round_trip(text: Seq<char>)
    requires
        medit_mesh(text) is Read,
    ensures
        writable(medit_mesh(text)->Read_0),
        medit_mesh(render_medit(medit_mesh(text)->Read_0)) is Read,
        same_content(
            medit_mesh(text)->Read_0,
            medit_mesh(render_medit(medit_mesh(text)->Read_0))->Read_0,
        ),
{
    let m = medit_mesh(text)->Read_0;
    lemma_read_mesh_writable(text);
    lemma_render_items(m);
    lemma_round_trip_items(text);
}

/// Splitting at line breaks after a text that ends in one starts afresh.
proof fn lemma_pieces_after_newline(x: Seq<char>, y: Seq<char>)
    requires
        x.len() > 0,
        x.last() == '\n',
    ensures
        newline_pieces(x + y) == newline_pieces(x).drop_last() + newline_pieces(y),
    decreases y.len(),
{
    lemma_pieces_len(x);
    let px = newline_pieces(x);
    assert(x.drop_last() + seq!['\n'] =~= x);
    assert(px == newline_pieces(x.drop_last()).push(Seq::<char>::empty())) by {
        assert(x.drop_last() =~= x.drop_last());
    }
    if y.len() == 0 {
        assert(x + y =~= x);
        assert(newline_pieces(y) == seq![Seq::<char>::empty()]);
        assert(px.drop_last() + seq![Seq::<char>::empty()] =~= px);
    } else {
        let y0 = y.drop_last();
        lemma_pieces_after_newline(x, y0);
        lemma_pieces_len(y0);
        assert((x + y).drop_last() =~= x + y0);
        assert((x + y).last() == y.last());
        let a = px.drop_last();
        let b = newline_pieces(y0);
        if y.last() == '\n' {
            assert((a + b).push(Seq::<char>::empty()) =~= a + b.push(Seq::<char>::empty()));
        } else {
            assert((a + b).last() == b.last());
            assert((a + b).update((a + b).len() - 1, (a + b).last().push(y.last())) =~= a + b.update(
                b.len() - 1,
                b.last().push(y.last()),
            ));
        }
    }
}

/// The lines of a text that ends in a line break, followed by another text,
/// are the lines of the one followed by the lines of the other.
proof fn lemma_text_lines_concat(x: Seq<char>, y: Seq<char>)
    requires
        x.len() > 0,
        x.last() == '\n',
    ensures
        text_lines(x + y) == text_lines(x) + text_lines(y),
{
    lemma_pieces_after_newline(x, y);
    lemma_pieces_len(x);
    lemma_pieces_len(y);
    let px = newline_pieces(x);
    let py = newline_pieces(y);
    assert(px == newline_pieces(x.drop_last()).push(Seq::<char>::empty())) by {
        assert(x.drop_last() + seq!['\n'] =~= x);
    }
    let p = px.drop_last() + py;
    assert(p.last() == py.last());
    assert(p.take(p.len() - 1) =~= px.take(px.len() - 1) + py.take(py.len() - 1));
    let f = |l: Seq<char>| strip_cr(l);
    assert((px.take(px.len() - 1) + py.take(py.len() - 1)).map_values(f) =~= px.take(px.len() - 1).map_values(f)
        + py.take(py.len() - 1).map_values(f));
    if py.last().len() != 0 {
        assert((px.take(px.len() - 1).map_values(f) + py.take(py.len() - 1).map_values(f)).push(py.last())
            =~= px.take(px.len() - 1).map_values(f) + py.take(py.len() - 1).map_values(f).push(py.last()));
    }
}

/// Once a line holding `End` ends a text, whatever bytes follow are never
/// read: the text reads the same with them as without them.
pub proof fn lemma_end_ignores_trailing_text(head: Seq<char>, garbage: Seq<char>)
    requires
        head.len() > 0,
        head.last() == '\n',
        items_of(head).len() > 0,
        items_of(head).last() == "End"@,
    ensures
        parse_medit(head + garbage) == parse_medit(head),
{
    lemma_text_lines_concat(head, garbage);
    lemma_items_append(text_lines(head), text_lines(garbage));
    let before = items_of(head).drop_last();
    assert(before.push("End"@) =~= items_of(head));
    lemma_end_ignores_rest(before, items_of(garbage));
}

/// Text whose first item opens a node group fails with a syntax error: no
/// `Dimension` came before it.
pub proof fn lemma_vertices_first(text: Seq<char>)
    requires
        items_of(text).len() > 0,
        is_node_keyword(items_of(text)[0]),
    ensures
        parse_medit(text) == Err::<Seq<BlockView>, MeditFailure>(MeditFailure::Syntax),
{
    lemma_nodes_need_dimension(items_of(text), 0, 0);
}

/// A mesh built by accepting, from empty, the calls that reading MEDIT text
/// hands over (what `MeditDeserializer::deserialize_into` does to a new
/// `Mesh`) is the mesh the text describes; written and read again, it has
/// the same dimension and the same groups and entities.
pub proof fn lemma_round_trip_through_calls(text: Seq<char>, m: MeshView)
    requires
        parse_medit(text) is Ok,
        apply_events(empty_mesh(), blocks_events(parse_medit(text)->Ok_0)) == Some(m),
    ensures
        medit_mesh(text) == MeshReading::Read(m),
        writable(m),
        medit_mesh(render_medit(m)) is Read,
        same_content(m, medit_mesh(render_medit(m))->Read_0),
{
    lemma_calls_build_mesh(text);
    lemma_round_trip(text);
}

} // verus!
