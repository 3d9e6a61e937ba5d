//! The ASCII PLY format, read into groups of other entities.
//!
//! A header of lines: `ply`, `format ascii 1.0`, `comment ...`,
//! `element <name> <count>` and `property <type> <name>` lines, then
//! `end_header`. The body holds, per element in order, `count` rows of one
//! item per property; each row becomes an entity whose attributes are the
//! items keyed by property name.
use vstd::prelude::*;

use crate::attribute::{assign, AttrKey, AttributeContainerMut, AttributeMap, AttributeName};
use crate::de::{accepts_all, DeEvent, DeserializeMesh};
use crate::medit::{lemma_apply_events_append, lemma_mesh_accepts_all};
use crate::mesh::{append_to_last, apply_events, begin_group, empty_mesh, is_open, Mesh, MeshView};
use crate::entity::{EntityBox, EntityBoxView, EntityKind};
use crate::error::Error;
use crate::group::{Group, GroupView};
use crate::item_reader::line_items;
use crate::medit::parses_as_usize;
use crate::naming::{Format, Name, NameView};
use crate::text::{
    chars_of, lines_of, nonempty, not_blank, parse_usize, same_text, split_white_space_runs,
    text_lines, unsigned_value, views_of,
};

verus! {

/// The value types a PLY property may declare. Values are kept as text; the
/// type is checked to be one of these.
#[derive(Clone, Copy, Debug, PartialEq, Eq, Structural)]
pub enum DataType {
    Char,
    Uchar,
    Short,
    Ushort,
    Int,
    Uint,
    Float,
    Double,
}

pub open spec fn data_type_of(t: Seq<char>) -> Option<DataType> {
    if t == "char"@ {
        Some(DataType::Char)
    } else if t == "uchar"@ {
        Some(DataType::Uchar)
    } else if t == "short"@ {
        Some(DataType::Short)
    } else if t == "ushort"@ {
        Some(DataType::Ushort)
    } else if t == "int"@ {
        Some(DataType::Int)
    } else if t == "uint"@ {
        Some(DataType::Uint)
    } else if t == "float"@ {
        Some(DataType::Float)
    } else if t == "double"@ {
        Some(DataType::Double)
    } else {
        None
    }
}

impl DataType {
    pub fn parse(t: &Vec<char>) -> (r: Option<DataType>)
        ensures
            r == data_type_of(t@),
    {
        if same_text(t, "char") {
            Some(DataType::Char)
        } else if same_text(t, "uchar") {
            Some(DataType::Uchar)
        } else if same_text(t, "short") {
            Some(DataType::Short)
        } else if same_text(t, "ushort") {
            Some(DataType::Ushort)
        } else if same_text(t, "int") {
            Some(DataType::Int)
        } else if same_text(t, "uint") {
            Some(DataType::Uint)
        } else if same_text(t, "float") {
            Some(DataType::Float)
        } else if same_text(t, "double") {
            Some(DataType::Double)
        } else {
            None
        }
    }
}

/// The items of each line that has any, line by line.
pub open spec fn item_lines(ls: Seq<Seq<char>>) -> Seq<Seq<Seq<char>>>
    decreases ls.len(),
{
    if ls.len() == 0 {
        seq![]
    } else if line_items(ls[0]).len() > 0 {
        seq![line_items(ls[0])] + item_lines(ls.drop_first())
    } else {
        item_lines(ls.drop_first())
    }
}

pub open spec fn flatten(ls: Seq<Seq<Seq<char>>>) -> Seq<Seq<char>>
    decreases ls.len(),
{
    if ls.len() == 0 {
        seq![]
    } else {
        ls[0] + flatten(ls.drop_first())
    }
}

/// A declared element: its name, row count and property names.
pub struct ElementDecl {
    pub name: Seq<char>,
    pub count: usize,
    pub props: Seq<Seq<char>>,
}

pub enum PlyFailure {
    Syntax,
    Unsupported,
}

/// The declarations of the header lines from `i` on, and the line after
/// `end_header`.
pub open spec fn ply_header(ls: Seq<Seq<Seq<char>>>, i: int, decls: Seq<ElementDecl>) -> Result<
    (Seq<ElementDecl>, int),
    PlyFailure,
>
    decreases ls.len() - i,
{
    if i < 0 || i >= ls.len() || ls[i].len() == 0 {
        Err(PlyFailure::Syntax)
    } else {
        let l = ls[i];
        let k = l[0];
        if k == "format"@ {
            if l.len() != 3 {
                Err(PlyFailure::Syntax)
            } else if l[1] == "ascii"@ && l[2] == "1.0"@ {
                ply_header(ls, i + 1, decls)
            } else {
                Err(PlyFailure::Unsupported)
            }
        } else if k == "comment"@ {
            ply_header(ls, i + 1, decls)
        } else if k == "element"@ {
            if l.len() == 3 && parses_as_usize(l[2]) {
                ply_header(
                    ls,
                    i + 1,
                    decls.push(
                        ElementDecl { name: l[1], count: unsigned_value(l[2]) as usize, props: seq![] },
                    ),
                )
            } else {
                Err(PlyFailure::Syntax)
            }
        } else if k == "property"@ {
            if l.len() == 3 && data_type_of(l[1]) is Some && decls.len() > 0 {
                let d = decls.last();
                ply_header(
                    ls,
                    i + 1,
                    decls.update(decls.len() - 1, ElementDecl { props: d.props.push(l[2]), ..d }),
                )
            } else {
                Err(PlyFailure::Syntax)
            }
        } else if k == "end_header"@ {
            Ok((decls, i + 1))
        } else {
            Err(PlyFailure::Syntax)
        }
    }
}

/// The attributes of a row: each value keyed by its property name, a later
/// property of the same name replacing an earlier one.
pub open spec fn row_attributes(props: Seq<Seq<char>>, vals: Seq<Seq<char>>) -> Seq<
    (AttrKey, Seq<char>),
>
    decreases props.len(),
{
    if props.len() == 0 || vals.len() < props.len() {
        seq![]
    } else {
        assign(
            row_attributes(props.drop_last(), vals),
            AttrKey::Key(props.last()),
            vals[props.len() - 1],
        )
    }
}

/// `count` rows of `props.len()` items from item `q` on, and the item after.
pub open spec fn read_rows(items: Seq<Seq<char>>, q: int, count: nat, props: Seq<Seq<char>>) -> Option<
    (Seq<EntityBoxView>, int),
>
    decreases count,
{
    if count == 0 {
        Some((seq![], q))
    } else if 0 <= q && q + props.len() <= items.len() {
        match read_rows(items, q + props.len(), (count - 1) as nat, props) {
            Some((es, e)) => Some(
                (
                    seq![
                        EntityBoxView {
                            kind: EntityKind::Other,
                            attr: row_attributes(props, items.subrange(q, q + props.len())),
                        },
                    ] + es,
                    e,
                ),
            ),
            None => None,
        }
    } else {
        None
    }
}

pub proof fn lemma_read_rows_end(items: Seq<Seq<char>>, q: int, count: nat, props: Seq<Seq<char>>)
    requires
        0 <= q,
    ensures
        read_rows(items, q, count, props) matches Some((es, e)) ==> q <= e && es.len() == count,
    decreases count,
{
    if count > 0 && q + props.len() <= items.len() {
        lemma_read_rows_end(items, q + props.len(), (count - 1) as nat, props);
    }
}

/// The entities of the declarations `decls` from item `q` on.
pub open spec fn read_body(items: Seq<Seq<char>>, q: int, decls: Seq<ElementDecl>) -> Option<
    Seq<Seq<EntityBoxView>>,
>
    decreases decls.len(),
{
    if decls.len() == 0 {
        Some(seq![])
    } else {
        match read_rows(items, q, decls[0].count as nat, decls[0].props) {
            Some((es, e)) => match read_body(items, e, decls.drop_first()) {
                Some(rest) => Some(seq![es] + rest),
                None => None,
            },
            None => None,
        }
    }
}

/// What a PLY text holds: per declared element, its declaration and the
/// entities of its rows. Items after the last row are not read.
pub open spec fn parse_ply(text: Seq<char>) -> Result<Seq<(ElementDecl, Seq<EntityBoxView>)>, PlyFailure> {
    let ls = item_lines(text_lines(text));
    if ls.len() == 0 || ls[0] != seq!["ply"@] {
        Err(PlyFailure::Syntax)
    } else {
        match ply_header(ls, 1, seq![]) {
            Err(f) => Err(f),
            Ok((decls, h)) => match read_body(flatten(ls.skip(h)), 0, decls) {
                Some(bodies) => Ok(
                    Seq::new(decls.len(), |i: int| (decls[i], bodies[i])),
                ),
                None => Err(PlyFailure::Syntax),
            },
        }
    }
}

pub open spec fn ply_failure_of(e: Error) -> Option<PlyFailure> {
    match e {
        Error::Syntax(_) => Some(PlyFailure::Syntax),
        Error::Unsupported(_) => Some(PlyFailure::Unsupported),
        _ => None,
    }
}

/// The description of the `i`-th element group of a PLY text.
pub open spec fn ply_group(i: int, d: ElementDecl) -> GroupView {
    GroupView {
        parsing_uid: i as u64,
        name: NameView { name: d.name, format: Format::Ply, kind: EntityKind::Other },
        attr: Seq::empty(),
        size: Some(d.count),
        kind: EntityKind::Other,
    }
}

/// Whether `r` is what `m` says of a PLY text.
pub open spec fn ply_reads_as(
    r: Result<Vec<(Group, Vec<EntityBox>)>, Error>,
    m: Result<Seq<(ElementDecl, Seq<EntityBoxView>)>, PlyFailure>,
) -> bool {
    match m {
        Err(f) => r is Err && ply_failure_of(r->Err_0) == Some(f),
        Ok(gs) => r is Ok && r->Ok_0@.len() == gs.len() && forall|i: int|
            0 <= i < gs.len() ==> (#[trigger] r->Ok_0@[i]).0@ == ply_group(i, gs[i].0)
                && r->Ok_0@[i].1@.map_values(|e: EntityBox| e@) == gs[i].1,
    }
}

/// The protocol calls that hand over element group `k`: its begin, one call
/// per entity in order, and its end.
pub open spec fn ply_group_events(gs: Seq<(ElementDecl, Seq<EntityBoxView>)>, k: int) -> Seq<DeEvent> {
    let g = ply_group(k, gs[k].0);
    seq![DeEvent::GroupBegin(g)] + gs[k].1.map_values(|x: EntityBoxView| DeEvent::Entity(x, g))
        + seq![DeEvent::GroupEnd(g)]
}

/// The calls that hand over element groups `k` up to `n`.
pub open spec fn ply_events_between(gs: Seq<(ElementDecl, Seq<EntityBoxView>)>, k: int, n: int) -> Seq<DeEvent>
    decreases n - k,
{
    if k >= n {
        seq![]
    } else {
        ply_group_events(gs, k) + ply_events_between(gs, k + 1, n)
    }
}

proof fn lemma_ply_events_split(gs: Seq<(ElementDecl, Seq<EntityBoxView>)>, k: nat, n: nat)
    requires
        k <= n,
    ensures
        ply_events(gs, n) == ply_events(gs, k) + ply_events_between(gs, k as int, n as int),
    decreases n - k,
{
    if k == n {
        assert(ply_events(gs, n) + Seq::<DeEvent>::empty() =~= ply_events(gs, n));
    } else {
        lemma_ply_events_split(gs, k + 1, n);
        assert(ply_events(gs, k + 1) == ply_events(gs, k) + ply_group_events(gs, k as int));
        assert(ply_events(gs, k) + ply_group_events(gs, k as int) + ply_events_between(gs, k as int + 1, n as int)
            =~= ply_events(gs, k) + (ply_group_events(gs, k as int) + ply_events_between(gs, k as int + 1, n as int)));
    }
}

/// The protocol calls that hand over the first `n` element groups of a PLY
/// text: per group its begin, one call per entity in order, and its end.
pub open spec fn ply_events(gs: Seq<(ElementDecl, Seq<EntityBoxView>)>, n: nat) -> Seq<DeEvent>
    decreases n,
{
    if n == 0 {
        seq![]
    } else {
        let g = ply_group(n - 1, gs[n - 1].0);
        ply_events(gs, (n - 1) as nat) + seq![DeEvent::GroupBegin(g)] + gs[n - 1].1.map_values(
            |x: EntityBoxView| DeEvent::Entity(x, g),
        ) + seq![DeEvent::GroupEnd(g)]
    }
}

pub proof fn lemma_nonempty_push(ps: Seq<Seq<char>>, x: Seq<char>)
    ensures
        nonempty(ps.push(x)) == nonempty(ps) + (if x.len() > 0 {
            seq![x]
        } else {
            seq![]
        }),
    decreases ps.len(),
{
    let tail: Seq<Seq<char>> = if x.len() > 0 {
        seq![x]
    } else {
        seq![]
    };
    if ps.len() == 0 {
        assert(ps.push(x).drop_first() =~= Seq::<Seq<char>>::empty());
        assert(ps.push(x)[0] == x);
        assert(nonempty(Seq::<Seq<char>>::empty()) == Seq::<Seq<char>>::empty());
        assert(nonempty(ps.push(x).drop_first()) == Seq::<Seq<char>>::empty());
        assert(nonempty(ps.push(x)) =~= tail);
        assert(nonempty(ps) + tail =~= tail);
    } else {
        lemma_nonempty_push(ps.drop_first(), x);
        assert(ps.push(x).drop_first() =~= ps.drop_first().push(x));
        assert(ps.push(x)[0] == ps[0]);
        if ps[0].len() > 0 {
            assert(seq![ps[0]] + (nonempty(ps.drop_first()) + tail) =~= (seq![ps[0]] + nonempty(
                ps.drop_first(),
            )) + tail);
        }
    }
}

/// The items of `line`.
fn items_in_line(line: &String) -> (r: Vec<String>)
    ensures
        views_of(r@) == line_items(line@),
{
    let chars = chars_of(line.as_str());
    if chars.len() > 0 && chars[0] == '#' {
        return Vec::new();
    }
    if !not_blank(&chars) {
        return Vec::new();
    }
    let pieces = split_white_space_runs(line.as_str());
    let mut out: Vec<String> = Vec::new();
    let mut i: usize = 0;
    assert(views_of(pieces@).take(0) =~= Seq::<Seq<char>>::empty());
    while i < pieces.len()
        invariant
            0 <= i <= pieces@.len(),
            views_of(out@) == nonempty(views_of(pieces@).take(i as int)),
        decreases pieces@.len() - i,
    {
        let ghost before = views_of(out@);
        proof {
            lemma_nonempty_push(views_of(pieces@).take(i as int), pieces@[i as int]@);
            assert(views_of(pieces@).take(i + 1) =~= views_of(pieces@).take(i as int).push(
                pieces@[i as int]@,
            ));
        }
        if !pieces[i].as_str().is_empty() {
            let ghost pv = pieces@[i as int]@;
            out.push(pieces[i].clone());
            assert(views_of(out@) =~= before + seq![pv]);
        } else {
            assert(before + Seq::<Seq<char>>::empty() =~= before);
        }
        i = i + 1;
    }
    assert(views_of(pieces@).take(i as int) =~= views_of(pieces@));
    out
}

proof fn lemma_item_lines_push(ls: Seq<Seq<char>>, l: Seq<char>)
    ensures
        item_lines(ls.push(l)) == item_lines(ls) + (if line_items(l).len() > 0 {
            seq![line_items(l)]
        } else {
            seq![]
        }),
    decreases ls.len(),
{
    let tail: Seq<Seq<Seq<char>>> = if line_items(l).len() > 0 {
        seq![line_items(l)]
    } else {
        seq![]
    };
    if ls.len() == 0 {
        assert(ls.push(l).drop_first() =~= Seq::<Seq<char>>::empty());
        assert(ls.push(l)[0] == l);
        assert(item_lines(Seq::<Seq<char>>::empty()) == Seq::<Seq<Seq<char>>>::empty());
        assert(item_lines(ls.push(l).drop_first()) == Seq::<Seq<Seq<char>>>::empty());
        assert(item_lines(ls.push(l)) =~= tail);
        assert(item_lines(ls) + tail =~= tail);
    } else {
        lemma_item_lines_push(ls.drop_first(), l);
        assert(ls.push(l).drop_first() =~= ls.drop_first().push(l));
        assert(ls.push(l)[0] == ls[0]);
        if line_items(ls[0]).len() > 0 {
            assert(seq![line_items(ls[0])] + (item_lines(ls.drop_first()) + tail) =~= (seq![
                line_items(ls[0]),
            ] + item_lines(ls.drop_first())) + tail);
        }
    }
}

proof fn lemma_flatten_push(ls: Seq<Seq<Seq<char>>>, x: Seq<Seq<char>>)
    ensures
        flatten(ls.push(x)) == flatten(ls) + x,
    decreases ls.len(),
{
    if ls.len() == 0 {
        assert(ls.push(x).drop_first() =~= Seq::<Seq<Seq<char>>>::empty());
        assert(ls.push(x)[0] == x);
        assert(flatten(ls.push(x)) == x + flatten(Seq::<Seq<Seq<char>>>::empty()));
        assert(x + Seq::<Seq<char>>::empty() =~= x);
        assert(flatten(ls) + x =~= x);
    } else {
        lemma_flatten_push(ls.drop_first(), x);
        assert(ls.push(x).drop_first() =~= ls.drop_first().push(x));
        assert(ls.push(x)[0] == ls[0]);
        assert(ls[0] + (flatten(ls.drop_first()) + x) =~= (ls[0] + flatten(ls.drop_first())) + x);
    }
}

pub open spec fn nested_views(v: Seq<Vec<String>>) -> Seq<Seq<Seq<char>>> {
    v.map_values(|l: Vec<String>| views_of(l@))
}

/// The items of each line of `source` that has any.
fn item_lines_of(source: &str) -> (r: Vec<Vec<String>>)
    ensures
        nested_views(r@) == item_lines(text_lines(source@)),
{
    let lines = lines_of(source);
    let mut out: Vec<Vec<String>> = Vec::new();
    let mut i: usize = 0;
    assert(views_of(lines@).take(0) =~= Seq::<Seq<char>>::empty());
    assert(nested_views(out@) =~= item_lines(views_of(lines@).take(0)));
    while i < lines.len()
        invariant
            0 <= i <= lines@.len(),
            views_of(lines@) == text_lines(source@),
            nested_views(out@) == item_lines(views_of(lines@).take(i as int)),
        decreases lines@.len() - i,
    {
        let items = items_in_line(&lines[i]);
        proof {
            lemma_item_lines_push(views_of(lines@).take(i as int), lines@[i as int]@);
            assert(views_of(lines@).take(i + 1) =~= views_of(lines@).take(i as int).push(
                lines@[i as int]@,
            ));
        }
        let ghost before = nested_views(out@);
        if items.len() > 0 {
            let ghost iv = views_of(items@);
            out.push(items);
            assert(nested_views(out@) =~= before + seq![iv]);
        } else {
            assert(before + Seq::<Seq<Seq<char>>>::empty() =~= before);
        }
        i = i + 1;
    }
    assert(views_of(lines@).take(i as int) =~= views_of(lines@));
    out
}

fn ply_syntax(what: &str) -> (r: Error)
    ensures
        ply_failure_of(r) == Some(PlyFailure::Syntax),
{
    Error::Syntax(what.to_string())
}

/// Reads one row of `props` values from item `q`.
fn read_row(items: &Vec<String>, q: usize, props: &Vec<String>) -> (r: EntityBox)
    requires
        q + props@.len() <= items@.len(),
    ensures
        r@ == (EntityBoxView {
            kind: EntityKind::Other,
            attr: row_attributes(views_of(props@), views_of(items@).subrange(q as int, q + props@.len())),
        }),
{
    let ghost vals = views_of(items@).subrange(q as int, q + props@.len());
    let n_items = items.len();
    let mut attr = AttributeMap::new();
    let mut j: usize = 0;
    while j < props.len()
        invariant
            0 <= j <= props@.len(),
            n_items == items@.len(),
            q + props@.len() <= items@.len(),
            vals == views_of(items@).subrange(q as int, q + props@.len()),
            attr@ == row_attributes(views_of(props@).take(j as int), vals),
        decreases props@.len() - j,
    {
        assert(q + j < items@.len());
        proof {
            let pj = views_of(props@).take(j + 1);
            assert(pj.drop_last() =~= views_of(props@).take(j as int));
            assert(pj.last() == props@[j as int]@);
            assert(vals[j as int] == items@[q + j]@);
        }
        attr.set(AttributeName::Key(props[j].clone()), items[q + j].clone());
        j = j + 1;
    }
    assert(views_of(props@).take(j as int) =~= views_of(props@));
    EntityBox::new(EntityKind::Other, attr)
}

/// Reader of the ASCII PLY format.
pub struct PlyDeserializer {}

/// Writer of the PLY format; writing is not offered yet.
pub struct PlySerializer {}

impl PlyDeserializer {
    /// The element groups that `source` declares, each with the entities of
    /// its rows, or the first error in it.
    pub fn parse(source: &str) -> (r: Result<Vec<(Group, Vec<EntityBox>)>, Error>)
        ensures
            ply_reads_as(r, parse_ply(source@)),
    {
        let lines = item_lines_of(source);
        let ghost ls = nested_views(lines@);
        if lines.len() == 0 || lines[0].len() != 1 || !same_text(&chars_of(lines[0][0].as_str()), "ply") {
            proof {
                if ls.len() > 0 && ls[0] == seq!["ply"@] {
                    assert(ls[0] == views_of(lines@[0]@));
                    assert(views_of(lines@[0]@)[0] == lines@[0]@[0]@);
                }
            }
            return Err(ply_syntax("no ply line"));
        }
        assert(ls[0] =~= seq!["ply"@]) by {
            assert(ls[0] == views_of(lines@[0]@));
        }
        // The header, line by line.
        let mut names: Vec<String> = Vec::new();
        let mut counts: Vec<usize> = Vec::new();
        let mut props: Vec<Vec<String>> = Vec::new();
        let ghost mut decls: Seq<ElementDecl> = seq![];
        let mut i: usize = 1;
        let mut ended: usize = 0;
        let mut done = false;
        while !done
            invariant
                ls == nested_views(lines@),
                ls == item_lines(text_lines(source@)),
                ls.len() > 0 && ls[0] == seq!["ply"@],
                1 <= i <= lines@.len(),
                names@.len() == decls.len() && counts@.len() == decls.len() && props@.len() == decls.len(),
                forall|d: int| 0 <= d < decls.len() ==> (#[trigger] decls[d]).name == names@[d]@
                    && decls[d].count == counts@[d] && decls[d].props == views_of(props@[d]@),
                !done ==> ply_header(ls, 1, seq![]) == ply_header(ls, i as int, decls),
                done ==> ply_header(ls, 1, seq![]) == Ok::<(Seq<ElementDecl>, int), PlyFailure>((decls, ended as int)),
                done ==> ended <= lines@.len(),
            decreases lines@.len() - i + (if done { 0int } else { 1int }),
        {
            if i >= lines.len() {
                return Err(ply_syntax("header not terminated by end_header"));
            }
            let line = &lines[i];
            assert(ls[i as int] == views_of(line@));
            if line.len() == 0 {
                return Err(ply_syntax("empty line"));
            }
            let k = chars_of(line[0].as_str());
            if same_text(&k, "format") {
                if line.len() != 3 {
                    return Err(ply_syntax("bad format line"));
                }
                if !same_text(&chars_of(line[1].as_str()), "ascii") || !same_text(&chars_of(line[2].as_str()), "1.0") {
                    return Err(Error::Unsupported("only ascii 1.0 PLY is read".to_string()));
                }
            } else if same_text(&k, "comment") {
            } else if same_text(&k, "element") {
                if line.len() != 3 {
                    return Err(ply_syntax("bad element line"));
                }
                let count = match parse_usize(&chars_of(line[2].as_str())) {
                    Some(c) => c,
                    None => {
                        return Err(ply_syntax("bad element count"));
                    },
                };
                let ghost d = ElementDecl { name: line@[1]@, count, props: seq![] };
                names.push(line[1].clone());
                counts.push(count);
                props.push(Vec::new());
                proof {
                    decls = decls.push(d);
                    assert(views_of(Seq::<String>::empty()) =~= Seq::<Seq<char>>::empty());
                }
            } else if same_text(&k, "property") {
                if line.len() != 3 || names.len() == 0 {
                    return Err(ply_syntax("bad property line"));
                }
                if DataType::parse(&chars_of(line[1].as_str())).is_none() {
                    return Err(ply_syntax("unknown data type"));
                }
                let last = props.len() - 1;
                let mut ps = props.pop().unwrap();
                let ghost before = views_of(ps@);
                ps.push(line[2].clone());
                assert(views_of(ps@) =~= before.push(line@[2]@));
                props.push(ps);
                proof {
                    let d = decls.last();
                    decls = decls.update(decls.len() - 1, ElementDecl { props: d.props.push(line@[2]@), ..d });
                    assert forall|x: int| 0 <= x < decls.len() implies (#[trigger] decls[x]).name == names@[x]@
                        && decls[x].count == counts@[x] && decls[x].props == views_of(props@[x]@) by {
                    }
                }
            } else if same_text(&k, "end_header") {
                ended = i + 1;
                done = true;
            } else {
                return Err(ply_syntax("unknown header keyword"));
            }
            if !done {
                i = i + 1;
            }
        }
        let ghost h = ended as int;
        assert(ply_header(ls, 1, seq![]) == Ok::<(Seq<ElementDecl>, int), PlyFailure>((decls, h)));
        // The body, as one run of items.
        let mut items: Vec<String> = Vec::new();
        let mut li: usize = ended;
        assert(ls.skip(h).take(0) =~= Seq::<Seq<Seq<char>>>::empty());
        while li < lines.len()
            invariant
                ls == nested_views(lines@),
                0 <= h <= li <= lines@.len(),
                views_of(items@) == flatten(ls.skip(h).take(li - h)),
            decreases lines@.len() - li,
        {
            let mut j: usize = 0;
            let ghost start = views_of(items@);
            while j < lines[li].len()
                invariant
                    0 <= j <= lines@[li as int]@.len(),
                    li < lines@.len(),
                    views_of(items@) == start + views_of(lines@[li as int]@).take(j as int),
                decreases lines@[li as int]@.len() - j,
            {
                let ghost before = views_of(items@);
                let ghost tv = lines@[li as int]@[j as int]@;
                items.push(lines[li][j].clone());
                assert(views_of(items@) =~= before.push(tv));
                assert(views_of(lines@[li as int]@).take(j + 1) =~= views_of(lines@[li as int]@).take(j as int).push(tv));
                j = j + 1;
            }
            proof {
                assert(views_of(lines@[li as int]@).take(j as int) =~= views_of(lines@[li as int]@));
                lemma_flatten_push(ls.skip(h).take(li - h), ls[li as int]);
                assert(ls.skip(h)[li - h] == ls[li as int]);
                assert(ls.skip(h).take(li + 1 - h) =~= ls.skip(h).take(li - h).push(ls[li as int]));
            }
            li = li + 1;
        }
        assert(ls.skip(h).take(li - h) =~= ls.skip(h));
        let ghost its = views_of(items@);
        assert(its == flatten(ls.skip(h)));
        proof {
        assert(parse_ply(source@) == match read_body(its, 0, decls) {
            Some(bodies) => Ok(Seq::new(decls.len(), |x: int| (decls[x], bodies[x]))),
            None => Err::<Seq<(ElementDecl, Seq<EntityBoxView>)>, PlyFailure>(PlyFailure::Syntax),
        });
        assert(decls.skip(0) =~= decls);
        match read_body(its, 0int, decls) {
            Some(rest) => {
                assert(Seq::<Seq<EntityBoxView>>::empty() + rest =~= rest);
            },
            None => {},
        }
        }
        // The rows of each element.
        let mut result: Vec<(Group, Vec<EntityBox>)> = Vec::new();
        let mut q: usize = 0;
        let mut g: usize = 0;
        while g < names.len()
            invariant
                its == views_of(items@),
                parse_ply(source@) == match read_body(its, 0, decls) {
                    Some(bodies) => Ok(Seq::new(decls.len(), |x: int| (decls[x], bodies[x]))),
                    None => Err::<Seq<(ElementDecl, Seq<EntityBoxView>)>, PlyFailure>(PlyFailure::Syntax),
                },
                names@.len() == decls.len() && counts@.len() == decls.len() && props@.len() == decls.len(),
                forall|d: int| 0 <= d < decls.len() ==> (#[trigger] decls[d]).name == names@[d]@
                    && decls[d].count == counts@[d] && decls[d].props == views_of(props@[d]@),
                0 <= g <= decls.len(),
                result@.len() == g,
                read_body(its, 0, decls) == match read_body(its, q as int, decls.skip(g as int)) {
                    Some(rest) => Some(result@.map_values(|x: (Group, Vec<EntityBox>)| x.1@.map_values(|e: EntityBox| e@)) + rest),
                    None => None,
                },
                forall|x: int| 0 <= x < g ==> (#[trigger] result@[x]).0@ == ply_group(x, decls[x]),
            decreases decls.len() - g,
        {
            let ghost dg = decls[g as int];
            assert(decls.skip(g as int)[0] == dg);
            assert(decls.skip(g as int).drop_first() =~= decls.skip(g + 1));
            let count = counts[g];
            let mut rows: Vec<EntityBox> = Vec::new();
            let mut r: usize = 0;
            let ghost q0 = q as int;
            while r < count
                invariant
                    its == views_of(items@),
                    r <= count,
                    parse_ply(source@) == match read_body(its, 0, decls) {
                        Some(bodies) => Ok(Seq::new(decls.len(), |x: int| (decls[x], bodies[x]))),
                        None => Err::<Seq<(ElementDecl, Seq<EntityBoxView>)>, PlyFailure>(PlyFailure::Syntax),
                    },
                    read_body(its, 0, decls) == match read_body(its, q0, decls.skip(g as int)) {
                        Some(rest) => Some(result@.map_values(|x: (Group, Vec<EntityBox>)| x.1@.map_values(|e: EntityBox| e@)) + rest),
                        None => None,
                    },
                    g < decls.len(),
                    decls.skip(g as int)[0] == dg,
                    count == dg.count,
                    dg.props == views_of(props@[g as int]@),
                    g < props@.len(),
                    q0 <= q,
                    read_rows(its, q0, count as nat, dg.props) == match read_rows(its, q as int, (count - r) as nat, dg.props) {
                        Some((es, e)) => Some((rows@.map_values(|e: EntityBox| e@) + es, e)),
                        None => None,
                    },
                decreases count - r,
            {
                if q > items.len() || items.len() - q < props[g].len() {
                    proof {
                        assert(read_rows(its, q as int, (count - r) as nat, dg.props) is None);
                    }
                    return Err(ply_syntax("missing row items"));
                }
                let row = read_row(&items, q, &props[g]);
                let ghost rv = row@;
                let ghost before = rows@.map_values(|e: EntityBox| e@);
                proof {
                    let rest = read_rows(its, q + dg.props.len(), (count - r - 1) as nat, dg.props);
                    match rest {
                        Some((es, e)) => {
                            assert(before.push(rv) + es =~= before + (seq![rv] + es));
                        },
                        None => {},
                    }
                }
                rows.push(row);
                assert(rows@.map_values(|e: EntityBox| e@) =~= before.push(rv));
                q = q + props[g].len();
                r = r + 1;
            }
            proof {
                lemma_read_rows_end(its, q0, count as nat, dg.props);
                assert(rows@.map_values(|e: EntityBox| e@) + Seq::<EntityBoxView>::empty() =~= rows@.map_values(|e: EntityBox| e@));
            }
            if g as u64 == u64::MAX {
                return Err(Error::Unsupported("too many elements".to_string()));
            }
            let name = match Name::parse(names[g].clone(), Format::Ply, EntityKind::Other) {
                Some(n) => n,
                None => {
                    return Err(ply_syntax("bad element name"));
                },
            };
            let group = Group::new(g as u64, name, Some(count), EntityKind::Other);
            let ghost prev = result@.map_values(|x: (Group, Vec<EntityBox>)| x.1@.map_values(|e: EntityBox| e@));
            let ghost rowsv = rows@.map_values(|e: EntityBox| e@);
            result.push((group, rows));
            proof {
                assert(result@.map_values(|x: (Group, Vec<EntityBox>)| x.1@.map_values(|e: EntityBox| e@)) =~= prev.push(rowsv));
                match read_body(its, q as int, decls.skip(g + 1)) {
                    Some(rest) => {
                        assert(prev + (seq![rowsv] + rest) =~= prev.push(rowsv) + rest);
                    },
                    None => {},
                }
            }
            g = g + 1;
        }
        proof {
            assert(decls.skip(g as int).len() == 0);
            let bodies = result@.map_values(|x: (Group, Vec<EntityBox>)| x.1@.map_values(|e: EntityBox| e@));
            assert(bodies + Seq::<Seq<EntityBoxView>>::empty() =~= bodies);
            assert(parse_ply(source@) == Ok::<Seq<(ElementDecl, Seq<EntityBoxView>)>, PlyFailure>(
                Seq::new(decls.len(), |x: int| (decls[x], bodies[x])),
            ));
            assert forall|x: int| 0 <= x < decls.len() implies (#[trigger] result@[x]).0@ == ply_group(x, decls[x])
                && result@[x].1@.map_values(|e: EntityBox| e@) == bodies[x] by {
            }
        }
        Ok(result)
    }

    /// Reads `source` and hands each element group to `target`: its begin,
    /// its entities in order, and its end. Where `source` is malformed,
    /// `target` is left untouched. On success it has accepted exactly those
    /// calls; it succeeds whenever `target` accepts each of them; when
    /// `target` refuses one, it has accepted the calls before it and no more.
    pub fn deserialize_into<T: DeserializeMesh>(source: &str, target: &mut T) -> (r: Result<(), Error>)
        ensures
            parse_ply(source@) matches Err(f) ==> r is Err && ply_failure_of(r->Err_0) == Some(f)
                && *final(target) == *old(target),
            parse_ply(source@) is Ok ==> r is Ok || ply_failure_of(r->Err_0) is None,
            parse_ply(source@) is Ok && r is Ok ==> final(target).accepted() == old(target).accepted()
                + ply_events(parse_ply(source@)->Ok_0, parse_ply(source@)->Ok_0.len()),
            parse_ply(source@) == Ok::<Seq<(ElementDecl, Seq<EntityBoxView>)>, PlyFailure>(Seq::empty())
                ==> r is Ok && *final(target) == *old(target),
            parse_ply(source@) is Ok && accepts_all::<T>(
                old(target).accepted(),
                ply_events(parse_ply(source@)->Ok_0, parse_ply(source@)->Ok_0.len()),
            ) ==> r is Ok,
            parse_ply(source@) is Ok && r is Err ==> exists|k: int|
                0 <= k < ply_events(parse_ply(source@)->Ok_0, parse_ply(source@)->Ok_0.len()).len()
                    && final(target).accepted() == old(target).accepted() + ply_events(
                    parse_ply(source@)->Ok_0,
                    parse_ply(source@)->Ok_0.len(),
                ).take(k),
    {
        let groups = PlyDeserializer::parse(source)?;
        let ghost gs = parse_ply(source@)->Ok_0;
        if groups.len() == 0 {
            return Ok(());
        }
        let ghost n = gs.len();
        let ghost es = ply_events(gs, n);
        let ghost start = target.accepted();
        let ghost mut done: Seq<DeEvent> = seq![];
        let ghost mut rem: Seq<DeEvent> = es;
        proof {
            lemma_ply_events_split(gs, 0, n);
            assert(ply_events(gs, 0) == Seq::<DeEvent>::empty());
            assert(start + done =~= start);
            assert(done + rem =~= es);
        }
        let mut g: usize = 0;
        while g < groups.len()
            invariant
                parse_ply(source@) == Ok::<Seq<(ElementDecl, Seq<EntityBoxView>)>, PlyFailure>(gs),
                ply_reads_as(Ok::<Vec<(Group, Vec<EntityBox>)>, Error>(groups), parse_ply(source@)),
                0 <= g <= groups@.len(),
                groups@.len() == gs.len(),
                n == gs.len(),
                gs.len() > 0,
                es == ply_events(gs, n),
                start == old(target).accepted(),
                done == ply_events(gs, g as nat),
                rem == ply_events_between(gs, g as int, n as int),
                es == done + rem,
                target.accepted() == start + done,
                accepts_all::<T>(start, es) ==> accepts_all::<T>(start + done, rem),
            decreases groups@.len() - g,
        {
            let (group, entities) = &groups[g];
            let ghost gv = group@;
            let ghost xs = entities@.map_values(|e: EntityBox| e@);
            assert(gv == ply_group(g as int, gs[g as int].0));
            assert(xs == gs[g as int].1);
            let ghost mid = xs.map_values(|x: EntityBoxView| DeEvent::Entity(x, gv));
            let ghost end_e = DeEvent::GroupEnd(gv);
            let ghost tail = ply_events_between(gs, g + 1, n as int);
            let ghost done_g = done;
            assert(rem =~= seq![DeEvent::GroupBegin(gv)] + (mid + seq![end_e] + tail));
            assert(rem[0] == DeEvent::GroupBegin(gv));
            if let Err(e) = target.de_group_begin(group) {
                proof {
                    assert(es.take(done.len() as int) =~= done);
                    if accepts_all::<T>(start, es) {
                        assert(accepts_all::<T>(start + done, rem));
                        assert(T::accepts(start + done, rem[0]));
                    }
                }
                return Err(Error::from(e));
            }
            proof {
                assert((start + done).push(DeEvent::GroupBegin(gv)) =~= start + done.push(DeEvent::GroupBegin(gv)));
                assert(rem.drop_first() =~= mid + seq![end_e] + tail);
                done = done.push(DeEvent::GroupBegin(gv));
                rem = mid + seq![end_e] + tail;
                assert(mid.skip(0) =~= mid);
                assert(mid.take(0) =~= Seq::<DeEvent>::empty());
                assert(done =~= done_g + seq![DeEvent::GroupBegin(gv)] + mid.take(0));
            }
            let mut i: usize = 0;
            while i < entities.len()
                invariant
                    parse_ply(source@) == Ok::<Seq<(ElementDecl, Seq<EntityBoxView>)>, PlyFailure>(gs),
                    gs.len() > 0,
                    n == gs.len(),
                    es == ply_events(gs, n),
                    start == old(target).accepted(),
                    0 <= i <= entities@.len(),
                    xs == entities@.map_values(|e: EntityBox| e@),
                    gv == group@,
                    mid == xs.map_values(|x: EntityBoxView| DeEvent::Entity(x, gv)),
                    end_e == DeEvent::GroupEnd(gv),
                    es == done + rem,
                    done == done_g + seq![DeEvent::GroupBegin(gv)] + mid.take(i as int),
                    rem == mid.skip(i as int) + seq![end_e] + tail,
                    target.accepted() == start + done,
                    accepts_all::<T>(start, es) ==> accepts_all::<T>(start + done, rem),
                decreases entities@.len() - i,
            {
                let ghost ev = DeEvent::Entity(entities@[i as int]@, gv);
                assert(mid[i as int] == ev);
                assert(rem[0] == ev);
                if let Err(e) = target.de_entity(&entities[i], group) {
                    proof {
                        assert(es.take(done.len() as int) =~= done);
                        if accepts_all::<T>(start, es) {
                            assert(accepts_all::<T>(start + done, rem));
                            assert(T::accepts(start + done, rem[0]));
                        }
                    }
                    return Err(Error::from(e));
                }
                proof {
                    assert((start + done).push(ev) =~= start + done.push(ev));
                    assert(rem.drop_first() =~= mid.skip(i + 1) + seq![end_e] + tail);
                    assert(mid.take(i + 1) =~= mid.take(i as int).push(ev));
                    done = done.push(ev);
                    rem = mid.skip(i + 1) + seq![end_e] + tail;
                }
                i = i + 1;
            }
            assert(mid.skip(i as int) =~= Seq::<DeEvent>::empty());
            assert(rem =~= seq![end_e] + tail);
            assert(rem[0] == end_e);
            if let Err(e) = target.de_group_end(group) {
                proof {
                    assert(es.take(done.len() as int) =~= done);
                    if accepts_all::<T>(start, es) {
                        assert(accepts_all::<T>(start + done, rem));
                        assert(T::accepts(start + done, rem[0]));
                    }
                }
                return Err(Error::from(e));
            }
            proof {
                assert((start + done).push(end_e) =~= start + done.push(end_e));
                assert(rem.drop_first() =~= tail);
                assert(mid.take(i as int) =~= mid);
                done = done.push(end_e);
                rem = tail;
                assert(ply_events(gs, (g + 1) as nat) == ply_events(gs, g as nat) + ply_group_events(gs, g as int));
                assert(done =~= done_g + ply_group_events(gs, g as int));
            }
            g = g + 1;
        }
        Ok(())
    }
}

proof fn lemma_entity_calls(m: MeshView, g: GroupView, pre: Seq<EntityBoxView>, xs: Seq<EntityBoxView>)
    requires
        m.others.len() > 0,
        m.others.last() == (g, pre),
    ensures
        apply_events(m, xs.map_values(|x: EntityBoxView| DeEvent::Entity(x, g))) == Some(
            MeshView { others: m.others.update(m.others.len() - 1, (g, pre + xs)), ..m },
        ),
    decreases xs.len(),
{
    let evs = xs.map_values(|x: EntityBoxView| DeEvent::Entity(x, g));
    if xs.len() == 0 {
        assert(pre + xs =~= pre);
        assert(m.others.update(m.others.len() - 1, (g, pre)) =~= m.others);
    } else {
        let xs0 = xs.drop_last();
        lemma_entity_calls(m, g, pre, xs0);
        assert(evs.drop_last() =~= xs0.map_values(|x: EntityBoxView| DeEvent::Entity(x, g)));
        let m1 = MeshView { others: m.others.update(m.others.len() - 1, (g, pre + xs0)), ..m };
        assert(is_open(m1.others, g.parsing_uid));
        assert((pre + xs0).push(xs.last()) =~= pre + xs);
        assert(append_to_last(m1.others, xs.last()) =~= m.others.update(m.others.len() - 1, (g, pre + xs)));
    }
}

/// Every call that reading PLY text hands over applies to any mesh.
proof fn lemma_ply_calls_apply(m: MeshView, gs: Seq<(ElementDecl, Seq<EntityBoxView>)>, n: nat)
    requires
        n <= gs.len(),
    ensures
        apply_events(m, ply_events(gs, n)) is Some,
    decreases n,
{
    if n == 0 {
        assert(ply_events(gs, 0) == Seq::<DeEvent>::empty());
    } else {
        let k = (n - 1) as nat;
        lemma_ply_calls_apply(m, gs, k);
        let g = ply_group(k as int, gs[k as int].0);
        let begin = seq![DeEvent::GroupBegin(g)];
        let mid = gs[k as int].1.map_values(|x: EntityBoxView| DeEvent::Entity(x, g));
        let end = seq![DeEvent::GroupEnd(g)];
        assert(ply_events(gs, n) == ply_events(gs, k) + begin + mid + end);
        lemma_apply_events_append(m, ply_events(gs, k) + begin + mid, end);
        lemma_apply_events_append(m, ply_events(gs, k) + begin, mid);
        lemma_apply_events_append(m, ply_events(gs, k), begin);
        let m1 = apply_events(m, ply_events(gs, k))->0;
        assert(begin.drop_last() =~= Seq::<DeEvent>::empty());
        assert(end.drop_last() =~= Seq::<DeEvent>::empty());
        assert(apply_events(m1, Seq::<DeEvent>::empty()) == Some(m1));
        let m2 = begin_group(m1, g);
        assert(apply_events(m1, begin) == Some(m2));
        assert(m2.others.last() == (g, Seq::<EntityBoxView>::empty()));
        lemma_entity_calls(m2, g, Seq::empty(), gs[k as int].1);
        let m3 = MeshView { others: m2.others.update(m2.others.len() - 1, (g, Seq::<EntityBoxView>::empty() + gs[k as int].1)), ..m2 };
        assert(apply_events(m3, Seq::<DeEvent>::empty()) == Some(m3));
        assert(apply_events(m3, end) == Some(m3));
    }
}

/// Correct PLY text is accepted, call for call, by a new `Mesh`: reading it
/// into one succeeds.
pub proof fn lemma_mesh_accepts_ply(text: Seq<char>)
    requires
        parse_ply(text) is Ok,
    ensures
        accepts_all::<Mesh>(Seq::empty(), ply_events(parse_ply(text)->Ok_0, parse_ply(text)->Ok_0.len())),
{
    let gs = parse_ply(text)->Ok_0;
    let es = ply_events(gs, gs.len());
    lemma_ply_calls_apply(empty_mesh(), gs, gs.len());
    assert(apply_events(empty_mesh(), Seq::<DeEvent>::empty()) == Some(empty_mesh()));
    lemma_mesh_accepts_all(Seq::empty(), es);
    assert(Seq::<DeEvent>::empty() + es =~= es);
}

} // verus!
