//! Group names: a format's keyword, checked against the names that the format
//! allows for a kind of entity.
use vstd::prelude::*;

use crate::entity::EntityKind;
use crate::text::{chars_of, same_text};

verus! {

#[derive(Clone, Copy, Debug, PartialEq, Eq, Structural, Hash)]
pub enum Format {
    Medit,
    Ply,
}

/// The group names that MEDIT allows for each kind of entity.
pub open spec fn medit_names(kind: EntityKind) -> Seq<Seq<char>> {
    match kind {
        EntityKind::Node => seq!["Vertices"@, "Normals"@, "Tangents"@],
        EntityKind::Element => seq![
            "Edges"@,
            "Triangles"@,
            "Quadrilaterals"@,
            "Tetrahedra"@,
            "Hexahedra"@,
        ],
        EntityKind::Vector => seq!["Normals"@, "Tangents"@],
        EntityKind::Other => seq![
            "Ridges"@,
            "RequiredEdges"@,
            "Corners"@,
            "RequiredVertices"@,
            "NormalAtVertices"@,
            "NormalAtTriangleVertices"@,
            "NormalAtQuadrilateralVertices"@,
            "TangentAtEdges"@,
        ],
    }
}

/// Whether `format` accepts `s` as the name of a group of `kind`. PLY names
/// its element blocks freely.
pub open spec fn is_valid_name(s: Seq<char>, format: Format, kind: EntityKind) -> bool {
    match format {
        Format::Medit => medit_names(kind).contains(s),
        Format::Ply => true,
    }
}

fn medit_name_list(kind: EntityKind) -> (r: Vec<&'static str>)
    ensures
        r@.map_values(|x: &str| x@) == medit_names(kind),
{
    let r = match kind {
        EntityKind::Node => vec!["Vertices", "Normals", "Tangents"],
        EntityKind::Element => vec!["Edges", "Triangles", "Quadrilaterals", "Tetrahedra", "Hexahedra"],
        EntityKind::Vector => vec!["Normals", "Tangents"],
        EntityKind::Other => vec![
            "Ridges",
            "RequiredEdges",
            "Corners",
            "RequiredVertices",
            "NormalAtVertices",
            "NormalAtTriangleVertices",
            "NormalAtQuadrilateralVertices",
            "TangentAtEdges",
        ],
    };
    assert(r@.map_values(|x: &str| x@) =~= medit_names(kind));
    r
}

/// Whether `s` is one of the texts in `list`.
fn is_listed(s: &Vec<char>, list: &Vec<&'static str>) -> (r: bool)
    ensures
        r == list@.map_values(|x: &str| x@).contains(s@),
{
    let ghost names = list@.map_values(|x: &str| x@);
    let mut i: usize = 0;
    while i < list.len()
        invariant
            0 <= i <= list@.len(),
            names == list@.map_values(|x: &str| x@),
            forall|j: int| 0 <= j < i ==> names[j] != s@,
        decreases list@.len() - i,
    {
        if same_text(s, list[i]) {
            assert(names[i as int] == s@);
            return true;
        }
        i = i + 1;
    }
    false
}

/// A group name, valid for its format and kind.
#[derive(Debug)]
pub struct Name {
    name: String,
    format: Format,
    kind: EntityKind,
}

pub struct NameView {
    pub name: Seq<char>,
    pub format: Format,
    pub kind: EntityKind,
}

impl View for Name {
    type V = NameView;

    closed spec fn view(&self) -> NameView {
        NameView { name: self.name@, format: self.format, kind: self.kind }
    }
}

impl Clone for Name {
    fn clone(&self) -> (r: Self)
        ensures
            r@ == self@,
    {
        Name { name: self.name.clone(), format: self.format, kind: self.kind }
    }
}

impl Name {
    /// The name `s` for a group of `kind` in `format`; `None` where the format
    /// does not allow it.
    pub fn parse(s: String, format: Format, kind: EntityKind) -> (r: Option<Name>)
        ensures
            r is Some <==> is_valid_name(s@, format, kind),
            r is Some ==> r->0@ == (NameView { name: s@, format, kind }),
    {
        match format {
            Format::Medit => {
                let list = medit_name_list(kind);
                let chars = chars_of(s.as_str());
                if !is_listed(&chars, &list) {
                    return None;
                }
            },
            Format::Ply => {},
        }
        Some(Name { name: s, format, kind })
    }

    /// The name as it was given, with its format and kind.
    pub fn get_original(&self) -> (r: (&str, Format, EntityKind))
        ensures
            r.0@ == self@.name,
            r.1 == self@.format,
            r.2 == self@.kind,
    {
        (self.name.as_str(), self.format, self.kind)
    }

    /// The name in `format`. Names are only known in the format they were
    /// given in: another format gives `None`.
    pub fn get_as(&self, format: Format) -> (r: Option<String>)
        ensures
            format == self@.format ==> r is Some && r->0@ == self@.name,
            format != self@.format ==> r is None,
    {
        if format == self.format {
            Some(self.name.clone())
        } else {
            None
        }
    }
}

} // verus!
