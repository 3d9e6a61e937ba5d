use multimesh::entity::EntityKind;
use multimesh::naming::{Format, Name};

#[test]
fn parse_element_name() {
    let name1 = Name::parse("Triangles".into(), Format::Medit, EntityKind::Element);
    let name2 = Name::parse("Potato".into(), Format::Medit, EntityKind::Element);
    assert!(name1.is_some());
    assert!(name2.is_none());
    let name = name1.unwrap();
    assert_eq!(name.get_original().0, "Triangles");
    assert_eq!(name.get_original().1, Format::Medit);
}

#[test]
fn node_names_include_normals_and_tangents() {
    for n in ["Vertices", "Normals", "Tangents"] {
        assert!(Name::parse(n.to_string(), Format::Medit, EntityKind::Node).is_some());
    }
    assert!(Name::parse("Triangles".to_string(), Format::Medit, EntityKind::Node).is_none());
}

#[test]
fn ply_names_are_free() {
    let name = Name::parse("vertex".to_string(), Format::Ply, EntityKind::Other).unwrap();
    assert_eq!(name.get_original(), ("vertex", Format::Ply, EntityKind::Other));
}

#[test]
fn get_as_other_format_is_none() {
    let name = Name::parse("Edges".to_string(), Format::Medit, EntityKind::Element).unwrap();
    assert_eq!(name.get_as(Format::Medit), Some("Edges".to_string()));
    assert_eq!(name.get_as(Format::Ply), None);
}
