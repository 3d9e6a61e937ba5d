use multimesh::attribute::{AttributeContainer, AttributeName};
use multimesh::entity::{Entity, EntityKind};
use multimesh::error::Error;
use multimesh::mesh::Mesh;
use multimesh::ply::{DataType, PlyDeserializer};
use multimesh::ser::SerializableGroup;

const TRIANGLE: &str = "ply\n\
format ascii 1.0\n\
comment a triangle\n\
element vertex 3\n\
property float x\n\
property float y\n\
element face 1\n\
property int n\n\
end_header\n\
0 0\n\
1 0\n\
0 1 7\n";

fn key(k: &str) -> AttributeName {
    AttributeName::Key(k.to_string())
}

#[test]
fn reads_elements_and_rows() {
    let groups = PlyDeserializer::parse(TRIANGLE).unwrap();
    assert_eq!(groups.len(), 2);
    let (vertex, rows) = &groups[0];
    assert_eq!(vertex.name().get_original().0, "vertex");
    assert_eq!(vertex.size(), Some(3));
    assert_eq!(vertex.parsing_uid(), 0);
    assert_eq!(rows.len(), 3);
    assert_eq!(rows[2].attributes().get(&key("y")), Some(&"1".to_string()));
    assert_eq!(rows[2].kind(), EntityKind::Other);
    let (face, rows) = &groups[1];
    assert_eq!(face.parsing_uid(), 1);
    assert_eq!(rows[0].attributes().get(&key("n")), Some(&"7".to_string()));
}

#[test]
fn fills_a_mesh_with_other_groups() {
    let mut mesh = Mesh::new();
    PlyDeserializer::deserialize_into(TRIANGLE, &mut mesh).unwrap();
    assert_eq!(mesh.other_groups().len(), 2);
    assert_eq!(mesh.other_groups()[0].len(), 3);
    assert_eq!(mesh.other_groups()[1].len(), 1);
    assert_eq!(mesh.node_groups().len(), 0);
}

#[test]
fn header_errors() {
    assert!(matches!(PlyDeserializer::parse("plx\nend_header\n"), Err(Error::Syntax(_))));
    assert!(matches!(
        PlyDeserializer::parse("ply\nformat binary_little_endian 1.0\nend_header\n"),
        Err(Error::Unsupported(_))
    ));
    assert!(matches!(PlyDeserializer::parse("ply\nproperty float x\nend_header\n"), Err(Error::Syntax(_))));
    assert!(matches!(PlyDeserializer::parse("ply\nelement v 1\nproperty quad x\nend_header\n0\n"), Err(Error::Syntax(_))));
    assert!(matches!(PlyDeserializer::parse("ply\nelement v 1\n"), Err(Error::Syntax(_))));
    assert!(matches!(PlyDeserializer::parse("ply\nelement v 2\nproperty int a\nend_header\n1\n"), Err(Error::Syntax(_))));
}

#[test]
fn data_types() {
    let t = |s: &str| DataType::parse(&s.chars().collect());
    assert_eq!(t("uchar"), Some(DataType::Uchar));
    assert_eq!(t("double"), Some(DataType::Double));
    assert_eq!(t("list"), None);
}
