use multimesh::attribute::{AttributeContainer, AttributeName};
use multimesh::de::{DeserializeMesh, DeserializerError};
use multimesh::entity::{EntityKind, Node};
use multimesh::naming::{Format, Name};
use multimesh::group::Group;
use multimesh::medit::{DeserializeError, MeditDeserializer, MeditSerializer};
use multimesh::mesh::Mesh;
use multimesh::ser::SerializableGroup;

fn read_into(text: &str) -> (Result<(), DeserializeError>, Mesh) {
    let mut m = Mesh::default();
    let r = MeditDeserializer::deserialize_into(text, &mut m);
    (r, m)
}

#[test]
fn calls_follow_the_text() {
    let text = "MeshVersionFormatted 1\nDimension 2\nVertices 2\n0 0 1\n1 0 1\nTriangles\n1\n1 2 3 0\nEnd\n";
    let (r, m) = read_into(text);
    r.unwrap();
    assert_eq!(m.metadata().dimension(), 2);
    let vertices = &m.node_groups()[0];
    assert_eq!(vertices.group().parsing_uid(), 1);
    assert_eq!(vertices.group().size(), Some(2));
    assert_eq!(vertices.item_at(1).unwrap().position, vec!["1".to_string(), "0".to_string()]);
    let triangles = &m.element_groups()[0];
    assert_eq!(triangles.group().parsing_uid(), 2);
    assert_eq!(triangles.item_at(0).unwrap().indices, vec![1, 2, 3]);
}

#[test]
fn same_name_groups_get_increasing_identities() {
    let text = "MeshVersionFormatted 1\nDimension 3\nTriangles\n1\n0 1 2 1\nTriangles\n1\n1 2 3 1\nEnd\n";
    let (r, m) = read_into(text);
    r.unwrap();
    let groups = m.element_groups();
    assert_eq!(groups.len(), 2);
    assert!(groups[0].group().parsing_uid() < groups[1].group().parsing_uid());
    assert!(groups[0].group() != groups[1].group());
}

#[test]
fn nothing_after_end_reaches_the_target() {
    let (r, m) = read_into("MeshVersionFormatted 1\nDimension 3\nEnd\nFrobnicate @@ 1 x\nVertices\n");
    r.unwrap();
    assert_eq!(m.metadata().dimension(), 3);
    assert_eq!(m.node_groups().len() + m.element_groups().len(), 0);
}

#[test]
fn malformed_text_makes_no_calls() {
    let (r, m) = read_into("Dimension 3\nFrobnicate\n");
    assert!(matches!(r, Err(DeserializeError::Syntax(_))));
    assert_eq!(m.metadata().dimension(), 0);
}

#[test]
fn hash_token_in_keyword_position_is_skipped() {
    let (r, m) = read_into("Dimension 2 #note\nEdges 1 1 2 0 #trailing\nEnd\n");
    r.unwrap();
    assert_eq!(m.metadata().dimension(), 2);
    assert_eq!(m.element_groups()[0].item_at(0).unwrap().indices, vec![1, 2]);
}

#[test]
fn triangle_row_through_deserialize_into() {
    let mut m = Mesh::default();
    MeditDeserializer::deserialize_into("MeshVersionFormatted 1\nDimension 3\nTriangles\n1\n0 1 2 5\nEnd\n", &mut m)
        .unwrap();
    assert_eq!(m.node_groups().len(), 0);
    assert_eq!(m.element_groups().len(), 1);
    let e = m.element_groups()[0].item_at(0).unwrap();
    assert_eq!(e.indices, vec![0, 1, 2]);
    assert_eq!(e.attr.len(), 1);
    assert_eq!(e.attr.get(&AttributeName::Index(0)), Some(&"5".to_string()));
}

#[test]
fn two_dimensional_vertices_through_deserialize_into() {
    let mut m = Mesh::default();
    MeditDeserializer::deserialize_into("MeshVersionFormatted 1\nDimension 2\nVertices\n1\n0.5 1.5 7\nEnd\n", &mut m)
        .unwrap();
    assert_eq!(m.metadata().dimension(), 2);
    let n = m.node_groups()[0].item_at(0).unwrap();
    assert_eq!(n.position, vec!["0.5".to_string(), "1.5".to_string()]);
    assert_eq!(n.attr.get(&AttributeName::Index(0)), Some(&"7".to_string()));
}

#[test]
fn round_trip_through_deserialize_into() {
    let text = "MeshVersionFormatted 1\nDimension 3\nVertices 2\n0 0 0 1\n1 1 1 2\nTetrahedra 1\n1 2 1 2 0\nEnd\n";
    let mut m1 = Mesh::default();
    MeditDeserializer::deserialize_into(text, &mut m1).unwrap();
    let out = MeditSerializer::new().serialize(&m1).unwrap();
    let mut m2 = Mesh::default();
    MeditDeserializer::deserialize_into(&out, &mut m2).unwrap();
    assert_eq!(m2.metadata().dimension(), m1.metadata().dimension());
    assert_eq!(m2.node_groups().len(), m1.node_groups().len());
    assert_eq!(m2.element_groups().len(), m1.element_groups().len());
    assert_eq!(m2.node_groups()[0].len(), 2);
    assert_eq!(m2.element_groups()[0].len(), 1);
}

#[test]
fn protocol_methods_of_mesh_refuse_stale_groups() {
    let name = || Name::parse("Vertices".to_string(), Format::Medit, EntityKind::Node).unwrap();
    let g1 = Group::new(1, name(), Some(1), EntityKind::Node);
    let g2 = Group::new(2, name(), Some(1), EntityKind::Node);
    let mut m = Mesh::default();
    m.de_group_begin(&g1).unwrap();
    m.de_group_begin(&g2).unwrap();
    let node = Node { position: vec!["0".into(), "0".into(), "0".into()], attr: Default::default() };
    assert!(matches!(m.de_node(&node, &g1), Err(DeserializerError::BrokenInvariant(_))));
    assert_eq!(m.node_groups()[0].len(), 0);
    assert_eq!(m.node_groups()[1].len(), 0);
}

#[test]
fn unknown_keyword_after_complete_groups_fails() {
    let (r, m) = read_into("MeshVersionFormatted 1\nDimension 3\nVertices\n1\n0 0 0 1\nFrobnicate\nEnd\n");
    assert!(matches!(r, Err(DeserializeError::Syntax(_))));
    assert_eq!(m.node_groups().len(), 0);
}
