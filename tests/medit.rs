use multimesh::attribute::{AttributeContainer, AttributeName};
use multimesh::de::DeserializerError;
use multimesh::entity::{EntityKind, Node};
use multimesh::group::Group;
use multimesh::medit::{element_nary, DeserializeError, MeditDeserializer, MeditSerializer, SerializeError};
use multimesh::mesh::Mesh;
use multimesh::naming::{Format, Name};
use multimesh::ser::SerializableGroup;

const CUBE: &str = "MeshVersionFormatted 1\n\
# a comment\n\
Dimension 3\n\
Vertices\n\
3\n\
0.0 0.0 0.0 1\n\
1 0 0 1\n\
0 1e-3 -0.5 2\n\
\n\
Triangles\n\
1\n\
1 2 3 7\n\
Edges 2\n\
1 2 0\n\
2 3 0\n\
End\n";

fn read(text: &str) -> Result<Mesh, DeserializeError> {
    MeditDeserializer::read_mesh(text)
}

#[test]
fn reads_dimension_groups_and_rows() {
    let mesh = read(CUBE).unwrap();
    assert_eq!(mesh.metadata().dimension(), 3);
    assert_eq!(mesh.node_groups().len(), 1);
    assert_eq!(mesh.element_groups().len(), 2);
    let vertices = &mesh.node_groups()[0];
    assert_eq!(vertices.len(), 3);
    let third: &Node = vertices.item_at(2).unwrap();
    assert_eq!(third.position, vec!["0".to_string(), "1e-3".to_string(), "-0.5".to_string()]);
    assert_eq!(third.attr.get(&AttributeName::Index(0)), Some(&"2".to_string()));
    assert!(vertices.item_at(3).is_none());
    let edges = &mesh.element_groups()[1];
    assert_eq!(edges.metadata().name().get_original().0, "Edges");
    assert_eq!(edges.item_at(1).unwrap().indices, vec![2, 3]);
}

#[test]
fn triangle_row_in_three_dimensions() {
    let mesh = read("Dimension 3\nTriangles\n1\n0 1 2 5\n").unwrap();
    let groups = mesh.element_groups();
    assert_eq!(groups.len(), 1);
    assert_eq!(groups[0].len(), 1);
    let element = groups[0].item_at(0).unwrap();
    assert_eq!(element.indices, vec![0, 1, 2]);
    assert_eq!(element.attr.len(), 1);
    assert_eq!(element.attr.get(&AttributeName::Index(0)), Some(&"5".to_string()));
}

#[test]
fn end_ignores_trailing_garbage() {
    let mesh = read("Dimension 2\nEnd\nFrobnicate \u{0} %% Vertices x\n").unwrap();
    assert_eq!(mesh.metadata().dimension(), 2);
    assert!(read("End").is_ok());
}

#[test]
fn unknown_keyword_is_a_syntax_error() {
    assert!(matches!(read("Frobnicate\n"), Err(DeserializeError::Syntax(_))));
    assert!(matches!(read("Dimension 3\nVertices 0\nFrobnicate"), Err(DeserializeError::Syntax(_))));
}

#[test]
fn unknown_keyword_leaves_target_untouched() {
    let mut mesh = Mesh::new();
    let r = MeditDeserializer::deserialize_into("Dimension 3\nFrobnicate\n", &mut mesh);
    assert!(matches!(r, Err(DeserializeError::Syntax(_))));
    assert_eq!(mesh.metadata().dimension(), 0);
}

#[test]
fn vertices_before_dimension_is_a_syntax_error() {
    assert!(matches!(read("Vertices\n1\n0 0 0 1\n"), Err(DeserializeError::Syntax(_))));
}

#[test]
fn other_version_is_unsupported() {
    assert!(matches!(read("MeshVersionFormatted 2\n"), Err(DeserializeError::Unsupported(_))));
    assert!(matches!(read("MeshVersionFormatted\n"), Err(DeserializeError::Syntax(_))));
}

#[test]
fn malformed_rows_are_syntax_errors() {
    assert!(matches!(read("Dimension 2\nVertices 1\n0 x 1\n"), Err(DeserializeError::Syntax(_))));
    assert!(matches!(read("Dimension 2\nVertices 1\n0 0\n"), Err(DeserializeError::Syntax(_))));
    assert!(matches!(read("Edges 1\n0 -1 3\n"), Err(DeserializeError::Syntax(_))));
    assert!(matches!(read("Edges 1\n0 1 +\n"), Err(DeserializeError::Syntax(_))));
    assert!(matches!(read("Dimension 256\n"), Err(DeserializeError::Syntax(_))));
    assert!(matches!(read("Edges 99999999999999999999999\n"), Err(DeserializeError::Syntax(_))));
}

#[test]
fn number_forms_that_parse() {
    let mesh = read("Dimension 2\nNormals 2\n+1.5 -.5\ninf NaN\nEdges 1\n+0 007 1E+2\n").unwrap();
    let normals = &mesh.node_groups()[0];
    assert_eq!(normals.item_at(0).unwrap().attr.len(), 0);
    assert_eq!(normals.item_at(1).unwrap().position, vec!["inf".to_string(), "NaN".to_string()]);
    assert_eq!(mesh.element_groups()[0].item_at(0).unwrap().indices, vec![0, 7]);
}

#[test]
fn dimension_change_after_groups_is_refused() {
    let r = read("Dimension 2\nNormals 0\nDimension 3\n");
    assert!(matches!(r, Err(DeserializeError::Deserializer(DeserializerError::BrokenInvariant(_)))));
    assert!(read("Dimension 2\nNormals 0\nDimension 2\n").is_ok());
}

#[test]
fn groups_with_the_same_name_have_distinct_identities() {
    let blocks = MeditDeserializer::parse("Edges 0\nEdges 0\n").unwrap();
    let uids: Vec<u64> = blocks
        .iter()
        .filter_map(|b| match b {
            multimesh::medit::MeditBlock::Elements(g, _) => Some(g.parsing_uid()),
            _ => None,
        })
        .collect();
    assert_eq!(uids.len(), 2);
    assert!(uids[0] < uids[1]);
}

#[test]
fn entity_for_a_stale_group_is_refused() {
    let name = || Name::parse("Vertices".to_string(), Format::Medit, EntityKind::Node).unwrap();
    let first = Group::new(1, name(), None, EntityKind::Node);
    let second = Group::new(2, name(), None, EntityKind::Node);
    assert!(first != second);
    let mut mesh = Mesh::new();
    mesh.begin_group(&first);
    let node = Node { position: vec!["0".to_string()], attr: Default::default() };
    assert!(mesh.add_node(&node, &first).is_ok());
    mesh.begin_group(&second);
    let r = mesh.add_node(&node, &first);
    assert!(matches!(r, Err(DeserializerError::BrokenInvariant(_))));
    assert!(mesh.add_node(&node, &second).is_ok());
    assert_eq!(mesh.node_groups()[0].len(), 1);
    assert_eq!(mesh.node_groups()[1].len(), 1);
}

#[test]
fn round_trip_keeps_dimension_and_counts() {
    let first = read(CUBE).unwrap();
    let text = MeditSerializer::new().serialize(&first).unwrap();
    let second = read(&text).unwrap();
    assert_eq!(second.metadata().dimension(), first.metadata().dimension());
    assert_eq!(second.node_groups().len(), first.node_groups().len());
    assert_eq!(second.element_groups().len(), first.element_groups().len());
    for (a, b) in first.node_groups().iter().zip(second.node_groups().iter()) {
        assert_eq!(a.len(), b.len());
    }
    for (a, b) in first.element_groups().iter().zip(second.element_groups().iter()) {
        assert_eq!(a.len(), b.len());
    }
    assert_eq!(MeditSerializer::new().serialize(&second).unwrap(), text);
}

#[test]
fn serialized_text() {
    let mesh = read("Dimension 2\nVertices 1\n0.5 1 3\nNormals 1\n0 1\nEdges 1\n10 2 4\n").unwrap();
    let text = MeditSerializer::new().serialize(&mesh).unwrap();
    assert_eq!(
        text,
        "MeshVersionFormatted 1\n# MEDIT mesh file\nDimension 2\n\nVertices\n1\n0.5 1 3\n\nNormals\n1\n0 1\n\nEdges\n1\n10 2 4\n\nEnd\n"
    );
}

#[test]
fn group_without_medit_name_is_not_serialized() {
    let mut mesh = Mesh::new();
    let name = Name::parse("points".to_string(), Format::Ply, EntityKind::Node).unwrap();
    mesh.begin_group(&Group::new(1, name, Some(0), EntityKind::Node));
    let r = MeditSerializer::new().serialize(&mesh);
    assert!(matches!(r, Err(SerializeError::InvalidElementGroup(_))));
}

#[test]
fn element_arities() {
    assert_eq!(element_nary("Edges"), Some(2));
    assert_eq!(element_nary("Triangles"), Some(3));
    assert_eq!(element_nary("Quadrilaterals"), Some(4));
    assert_eq!(element_nary("Tetrahedra"), Some(4));
    assert_eq!(element_nary("Hexahedra"), Some(8));
    assert_eq!(element_nary("Vertices"), None);
}
