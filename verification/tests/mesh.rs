use orca_tree_supports::mesh::{check_mesh_indices, Triangle};
use orca_tree_supports::utils::TreeSupportError;

fn mesh_message(r: Result<(), TreeSupportError>) -> String {
    match r {
        Err(TreeSupportError::InvalidMesh(m)) => m,
        other => panic!("expected an invalid-mesh error, got {:?}", other),
    }
}

#[test]
fn cube_indices_are_valid() {
    let triangles = vec![
        [0, 1, 2],
        [0, 2, 3],
        [4, 6, 5],
        [4, 7, 6],
        [0, 5, 1],
        [0, 4, 5],
        [2, 7, 3],
        [2, 6, 7],
        [0, 3, 7],
        [0, 7, 4],
        [1, 5, 6],
        [1, 6, 2],
    ];
    assert!(check_mesh_indices(8, &triangles).is_ok());
}

#[test]
fn empty_mesh_reports_missing_vertices() {
    assert_eq!(mesh_message(check_mesh_indices(0, &vec![])), "mesh has no vertices");
}

#[test]
fn mesh_without_triangles_is_rejected() {
    assert_eq!(mesh_message(check_mesh_indices(3, &vec![])), "mesh has no triangles");
}

#[test]
fn out_of_range_index_names_first_offender() {
    // indices 1, 2 out of range; the first one is reported
    assert_eq!(
        mesh_message(check_mesh_indices(1, &vec![[0, 1, 2]])),
        "triangle 0 has out-of-range index 1"
    );
    assert_eq!(
        mesh_message(check_mesh_indices(3, &vec![[0, 1, 2], [2, 1, 0], [0, 0, 12]])),
        "triangle 2 has out-of-range index 12"
    );
}

#[test]
fn triangle_fields() {
    let t = Triangle { v0: 1, v1: 2, v2: 3 };
    assert_eq!(t, Triangle { v0: 1, v1: 2, v2: 3 });
    assert_ne!(t, Triangle { v0: 1, v1: 3, v2: 2 });
}

#[test]
fn test_empty_mesh_error() {
    let result = check_mesh_indices(0, &vec![]);
    assert!(result.is_err());
}

#[test]
fn test_out_of_range_index_error() {
    // one vertex; indices 1, 2 out of range
    let result = check_mesh_indices(1, &vec![[0, 1, 2]]);
    assert!(result.is_err());
}
