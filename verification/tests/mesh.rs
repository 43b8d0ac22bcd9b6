use wire3d::mesh::{check_indices, FaceCursor};

#[test]
fn decodes_triangle_then_quad_without_drift() {
    // two faces back to back: a triangle with normal slot 0, then a quad
    // with normal slot 1
    let indices: Vec<u32> = vec![3, 0, 10, 11, 12, 4, 1, 20, 21, 22, 23];
    let mut cursor = FaceCursor::new();

    let first = cursor.next(&indices).expect("first face");
    assert_eq!(first.normal_index, 0);
    assert_eq!(first.vertex_indices, vec![10, 11, 12]);

    let second = cursor.next(&indices).expect("second face");
    assert_eq!(second.normal_index, 1);
    assert_eq!(second.vertex_indices, vec![20, 21, 22, 23]);

    assert!(cursor.next(&indices).is_none());
}

#[test]
fn cursor_is_restartable() {
    let indices: Vec<u32> = vec![3, 0, 1, 2, 3];
    let mut cursor = FaceCursor::new();
    let a = cursor.next(&indices).expect("face");
    let mut again = FaceCursor::new();
    let b = again.next(&indices).expect("face");
    assert_eq!(a.normal_index, b.normal_index);
    assert_eq!(a.vertex_indices, b.vertex_indices);
}

#[test]
fn overlong_header_is_clipped_at_the_end() {
    let indices: Vec<u32> = vec![3, 0, 10];
    let mut cursor = FaceCursor::new();
    let face = cursor.next(&indices).expect("clipped face");
    assert_eq!(face.normal_index, 0);
    assert_eq!(face.vertex_indices, vec![10]);
    assert!(cursor.next(&indices).is_none());
}

#[test]
fn trailing_fragment_encodes_nothing() {
    let indices: Vec<u32> = vec![2, 0, 1, 1, 9];
    let mut cursor = FaceCursor::new();
    let face = cursor.next(&indices).expect("face");
    assert_eq!(face.vertex_indices, vec![1, 1]);
    // one lone slot remains: fewer than a two-slot header
    assert!(cursor.next(&indices).is_none());
}

#[test]
fn empty_buffer_has_no_faces() {
    let indices: Vec<u32> = Vec::new();
    let mut cursor = FaceCursor::new();
    assert!(cursor.next(&indices).is_none());
}

#[test]
fn well_formed_buffer_passes_the_check() {
    let indices: Vec<u32> = vec![3, 0, 1, 2, 3, 4, 0, 1, 2, 3, 4];
    // 5 positions, 2 normals: slot 0 reads normal entry 1
    assert!(check_indices(&indices, 5, 2));
}

#[test]
fn empty_buffer_passes_the_check() {
    let indices: Vec<u32> = Vec::new();
    assert!(check_indices(&indices, 1, 1));
}

#[test]
fn overrunning_face_fails_the_check() {
    let indices: Vec<u32> = vec![4, 0, 1, 2, 3];
    assert!(!check_indices(&indices, 5, 2));
}

#[test]
fn truncated_header_fails_the_check() {
    let indices: Vec<u32> = vec![3, 0, 1, 2, 3, 9];
    assert!(!check_indices(&indices, 5, 2));
}

#[test]
fn out_of_range_normal_slot_fails_the_check() {
    let indices: Vec<u32> = vec![3, 1, 1, 2, 3];
    // slot 1 would read normal entry 2 of 2
    assert!(!check_indices(&indices, 5, 2));
}

#[test]
fn out_of_range_vertex_index_fails_the_check() {
    let indices: Vec<u32> = vec![3, 0, 1, 7, 3];
    assert!(!check_indices(&indices, 5, 2));
}

#[test]
fn reencoding_decoded_faces_reproduces_the_buffer() {
    let indices: Vec<u32> = vec![3, 0, 10, 11, 12, 4, 1, 20, 21, 22, 23, 2, 0, 5, 6];
    let mut cursor = FaceCursor::new();
    let mut rebuilt: Vec<u32> = Vec::new();
    while let Some(face) = cursor.next(&indices) {
        rebuilt.push(face.vertex_indices.len() as u32);
        rebuilt.push(face.normal_index);
        rebuilt.extend_from_slice(&face.vertex_indices);
    }
    assert_eq!(rebuilt, indices);
}
