use wire3d::color::face_pixel;
use wire3d::context::ProjectedVertex;
use wire3d::surface::{Surface, OPAQUE_BLACK};

const INK: u32 = 0x00ABCDEF;

fn painted(s: &Surface) -> Vec<(usize, usize)> {
    let (w, h) = s.get_extent();
    let data = s.get_data();
    let mut out = Vec::new();
    for y in 0..h {
        for x in 0..w {
            if data[y * w + x] != OPAQUE_BLACK {
                out.push((x, y));
            }
        }
    }
    out
}

fn vertex(x: i64, y: i64) -> ProjectedVertex {
    ProjectedVertex { x, y, depth_ok: true }
}

#[test]
fn polygon_border_draws_closed_loop_and_marker() {
    let mut s = Surface::new(10, 10);
    s.clear();
    let poly: Vec<(usize, usize)> = vec![(1, 1), (8, 1), (8, 8)];
    s.draw_polygon_border(&poly, 0, INK);
    let data = s.get_data();
    // the marked vertex carries the sentinel, the others the colour
    assert_eq!(data[1 * 10 + 1], OPAQUE_BLACK);
    assert_eq!(data[1 * 10 + 8], INK);
    assert_eq!(data[8 * 10 + 8], INK);
    // all three edges are present: top row, right column, and the closing
    // diagonal back to the first vertex
    assert_eq!(data[1 * 10 + 4], INK);
    assert_eq!(data[4 * 10 + 8], INK);
    assert_eq!(data[5 * 10 + 5], INK);
}

#[test]
fn face_outline_rejects_a_face_with_one_bad_vertex() {
    let mut s = Surface::new(10, 10);
    s.clear();
    let verts = vec![vertex(1, 1), vertex(12, 1), vertex(5, 8)];
    let drawn = s.draw_face_outline(&verts, INK);
    assert!(!drawn);
    assert!(painted(&s).is_empty());
}

#[test]
fn face_outline_rejects_a_face_with_bad_depth() {
    let mut s = Surface::new(10, 10);
    s.clear();
    let verts = vec![
        vertex(1, 1),
        ProjectedVertex { x: 5, y: 1, depth_ok: false },
        vertex(5, 8),
    ];
    let drawn = s.draw_face_outline(&verts, INK);
    assert!(!drawn);
    assert!(painted(&s).is_empty());
}

#[test]
fn face_outline_marks_the_first_lowest_y_vertex() {
    let mut s = Surface::new(10, 10);
    s.clear();
    // two vertices share the smallest y; the first of them gets the mark
    let verts = vec![vertex(7, 2), vertex(2, 2), vertex(4, 8)];
    let drawn = s.draw_face_outline(&verts, INK);
    assert!(drawn);
    let data = s.get_data();
    assert_eq!(data[2 * 10 + 7], OPAQUE_BLACK);
    assert_eq!(data[2 * 10 + 2], INK);
}

#[test]
fn edge_with_bad_depth_paints_nothing() {
    let mut s = Surface::new(10, 10);
    s.clear();
    let verts = vec![
        vertex(1, 1),
        ProjectedVertex { x: 8, y: 8, depth_ok: false },
    ];
    s.draw_face_edges(&verts, INK);
    assert!(painted(&s).is_empty());
}

#[test]
fn edge_with_offscreen_endpoint_is_dropped_whole() {
    let mut s = Surface::new(10, 10);
    s.clear();
    let verts = vec![vertex(1, 1), vertex(20, 1)];
    s.draw_face_edges(&verts, INK);
    assert!(painted(&s).is_empty());
}

#[test]
fn valid_edges_paint_while_bad_ones_drop() {
    let mut s = Surface::new(10, 10);
    s.clear();
    // edges (0,1) and (1,2) touch the bad vertex and drop; edge (2,0) draws
    let verts = vec![vertex(1, 1), vertex(20, 5), vertex(8, 1)];
    s.draw_face_edges(&verts, INK);
    let pix = painted(&s);
    assert!(!pix.is_empty());
    for x in 1..=8usize {
        assert!(pix.contains(&(x, 1)));
    }
    assert_eq!(pix.len(), 8);
}

#[test]
fn all_valid_face_draws_closed_loop() {
    let mut s = Surface::new(10, 10);
    s.clear();
    let verts = vec![vertex(1, 1), vertex(8, 1), vertex(8, 8)];
    s.draw_face_edges(&verts, INK);
    let pix = painted(&s);
    assert!(pix.contains(&(4, 1)));
    assert!(pix.contains(&(8, 4)));
    assert!(pix.contains(&(5, 5)));
}

#[test]
fn face_pixel_moves_colour_up_one_byte() {
    assert_eq!(face_pixel(0x00FF00, 1), 0x00FF0000);
    assert_eq!(face_pixel(0xFF0000, 1), 0xFF000000);
    assert_eq!(face_pixel(0x0000FF, 1), 0x0000FF00);
    assert_eq!(face_pixel(0xABCDEF, 1), 0xABCDEF00);
}

#[test]
fn face_pixel_divides_each_channel() {
    assert_eq!(face_pixel(0x00FF00, 2), 0x007F0000);
    assert_eq!(face_pixel(0xFFFFFF, 3), 0x55555500);
    assert_eq!(face_pixel(0x102030, 2), 0x08101800);
}
