use wire3d::color::face_pixel;
use wire3d::context::ProjectedVertex;
use wire3d::mesh::{check_indices, FaceCursor};
use wire3d::surface::{Surface, OPAQUE_BLACK};

// The floating-point camera work below belongs to the unverified caller; it
// feeds the verified rasterizer plain projected vertices, exactly as the
// rendering front end does.

#[derive(Copy, Clone)]
struct V3 {
    x: f32,
    y: f32,
    z: f32,
}

fn v3(x: f32, y: f32, z: f32) -> V3 {
    V3 { x, y, z }
}

fn dot(a: V3, b: V3) -> f32 {
    a.x * b.x + a.y * b.y + a.z * b.z
}

fn sub(a: V3, b: V3) -> V3 {
    v3(a.x - b.x, a.y - b.y, a.z - b.z)
}

fn cross(a: V3, b: V3) -> V3 {
    v3(
        a.y * b.z - a.z * b.y,
        a.z * b.x - a.x * b.z,
        a.x * b.y - a.y * b.x,
    )
}

fn normalize(a: V3) -> V3 {
    let len = dot(a, a).sqrt();
    v3(a.x / len, a.y / len, a.z / len)
}

struct TestCamera {
    eye: V3,
    right: V3,
    up: V3,
    dir: V3,
    inv_near: f32,
    inv_far: f32,
    x_mul: f32,
    x_add: f32,
    y_mul: f32,
    y_add: f32,
}

fn camera(eye: V3, at: V3, approx_up: V3, near: f32, far: f32, size: f32, w: usize, h: usize) -> TestCamera {
    let dir = normalize(sub(at, eye));
    let right = normalize(cross(dir, approx_up));
    let up = cross(right, dir);
    let ext_min = if w < h { w as f32 } else { h as f32 };
    let x_x = 2.0 * near / size * h as f32 / ext_min;
    let y_y = -2.0 * near / size * w as f32 / ext_min;
    let x_add = w as f32 / 2.0;
    let y_add = h as f32 / 2.0;
    TestCamera {
        eye,
        right,
        up,
        dir,
        inv_near: 1.0 / near,
        inv_far: 1.0 / far,
        x_mul: x_add * x_x,
        x_add,
        y_mul: y_add * y_y,
        y_add,
    }
}

fn project(cam: &TestCamera, pt: V3) -> ProjectedVertex {
    let z = 1.0 / (dot(pt, cam.dir) - dot(cam.eye, cam.dir));
    let px = (dot(pt, cam.right) - dot(cam.eye, cam.right)) * z * cam.x_mul + cam.x_add;
    let py = (dot(pt, cam.up) - dot(cam.eye, cam.up)) * z * cam.y_mul + cam.y_add;
    ProjectedVertex {
        x: px as i64,
        y: py as i64,
        depth_ok: z < cam.inv_near && z > cam.inv_far,
    }
}

#[test]
fn triangle_scene_renders_centred_wireframe() {
    let positions = [
        v3(0.000, 1.000, 0.000),
        v3(-0.866, -0.500, 0.000),
        v3(0.866, -0.500, 0.000),
    ];
    let normals = [v3(0.0, 1.0, 0.0), v3(0.0, 0.0, 1.0)];
    let indices: Vec<u32> = vec![3, 0, 0, 1, 2];
    assert!(check_indices(&indices, positions.len(), normals.len()));

    let cam = camera(
        v3(0.0, 0.0, 5.0),
        v3(0.0, 0.0, 0.0),
        v3(0.0, 1.0, 0.0),
        0.05,
        100.0,
        0.1,
        100,
        100,
    );

    let mut surface = Surface::new(100, 100);
    surface.clear();

    let mut cursor = FaceCursor::new();
    let mut faces = 0;
    while let Some(face) = cursor.next(&indices) {
        let n = normals[face.normal_index as usize + 1];
        let light = (1.0 / (n.x + n.y + n.z).clamp(0.1, 1.0)) as u8;
        let color = face_pixel(0x00FF00, light.max(1));

        let mut verts = Vec::new();
        for idx in face.vertex_indices.iter() {
            let pv = project(&cam, positions[*idx as usize]);
            assert!(pv.depth_ok);
            assert!(pv.x >= 0 && pv.x < 100);
            assert!(pv.y >= 0 && pv.y < 100);
            verts.push(pv);
        }
        assert!(surface.draw_face_outline(&verts, color));
        faces += 1;
    }
    assert_eq!(faces, 1);

    // the wireframe's bounding box is centred in the buffer
    let data = surface.get_data();
    let (mut min_x, mut max_x, mut min_y, mut max_y) = (100usize, 0usize, 100usize, 0usize);
    let mut count = 0;
    for y in 0..100 {
        for x in 0..100 {
            if data[y * 100 + x] != OPAQUE_BLACK {
                min_x = min_x.min(x);
                max_x = max_x.max(x);
                min_y = min_y.min(y);
                max_y = max_y.max(y);
                count += 1;
            }
        }
    }
    assert!(count > 0);
    let cx = (min_x + max_x) as f32 / 2.0;
    let cy = (min_y + max_y) as f32 / 2.0;
    assert!((cx - 49.5).abs() <= 5.0, "centre x {}", cx);
    assert!((cy - 49.5).abs() <= 5.0, "centre y {}", cy);
    // flat light 1 leaves the face colour untouched in the stored order
    assert_eq!(face_pixel(0x00FF00, 1), 0x00FF0000);
}
