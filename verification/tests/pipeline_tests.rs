use cgmath::{Euler, InnerSpace, Matrix3, Matrix4, Point3, Rad, Vector3};

use soft_renderer::bitmap::pixel_format::Rgb24;
use soft_renderer::device::{Device, ScreenTriangle};
use soft_renderer::frame::FARTHEST;
use soft_renderer::mesh::{Face, Mesh};
use soft_renderer::rect::Point;

const WIDTH: u32 = 640;
const HEIGHT: u32 = 480;

fn unit_cube() -> Mesh<[f64; 3]> {
    Mesh::new(
        "cube",
        vec![
            [-1.0, 1.0, 1.0],
            [1.0, 1.0, 1.0],
            [-1.0, -1.0, 1.0],
            [1.0, -1.0, 1.0],
            [-1.0, 1.0, -1.0],
            [1.0, 1.0, -1.0],
            [1.0, -1.0, -1.0],
            [-1.0, -1.0, -1.0],
        ],
        vec![
            Face::new(0, 1, 2),
            Face::new(1, 2, 3),
            Face::new(1, 3, 6),
            Face::new(1, 5, 6),
            Face::new(0, 1, 4),
            Face::new(1, 4, 5),
            Face::new(2, 3, 7),
            Face::new(3, 6, 7),
            Face::new(0, 2, 7),
            Face::new(0, 4, 7),
            Face::new(4, 5, 6),
            Face::new(4, 6, 7),
        ],
    )
}

fn project(vertex: [f64; 3], mat: Matrix4<f64>) -> Point {
    let point = mat * Vector3::from(vertex).extend(1.0);
    let width = WIDTH as f64;
    let height = HEIGHT as f64;
    Point::new(
        (point.x * width + width / 2.0) as i32,
        (-point.y * height + height / 2.0) as i32,
    )
}

fn screen_triangles(mesh: &Mesh<[f64; 3]>, eye: Point3<f64>) -> Vec<ScreenTriangle> {
    let view = Matrix4::look_at_rh(eye, Point3::new(0.0, 0.0, 0.0), Vector3::unit_y());
    let projection = cgmath::perspective(Rad(2.0), WIDTH as f64 / HEIGHT as f64, 0.01, 1.0);
    let world = Matrix4::from_translation(Vector3::from(mesh.position))
        * Matrix4::from(Matrix3::from(Euler::new(
            Rad(mesh.rotation[0]),
            Rad(mesh.rotation[1]),
            Rad(mesh.rotation[2]),
        )));
    let mat = projection * view * world;
    let light = Vector3::new(-1.0, -1.0, -1.0).normalize();
    mesh.faces
        .iter()
        .map(|face| {
            let a = Vector3::from(mesh.vertices[face.a]);
            let b = Vector3::from(mesh.vertices[face.b]);
            let c = Vector3::from(mesh.vertices[face.c]);
            let intensity = ((c - a).cross(b - a).normalize().dot(light) * 255.0) as u8;
            ScreenTriangle {
                a: project(mesh.vertices[face.a], mat),
                b: project(mesh.vertices[face.b], mat),
                c: project(mesh.vertices[face.c], mat),
                depth: 0,
                color: Rgb24::from((intensity, intensity, intensity)),
            }
        })
        .collect()
}

#[test]
fn unit_cube_is_centered_and_symmetric() {
    let mesh = unit_cube();
    assert!(mesh.is_well_formed());
    let triangles = screen_triangles(&mesh, Point3::new(0.0, 0.0, 10.0));
    assert_eq!(triangles.len(), 12);

    let mut device = Device::new(WIDTH, HEIGHT);
    device.clear(Rgb24 { r: 0, g: 0, b: 128 });
    device.render(&triangles);

    let drawn = |x: u32, y: u32| device.depth_buffer().get_pixel(x, y) != FARTHEST;
    let mut left = WIDTH;
    let mut right = 0;
    let mut top = HEIGHT;
    let mut bottom = 0;
    let mut count = 0u32;
    for y in 0..HEIGHT {
        for x in 0..WIDTH {
            if drawn(x, y) {
                left = left.min(x);
                right = right.max(x);
                top = top.min(y);
                bottom = bottom.max(y);
                count += 1;
            }
        }
    }
    assert!(count > 0, "nothing was drawn");

    // centered: the silhouette leaves the same margin on opposite sides
    let margin_left = left as i64;
    let margin_right = (WIDTH - 1 - right) as i64;
    let margin_top = top as i64;
    let margin_bottom = (HEIGHT - 1 - bottom) as i64;
    assert!((margin_left - margin_right).abs() <= 1, "{} and {}", margin_left, margin_right);
    assert!((margin_top - margin_bottom).abs() <= 1, "{} and {}", margin_top, margin_bottom);

    // symmetric: away from its rim, the silhouette mirrors onto itself
    for y in top + 1..bottom {
        for x in left + 1..right {
            if drawn(x, y) {
                assert!(drawn(WIDTH - 1 - x, y), "({}, {}) has no mirror in x", x, y);
                assert!(drawn(x, HEIGHT - 1 - y), "({}, {}) has no mirror in y", x, y);
            }
        }
    }

    // the cube covers the middle of the frame
    assert!(drawn(WIDTH / 2, HEIGHT / 2));
    assert!(left < WIDTH / 4 && right > 3 * WIDTH / 4);
}

#[test]
fn projected_corners_mirror_each_other() {
    let mesh = unit_cube();
    let triangles = screen_triangles(&mesh, Point3::new(0.0, 0.0, 10.0));
    let front = triangles[0];
    // vertices 0, 1 and 2: top left, top right and bottom left of the front face
    assert_eq!(front.a.y, front.b.y);
    assert_eq!(front.a.x, front.c.x);
    assert!(((front.a.x + front.b.x) - WIDTH as i32).abs() <= 1);
    assert!(((front.a.y + front.c.y) - HEIGHT as i32).abs() <= 1);
}
