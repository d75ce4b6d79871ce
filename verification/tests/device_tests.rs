use soft_renderer::bitmap::pixel_format::Rgb24;
use soft_renderer::device::{Device, EventPumpAction, InputEvent, ScreenTriangle};
use soft_renderer::frame::FARTHEST;
use soft_renderer::rect::Point;

const BLACK: Rgb24 = Rgb24 { r: 0, g: 0, b: 0 };
const BLUE: Rgb24 = Rgb24 { r: 0, g: 0, b: 128 };
const RED: Rgb24 = Rgb24 { r: 255, g: 0, b: 0 };
const GREEN: Rgb24 = Rgb24 { r: 0, g: 255, b: 0 };

fn cleared(width: u32, height: u32) -> Device {
    let mut d = Device::new(width, height);
    d.clear(BLACK);
    d
}

fn colored(d: &Device, color: Rgb24) -> Vec<(u32, u32)> {
    let mut found = Vec::new();
    for y in 0..d.height() as u32 {
        for x in 0..d.width() as u32 {
            if d.back_buffer().get_pixel(x, y) == color {
                found.push((x, y));
            }
        }
    }
    found
}

#[test]
fn new_device_has_the_given_size() {
    let d = Device::new(640, 480);
    assert_eq!(d.width(), 640);
    assert_eq!(d.height(), 480);
    assert_eq!(d.back_buffer().slice().len(), 640 * 480);
    assert_eq!(d.depth_buffer().slice().len(), 640 * 480);
    assert!(d.back_buffer().slice().iter().all(|&c| c == BLACK));
    assert!(d.depth_buffer().slice().iter().all(|&z| z == 0));
}

#[test]
fn clear_is_total() {
    for &(w, h) in [(1u32, 1u32), (3, 2), (2, 5), (17, 9)].iter() {
        let mut d = Device::new(w, h);
        d.set_pixel(Point::new(0, 0), -5, RED);
        d.clear(BLUE);
        assert_eq!(d.back_buffer().slice().len(), (w * h) as usize);
        assert!(d.back_buffer().slice().iter().all(|&c| c == BLUE));
        assert!(d.depth_buffer().slice().iter().all(|&z| z == FARTHEST));
        assert_eq!(d.width(), w as i32);
        assert_eq!(d.height(), h as i32);
    }
}

#[test]
fn farthest_is_the_largest_depth() {
    assert_eq!(FARTHEST, i64::MAX);
}

#[test]
fn set_pixel_writes_color_and_depth() {
    let mut d = cleared(4, 3);
    d.set_pixel(Point::new(2, 1), 10, RED);
    assert_eq!(d.back_buffer().get_pixel(2, 1), RED);
    assert_eq!(d.depth_buffer().get_pixel(2, 1), 10);
    assert_eq!(colored(&d, RED), vec![(2, 1)]);
    assert_eq!(d.depth_buffer().slice().iter().filter(|&&z| z != FARTHEST).count(), 1);
}

#[test]
fn set_pixel_outside_the_frame_is_ignored() {
    let mut d = cleared(4, 3);
    for &(x, y) in [(-1, 0), (0, -1), (4, 0), (0, 3), (4, 3), (i32::MAX, i32::MAX), (i32::MIN, 0)]
        .iter()
    {
        d.set_pixel(Point::new(x, y), 0, RED);
    }
    assert!(d.back_buffer().slice().iter().all(|&c| c == BLACK));
    assert!(d.depth_buffer().slice().iter().all(|&z| z == FARTHEST));
}

#[test]
fn drawing_the_same_pixel_twice_changes_nothing() {
    let mut d = cleared(4, 3);
    d.set_pixel(Point::new(1, 1), 7, RED);
    let colors: Vec<Rgb24> = d.back_buffer().slice().to_vec();
    let depths: Vec<i64> = d.depth_buffer().slice().to_vec();
    d.set_pixel(Point::new(1, 1), 7, RED);
    assert_eq!(d.back_buffer().slice(), &colors[..]);
    assert_eq!(d.depth_buffer().slice(), &depths[..]);
}

#[test]
fn a_farther_draw_does_not_overwrite_a_nearer_one() {
    let mut d = cleared(4, 3);
    d.set_pixel(Point::new(3, 2), 5, RED);
    d.set_pixel(Point::new(3, 2), 6, GREEN);
    assert_eq!(d.back_buffer().get_pixel(3, 2), RED);
    assert_eq!(d.depth_buffer().get_pixel(3, 2), 5);
}

#[test]
fn a_nearer_draw_overwrites_a_farther_one() {
    let mut d = cleared(4, 3);
    d.set_pixel(Point::new(3, 2), 6, GREEN);
    d.set_pixel(Point::new(3, 2), 5, RED);
    assert_eq!(d.back_buffer().get_pixel(3, 2), RED);
    assert_eq!(d.depth_buffer().get_pixel(3, 2), 5);
}

#[test]
fn an_equal_depth_overwrites() {
    let mut d = cleared(4, 3);
    d.set_pixel(Point::new(0, 0), 5, GREEN);
    d.set_pixel(Point::new(0, 0), 5, RED);
    assert_eq!(d.back_buffer().get_pixel(0, 0), RED);
    assert_eq!(d.depth_buffer().get_pixel(0, 0), 5);
}

#[test]
fn depth_of_a_new_device_is_zero_until_cleared() {
    let mut d = Device::new(2, 2);
    d.set_pixel(Point::new(0, 0), 1, RED);
    assert_eq!(d.back_buffer().get_pixel(0, 0), BLACK);
    d.set_pixel(Point::new(0, 0), 0, RED);
    assert_eq!(d.back_buffer().get_pixel(0, 0), RED);
    d.set_pixel(Point::new(1, 1), -1, GREEN);
    assert_eq!(d.back_buffer().get_pixel(1, 1), GREEN);
}

#[test]
fn horizontal_line_draws_five_pixels() {
    let mut d = cleared(8, 8);
    d.draw_line(Point::new(0, 0), Point::new(4, 0), 0, RED);
    assert_eq!(colored(&d, RED), vec![(0, 0), (1, 0), (2, 0), (3, 0), (4, 0)]);
}

#[test]
fn diagonal_line_draws_five_rising_pixels() {
    let mut d = cleared(8, 8);
    d.draw_line(Point::new(0, 0), Point::new(4, 4), 0, RED);
    assert_eq!(colored(&d, RED), vec![(0, 0), (1, 1), (2, 2), (3, 3), (4, 4)]);
}

#[test]
fn line_is_the_same_from_either_end() {
    let ends = [
        (Point::new(0, 0), Point::new(6, 2)),
        (Point::new(1, 7), Point::new(5, 0)),
        (Point::new(7, 7), Point::new(0, 3)),
        (Point::new(2, 1), Point::new(2, 6)),
    ];
    for &(p, q) in ends.iter() {
        let mut a = cleared(8, 8);
        let mut b = cleared(8, 8);
        a.draw_line(p, q, 0, RED);
        b.draw_line(q, p, 0, RED);
        assert_eq!(colored(&a, RED), colored(&b, RED));
    }
}

#[test]
fn shallow_line_steps_to_the_nearest_row() {
    let mut d = cleared(8, 8);
    d.draw_line(Point::new(0, 0), Point::new(4, 2), 0, RED);
    assert_eq!(colored(&d, RED), vec![(0, 0), (1, 0), (2, 1), (3, 1), (4, 2)]);
}

#[test]
fn falling_line_steps_down() {
    let mut d = cleared(8, 8);
    d.draw_line(Point::new(0, 4), Point::new(6, 1), 0, RED);
    assert_eq!(colored(&d, RED), vec![(6, 1), (4, 2), (5, 2), (2, 3), (3, 3), (0, 4), (1, 4)]);
}

#[test]
fn steep_line_has_one_pixel_in_each_row() {
    let mut d = cleared(8, 8);
    d.draw_line(Point::new(1, 0), Point::new(3, 6), 0, RED);
    assert_eq!(
        colored(&d, RED),
        vec![(1, 0), (1, 1), (2, 2), (2, 3), (2, 4), (3, 5), (3, 6)]
    );
}

#[test]
fn line_moves_one_pixel_per_step() {
    let ends = [
        (Point::new(0, 0), Point::new(15, 6)),
        (Point::new(15, 2), Point::new(0, 13)),
        (Point::new(3, 0), Point::new(9, 15)),
        (Point::new(14, 15), Point::new(11, 0)),
        (Point::new(0, 7), Point::new(15, 7)),
        (Point::new(7, 0), Point::new(7, 15)),
        (Point::new(0, 0), Point::new(15, 15)),
        (Point::new(0, 15), Point::new(15, 0)),
    ];
    for &(p, q) in ends.iter() {
        let mut d = cleared(16, 16);
        d.draw_line(p, q, 0, RED);
        let pixels = colored(&d, RED);
        let dx = (p.x - q.x).abs();
        let dy = (p.y - q.y).abs();
        // one pixel for each step along the longer axis
        assert_eq!(pixels.len() as i32, dx.max(dy) + 1);
        assert!(pixels.contains(&(p.x as u32, p.y as u32)));
        assert!(pixels.contains(&(q.x as u32, q.y as u32)));
        // every pixel but the ends has two neighbours on the line
        for &(x, y) in pixels.iter() {
            let near = pixels
                .iter()
                .filter(|&&(a, b)| {
                    (a, b) != (x, y)
                        && (a as i32 - x as i32).abs() <= 1
                        && (b as i32 - y as i32).abs() <= 1
                })
                .count();
            let is_end = (x as i32, y as i32) == (p.x, p.y) || (x as i32, y as i32) == (q.x, q.y);
            assert!(near >= if is_end { 1 } else { 2 }, "({}, {}) from {:?} to {:?}", x, y, p, q);
        }
    }
}

#[test]
fn triangle_fill_draws_the_closed_triangle() {
    let a = Point::new(2, 1);
    let b = Point::new(13, 5);
    let c = Point::new(6, 14);
    let mut d = cleared(16, 16);
    d.draw_triangle(a, b, c, 0, RED);
    for y in 0..16 {
        for x in 0..16 {
            let p = Point::new(x, y);
            let s = [side(a, b, p), side(b, c, p), side(c, a, p)];
            let strictly_inside = s.iter().all(|&v| v > 0) || s.iter().all(|&v| v < 0);
            let strictly_outside = s.iter().any(|&v| v > 0) && s.iter().any(|&v| v < 0);
            let color = d.back_buffer().get_pixel(x as u32, y as u32);
            if strictly_outside {
                assert_eq!(color, BLACK, "({}, {})", x, y);
            } else {
                // inside or on the boundary
                assert_eq!(color, RED, "({}, {})", x, y);
            }
            assert!(strictly_outside || !strictly_inside || color == RED);
        }
    }
}

#[test]
fn line_of_one_point() {
    let mut d = cleared(4, 4);
    d.draw_line(Point::new(2, 3), Point::new(2, 3), 0, RED);
    assert_eq!(colored(&d, RED), vec![(2, 3)]);
}

#[test]
fn line_is_clipped_to_the_frame() {
    let mut d = cleared(4, 4);
    d.draw_line(Point::new(-3, 1), Point::new(9, 1), 0, RED);
    assert_eq!(colored(&d, RED), vec![(0, 1), (1, 1), (2, 1), (3, 1)]);
    let mut d = cleared(4, 4);
    d.draw_line(Point::new(-2, -2), Point::new(5, 5), 0, RED);
    assert_eq!(colored(&d, RED), vec![(0, 0), (1, 1), (2, 2), (3, 3)]);
}

#[test]
fn line_is_depth_tested() {
    let mut d = cleared(5, 1);
    d.set_pixel(Point::new(2, 0), 1, GREEN);
    d.draw_line(Point::new(0, 0), Point::new(4, 0), 3, RED);
    assert_eq!(colored(&d, RED), vec![(0, 0), (1, 0), (3, 0), (4, 0)]);
    assert_eq!(d.back_buffer().get_pixel(2, 0), GREEN);
    assert_eq!(d.depth_buffer().slice(), &[3i64, 3, 1, 3, 3][..]);
}

#[test]
fn inside_test_on_a_right_triangle() {
    let a = Point::new(0, 0);
    let b = Point::new(10, 0);
    let c = Point::new(0, 10);
    // strictly inside
    assert!(Device::is_inside_triangle(Point::new(1, 1), a, b, c));
    assert!(Device::is_inside_triangle(Point::new(4, 5), a, b, c));
    // strictly outside
    assert!(!Device::is_inside_triangle(Point::new(6, 5), a, b, c));
    assert!(!Device::is_inside_triangle(Point::new(-1, 3), a, b, c));
    assert!(!Device::is_inside_triangle(Point::new(3, -1), a, b, c));
    assert!(!Device::is_inside_triangle(Point::new(11, 0), a, b, c));
    // on the boundary: edges and vertices belong to the triangle
    assert!(Device::is_inside_triangle(Point::new(5, 5), a, b, c));
    assert!(Device::is_inside_triangle(Point::new(5, 0), a, b, c));
    assert!(Device::is_inside_triangle(Point::new(0, 5), a, b, c));
    assert!(Device::is_inside_triangle(a, a, b, c));
    assert!(Device::is_inside_triangle(b, a, b, c));
    assert!(Device::is_inside_triangle(c, a, b, c));
}

#[test]
fn inside_test_ignores_the_winding() {
    let a = Point::new(2, 1);
    let b = Point::new(9, 3);
    let c = Point::new(4, 8);
    for y in -2..12 {
        for x in -2..12 {
            let p = Point::new(x, y);
            let r = Device::is_inside_triangle(p, a, b, c);
            assert_eq!(r, Device::is_inside_triangle(p, a, c, b));
            assert_eq!(r, Device::is_inside_triangle(p, b, c, a));
            assert_eq!(r, Device::is_inside_triangle(p, c, b, a));
        }
    }
}

#[test]
fn degenerate_triangle_covers_nothing() {
    let a = Point::new(0, 0);
    let b = Point::new(5, 5);
    let c = Point::new(10, 10);
    for y in -1..12 {
        for x in -1..12 {
            assert!(!Device::is_inside_triangle(Point::new(x, y), a, b, c));
            assert!(!Device::is_inside_triangle(Point::new(x, y), a, a, a));
            assert!(!Device::is_inside_triangle(Point::new(x, y), a, a, b));
        }
    }
}

#[test]
fn inside_test_on_extreme_coordinates() {
    let a = Point::new(i32::MIN, i32::MIN);
    let b = Point::new(i32::MAX, i32::MIN);
    let c = Point::new(i32::MIN, i32::MAX);
    assert!(Device::is_inside_triangle(Point::new(0, -1), a, b, c));
    assert!(Device::is_inside_triangle(Point::new(-1, -1), a, b, c));
    assert!(!Device::is_inside_triangle(Point::new(0, 0), a, b, c));
    assert!(!Device::is_inside_triangle(Point::new(i32::MAX, i32::MAX), a, b, c));
    assert!(Device::is_inside_triangle(a, a, b, c));
}

/// The sign of twice the area of `(a, b, c)`.
fn side(a: Point, b: Point, c: Point) -> i64 {
    let v = (b.x as i64 - a.x as i64) * (c.y as i64 - a.y as i64)
        - (b.y as i64 - a.y as i64) * (c.x as i64 - a.x as i64);
    v.signum()
}

/// A scan that decides coverage from the three edges alone.
fn reference_covers(p: Point, a: Point, b: Point, c: Point) -> bool {
    let s = [side(a, b, p), side(b, c, p), side(c, a, p)];
    side(a, b, c) != 0 && (s.iter().all(|&v| v >= 0) || s.iter().all(|&v| v <= 0))
}

#[test]
fn inside_test_matches_a_reference_scan() {
    let triangles = [
        (Point::new(1, 1), Point::new(12, 4), Point::new(5, 13)),
        (Point::new(0, 0), Point::new(0, 9), Point::new(9, 0)),
        (Point::new(-3, 7), Point::new(15, 7), Point::new(6, -2)),
        (Point::new(3, 3), Point::new(4, 3), Point::new(3, 4)),
        (Point::new(2, 2), Point::new(8, 8), Point::new(5, 5)),
    ];
    for &(a, b, c) in triangles.iter() {
        for y in -5..18 {
            for x in -5..18 {
                let p = Point::new(x, y);
                assert_eq!(
                    Device::is_inside_triangle(p, a, b, c),
                    reference_covers(p, a, b, c),
                    "{:?} in {:?} {:?} {:?}",
                    p,
                    a,
                    b,
                    c
                );
            }
        }
    }
}

#[test]
fn triangle_fill_matches_a_reference_scan() {
    let triangles = [
        (Point::new(1, 1), Point::new(12, 4), Point::new(5, 13)),
        (Point::new(-3, 7), Point::new(15, 7), Point::new(6, -2)),
        (Point::new(10, 70), Point::new(50, 160), Point::new(70, 80)),
        (Point::new(-30, -30), Point::new(-10, -5), Point::new(-20, -1)),
    ];
    for &(a, b, c) in triangles.iter() {
        let mut d = cleared(16, 16);
        d.draw_triangle(a, b, c, 0, RED);
        for y in 0..16 {
            for x in 0..16 {
                let expected = reference_covers(Point::new(x, y), a, b, c);
                let color = d.back_buffer().get_pixel(x as u32, y as u32);
                assert_eq!(color == RED, expected, "pixel ({}, {})", x, y);
                let depth = d.depth_buffer().get_pixel(x as u32, y as u32);
                assert_eq!(depth, if expected { 0 } else { FARTHEST });
            }
        }
    }
}

#[test]
fn small_triangle_fill_is_exact() {
    let mut d = cleared(6, 6);
    d.draw_triangle(Point::new(0, 0), Point::new(4, 0), Point::new(0, 4), 0, RED);
    assert_eq!(
        colored(&d, RED),
        vec![
            (0, 0), (1, 0), (2, 0), (3, 0), (4, 0),
            (0, 1), (1, 1), (2, 1), (3, 1),
            (0, 2), (1, 2), (2, 2),
            (0, 3), (1, 3),
            (0, 4),
        ]
    );
}

#[test]
fn triangle_fill_draws_edges_and_vertices() {
    let white = Rgb24 { r: 255, g: 255, b: 255 };
    let mut d = cleared(8, 8);
    d.draw_triangle(Point::new(0, 0), Point::new(4, 0), Point::new(0, 4), 0, white);
    for y in 0..8u32 {
        for x in 0..8u32 {
            let expected = if x + y <= 4 { white } else { BLACK };
            assert_eq!(d.back_buffer().get_pixel(x, y), expected, "pixel ({}, {})", x, y);
        }
    }
    assert_eq!(colored(&d, white).len(), 15);
    assert_eq!(d.back_buffer().get_pixel(4, 0), white);
    assert_eq!(d.back_buffer().get_pixel(0, 4), white);
}

#[test]
fn triangle_fill_keeps_a_vertical_and_a_horizontal_edge() {
    // the right edge is vertical and the bottom edge is horizontal
    let mut d = cleared(8, 8);
    d.draw_triangle(Point::new(5, 1), Point::new(5, 6), Point::new(1, 6), 0, RED);
    for y in 1..=6u32 {
        assert_eq!(d.back_buffer().get_pixel(5, y), RED, "right edge at row {}", y);
    }
    for x in 1..=5u32 {
        assert_eq!(d.back_buffer().get_pixel(x, 6), RED, "bottom edge at column {}", x);
    }
    // rows 1 to 6 hold 1, 1, 2, 3, 4 and 5 pixels
    assert_eq!(colored(&d, RED).len(), 16);
}

#[test]
fn triangle_fill_stops_at_the_frame() {
    // two vertices lie one pixel beyond the last column and the last row
    let mut d = cleared(4, 4);
    d.draw_triangle(Point::new(0, 0), Point::new(4, 0), Point::new(0, 4), 0, RED);
    let mut expected = Vec::new();
    for y in 0..4u32 {
        for x in 0..4u32 {
            if x + y <= 4 {
                expected.push((x, y));
            }
        }
    }
    assert_eq!(colored(&d, RED), expected);
    assert_eq!(expected.len(), 13);

    let mut d = cleared(4, 4);
    d.draw_triangle(Point::new(-2, -2), Point::new(9, -2), Point::new(-2, 9), 0, RED);
    assert_eq!(colored(&d, RED).len(), 16);
}

#[test]
fn triangle_off_the_frame_draws_nothing() {
    let mut d = cleared(8, 8);
    d.draw_triangle(Point::new(20, 20), Point::new(30, 20), Point::new(20, 30), 0, RED);
    d.draw_triangle(Point::new(-20, 0), Point::new(-10, 0), Point::new(-20, 5), 0, RED);
    assert!(colored(&d, RED).is_empty());
    assert!(d.depth_buffer().slice().iter().all(|&z| z == FARTHEST));
}

#[test]
fn triangle_without_area_draws_nothing() {
    let mut d = cleared(8, 8);
    d.draw_triangle(Point::new(0, 0), Point::new(3, 3), Point::new(6, 6), 0, RED);
    d.draw_triangle(Point::new(2, 2), Point::new(2, 2), Point::new(2, 2), 0, RED);
    assert!(colored(&d, RED).is_empty());
}

#[test]
fn triangle_fill_is_depth_tested() {
    let mut d = cleared(6, 6);
    d.draw_triangle(Point::new(0, 0), Point::new(5, 0), Point::new(0, 5), 2, RED);
    d.draw_triangle(Point::new(0, 0), Point::new(5, 0), Point::new(0, 5), 3, GREEN);
    assert!(colored(&d, GREEN).is_empty());
    assert_eq!(colored(&d, RED).len(), 21);
    d.draw_triangle(Point::new(0, 0), Point::new(5, 0), Point::new(0, 5), 1, GREEN);
    assert!(colored(&d, RED).is_empty());
    assert_eq!(colored(&d, GREEN).len(), 21);
}

#[test]
fn render_fills_in_order() {
    let near = ScreenTriangle {
        a: Point::new(0, 0),
        b: Point::new(4, 0),
        c: Point::new(0, 4),
        depth: 1,
        color: RED,
    };
    let far = ScreenTriangle {
        a: Point::new(0, 0),
        b: Point::new(6, 0),
        c: Point::new(0, 6),
        depth: 5,
        color: GREEN,
    };
    let mut first = cleared(8, 8);
    first.render(&vec![near, far]);
    let mut second = cleared(8, 8);
    second.render(&vec![far, near]);
    assert_eq!(first.back_buffer().slice(), second.back_buffer().slice());
    assert_eq!(first.depth_buffer().slice(), second.depth_buffer().slice());
    assert_eq!(colored(&first, RED).len(), 15);
    assert_eq!(colored(&first, GREEN).len(), 28 - 15);

    let mut by_hand = cleared(8, 8);
    by_hand.draw_triangle(near.a, near.b, near.c, near.depth, near.color);
    by_hand.draw_triangle(far.a, far.b, far.c, far.depth, far.color);
    assert_eq!(first.back_buffer().slice(), by_hand.back_buffer().slice());
}

#[test]
fn render_of_nothing_changes_nothing() {
    let mut d = cleared(3, 3);
    d.render(&Vec::new());
    assert!(d.back_buffer().slice().iter().all(|&c| c == BLACK));
}

#[test]
fn same_depth_lets_the_later_triangle_win() {
    let t = |color| ScreenTriangle {
        a: Point::new(0, 0),
        b: Point::new(4, 0),
        c: Point::new(0, 4),
        depth: 0,
        color,
    };
    let mut d = cleared(8, 8);
    d.render(&vec![t(RED), t(GREEN)]);
    assert!(colored(&d, RED).is_empty());
    assert_eq!(colored(&d, GREEN).len(), 15);
}

#[test]
fn present_packs_the_color_bytes() {
    let mut d = cleared(2, 2);
    d.set_pixel(Point::new(1, 0), 0, Rgb24 { r: 1, g: 2, b: 3 });
    d.set_pixel(Point::new(0, 1), 0, Rgb24 { r: 4, g: 5, b: 6 });
    let mut texture = vec![9u8; 40];
    d.present(&mut texture);
    assert_eq!(texture, vec![0, 0, 0, 1, 2, 3, 4, 5, 6, 0, 0, 0]);
}

#[test]
fn copy_bitmap_to_texture_replaces_the_old_bytes() {
    let mut d = Device::new(1, 1);
    d.clear(Rgb24 { r: 7, g: 8, b: 9 });
    let mut texture = Vec::new();
    Device::copy_bitmap_to_texture(d.back_buffer(), &mut texture);
    assert_eq!(texture, vec![7, 8, 9]);
    Device::copy_bitmap_to_texture(d.back_buffer(), &mut texture);
    assert_eq!(texture, vec![7, 8, 9]);
}

#[test]
fn poll_events_quits_on_close_and_on_escape() {
    assert_eq!(Device::poll_events(&[]), EventPumpAction::Continue);
    assert_eq!(Device::poll_events(&[InputEvent::Other]), EventPumpAction::Continue);
    assert_eq!(Device::poll_events(&[InputEvent::Quit]), EventPumpAction::Quit);
    assert_eq!(Device::poll_events(&[InputEvent::EscapeKeyDown]), EventPumpAction::Quit);
    assert_eq!(
        Device::poll_events(&[InputEvent::Other, InputEvent::Other, InputEvent::EscapeKeyDown]),
        EventPumpAction::Quit
    );
    assert_eq!(
        Device::poll_events(&[InputEvent::Quit, InputEvent::Other]),
        EventPumpAction::Quit
    );
}
