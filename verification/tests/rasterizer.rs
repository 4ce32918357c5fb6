use bresenhams_algorithm::{Circle, Color, Ellipse, Line, Vector, HEIGHT, WIDTH};
use bresenhams_algorithm::canvas::SCREEN_LEN;
use bresenhams_algorithm::Scene;

fn fresh() -> Vec<u8> {
    vec![0u8; SCREEN_LEN]
}

fn is_red(buf: &Vec<u8>, x: usize, y: usize) -> bool {
    let i = 4 * (y * WIDTH + x);
    buf[i] == 255 && buf[i + 1] == 0 && buf[i + 2] == 0 && buf[i + 3] == 255
}

fn red_count(buf: &Vec<u8>) -> usize {
    let mut n = 0;
    for y in 0..HEIGHT {
        for x in 0..WIDTH {
            if is_red(buf, x, y) {
                n += 1;
            }
        }
    }
    n
}

#[test]
fn line_diagonal_scenario() {
    let mut buf = fresh();
    Line::new(Vector::new(0, 0), Vector::new(2, 2)).draw(&mut buf);
    assert!(is_red(&buf, 0, 0));
    assert!(is_red(&buf, 1, 1));
    assert!(is_red(&buf, 2, 2));
    assert_eq!(red_count(&buf), 3);
}

#[test]
fn line_endpoints_and_cardinality() {
    let mut buf = fresh();
    Line::new(Vector::new(3, 7), Vector::new(10, 9)).draw(&mut buf);
    assert!(is_red(&buf, 3, 7));
    assert!(is_red(&buf, 10, 9));
    assert_eq!(red_count(&buf), 8);
}

#[test]
fn line_eight_connected() {
    let mut buf = fresh();
    Line::new(Vector::new(5, 5), Vector::new(17, 9)).draw(&mut buf);
    // every drawn pixel other than the endpoints touches two drawn pixels
    for y in 1..(HEIGHT - 1) {
        for x in 1..(WIDTH - 1) {
            if is_red(&buf, x, y) {
                let mut neighbors = 0;
                for dy in 0..3usize {
                    for dx in 0..3usize {
                        if (dx, dy) != (1, 1) && is_red(&buf, x + dx - 1, y + dy - 1) {
                            neighbors += 1;
                        }
                    }
                }
                let endpoint = (x, y) == (5, 5) || (x, y) == (17, 9);
                if endpoint {
                    assert!(neighbors >= 1);
                } else {
                    assert!(neighbors >= 2);
                }
            }
        }
    }
}

#[test]
fn line_single_point() {
    let mut buf = fresh();
    Line::new(Vector::new(40, 41), Vector::new(40, 41)).draw(&mut buf);
    assert!(is_red(&buf, 40, 41));
    assert_eq!(red_count(&buf), 1);
}

#[test]
fn line_reverse_horizontal() {
    let mut fwd = fresh();
    let mut rev = fresh();
    Line::new(Vector::new(4, 9), Vector::new(30, 9)).draw(&mut fwd);
    Line::new(Vector::new(30, 9), Vector::new(4, 9)).draw(&mut rev);
    assert_eq!(fwd, rev);
}

#[test]
fn line_reverse_vertical() {
    let mut fwd = fresh();
    let mut rev = fresh();
    Line::new(Vector::new(12, 3), Vector::new(12, 44)).draw(&mut fwd);
    Line::new(Vector::new(12, 44), Vector::new(12, 3)).draw(&mut rev);
    assert_eq!(fwd, rev);
}

#[test]
fn line_reverse_diagonal() {
    let mut fwd = fresh();
    let mut rev = fresh();
    Line::new(Vector::new(7, 2), Vector::new(27, 22)).draw(&mut fwd);
    Line::new(Vector::new(27, 22), Vector::new(7, 2)).draw(&mut rev);
    assert_eq!(fwd, rev);
}

#[test]
fn circle_scenario() {
    let mut buf = fresh();
    Circle::new(Vector::new(16, 16), 11).draw(&mut buf);
    assert!(is_red(&buf, 16, 27));
    assert!(is_red(&buf, 16, 5));
    assert!(is_red(&buf, 27, 16));
    assert!(is_red(&buf, 5, 16));
}

#[test]
fn circle_ring_distance() {
    let mut buf = fresh();
    let (cx, cy, r) = (100i64, 90i64, 23i64);
    Circle::new(Vector::new(cx as i32, cy as i32), r as i32).draw(&mut buf);
    assert!(red_count(&buf) > 0);
    for y in 0..HEIGHT {
        for x in 0..WIDTH {
            if is_red(&buf, x, y) {
                let dx = x as i64 - cx;
                let dy = y as i64 - cy;
                let d4 = 4 * (dx * dx + dy * dy);
                assert!(d4 < (2 * r + 3) * (2 * r + 3));
                assert!(d4 >= (2 * r - 3) * (2 * r - 3));
            }
        }
    }
}

#[test]
fn circle_eightfold_symmetry() {
    let mut buf = fresh();
    let (cx, cy) = (60usize, 70usize);
    Circle::new(Vector::new(cx as i32, cy as i32), 13).draw(&mut buf);
    for y in 40..100usize {
        for x in 30..90usize {
            if is_red(&buf, x, y) {
                assert!(is_red(&buf, 2 * cx - x, y));
                assert!(is_red(&buf, x, 2 * cy - y));
                assert!(is_red(&buf, cx + (y - cy + 100) - 100, cy + x - cx));
            }
        }
    }
}

#[test]
fn circle_zero_radius() {
    let mut buf = fresh();
    Circle::new(Vector::new(5, 6), 0).draw(&mut buf);
    assert!(is_red(&buf, 5, 6));
    assert_eq!(red_count(&buf), 1);
}

#[test]
fn ellipse_axis_symmetry() {
    let mut buf = fresh();
    let (cx, cy) = (100usize, 100usize);
    Ellipse::new(Vector::new(cx as i32, cy as i32), Vector::new(7, 4)).draw(&mut buf);
    assert!(red_count(&buf) > 0);
    for y in 80..120usize {
        for x in 80..120usize {
            if is_red(&buf, x, y) {
                assert!(is_red(&buf, 2 * cx - x, y));
                assert!(is_red(&buf, x, 2 * cy - y));
            }
        }
    }
}

#[test]
fn ellipse_degenerate_vertical_segment() {
    let mut buf = fresh();
    Ellipse::new(Vector::new(16, 16), Vector::new(0, 5)).draw(&mut buf);
    // exactly the vertical run from (16, 11) to (16, 21): no side columns
    for k in 11..=21usize {
        assert!(is_red(&buf, 16, k));
    }
    assert_eq!(red_count(&buf), 11);
}

#[test]
fn ellipse_degenerate_horizontal_segment() {
    let mut buf = fresh();
    Ellipse::new(Vector::new(16, 16), Vector::new(4, 0)).draw(&mut buf);
    for i in 12..=20usize {
        assert!(is_red(&buf, i, 16));
    }
    assert_eq!(red_count(&buf), 9);
}

#[test]
fn ellipse_degenerate_point() {
    let mut buf = fresh();
    Ellipse::new(Vector::new(16, 16), Vector::new(0, 0)).draw(&mut buf);
    assert!(is_red(&buf, 16, 16));
    assert_eq!(red_count(&buf), 1);
}

#[test]
fn clipping_out_of_canvas_writes() {
    let mut buf = fresh();
    let red = Color::new(255, 0, 0, 255);
    Scene::set_pixel(&Vector::new(-1, 0), red, &mut buf);
    Scene::set_pixel(&Vector::new(WIDTH as i32, 0), red, &mut buf);
    Scene::set_pixel(&Vector::new(0, -1), red, &mut buf);
    Scene::set_pixel(&Vector::new(0, HEIGHT as i32), red, &mut buf);
    assert_eq!(buf, fresh());
}

#[test]
fn clipping_figure_partly_off_canvas() {
    let mut buf = fresh();
    Line::new(Vector::new(-3, 2), Vector::new(2, 2)).draw(&mut buf);
    assert!(is_red(&buf, 0, 2));
    assert!(is_red(&buf, 1, 2));
    assert!(is_red(&buf, 2, 2));
    assert_eq!(red_count(&buf), 3);
}

#[test]
fn set_pixel_writes_channels() {
    let mut buf = fresh();
    Scene::set_pixel(&Vector::new(2, 1), Color::new(9, 8, 7, 6), &mut buf);
    let i = 4 * (WIDTH + 2);
    assert_eq!(&buf[i..i + 4], &[9, 8, 7, 6]);
}

#[test]
fn line_endpoint_rubber_bands() {
    let mut l = Line::new(Vector::new(1, 2), Vector::new(3, 4));
    l.endpoint(Vector::new(30, 40));
    assert_eq!((l.start.x, l.start.y), (1, 2));
    assert_eq!((l.end.x, l.end.y), (30, 40));
}

#[test]
fn circle_endpoint_rounds_distance() {
    let mut c = Circle::new(Vector::new(0, 0), 0);
    c.endpoint(Vector::new(3, 4));
    assert_eq!(c.radius, 5);
    let mut c2 = Circle::new(Vector::new(0, 0), 0);
    c2.endpoint(Vector::new(2, 2));
    // sqrt(8) = 2.828... rounds to 3
    assert_eq!(c2.radius, 3);
    let mut c3 = Circle::new(Vector::new(0, 0), 0);
    c3.endpoint(Vector::new(1, 1));
    // sqrt(2) = 1.414... rounds to 1
    assert_eq!(c3.radius, 1);
}

#[test]
fn ellipse_endpoint_takes_offsets() {
    let mut e = Ellipse::new(Vector::new(10, 10), Vector::new(0, 0));
    e.endpoint(Vector::new(3, 14));
    assert_eq!((e.size.x, e.size.y), (7, 4));
    assert_eq!((e.position.x, e.position.y), (10, 10));
}

#[test]
fn vector_and_color_new() {
    let v = Vector::new(-4, 9);
    assert_eq!((v.x, v.y), (-4, 9));
    let c = Color::new(1, 2, 3, 4);
    assert_eq!((c.red, c.green, c.blue, c.alpha), (1, 2, 3, 4));
}
