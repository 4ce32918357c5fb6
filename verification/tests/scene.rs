use bresenhams_algorithm::{Circle, Figure, Line, Scene, Vector, WIDTH};

fn is_red(buf: &Vec<u8>, x: usize, y: usize) -> bool {
    let i = 4 * (y * WIDTH + x);
    buf[i] == 255 && buf[i + 1] == 0 && buf[i + 2] == 0 && buf[i + 3] == 255
}

fn is_black(buf: &Vec<u8>, x: usize, y: usize) -> bool {
    let i = 4 * (y * WIDTH + x);
    buf[i] == 0 && buf[i + 1] == 0 && buf[i + 2] == 0 && buf[i + 3] == 255
}

#[test]
fn scene_occlusion_last_figure_wins() {
    let mut scene = Scene::new();
    // A: horizontal line through (15, 10); B: vertical line through (15, 10)
    scene.push(Figure::Line(Line::new(Vector::new(10, 10), Vector::new(20, 10))));
    scene.push(Figure::Line(Line::new(Vector::new(15, 5), Vector::new(15, 15))));
    scene.render();
    // the pixel covered by both figures shows the later figure's color
    assert!(is_red(&scene.screen, 15, 10));
    assert!(is_red(&scene.screen, 10, 10));
    assert!(is_red(&scene.screen, 15, 5));
    assert!(is_black(&scene.screen, 0, 0));
}

#[test]
fn scene_render_clears_previous_frame() {
    let mut scene = Scene::new();
    scene.push(Figure::Circle(Circle::new(Vector::new(50, 50), 10)));
    scene.render();
    assert!(is_red(&scene.screen, 50, 60));
    scene.clear();
    assert_eq!(scene.scene.len(), 0);
    // the canvas still shows the old frame until the next render
    assert!(is_red(&scene.screen, 50, 60));
    scene.render();
    assert!(is_black(&scene.screen, 50, 60));
}

#[test]
fn scene_push_keeps_order() {
    let mut scene = Scene::new();
    assert_eq!(scene.scene.len(), 0);
    scene.push(Figure::Line(Line::new(Vector::new(0, 0), Vector::new(1, 1))));
    scene.push(Figure::Circle(Circle::new(Vector::new(9, 9), 3)));
    assert_eq!(scene.scene.len(), 2);
    assert!(matches!(scene.scene[0], Figure::Line(_)));
    assert!(matches!(scene.scene[1], Figure::Circle(_)));
}

#[test]
fn scene_figure_endpoint_adjusts_last() {
    let mut scene = Scene::new();
    scene.push(Figure::Line(Line::new(Vector::new(2, 2), Vector::new(2, 2))));
    let last = scene.scene.len() - 1;
    scene.scene[last].endpoint(Vector::new(8, 3));
    match &scene.scene[last] {
        Figure::Line(l) => {
            assert_eq!((l.start.x, l.start.y), (2, 2));
            assert_eq!((l.end.x, l.end.y), (8, 3));
        }
        _ => panic!("expected a line"),
    }
}
