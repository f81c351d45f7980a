use canvas::brush::Brush;
use canvas::canvas_image::CanvasImage;
use canvas::color::Rgba;
use canvas::error::CanvasError;
use canvas::image::CanvasImage as StrokeCanvas;
use canvas::point::Point;
use grid::Grid;

const INK: Rgba = Rgba { r: 10, g: 20, b: 30, a: 255 };
const GLAZE: Rgba = Rgba { r: 200, g: 100, b: 50, a: 128 };
const RED: Rgba = Rgba { r: 255, g: 0, b: 0, a: 255 };

fn dot() -> Brush {
    Brush { texture: Grid::from_vec(vec![255u8], 1) }
}

fn pixel(image: &[u8], width: usize, x: usize, y: usize) -> [u8; 4] {
    let at = 4 * (x + y * width);
    [image[at], image[at + 1], image[at + 2], image[at + 3]]
}

fn stroke_canvas(w: usize, h: usize) -> StrokeCanvas {
    match StrokeCanvas::new(w, h) {
        Ok(c) => c,
        Err(_) => panic!("the canvas was refused"),
    }
}

fn canvas(w: usize, h: usize) -> CanvasImage {
    match CanvasImage::new(w, h) {
        Ok(c) => c,
        Err(_) => panic!("the canvas was refused"),
    }
}

fn presence(c: &StrokeCanvas, color: Rgba, x: usize, y: usize) -> u8 {
    match c.colors().layer_of(color) {
        Some(layer) => c.colors().presence_at(layer, x, y),
        None => panic!("the colour is not registered"),
    }
}

#[test]
fn canvases_refuse_a_zero_size() {
    assert!(matches!(StrokeCanvas::new(0, 3), Err(CanvasError::InvalidDimensions)));
    assert!(matches!(StrokeCanvas::new(3, 0), Err(CanvasError::InvalidDimensions)));
    assert!(matches!(CanvasImage::new(0, 3), Err(CanvasError::InvalidDimensions)));
    assert!(matches!(CanvasImage::new(3, 0), Err(CanvasError::InvalidDimensions)));
}

#[test]
fn canvas_sizes() {
    let c = stroke_canvas(5, 2);
    assert_eq!((c.width(), c.height()), (5, 2));
    assert_eq!(c.dims(), [5, 2]);
    let c = canvas(5, 2);
    assert_eq!((c.width(), c.height()), (5, 2));
    assert_eq!(c.dims(), [5, 2]);
    assert_eq!(c.render(), vec![0u8; 40]);
}

#[test]
fn two_commits_at_one_pixel() {
    let mut c = stroke_canvas(4, 4);
    c.preview(&dot(), &Point::new(1, 1), INK);
    c.apply_preview(INK);
    assert_eq!(presence(&c, INK, 1, 1), 255);
    c.preview(&dot(), &Point::new(1, 1), GLAZE);
    c.apply_preview(GLAZE);
    assert_eq!(presence(&c, INK, 1, 1), 127);
    assert_eq!(presence(&c, GLAZE, 1, 1), 128);
    assert_eq!(presence(&c, INK, 0, 0), 0);
    assert_eq!(presence(&c, GLAZE, 2, 1), 0);
}

#[test]
fn preview_shows_the_stroke_without_committing() {
    let mut c = stroke_canvas(4, 4);
    let image = c.preview(&dot(), &Point::new(1, 1), GLAZE);
    assert_eq!(pixel(&image, 4, 1, 1), [100, 50, 25, 128]);
    assert_eq!(pixel(&image, 4, 0, 1), [0, 0, 0, 0]);
    assert!(c.colors().colors().is_empty());
    assert_eq!(c.current_stroke().get(1, 1), 255);
    let image = c.preview(&dot(), &Point::new(2, 1), GLAZE);
    assert_eq!(pixel(&image, 4, 1, 1), [100, 50, 25, 128]);
    assert_eq!(pixel(&image, 4, 2, 1), [100, 50, 25, 128]);
}

#[test]
fn retracing_a_stroke_does_not_darken_it() {
    let mut c = stroke_canvas(3, 3);
    c.preview(&dot(), &Point::new(1, 1), GLAZE);
    c.preview(&dot(), &Point::new(1, 1), GLAZE);
    c.preview(&dot(), &Point::new(1, 1), GLAZE);
    c.apply_preview(GLAZE);
    assert_eq!(presence(&c, GLAZE, 1, 1), 128);
}

#[test]
fn commit_clears_the_stroke() {
    let mut c = stroke_canvas(3, 3);
    c.preview(&dot(), &Point::new(2, 0), INK);
    c.apply_preview(INK);
    for x in 0..3 {
        for y in 0..3 {
            assert_eq!(c.current_stroke().get(x, y), 0);
        }
    }
    c.apply_preview(RED);
    assert_eq!(c.colors().colors(), vec![INK, RED]);
    assert_eq!(presence(&c, INK, 2, 0), 255);
    assert_eq!(presence(&c, RED, 2, 0), 0);
}

#[test]
fn brush_is_centred_on_the_position() {
    let brush = Brush { texture: Grid::init(3, 3, 9u8) };
    let mut c = stroke_canvas(5, 5);
    c.preview(&brush, &Point::new(2, 2), INK);
    for x in 0..5 {
        for y in 0..5 {
            let inside = (1..=3).contains(&x) && (1..=3).contains(&y);
            assert_eq!(c.current_stroke().get(x, y), if inside { 9 } else { 0 });
        }
    }
    let even = Brush { texture: Grid::init(2, 2, 7u8) };
    let mut c = stroke_canvas(3, 3);
    c.preview(&even, &Point::new(0, 0), INK);
    assert_eq!(c.current_stroke().get(0, 0), 7);
    assert_eq!(c.current_stroke().get(1, 0), 0);
    assert_eq!(c.current_stroke().get(0, 1), 0);
}

#[test]
fn preview_with_repaints_touched_pixels_only() {
    let mut c = canvas(4, 4);
    let image = c.preview_with(&dot(), GLAZE, vec![Point::new(1, 1), Point::new(3, 2)]);
    assert_eq!(pixel(&image, 4, 1, 1), [100, 50, 25, 128]);
    assert_eq!(pixel(&image, 4, 3, 2), [100, 50, 25, 128]);
    assert_eq!(pixel(&image, 4, 2, 2), [0, 0, 0, 0]);
    assert_eq!(image, c.render());
    assert_eq!(c.colors().colors(), vec![GLAZE]);
    assert_eq!(c.colors().presence_at(0, 1, 1), 0);
    assert_eq!(c.current_stroke().get(1, 1), 255);
    assert_eq!(c.current_stroke().get(3, 2), 255);
    assert_eq!(c.current_stroke().get(0, 0), 0);
}

#[test]
fn preview_with_blends_over_what_is_committed() {
    let mut c = canvas(4, 4);
    c.preview_with(&dot(), INK, vec![Point::new(1, 1)]);
    c.apply_preview(INK);
    let image = c.preview_with(&dot(), GLAZE, vec![Point::new(1, 1), Point::new(9, 9)]);
    assert_eq!(pixel(&image, 4, 1, 1), [104, 59, 39, 255]);
    assert_eq!(c.colors().presence_at(0, 1, 1), 255);
    c.apply_preview(GLAZE);
    assert_eq!(c.colors().presence_at(0, 1, 1), 127);
    assert_eq!(c.colors().presence_at(1, 1, 1), 128);
    assert_eq!(pixel(&c.render(), 4, 1, 1), [104, 59, 39, 255]);
    assert_eq!(pixel(&c.colors().render(), 4, 1, 1), [104, 59, 39, 255]);
}

#[test]
fn preview_with_no_position_keeps_the_image() {
    let mut c = canvas(2, 2);
    let image = c.preview_with(&dot(), INK, Vec::new());
    assert_eq!(image, vec![0u8; 16]);
    assert_eq!(c.colors().colors(), vec![INK]);
}

#[test]
fn canvas_fill_returns_the_new_image() {
    let mut c = canvas(4, 4);
    let image = c.fill(Point::new(0, 0), Rgba::new(255, 0, 0, 255));
    assert_eq!(image.len(), 64);
    for px in image.chunks(4) {
        assert_eq!(px, &[255, 0, 0, 255]);
    }
    assert_eq!(image, c.render());
    assert_eq!(c.colors_at((3, 3)), vec![RED]);
}

#[test]
fn canvas_add_image_renders_anew() {
    let mut c = canvas(2, 2);
    c.add_image((1, 0), &[10, 20, 30, 255, 255, 0, 0, 255], 1);
    let image = c.render();
    assert_eq!(pixel(&image, 2, 1, 0), [10, 20, 30, 255]);
    assert_eq!(pixel(&image, 2, 1, 1), [255, 0, 0, 255]);
    assert_eq!(pixel(&image, 2, 0, 0), [0, 0, 0, 0]);
}

#[test]
fn canvas_apply_presence_leaves_the_image() {
    let mut c = canvas(2, 1);
    c.fill(Point::new(5, 5), INK);
    c.apply_presence((1, 0), 0, 200);
    assert_eq!(c.colors().presence_at(0, 1, 0), 200);
    assert_eq!(c.render(), vec![0u8; 8]);
}
