use canvas::blend::{scale, shrink};
use canvas::color::Rgba;
use canvas::color_presences::ColorPresences;
use canvas::error::CanvasError;
use canvas::point::Point;
use grid::Grid;

const RED: Rgba = Rgba { r: 255, g: 0, b: 0, a: 255 };
const INK: Rgba = Rgba { r: 10, g: 20, b: 30, a: 255 };
const GLAZE: Rgba = Rgba { r: 200, g: 100, b: 50, a: 128 };

fn store(width: usize, height: usize) -> ColorPresences {
    match ColorPresences::new(width, height) {
        Ok(s) => s,
        Err(_) => panic!("the canvas was refused"),
    }
}

fn presence(s: &ColorPresences, c: Rgba, x: usize, y: usize) -> u8 {
    match s.layer_of(c) {
        Some(layer) => s.presence_at(layer, x, y),
        None => panic!("the colour is not registered"),
    }
}

fn pixel(image: &[u8], width: usize, x: usize, y: usize) -> [u8; 4] {
    let at = 4 * (x + y * width);
    [image[at], image[at + 1], image[at + 2], image[at + 3]]
}

#[test]
fn zero_sized_canvas_is_refused() {
    assert!(matches!(ColorPresences::new(0, 5), Err(CanvasError::InvalidDimensions)));
    assert!(matches!(ColorPresences::new(5, 0), Err(CanvasError::InvalidDimensions)));
    assert!(matches!(ColorPresences::new(0, 0), Err(CanvasError::InvalidDimensions)));
    assert!(ColorPresences::new(1, 1).is_ok());
    assert_eq!(
        CanvasError::InvalidDimensions.message(),
        "invalid dimensions: width and height must not be zero"
    );
}

#[test]
fn new_store_has_no_colours_and_renders_transparent() {
    let s = store(3, 2);
    assert_eq!(s.dims(), [3, 2]);
    assert!(s.colors().is_empty());
    assert_eq!(s.render(), vec![0u8; 24]);
    assert!(s.colors_at((2, 1)).is_empty());
}

#[test]
fn scaling_rounds_down() {
    assert_eq!(scale(255, 128), 128);
    assert_eq!(scale(255, 255), 255);
    assert_eq!(scale(100, 100), 39);
    assert_eq!(scale(1, 254), 0);
    assert_eq!(scale(0, 255), 0);
    assert_eq!(shrink(255, 127), 127);
    assert_eq!(shrink(200, 0), 0);
    assert_eq!(shrink(200, 255), 200);
    assert_eq!(shrink(3, 128), 1);
}

#[test]
fn raster_idx_registers_once() {
    let mut s = store(2, 2);
    assert_eq!(s.raster_idx(RED), 0);
    assert_eq!(s.raster_idx(INK), 1);
    assert_eq!(s.raster_idx(RED), 0);
    assert_eq!(s.colors(), vec![RED, INK]);
    assert_eq!(s.layer_of(INK), Some(1));
    assert_eq!(s.layer_of(GLAZE), None);
    assert_eq!(presence(&s, INK, 1, 1), 0);
}

#[test]
fn apply_presence_shrinks_the_others_only() {
    let mut s = store(2, 1);
    let a = s.raster_idx(INK);
    let b = s.raster_idx(GLAZE);
    s.apply_presence((0, 0), a, 200);
    assert_eq!(s.presence_at(a, 0, 0), 200);
    s.apply_presence((0, 0), b, 100);
    assert_eq!(s.presence_at(a, 0, 0), 121);
    assert_eq!(s.presence_at(b, 0, 0), 100);
    s.apply_presence((0, 0), b, 100);
    assert_eq!(s.presence_at(a, 0, 0), 73);
    assert_eq!(s.presence_at(b, 0, 0), 200);
    s.apply_presence((0, 0), b, 100);
    assert_eq!(s.presence_at(b, 0, 0), 255);
    assert_eq!(s.presence_at(a, 1, 0), 0);
    assert_eq!(s.presence_at(b, 1, 0), 0);
}

#[test]
fn opaque_colour_overwrites() {
    let mut s = store(3, 3);
    let full = Grid::init(3, 3, 255u8);
    s.apply(&full, &Point::new(0, 0), INK);
    s.apply(&full, &Point::new(0, 0), GLAZE);
    let dab = Grid::from_vec(vec![255u8, 255, 255, 128], 2);
    s.apply(&dab, &Point::new(1, 1), RED);
    for (x, y) in [(1, 1), (1, 2), (2, 1)] {
        assert_eq!(presence(&s, RED, x, y), 255);
        assert_eq!(presence(&s, INK, x, y), 0);
        assert_eq!(presence(&s, GLAZE, x, y), 0);
    }
    assert_eq!(presence(&s, RED, 2, 2), 128);
    assert_eq!(presence(&s, INK, 2, 2), 63);
    assert_eq!(presence(&s, GLAZE, 2, 2), 63);
    assert_eq!(presence(&s, RED, 0, 0), 0);
    assert_eq!(presence(&s, INK, 0, 0), 127);
    assert_eq!(presence(&s, GLAZE, 0, 0), 128);
}

#[test]
fn apply_skips_what_falls_off_the_canvas() {
    let mut s = store(2, 2);
    let mask = Grid::from_vec(vec![10u8, 20, 30, 40], 2);
    s.apply(&mask, &Point::new(-1, -1), RED);
    assert_eq!(presence(&s, RED, 0, 0), 40);
    assert_eq!(presence(&s, RED, 1, 0), 0);
    assert_eq!(presence(&s, RED, 0, 1), 0);
    s.apply(&mask, &Point::new(1, 1), RED);
    assert_eq!(presence(&s, RED, 1, 1), 10);
    s.apply(&mask, &Point::new(2, 0), RED);
    s.apply(&mask, &Point::new(i32::MAX, i32::MIN), RED);
    assert_eq!(presence(&s, RED, 0, 0), 40);
    assert_eq!(presence(&s, RED, 1, 1), 10);
}

#[test]
fn apply_registers_even_when_nothing_lands() {
    let mut s = store(2, 2);
    let mask = Grid::from_vec(vec![10u8], 1);
    s.apply(&mask, &Point::new(7, 7), RED);
    assert_eq!(s.colors(), vec![RED]);
    assert_eq!(s.render(), vec![0u8; 16]);
}

#[test]
fn apply_weights_by_alpha() {
    let mut s = store(1, 1);
    let mask = Grid::from_vec(vec![200u8], 1);
    s.apply(&mask, &Point::new(0, 0), GLAZE);
    assert_eq!(presence(&s, GLAZE, 0, 0), 100);
    s.apply(&mask, &Point::new(0, 0), GLAZE);
    assert_eq!(presence(&s, GLAZE, 0, 0), 200);
    s.apply(&mask, &Point::new(0, 0), GLAZE);
    assert_eq!(presence(&s, GLAZE, 0, 0), 255);
}

#[test]
fn render_mixes_by_presence() {
    let mut s = store(4, 4);
    let dab = Grid::from_vec(vec![255u8], 1);
    s.apply(&dab, &Point::new(1, 1), INK);
    s.apply(&dab, &Point::new(1, 1), GLAZE);
    assert_eq!(presence(&s, INK, 1, 1), 127);
    assert_eq!(presence(&s, GLAZE, 1, 1), 128);
    let image = s.render();
    assert_eq!(image.len(), 64);
    assert_eq!(pixel(&image, 4, 1, 1), [104, 59, 39, 255]);
    assert_eq!(pixel(&image, 4, 0, 0), [0, 0, 0, 0]);
    assert_eq!(pixel(&image, 4, 1, 0), [0, 0, 0, 0]);
    assert_eq!(pixel(&image, 4, 3, 3), [0, 0, 0, 0]);
}

#[test]
fn render_is_row_by_row() {
    let mut s = store(3, 2);
    let dab = Grid::from_vec(vec![255u8], 1);
    s.apply(&dab, &Point::new(2, 0), RED);
    s.apply(&dab, &Point::new(0, 1), INK);
    let image = s.render();
    assert_eq!(&image[8..12], &[255, 0, 0, 255]);
    assert_eq!(&image[12..16], &[10, 20, 30, 255]);
    assert_eq!(&image[0..8], &[0u8; 8]);
    assert_eq!(&image[16..24], &[0u8; 8]);
}

#[test]
fn render_holds_sums_at_255() {
    let mut s = store(1, 1);
    let white = Rgba::new(255, 255, 255, 255);
    let grey = Rgba::new(200, 200, 200, 255);
    s.add_image((0, 0), &[255, 255, 255, 255, 200, 200, 200, 255], 1);
    assert_eq!(s.colors(), vec![white]);
    s.add_image((0, 0), &[200, 200, 200, 255], 1);
    assert_eq!(presence(&s, white, 0, 0), 255);
    assert_eq!(presence(&s, grey, 0, 0), 255);
    assert_eq!(s.render(), vec![255, 255, 255, 255]);
}

#[test]
fn single_opaque_colour_renders_as_itself() {
    let mut s = store(3, 2);
    let full = Grid::init(3, 2, 255u8);
    s.apply(&full, &Point::new(0, 0), INK);
    let image = s.render();
    for y in 0..2 {
        for x in 0..3 {
            assert_eq!(pixel(&image, 3, x, y), [10, 20, 30, 255]);
        }
    }
}

#[test]
fn colors_at_lists_what_is_present() {
    let mut s = store(2, 1);
    let dab = Grid::from_vec(vec![100u8], 1);
    s.apply(&dab, &Point::new(0, 0), INK);
    s.apply(&dab, &Point::new(1, 0), RED);
    s.apply(&dab, &Point::new(1, 0), GLAZE);
    assert_eq!(s.colors_at((0, 0)), vec![INK]);
    assert_eq!(s.colors_at((1, 0)), vec![RED, GLAZE]);
}

#[test]
fn add_image_pins_pixels_that_land() {
    let mut s = store(3, 2);
    let data = [1u8, 2, 3, 4, 5, 6, 7, 8, 1, 2, 3, 4, 9, 9, 9, 9];
    s.add_image((2, 0), &data, 2);
    let first = Rgba::new(1, 2, 3, 4);
    assert_eq!(s.colors(), vec![first]);
    assert_eq!(presence(&s, first, 2, 0), 255);
    assert_eq!(presence(&s, first, 2, 1), 255);
    assert_eq!(presence(&s, first, 0, 0), 0);
    assert_eq!(presence(&s, first, 1, 1), 0);
}

#[test]
fn add_image_keeps_other_colours_in_place() {
    let mut s = store(2, 1);
    let dab = Grid::from_vec(vec![255u8], 1);
    s.apply(&dab, &Point::new(0, 0), INK);
    s.add_image((0, 0), &[255, 0, 0, 255, 10, 20, 30, 255], 2);
    assert_eq!(s.colors(), vec![INK, RED]);
    assert_eq!(presence(&s, INK, 0, 0), 255);
    assert_eq!(presence(&s, RED, 0, 0), 255);
    assert_eq!(presence(&s, INK, 1, 0), 255);
    assert_eq!(presence(&s, RED, 1, 0), 0);
}

#[test]
fn add_image_with_no_width_stacks_pixels() {
    let mut s = store(2, 3);
    s.add_image((1, 0), &[255, 0, 0, 255, 10, 20, 30, 255, 255, 0, 0, 255, 7], 0);
    assert_eq!(presence(&s, RED, 1, 0), 255);
    assert_eq!(presence(&s, INK, 1, 1), 255);
    assert_eq!(presence(&s, RED, 1, 2), 255);
    assert_eq!(presence(&s, RED, 0, 0), 0);
    assert_eq!(s.colors().len(), 2);
}

#[test]
fn add_image_far_off_changes_nothing() {
    let mut s = store(2, 2);
    s.add_image((usize::MAX, usize::MAX), &[255, 0, 0, 255, 255, 0, 0, 255], 1);
    s.add_image((0, 2), &[255, 0, 0, 255], 1);
    assert!(s.colors().is_empty());
}

#[test]
fn clone_is_independent() {
    let mut s = store(2, 2);
    let dab = Grid::from_vec(vec![255u8], 1);
    s.apply(&dab, &Point::new(0, 0), RED);
    let copy = s.clone();
    s.apply(&dab, &Point::new(1, 1), INK);
    assert_eq!(copy.colors(), vec![RED]);
    assert_eq!(presence(&copy, RED, 0, 0), 255);
    assert_eq!(copy.dims(), [2, 2]);
    assert_eq!(s.colors(), vec![RED, INK]);
}
