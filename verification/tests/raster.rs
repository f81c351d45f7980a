use canvas::brush::Brush;
use canvas::point::Point;
use canvas::raster::Raster;
use grid::Grid;

fn cells(r: &Raster) -> Vec<Vec<u8>> {
    let mut all = Vec::new();
    for x in 0..r.extent_x() {
        let mut col = Vec::new();
        for y in 0..r.extent_y() {
            col.push(r.get(x, y));
        }
        all.push(col);
    }
    all
}

#[test]
fn new_raster_is_blank() {
    let r = Raster::new(&[2, 3]);
    assert_eq!(r.extent_x(), 2);
    assert_eq!(r.extent_y(), 3);
    assert_eq!(cells(&r), vec![vec![0, 0, 0], vec![0, 0, 0]]);
}

#[test]
fn raster_with_a_zero_extent_has_no_pixels() {
    let r = Raster::new(&[0, 3]);
    assert_eq!((r.extent_x(), r.extent_y()), (0, 0));
    let r = Raster::new(&[4, 0]);
    assert_eq!((r.extent_x(), r.extent_y()), (0, 0));
}

#[test]
fn put_changes_one_pixel() {
    let mut r = Raster::new(&[2, 2]);
    r.put(1, 0, 9);
    assert_eq!(cells(&r), vec![vec![0, 0], vec![9, 0]]);
    assert_eq!(r.get(1, 0), 9);
}

#[test]
fn clone_is_a_copy_of_its_own() {
    let mut r = Raster::new(&[2, 2]);
    r.put(0, 1, 5);
    let copy = r.clone();
    r.put(0, 1, 6);
    assert_eq!(cells(&copy), vec![vec![0, 5], vec![0, 0]]);
    assert_eq!(cells(&r), vec![vec![0, 6], vec![0, 0]]);
}

#[test]
fn set_max_keeps_the_larger_value() {
    let mut r = Raster::new(&[3, 3]);
    r.put(1, 1, 100);
    r.put(2, 1, 10);
    let mask = Grid::from_vec(vec![50u8, 60, 70, 80], 2);
    r.set_max(&mask, &Point::new(1, 1));
    assert_eq!(cells(&r), vec![vec![0, 0, 0], vec![0, 100, 60], vec![0, 70, 80]]);
}

#[test]
fn set_max_clips_at_the_edges() {
    let mut r = Raster::new(&[2, 2]);
    let mask = Grid::from_vec(vec![1u8, 2, 3, 4], 2);
    r.set_max(&mask, &Point::new(-1, -1));
    assert_eq!(cells(&r), vec![vec![4, 0], vec![0, 0]]);
    r.set_max(&mask, &Point::new(1, 1));
    assert_eq!(cells(&r), vec![vec![4, 0], vec![0, 1]]);
    r.set_max(&mask, &Point::new(5, 0));
    r.set_max(&mask, &Point::new(i32::MIN, i32::MAX));
    assert_eq!(cells(&r), vec![vec![4, 0], vec![0, 1]]);
}

#[test]
fn stamping_twice_is_stamping_once() {
    let mask = Grid::from_vec(vec![0u8, 200, 90, 255, 3, 17], 3);
    let mut once = Raster::new(&[4, 5]);
    once.put(2, 2, 100);
    let mut twice = once.clone();
    once.set_max(&mask, &Point::new(1, 2));
    twice.set_max(&mask, &Point::new(1, 2));
    twice.set_max(&mask, &Point::new(1, 2));
    assert_eq!(cells(&once), cells(&twice));
    assert_eq!(once.get(1, 3), 200);
    assert_eq!(once.get(2, 2), 255);
}

#[test]
fn set_max_from_reaches_beyond_a_point() {
    let mut r = Raster::new(&[2, 2]);
    let mask = Grid::from_vec(vec![7u8], 1);
    r.set_max_from(&mask, 1, 0);
    r.set_max_from(&mask, -5_000_000_000, 0);
    assert_eq!(cells(&r), vec![vec![0, 0], vec![7, 0]]);
}

#[test]
fn tracked_stamp_lists_touched_pixels() {
    let mut r = Raster::new(&[3, 3]);
    r.put(0, 0, 200);
    let mask = Grid::from_vec(vec![9u8, 0, 0, 8], 2);
    let mut touched = Vec::new();
    r.set_max_tracked(&mask, 0, 0, &mut touched);
    assert_eq!(touched, vec![(0, 0), (1, 1)]);
    assert_eq!(r.get(0, 0), 200);
    assert_eq!(r.get(1, 1), 8);
    r.set_max_tracked(&mask, 2, 2, &mut touched);
    assert_eq!(touched, vec![(0, 0), (1, 1), (2, 2)]);
}

#[test]
fn brush_extents_come_from_its_mask() {
    let brush = Brush { texture: Grid::init(2, 5, 1u8) };
    assert_eq!(brush.width(), 5);
    assert_eq!(brush.height(), 2);
}
