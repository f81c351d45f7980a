use canvas::color::Rgba;
use canvas::color_presences::ColorPresences;
use canvas::fill_rule::{ratio, spare, FillKind, FillRule};
use canvas::point::Point;
use grid::Grid;

const RED: Rgba = Rgba { r: 255, g: 0, b: 0, a: 255 };
const BLUE: Rgba = Rgba { r: 0, g: 0, b: 255, a: 255 };
const WALL: Rgba = Rgba { r: 9, g: 9, b: 9, a: 255 };
const GLAZE: Rgba = Rgba { r: 200, g: 100, b: 50, a: 128 };
const MIST: Rgba = Rgba { r: 1, g: 1, b: 1, a: 100 };

fn store(width: usize, height: usize) -> ColorPresences {
    match ColorPresences::new(width, height) {
        Ok(s) => s,
        Err(_) => panic!("the canvas was refused"),
    }
}

fn layer(s: &ColorPresences, c: Rgba) -> Vec<Vec<u8>> {
    let at = match s.layer_of(c) {
        Some(at) => at,
        None => panic!("the colour is not registered"),
    };
    let [w, h] = s.dims();
    (0..h).map(|y| (0..w).map(|x| s.presence_at(at, x, y)).collect()).collect()
}

fn rows(picture: &[&str], on: u8) -> Vec<Vec<u8>> {
    picture
        .iter()
        .map(|row| row.chars().map(|c| if c == '#' { on } else { 0 }).collect())
        .collect()
}

fn wall(s: &mut ColorPresences, picture: &[&str]) {
    let dab = Grid::from_vec(vec![255u8], 1);
    for (y, row) in picture.iter().enumerate() {
        for (x, c) in row.chars().enumerate() {
            if c == '#' {
                s.apply(&dab, &Point::new(x as i32, y as i32), WALL);
            }
        }
    }
}

#[test]
fn fill_of_an_empty_canvas_takes_every_pixel() {
    let mut s = store(4, 4);
    s.fill(&Point::new(0, 0), Rgba::new(255, 0, 0, 255));
    assert_eq!(s.colors(), vec![Rgba::new(255, 0, 0, 255)]);
    assert_eq!(layer(&s, RED), vec![vec![255u8; 4]; 4]);
    for y in 0..4 {
        for x in 0..4 {
            assert_eq!(s.colors_at((x, y)), vec![RED]);
        }
    }
    let image = s.render();
    assert_eq!(image.len(), 64);
    for px in image.chunks(4) {
        assert_eq!(px, &[255, 0, 0, 255]);
    }
}

#[test]
fn fill_from_any_seed_of_a_wide_canvas() {
    for seed in [(0, 0), (6, 0), (3, 1), (0, 2), (6, 2)] {
        let mut s = store(7, 3);
        s.fill(&Point::new(seed.0, seed.1), BLUE);
        assert_eq!(layer(&s, BLUE), vec![vec![255u8; 7]; 3]);
    }
    let mut tall = store(2, 9);
    tall.fill(&Point::new(1, 8), BLUE);
    assert_eq!(layer(&tall, BLUE), vec![vec![255u8; 2]; 9]);
}

#[test]
fn fill_stops_at_a_wall() {
    let mut s = store(3, 3);
    wall(&mut s, &[".#.", ".#.", ".#."]);
    s.fill(&Point::new(0, 0), RED);
    assert_eq!(layer(&s, RED), rows(&["#..", "#..", "#.."], 255));
    assert_eq!(layer(&s, WALL), rows(&[".#.", ".#.", ".#."], 255));
}

#[test]
fn fill_does_not_cross_a_corner() {
    let mut s = store(3, 3);
    wall(&mut s, &[".#.", "#..", "..."]);
    s.fill(&Point::new(0, 0), RED);
    assert_eq!(layer(&s, RED), rows(&["#..", "...", "..."], 255));
}

#[test]
fn fill_goes_round_an_obstacle() {
    let mut s = store(5, 3);
    wall(&mut s, &[".###.", ".###.", "....."]);
    s.fill(&Point::new(0, 0), RED);
    assert_eq!(layer(&s, RED), rows(&["#...#", "#...#", "#####"], 255));
    let mut s = store(5, 3);
    wall(&mut s, &[".....", ".###.", ".###."]);
    s.fill(&Point::new(4, 2), RED);
    assert_eq!(layer(&s, RED), rows(&["#####", "#...#", "#...#"], 255));
}

#[test]
fn fill_finds_every_lobe() {
    let picture = [
        ".#...#.",
        ".#.#.#.",
        "...#...",
        "##.#.##",
        "...#...",
        ".#####.",
        ".......",
    ];
    let filled = [
        "#.###.#",
        "#.#.#.#",
        "###.###",
        "..#.#..",
        "###.###",
        "#.....#",
        "#######",
    ];
    for seed in [(0, 0), (3, 0), (6, 6), (2, 3), (6, 1)] {
        let mut s = store(7, 7);
        wall(&mut s, &picture);
        s.fill(&Point::new(seed.0, seed.1), RED);
        assert_eq!(layer(&s, RED), rows(&filled, 255));
    }
}

#[test]
fn fill_leaves_an_enclosed_pocket_alone() {
    let mut s = store(5, 5);
    wall(&mut s, &[".....", ".###.", ".#.#.", ".###.", "....."]);
    s.fill(&Point::new(0, 0), RED);
    assert_eq!(layer(&s, RED), rows(&["#####", "#...#", "#...#", "#...#", "#####"], 255));
    s.fill(&Point::new(2, 2), BLUE);
    assert_eq!(layer(&s, BLUE), rows(&[".....", ".....", "..#..", ".....", "....."], 255));
}

#[test]
fn fill_into_empty_space_gives_what_is_free() {
    let mut s = store(3, 1);
    let veil = Grid::from_vec(vec![100u8, 255], 2);
    s.apply(&Grid::from_vec(vec![100u8], 1), &Point::new(1, 0), WALL);
    s.apply(&Grid::from_vec(vec![255u8], 1), &Point::new(2, 0), WALL);
    assert_eq!(veil.rows(), 1);
    s.fill(&Point::new(0, 0), RED);
    assert_eq!(layer(&s, RED), vec![vec![255, 155, 0]]);
    assert_eq!(layer(&s, WALL), vec![vec![0, 100, 255]]);
}

#[test]
fn second_fill_into_empty_space_changes_nothing() {
    let mut s = store(4, 3);
    wall(&mut s, &["..#.", "..#.", "...."]);
    let target = s.raster_idx(RED);
    let rule = FillRule { kind: FillKind::Empty, target, sources: vec![], num: 255, den: 255 };
    s.fill_space((0, 0), &rule);
    let after_one = layer(&s, RED);
    assert_eq!(after_one, rows(&["##.#", "##.#", "####"], 255));
    let walls = layer(&s, WALL);
    s.fill_space((0, 0), &rule);
    assert_eq!(layer(&s, RED), after_one);
    assert_eq!(layer(&s, WALL), walls);
    s.fill_space((3, 1), &rule);
    assert_eq!(layer(&s, RED), after_one);
}

#[test]
fn second_fill_with_the_same_colour_ends_and_changes_nothing() {
    let mut s = store(3, 3);
    wall(&mut s, &["...", ".#.", "..."]);
    s.fill(&Point::new(0, 0), RED);
    let ring = rows(&["###", "#.#", "###"], 255);
    assert_eq!(layer(&s, RED), ring);
    s.fill(&Point::new(0, 0), RED);
    assert_eq!(layer(&s, RED), ring);
    assert_eq!(layer(&s, WALL), rows(&["...", ".#.", "..."], 255));
}

#[test]
fn opaque_fill_replaces_the_colour_at_the_seed() {
    let mut s = store(3, 2);
    wall(&mut s, &[".#.", "..."]);
    s.fill(&Point::new(0, 0), RED);
    s.fill(&Point::new(2, 1), BLUE);
    assert_eq!(layer(&s, BLUE), rows(&["#.#", "###"], 255));
    assert_eq!(layer(&s, RED), rows(&["...", "..."], 255));
    assert_eq!(layer(&s, WALL), rows(&[".#.", "..."], 255));
    s.fill(&Point::new(1, 0), RED);
    assert_eq!(layer(&s, RED), rows(&[".#.", "..."], 255));
    assert_eq!(layer(&s, WALL), rows(&["...", "..."], 255));
}

#[test]
fn translucent_fill_blends_once_into_each_pixel() {
    let mut s = store(3, 3);
    wall(&mut s, &["...", ".#.", "..."]);
    s.fill(&Point::new(0, 0), RED);
    s.fill(&Point::new(2, 2), GLAZE);
    assert_eq!(layer(&s, GLAZE), rows(&["###", "#.#", "###"], 128));
    assert_eq!(layer(&s, RED), rows(&["###", "#.#", "###"], 127));
    assert_eq!(layer(&s, WALL), rows(&["...", ".#.", "..."], 255));
}

#[test]
fn fill_spreads_over_pixels_that_hold_every_source() {
    let mut s = store(4, 1);
    let dab = Grid::from_vec(vec![100u8], 1);
    for x in 0..3 {
        s.apply(&dab, &Point::new(x, 0), RED);
    }
    for x in 0..2 {
        s.apply(&dab, &Point::new(x, 0), BLUE);
    }
    assert_eq!(layer(&s, RED), vec![vec![60, 60, 100, 0]]);
    assert_eq!(layer(&s, BLUE), vec![vec![100, 100, 0, 0]]);
    s.fill(&Point::new(0, 0), WALL);
    assert_eq!(layer(&s, RED), vec![vec![0, 0, 100, 0]]);
    assert_eq!(layer(&s, BLUE), vec![vec![100, 100, 0, 0]]);
    assert_eq!(layer(&s, WALL), vec![vec![60, 60, 0, 0]]);
}

#[test]
fn fill_off_the_canvas_only_registers() {
    for seed in [(-1, 0), (0, -1), (2, 0), (0, 2), (i32::MAX, i32::MIN)] {
        let mut s = store(2, 2);
        s.fill(&Point::new(seed.0, seed.1), RED);
        assert_eq!(s.colors(), vec![RED]);
        assert_eq!(layer(&s, RED), vec![vec![0, 0], vec![0, 0]]);
    }
}

#[test]
fn ratio_rounds_down_and_holds_at_255() {
    assert_eq!(ratio(255, 128, 255), 128);
    assert_eq!(ratio(50, 255, 100), 127);
    assert_eq!(ratio(200, 255, 100), 255);
    assert_eq!(ratio(7, 100, 100), 7);
    assert_eq!(ratio(3, 1, 2), 1);
    assert_eq!(ratio(9, 0, 77), 0);
    assert_eq!(ratio(9, 5, 0), 255);
    assert_eq!(ratio(9, 0, 0), 0);
}

#[test]
fn spare_is_what_the_others_leave() {
    assert_eq!(spare(&vec![10, 20, 30], 1), 215);
    assert_eq!(spare(&vec![10, 20, 30], 7), 195);
    assert_eq!(spare(&vec![200, 20, 100], 1), 0);
    assert_eq!(spare(&vec![200, 20, 55], 1), 0);
    assert_eq!(spare(&vec![9], 0), 255);
}

#[test]
fn empty_rule_on_a_pixel() {
    let rule = FillRule { kind: FillKind::Empty, target: 1, sources: vec![], num: 255, den: 255 };
    assert_eq!(rule.fill_cell(&vec![100, 0, 5]), Some(vec![100, 150, 5]));
    assert_eq!(rule.fill_cell(&vec![100, 150, 5]), None);
    assert_eq!(rule.fill_cell(&vec![100, 200, 5]), Some(vec![100, 150, 5]));
    assert_eq!(rule.fill_cell(&vec![250, 0, 5]), None);
    assert_eq!(rule.fill_cell(&vec![250, 0, 50]), None);
}

#[test]
fn blend_rule_on_a_pixel() {
    let rule =
        FillRule { kind: FillKind::Blend, target: 2, sources: vec![0, 1], num: 128, den: 255 };
    assert_eq!(rule.fill_cell(&vec![255, 100, 10]), Some(vec![205, 80, 60]));
    assert_eq!(rule.fill_cell(&vec![255, 0, 10]), None);
    assert_eq!(rule.fill_cell(&vec![1, 100, 10]), Some(vec![1, 100, 10]));
    let strong =
        FillRule { kind: FillKind::Blend, target: 0, sources: vec![1], num: 200, den: 100 };
    assert_eq!(strong.fill_cell(&vec![10, 200]), Some(vec![255, 0]));
    assert_eq!(strong.fill_cell(&vec![10, 100]), Some(vec![210, 21]));
}

#[test]
fn replace_rule_on_a_pixel() {
    let rule =
        FillRule { kind: FillKind::Replace, target: 1, sources: vec![0], num: 255, den: 100 };
    assert_eq!(rule.fill_cell(&vec![50, 10]), Some(vec![0, 137]));
    assert_eq!(rule.fill_cell(&vec![0, 10]), None);
    let two =
        FillRule { kind: FillKind::Replace, target: 2, sources: vec![0, 1], num: 255, den: 255 };
    assert_eq!(two.fill_cell(&vec![90, 40, 0]), Some(vec![90, 0, 40]));
    assert_eq!(two.fill_cell(&vec![40, 40, 0]), Some(vec![0, 40, 40]));
    assert_eq!(two.fill_cell(&vec![250, 40, 0]), Some(vec![250, 0, 5]));
    let own =
        FillRule { kind: FillKind::Replace, target: 0, sources: vec![0], num: 255, den: 255 };
    assert_eq!(own.fill_cell(&vec![255, 0]), Some(vec![255, 0]));
    assert_eq!(own.fill_cell(&vec![100, 200]), Some(vec![55, 200]));
}

#[test]
fn fill_picks_its_rule_from_the_seed() {
    let mut s = store(2, 1);
    s.apply(&Grid::from_vec(vec![200u8], 1), &Point::new(0, 0), MIST);
    assert_eq!(layer(&s, MIST), vec![vec![78, 0]]);
    s.fill(&Point::new(0, 0), RED);
    assert_eq!(layer(&s, MIST), vec![vec![0, 0]]);
    assert_eq!(layer(&s, RED), vec![vec![198, 0]]);
    s.fill(&Point::new(1, 0), GLAZE);
    assert_eq!(layer(&s, GLAZE), vec![vec![57, 255]]);
    assert_eq!(layer(&s, RED), vec![vec![198, 0]]);
}
