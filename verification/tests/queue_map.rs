use canvas::array_queue::ArrayQueue;
use canvas::brush_stroke::{BrushStroke, Sampling};
use canvas::color::Rgba;
use canvas::span::From;
use canvas::vec_map::VecMap;

#[test]
fn queue_keeps_the_newest_first() {
    let mut q: ArrayQueue<u32, 3> = ArrayQueue::new();
    assert_eq!(q.len(), 0);
    q.push(1);
    assert_eq!(q.len(), 1);
    assert_eq!(q[0], 1);
    q.push(2);
    q.push(3);
    assert_eq!(q.len(), 3);
    assert_eq!((q[0], q[1], q[2]), (3, 2, 1));
}

#[test]
fn queue_drops_the_oldest_when_full() {
    let mut q: ArrayQueue<u32, 3> = ArrayQueue::new();
    for v in 1..=5 {
        q.push(v);
    }
    assert_eq!(q.len(), 3);
    assert_eq!((q[0], q[1], q[2]), (5, 4, 3));
    let mut one: ArrayQueue<u8, 1> = ArrayQueue::new();
    one.push(7);
    one.push(8);
    assert_eq!(one.len(), 1);
    assert_eq!(one[0], 8);
}

#[test]
fn queue_of_two_after_three_pushes() {
    let mut q: ArrayQueue<(i32, i32), 2> = ArrayQueue::new();
    q.push((0, 0));
    q.push((1, 1));
    q.push((2, 2));
    assert_eq!(q.len(), 2);
    assert_eq!(q[0], (2, 2));
    assert_eq!(q[1], (1, 1));
}

#[test]
fn queue_clear_forgets_everything() {
    let mut q: ArrayQueue<u32, 2> = ArrayQueue::new();
    q.push(1);
    q.push(2);
    q.clear();
    assert_eq!(q.len(), 0);
    q.push(9);
    assert_eq!(q.len(), 1);
    assert_eq!(q[0], 9);
}

#[test]
fn map_finds_the_first_match() {
    let map = VecMap(vec![(1u8, "a"), (2, "b"), (1, "c")]);
    assert_eq!(map.position(&1), Some(0));
    assert_eq!(map.position(&2), Some(1));
    assert_eq!(map.position(&3), None);
    assert!(map.contains_key(&2));
    assert!(!map.contains_key(&0));
    assert_eq!(map[1], "b");
    assert_eq!(map[2], "c");
}

#[test]
fn map_of_nothing_finds_nothing() {
    let map: VecMap<u8, u8> = VecMap(Vec::new());
    assert_eq!(map.position(&0), None);
    assert!(!map.contains_key(&0));
}

#[test]
fn map_keyed_by_colour() {
    let red = Rgba::new(255, 0, 0, 255);
    let faint_red = Rgba::new(255, 0, 0, 254);
    let map = VecMap(vec![(red, 1u8), (faint_red, 2)]);
    assert_eq!(map.position(&faint_red), Some(1));
    assert_eq!(map.position(&Rgba::new(255, 0, 0, 255)), Some(0));
    assert_eq!(map.position(&Rgba::new(0, 0, 0, 0)), None);
}

#[test]
fn colours_compare_by_all_channels() {
    let c = Rgba::new(1, 2, 3, 4);
    assert!(c == Rgba { r: 1, g: 2, b: 3, a: 4 });
    assert!(c != Rgba { r: 1, g: 2, b: 3, a: 5 });
    assert!(c != Rgba { r: 0, g: 2, b: 3, a: 4 });
    assert_eq!(c.channels(), [1, 2, 3, 4]);
}

#[test]
fn opposite_swaps_the_two_directions() {
    assert!(From::Above.opposite() == From::Below);
    assert!(From::Below.opposite() == From::Above);
    assert!(From::Above.opposite().opposite() == From::Above);
}

#[test]
fn first_position_of_a_stroke_stands_alone() {
    let mut stroke: BrushStroke<(i32, i32)> = BrushStroke::new();
    assert!(matches!(stroke.update_stroke((3, 4)), Sampling::Single((3, 4))));
}

#[test]
fn later_positions_come_with_the_one_before() {
    let mut stroke: BrushStroke<(i32, i32)> = BrushStroke::new();
    stroke.update_stroke((0, 0));
    assert!(matches!(
        stroke.update_stroke((5, 1)),
        Sampling::Segment { prev: (0, 0), cur: (5, 1) }
    ));
    assert!(matches!(
        stroke.update_stroke((6, 6)),
        Sampling::Segment { prev: (5, 1), cur: (6, 6) }
    ));
    assert!(matches!(
        stroke.update_stroke((7, 7)),
        Sampling::Segment { prev: (6, 6), cur: (7, 7) }
    ));
}

#[test]
fn cleared_stroke_begins_anew() {
    let mut stroke: BrushStroke<u8> = BrushStroke::new();
    stroke.update_stroke(1);
    stroke.update_stroke(2);
    stroke.clear_stroke();
    assert!(matches!(stroke.update_stroke(3), Sampling::Single(3)));
    assert!(matches!(stroke.update_stroke(4), Sampling::Segment { prev: 3, cur: 4 }));
}
