use bentley_ottmann::geometry::{Height, Line, Point};
use bentley_ottmann::sweep_line::{SweepLine, SweepLineElement};

fn nano(v: f64) -> i64 {
    (v * 1e9).round() as i64
}

fn pt(x: f64, y: f64) -> Point {
    Point { x: nano(x), y: nano(y) }
}

fn seg(x1: f64, y1: f64, x2: f64, y2: f64) -> Line {
    Line { p: pt(x1, y1), q: pt(x2, y2) }
}

fn lines_of(status: &SweepLine) -> Vec<Line> {
    status.elements.iter().map(|e| e.line).collect()
}

#[test]
fn a_new_sweep_line_is_empty() {
    let status = SweepLine::new();
    assert_eq!(status.len(), 0);
    assert!(status.get_neighbors(&seg(0.0, 0.0, 1.0, 1.0)).is_none());
    assert_eq!(status.find(&seg(0.0, 0.0, 1.0, 1.0)), 0);
}

#[test]
fn insert_keeps_the_highest_first() {
    let low = seg(0.0, 0.0, 5.0, 0.0);
    let mid = seg(0.0, 1.0, 5.0, 1.0);
    let high = seg(0.0, 2.0, 5.0, 2.0);
    let mut status = SweepLine::new();
    status.insert(nano(1.0), mid);
    status.insert(nano(2.0), high);
    status.insert(nano(0.0), low);
    assert_eq!(lines_of(&status), vec![high, mid, low]);
    assert_eq!(status.elements[0].y, Height { whole: nano(2.0) as i128, num: 0, den: 1 });
    assert_eq!(status.len(), 3);
}

#[test]
fn entries_of_one_height_keep_their_order() {
    let first = seg(0.0, 1.0, 5.0, 3.0);
    let second = seg(0.0, 1.0, 5.0, -3.0);
    let third = seg(0.0, 1.0, 4.0, 1.0);
    let mut status = SweepLine::new();
    status.insert(nano(1.0), first);
    status.insert(nano(1.0), second);
    status.insert(nano(1.0), third);
    assert_eq!(lines_of(&status), vec![first, second, third]);
}

#[test]
fn remove_takes_the_segment_and_nothing_else() {
    let low = seg(0.0, 0.0, 5.0, 0.0);
    let mid = seg(0.0, 1.0, 5.0, 1.0);
    let high = seg(0.0, 2.0, 5.0, 2.0);
    let mut status = SweepLine::new();
    status.insert(nano(0.0), low);
    status.insert(nano(1.0), mid);
    status.insert(nano(2.0), high);
    status.remove(&mid);
    assert_eq!(lines_of(&status), vec![high, low]);
    // a segment that is not there: nothing happens
    status.remove(&mid);
    assert_eq!(lines_of(&status), vec![high, low]);
    status.remove(&high);
    status.remove(&low);
    assert_eq!(status.len(), 0);
}

#[test]
fn update_measures_every_segment_and_orders_anew() {
    let rising = seg(0.0, 0.0, 4.0, 4.0);
    let falling = seg(0.0, 3.0, 4.0, -1.0);
    let mut status = SweepLine::new();
    status.insert(nano(0.0), rising);
    status.insert(nano(3.0), falling);
    assert_eq!(lines_of(&status), vec![falling, rising]);
    status.update(nano(1.0));
    assert_eq!(lines_of(&status), vec![falling, rising]);
    assert_eq!(status.elements[0].y.round(), nano(2.0) as i128);
    assert_eq!(status.elements[1].y.round(), nano(1.0) as i128);
    status.update(nano(2.0));
    // past the crossing at x = 1.5
    assert_eq!(lines_of(&status), vec![rising, falling]);
    assert_eq!(status.elements[0].y, rising.y(nano(2.0)));
    assert_eq!(status.elements[1].y, falling.y(nano(2.0)));
    // at the crossing both have one height and keep their order
    status.update(nano(1.5));
    assert_eq!(lines_of(&status), vec![rising, falling]);
}

#[test]
fn neighbors_are_the_entries_before_and_behind() {
    let low = seg(0.0, 0.0, 5.0, 0.0);
    let mid = seg(0.0, 1.0, 5.0, 1.0);
    let high = seg(0.0, 2.0, 5.0, 2.0);
    let mut status = SweepLine::new();
    status.insert(nano(0.0), low);
    status.insert(nano(1.0), mid);
    status.insert(nano(2.0), high);

    let near = status.get_neighbors(&mid).unwrap();
    assert_eq!(near.above.map(|e| e.line), Some(high));
    assert_eq!(near.below.map(|e| e.line), Some(low));

    let top = status.get_neighbors(&high).unwrap();
    assert!(top.above.is_none());
    assert_eq!(top.below, Some(SweepLineElement { y: Height::from_whole(nano(1.0)), line: mid }));

    let bottom = status.get_neighbors(&low).unwrap();
    assert_eq!(bottom.above.map(|e| e.line), Some(mid));
    assert!(bottom.below.is_none());

    assert!(status.get_neighbors(&seg(0.0, 9.0, 5.0, 9.0)).is_none());
    assert_eq!(status.find(&high), 0);
    assert_eq!(status.find(&low), 2);
    assert_eq!(status.find(&seg(0.0, 9.0, 5.0, 9.0)), 3);
}

#[test]
fn swap_lets_two_segments_change_places() {
    let top = seg(0.0, 5.0, 4.0, 5.0);
    let rising = seg(0.0, 0.0, 4.0, 4.0);
    let falling = seg(0.0, 3.0, 4.0, -1.0);
    let bottom = seg(0.0, -5.0, 4.0, -5.0);
    let mut status = SweepLine::new();
    status.insert(nano(5.0), top);
    status.insert(nano(3.0), falling);
    status.insert(nano(0.0), rising);
    status.insert(nano(-5.0), bottom);
    status.update(nano(1.5));
    assert_eq!(lines_of(&status), vec![top, falling, rising, bottom]);

    let report = status.swap_and_get_new_neighbors(&rising, &falling, &pt(1.5, 1.5)).unwrap();
    assert_eq!(lines_of(&status), vec![top, rising, falling, bottom]);
    assert!(report.adjacent);
    assert_eq!(report.bigger.line, rising);
    assert_eq!(report.smaller.line, falling);
    assert_eq!(report.above.map(|e| e.line), Some(top));
    assert_eq!(report.below.map(|e| e.line), Some(bottom));
    // both are measured one billionth past the crossing
    assert_eq!(report.bigger.y, rising.y(nano(1.5) + 1));
    assert_eq!(report.smaller.y, falling.y(nano(1.5) + 1));
    assert_eq!(status.elements[0].y, top.y(nano(1.5)));
}

#[test]
fn swap_at_the_ends_of_the_sweep_line_has_no_outer_neighbors() {
    let rising = seg(0.0, 0.0, 4.0, 4.0);
    let falling = seg(0.0, 3.0, 4.0, -1.0);
    let mut status = SweepLine::new();
    status.insert(nano(3.0), falling);
    status.insert(nano(0.0), rising);
    status.update(nano(1.5));
    let report = status.swap_and_get_new_neighbors(&falling, &rising, &pt(1.5, 1.5)).unwrap();
    assert!(report.above.is_none());
    assert!(report.below.is_none());
    assert_eq!(report.bigger.line, rising);
    assert_eq!(report.smaller.line, falling);
}

#[test]
fn swap_of_segments_that_are_apart_is_reported() {
    let top = seg(0.0, 5.0, 4.0, 5.0);
    let mid = seg(0.0, 1.0, 4.0, 1.0);
    let bottom = seg(0.0, -5.0, 4.0, -5.0);
    let mut status = SweepLine::new();
    status.insert(nano(5.0), top);
    status.insert(nano(1.0), mid);
    status.insert(nano(-5.0), bottom);
    let report = status.swap_and_get_new_neighbors(&top, &bottom, &pt(1.0, 1.0)).unwrap();
    assert!(!report.adjacent);
    assert_eq!(lines_of(&status), vec![top, mid, bottom]);
    assert_eq!(report.bigger.line, top);
    assert_eq!(report.smaller.line, bottom);
}

#[test]
fn swap_of_a_segment_that_is_not_there_changes_nothing() {
    let rising = seg(0.0, 0.0, 4.0, 4.0);
    let falling = seg(0.0, 3.0, 4.0, -1.0);
    let mut status = SweepLine::new();
    status.insert(nano(3.0), falling);
    assert!(status.swap_and_get_new_neighbors(&rising, &falling, &pt(1.5, 1.5)).is_none());
    assert!(status.swap_and_get_new_neighbors(&falling, &rising, &pt(1.5, 1.5)).is_none());
    assert_eq!(status.elements, vec![SweepLineElement { y: Height::from_whole(nano(3.0)), line: falling }]);
}

#[test]
fn swap_reports_the_pair_where_the_entries_come_to_stand() {
    // both segments rise past an entry one billionth above their crossing
    let over = Line { p: Point { x: 0, y: 1_000_000_001 }, q: Point { x: nano(2.0), y: 1_000_000_001 } };
    let b = seg(0.5, 0.0, 1.5, 2.0);
    let a = seg(0.9, 0.0, 1.1, 2.0);
    let mut status = SweepLine::new();
    status.insert(1_000_000_001, over);
    status.insert(nano(0.0), b);
    status.insert(nano(0.0), a);
    status.update(nano(1.0));
    assert_eq!(lines_of(&status), vec![over, b, a]);

    let report = status.swap_and_get_new_neighbors(&a, &b, &pt(1.0, 1.0)).unwrap();
    assert_eq!(lines_of(&status), vec![a, b, over]);
    assert!(report.adjacent);
    assert_eq!(report.bigger.line, a);
    assert_eq!(report.smaller.line, b);
    assert!(report.above.is_none());
    assert_eq!(report.below.map(|e| e.line), Some(over));
    assert_eq!(report.bigger.y, a.y(nano(1.0) + 1));
    assert_eq!(report.smaller.y, b.y(nano(1.0) + 1));
}

#[test]
fn swap_names_the_two_segments_in_either_order() {
    let top = seg(0.0, 5.0, 4.0, 5.0);
    let rising = seg(0.0, 0.0, 4.0, 4.0);
    let falling = seg(0.0, 3.0, 4.0, -1.0);
    let mut status = SweepLine::new();
    status.insert(nano(5.0), top);
    status.insert(nano(3.0), falling);
    status.insert(nano(0.0), rising);
    status.update(nano(1.5));
    let report = status.swap_and_get_new_neighbors(&falling, &rising, &pt(1.5, 1.5)).unwrap();
    assert_eq!(report.bigger.line, rising);
    assert_eq!(report.smaller.line, falling);
    assert_eq!(report.above.map(|e| e.line), Some(top));
    assert!(report.below.is_none());
    assert!(report.adjacent);
}
