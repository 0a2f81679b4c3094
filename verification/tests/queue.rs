use bentley_ottmann::error::SweepError;
use bentley_ottmann::event_queue::{insert_point, Event, EventQueue};
use bentley_ottmann::geometry::{Line, Point};
use std::cmp::Ordering;

fn nano(v: f64) -> i64 {
    (v * 1e9).round() as i64
}

fn pt(x: f64, y: f64) -> Point {
    Point { x: nano(x), y: nano(y) }
}

fn seg(x1: f64, y1: f64, x2: f64, y2: f64) -> Line {
    Line { p: pt(x1, y1), q: pt(x2, y2) }
}

fn drain(queue: &mut EventQueue) -> Vec<Event> {
    let mut events = Vec::new();
    while let Some(event) = queue.pop_first() {
        events.push(event);
    }
    events
}

#[test]
fn events_are_ordered_by_point() {
    let line = seg(0.0, 0.0, 1.0, 1.0);
    let early = Event::Begin { point: pt(0.0, 0.0), line };
    let late = Event::End { point: pt(1.0, 1.0), line };
    let higher = Event::Begin { point: pt(0.0, 0.5), line };
    assert_eq!(early.cmp(&late), Ordering::Less);
    assert_eq!(late.cmp(&early), Ordering::Greater);
    assert_eq!(early.cmp(&higher), Ordering::Less);
    assert!(early.is_before(&late));
    assert!(!late.is_before(&early));
    assert!(!early.is_before(&early));
}

#[test]
fn at_one_point_a_crossing_comes_before_an_end_and_nothing_else_is_ordered() {
    let line = seg(0.0, 0.0, 1.0, 1.0);
    let other = seg(0.0, 2.0, 2.0, 0.0);
    let at = pt(1.0, 1.0);
    let begin = Event::Begin { point: at, line: other };
    let end = Event::End { point: at, line };
    let crossing = Event::Intersection { point: at, line, other_line: other };
    assert_eq!(crossing.cmp(&end), Ordering::Less);
    assert_eq!(end.cmp(&crossing), Ordering::Greater);
    assert_eq!(begin.cmp(&end), Ordering::Equal);
    assert_eq!(end.cmp(&begin), Ordering::Equal);
    assert_eq!(begin.cmp(&crossing), Ordering::Equal);
    assert_eq!(crossing.cmp(&begin), Ordering::Equal);
    assert_eq!(crossing.cmp(&crossing), Ordering::Equal);
    assert_eq!(begin.point(), &at);
    assert_eq!(end.point(), &at);
    assert_eq!(crossing.point(), &at);
}

#[test]
fn new_queue_holds_two_events_for_each_segment_in_order() {
    let a = seg(3.0, 0.0, 1.0, 1.0);
    let b = seg(0.0, 5.0, 2.0, -5.0);
    let mut queue = EventQueue::new(vec![a, b]).unwrap();
    assert_eq!(queue.len(), 4);
    assert_eq!(queue.last_x(), -1_000_000_000_000_000_000);
    assert!(queue.intersection_points().is_empty());
    assert_eq!(
        drain(&mut queue),
        vec![
            Event::Begin { point: pt(0.0, 5.0), line: b },
            Event::Begin { point: pt(1.0, 1.0), line: a },
            Event::End { point: pt(2.0, -5.0), line: b },
            Event::End { point: pt(3.0, 0.0), line: a },
        ]
    );
    assert_eq!(queue.len(), 0);
    assert_eq!(queue.last_x(), nano(3.0));
}

#[test]
fn empty_input_gives_an_empty_queue_and_an_empty_result() {
    let mut queue = EventQueue::new(Vec::new()).unwrap();
    assert_eq!(queue.len(), 0);
    assert_eq!(queue.pop_first(), None);
    assert_eq!(queue.sweep(), Ok(Vec::new()));
}

#[test]
fn segments_left_of_the_origin_are_taken() {
    let a = seg(-5.0, -1.0, -1.0, -2.0);
    let b = seg(-4.0, -3.0, -2.0, 0.0);
    let queue = EventQueue::new(vec![a, b]).unwrap();
    assert_eq!(queue.sweep(), Ok(vec![a.intersection(&b).unwrap().unwrap()]));
}

#[test]
fn new_refuses_a_vertical_segment() {
    let r = EventQueue::new(vec![seg(0.0, 0.0, 1.0, 1.0), seg(2.0, 0.0, 2.0, 1.0)]);
    assert_eq!(r.err(), Some(SweepError::VerticalSegment));
}

#[test]
fn new_refuses_a_segment_of_zero_length() {
    let r = EventQueue::new(vec![seg(2.0, 1.0, 2.0, 1.0)]);
    assert_eq!(r.err(), Some(SweepError::ZeroLengthSegment));
}

#[test]
fn new_refuses_an_endpoint_that_an_earlier_segment_has() {
    let a = seg(0.0, 0.0, 1.0, 1.0);
    assert_eq!(
        EventQueue::new(vec![a, seg(1.0, 1.0, 2.0, 0.0)]).err(),
        Some(SweepError::DuplicatePoint)
    );
    assert_eq!(
        EventQueue::new(vec![a, seg(-1.0, 3.0, 0.0, 0.0)]).err(),
        Some(SweepError::DuplicatePoint)
    );
    assert_eq!(
        EventQueue::new(vec![a, seg(2.0, 2.0, 3.0, 3.0), seg(5.0, 0.0, 3.0, 3.0)]).err(),
        Some(SweepError::DuplicatePoint)
    );
    assert_eq!(EventQueue::new(vec![a, a]).err(), Some(SweepError::DuplicatePoint));
    // a point on a segment that is no endpoint of it stands against nothing
    assert!(EventQueue::new(vec![a, seg(0.5, 0.5, 2.0, 0.0)]).is_ok());
}

#[test]
fn new_refuses_a_coordinate_out_of_range() {
    let far = Line { p: pt(0.0, 0.0), q: Point { x: 1_000_000_000_000_000_001, y: 0 } };
    assert_eq!(
        EventQueue::new(vec![seg(0.0, 0.0, 1.0, 1.0), far]).err(),
        Some(SweepError::OutOfRange)
    );
    let edge = Line { p: pt(-1e9, -1e9), q: pt(1e9, 1e9) };
    assert!(EventQueue::new(vec![edge]).is_ok());
}

#[test]
fn the_first_segment_that_cannot_be_taken_gives_the_error() {
    let good = seg(0.0, 0.0, 1.0, 1.0);
    let vertical = seg(2.0, 0.0, 2.0, 1.0);
    let point = seg(3.0, 3.0, 3.0, 3.0);
    let twice = seg(1.0, 1.0, 5.0, 5.0);
    assert_eq!(
        EventQueue::new(vec![good, vertical, point, twice]).err(),
        Some(SweepError::VerticalSegment)
    );
    assert_eq!(
        EventQueue::new(vec![good, point, vertical, twice]).err(),
        Some(SweepError::ZeroLengthSegment)
    );
    assert_eq!(
        EventQueue::new(vec![good, twice, point, vertical]).err(),
        Some(SweepError::DuplicatePoint)
    );
}

#[test]
fn a_crossing_is_put_in_its_place() {
    let a = seg(0.0, 0.0, 4.0, 4.0);
    let b = seg(0.0, 3.0, 4.0, -1.0);
    let mut queue = EventQueue::new(vec![a, b]).unwrap();
    queue.add_intersection_event(pt(1.5, 1.5), &a, &b);
    assert_eq!(queue.len(), 5);
    assert_eq!(queue.intersection_points(), &vec![pt(1.5, 1.5)]);
    let events = drain(&mut queue);
    assert_eq!(events[2], Event::Intersection { point: pt(1.5, 1.5), line: a, other_line: b });
    assert_eq!(events[3], Event::End { point: pt(4.0, -1.0), line: b });
}

#[test]
fn a_crossing_at_one_point_is_scheduled_once() {
    let a = seg(0.0, 0.0, 4.0, 4.0);
    let b = seg(0.0, 3.0, 4.0, -1.0);
    let c = seg(0.0, 1.5, 4.0, 1.5000001);
    let mut queue = EventQueue::new(vec![a, b, c]).unwrap();
    queue.add_intersection_event(pt(1.5, 1.5), &a, &b);
    queue.add_intersection_event(pt(1.5, 1.5), &a, &c);
    queue.add_intersection_event(pt(1.5, 1.5), &b, &a);
    assert_eq!(queue.len(), 7);
    assert_eq!(queue.intersection_points().len(), 1);
    // a point a billionth away is another point
    queue.add_intersection_event(Point { x: nano(1.5), y: nano(1.5) + 1 }, &a, &c);
    assert_eq!(queue.len(), 8);
    assert_eq!(
        queue.intersection_points(),
        &vec![pt(1.5, 1.5), Point { x: nano(1.5), y: nano(1.5) + 1 }]
    );
}

#[test]
fn a_crossing_behind_the_sweep_is_not_scheduled() {
    let a = seg(0.0, 0.0, 4.0, 4.0);
    let b = seg(2.0, 3.0, 4.0, -1.0);
    let mut queue = EventQueue::new(vec![a, b]).unwrap();
    queue.pop_first();
    queue.pop_first();
    assert_eq!(queue.last_x(), nano(2.0));
    queue.add_intersection_event(pt(1.999999999, 1.0), &a, &b);
    assert_eq!(queue.len(), 2);
    assert!(queue.intersection_points().is_empty());
    // where the sweep stands, a crossing is still taken
    queue.add_intersection_event(pt(2.0, 1.0), &a, &b);
    assert_eq!(queue.len(), 3);
    assert_eq!(queue.intersection_points(), &vec![pt(2.0, 1.0)]);
    assert_eq!(
        queue.pop_first(),
        Some(Event::Intersection { point: pt(2.0, 1.0), line: a, other_line: b })
    );
}

#[test]
fn a_crossing_at_the_end_of_a_segment_is_taken_first() {
    let a = seg(0.0, 0.0, 2.0, 2.0);
    let b = seg(0.0, 4.0, 4.0, 0.0);
    let mut queue = EventQueue::new(vec![a, b]).unwrap();
    queue.add_intersection_event(pt(2.0, 2.0), &a, &b);
    let events = drain(&mut queue);
    assert_eq!(events[2], Event::Intersection { point: pt(2.0, 2.0), line: a, other_line: b });
    assert_eq!(events[3], Event::End { point: pt(2.0, 2.0), line: a });
}

#[test]
fn a_crossing_where_a_segment_begins_is_taken_behind_the_beginning() {
    let a = seg(0.0, 0.0, 4.0, 0.0);
    let b = seg(1.0, 0.0, 3.0, 1.0);
    let mut queue = EventQueue::new(vec![a, b]).unwrap();
    queue.add_intersection_event(pt(1.0, 0.0), &a, &b);
    let events = drain(&mut queue);
    assert_eq!(events[1], Event::Begin { point: pt(1.0, 0.0), line: b });
    assert_eq!(events[2], Event::Intersection { point: pt(1.0, 0.0), line: a, other_line: b });
}

#[test]
fn popped_events_never_go_back() {
    let lines = vec![
        seg(0.0, 1.0, 5.0, 1.0),
        seg(1.0, 1.5, 2.0, 0.5),
        seg(1.5, 0.5, 3.0, 2.0),
        seg(2.0, 2.0, 3.5, 0.5),
    ];
    let mut queue = EventQueue::new(lines.clone()).unwrap();
    queue.add_intersection_event(pt(3.0, 1.0), &lines[0], &lines[3]);
    queue.add_intersection_event(pt(1.5, 1.0), &lines[0], &lines[1]);
    let mut last = queue.last_x();
    let mut count = 0;
    while let Some(event) = queue.pop_first() {
        assert!(event.point().x >= last);
        assert_eq!(queue.last_x(), event.point().x);
        last = event.point().x;
        if count == 3 {
            queue.add_intersection_event(pt(2.5, 1.5), &lines[2], &lines[3]);
        }
        count += 1;
    }
    assert_eq!(count, 11);
}

#[test]
fn points_are_kept_in_order_and_once() {
    let mut points = Vec::new();
    assert!(insert_point(&mut points, pt(1.0, 1.0)));
    assert!(insert_point(&mut points, pt(0.0, 5.0)));
    assert!(insert_point(&mut points, pt(1.0, -1.0)));
    assert!(!insert_point(&mut points, pt(1.0, 1.0)));
    assert!(insert_point(&mut points, pt(2.0, 0.0)));
    assert!(!insert_point(&mut points, pt(0.0, 5.0)));
    assert_eq!(points, vec![pt(0.0, 5.0), pt(1.0, -1.0), pt(1.0, 1.0), pt(2.0, 0.0)]);
}
