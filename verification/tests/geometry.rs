use bentley_ottmann::error::SweepError;
use bentley_ottmann::geometry::{ccw, Height, Line, Point};
use std::cmp::Ordering;

/// A coordinate given in units, as billionths.
fn nano(v: f64) -> i64 {
    (v * 1e9).round() as i64
}

fn pt(x: f64, y: f64) -> Point {
    Point { x: nano(x), y: nano(y) }
}

/// The height of exactly `v` units on `line`: a whole number of billionths
/// and nothing more, over the run of the line.
fn exactly(v: f64, line: &Line) -> Height {
    Height { whole: nano(v) as i128, num: 0, den: (line.upper().x - line.lower().x) as i128 }
}

#[test]
fn test_y() {
    let line = Line { p: pt(0., 0.), q: pt(1., 1.) };

    assert_eq!(line.y(nano(0.5)), exactly(0.5, &line));
    assert_eq!(line.y(nano(0.)), exactly(0., &line));
    assert_eq!(line.y(nano(1.)), exactly(1., &line));
}

// test for line with no m
#[test]
fn test_y_no_m() {
    let line = Line { p: pt(0., 0.), q: pt(1., 0.) };

    assert_eq!(line.y(nano(0.5)), exactly(0., &line));
    assert_eq!(line.y(nano(0.)), exactly(0., &line));
    assert_eq!(line.y(nano(1.)), exactly(0., &line));
}

#[test]
fn test_parse_line() {
    let s = "0 1 2 3";
    let line = Line::from_str(s);
    assert!(line.is_ok());
    let line = line.unwrap();
    assert_eq!(line.p, pt(0.0, 1.0));
    assert_eq!(line.q, pt(2.0, 3.0));
}

#[test]
fn test_point_order() {
    let p = pt(0.0, 1.0);
    let q = pt(2.0, 3.0);

    assert!(p < q);
    assert!(q >= p);
    assert!(p == p);
    assert!(q == q);

    let q2 = pt(0.0, 0.5);
    assert!(q2 < p);
    assert!(p > q2);
}

#[test]
fn test_intersect() {
    let line1 = Line::from_str("0 0 1 1").expect("Failed to parse first line");
    let line2_s = Line::from_str("0 1 1 0").expect("Failed to parse second line");

    assert!(line1.intersection(&line2_s).unwrap().is_some());
    assert_eq!(line1.intersection(&line2_s).unwrap().unwrap(), pt(0.5, 0.5));
}

#[test]
fn test_intersect_cross() {
    let line1 = Line::from_str("0 1 2 1").expect("Failed to parse first line");
    let line2_s = Line::from_str("1 2 1 0").expect("Failed to parse second line");

    assert!(line1.intersection(&line2_s).unwrap().is_some());
    assert_eq!(line1.intersection(&line2_s).unwrap().unwrap(), pt(1.0, 1.0));
}

#[test]
fn orientation_tells_left_from_right() {
    let p = pt(0.0, 0.0);
    let q = pt(1.0, 0.0);
    // twice the area of the triangle, in square billionths
    assert_eq!(ccw(&p, &q, &pt(0.0, 1.0)), 1_000_000_000_000_000_000);
    assert_eq!(ccw(&p, &q, &pt(0.0, -1.0)), -1_000_000_000_000_000_000);
    assert_eq!(ccw(&p, &q, &pt(3.0, 0.0)), 0);
    assert_eq!(ccw(&p, &pt(2.0, 1.0), &pt(1.0, 3.0)), 5_000_000_000_000_000_000);
}

#[test]
fn point_comparison_goes_by_x_then_y() {
    assert_eq!(pt(0.0, 5.0).cmp(&pt(1.0, 0.0)), Ordering::Less);
    assert_eq!(pt(1.0, 0.0).cmp(&pt(0.0, 5.0)), Ordering::Greater);
    assert_eq!(pt(1.0, 0.0).cmp(&pt(1.0, 0.5)), Ordering::Less);
    assert_eq!(pt(1.0, 0.5).cmp(&pt(1.0, 0.5)), Ordering::Equal);
    assert_eq!(pt(-1.0, 0.0).cmp(&pt(-2.0, 9.0)), Ordering::Greater);
}

#[test]
fn lower_and_upper_endpoint_do_not_depend_on_the_order_given() {
    let a = Line { p: pt(3.0, 1.0), q: pt(1.0, 2.0) };
    let b = Line { p: pt(1.0, 2.0), q: pt(3.0, 1.0) };
    assert_eq!(a.lower(), pt(1.0, 2.0));
    assert_eq!(a.upper(), pt(3.0, 1.0));
    assert_eq!(b.lower(), a.lower());
    assert_eq!(b.upper(), a.upper());
    // at one x the lower y comes first
    let v = Line { p: pt(1.0, 2.0), q: pt(1.0, -2.0) };
    assert_eq!(v.lower(), pt(1.0, -2.0));
}

#[test]
fn range_of_coordinates_is_a_billion_units() {
    assert!(pt(1e9, -1e9).is_in_range());
    assert!(!Point { x: 1_000_000_000_000_000_001, y: 0 }.is_in_range());
    assert!(!Point { x: 0, y: -1_000_000_000_000_000_001 }.is_in_range());
    assert!(Line { p: pt(0.0, 0.0), q: pt(1e9, 1e9) }.is_in_range());
    assert!(!Line { p: pt(0.0, 0.0), q: Point { x: 0, y: i64::MAX } }.is_in_range());
}

#[test]
fn height_is_an_exact_fraction() {
    let line = Line { p: pt(3.0, 1.0), q: pt(0.0, 0.0) };
    let h = line.y(nano(1.0));
    // a third of a unit: 333333333 billionths and a third of one
    assert_eq!(h, Height { whole: 333_333_333, num: 1_000_000_000, den: 3_000_000_000 });
    assert_eq!(h.round(), 333_333_333);
    let h2 = line.y(nano(2.0));
    assert_eq!(h2, Height { whole: 666_666_666, num: 2_000_000_000, den: 3_000_000_000 });
    assert_eq!(h2.round(), 666_666_667);
    // beyond the segment the line goes on
    assert_eq!(line.y(nano(-3.0)).round(), nano(-1.0) as i128);
    assert_eq!(line.y(nano(6.0)).round(), nano(2.0) as i128);
    // below zero the fraction still counts upwards
    assert_eq!(
        line.y(nano(-1.0)),
        Height { whole: -333_333_334, num: 2_000_000_000, den: 3_000_000_000 }
    );
    assert_eq!(line.y(nano(-1.0)).round(), -333_333_333);
}

#[test]
fn heights_compare_exactly() {
    let third = Height { whole: 0, num: 1, den: 3 };
    let close = Height { whole: 0, num: 333_333_333, den: 1_000_000_000 };
    assert!(close.is_below(&third));
    assert!(!third.is_below(&close));
    assert!(!third.is_below(&Height { whole: 0, num: 2, den: 6 }));
    assert!(!Height { whole: 0, num: 2, den: 6 }.is_below(&third));
    // the whole part goes first
    assert!(Height { whole: -1, num: 2, den: 3 }.is_below(&Height { whole: 0, num: 0, den: 1 }));
    assert!(Height { whole: 4, num: 9, den: 10 }.is_below(&Height { whole: 5, num: 0, den: 7 }));
    assert!(!Height { whole: 5, num: 0, den: 7 }.is_below(&Height { whole: 4, num: 9, den: 10 }));
    assert_eq!(Height::from_whole(7), Height { whole: 7, num: 0, den: 1 });
    // segments that differ by less than a billionth in a billion units
    let flat = Line { p: pt(-1e9, 0.0), q: pt(1e9, 0.0) };
    let tilted = Line { p: pt(-1e9, 0.0), q: Point { x: 1_000_000_000_000_000_000, y: 1 } };
    assert!(flat.y(0).is_below(&tilted.y(0)));
    assert!(!tilted.y(0).is_below(&flat.y(0)));
    assert!(!flat.y(-1_000_000_000_000_000_000).is_below(&tilted.y(-1_000_000_000_000_000_000)));
}

#[test]
fn rounding_goes_to_the_nearest_and_a_tie_goes_up() {
    assert_eq!(Height { whole: 3, num: 1, den: 2 }.round(), 4);
    assert_eq!(Height { whole: -4, num: 1, den: 2 }.round(), -3);
    assert_eq!(Height { whole: 3, num: 1, den: 3 }.round(), 3);
    assert_eq!(Height { whole: 3, num: 2, den: 3 }.round(), 4);
    assert_eq!(Height { whole: -4, num: 2, den: 3 }.round(), -3);
    assert_eq!(Height { whole: -4, num: 1, den: 3 }.round(), -4);
    assert_eq!(Height { whole: 0, num: 0, den: 5 }.round(), 0);
}

#[test]
fn rounding_what_is_rounded_changes_nothing() {
    for (whole, num, den) in
        [(3i128, 1i128, 2i128), (-4, 1, 2), (3, 1, 3), (-4, 2, 3), (123456, 789, 1000), (0, 0, 9)]
    {
        let once = Height { whole, num, den }.round();
        let twice = Height { whole: once, num: 0, den }.round();
        assert_eq!(once, twice);
    }
    // a crossing that lies on a point with nine decimal places is that point
    let a = Line { p: pt(0.0, 0.0), q: pt(1.0, 1.0) };
    let b = Line { p: pt(0.0, 1.0), q: pt(0.5, 0.0) };
    let p = a.intersection(&b).unwrap().unwrap();
    let through = Line { p: Point { x: p.x - 7, y: p.y + 5 }, q: Point { x: p.x + 7, y: p.y - 5 } };
    let other = Line { p: Point { x: p.x - 3, y: p.y - 8 }, q: Point { x: p.x + 3, y: p.y + 8 } };
    assert_eq!(through.intersection(&other), Ok(Some(p)));
}

#[test]
fn crossing_is_rounded_to_the_nearest_billionth() {
    let diagonal = Line { p: pt(0.0, 0.0), q: pt(1.0, 1.0) };
    let steep = Line { p: pt(0.0, 1.0), q: pt(0.5, 0.0) };
    let flat = Line { p: pt(0.0, 1.0), q: pt(2.0, 0.0) };
    assert_eq!(diagonal.intersection(&steep), Ok(Some(Point { x: 333_333_333, y: 333_333_333 })));
    assert_eq!(diagonal.intersection(&flat), Ok(Some(Point { x: 666_666_667, y: 666_666_667 })));
    // whichever of the two is asked
    assert_eq!(steep.intersection(&diagonal), Ok(Some(Point { x: 333_333_333, y: 333_333_333 })));
    assert_eq!(flat.intersection(&diagonal), Ok(Some(Point { x: 666_666_667, y: 666_666_667 })));
}

#[test]
fn segments_apart_do_not_cross() {
    let a = Line { p: pt(0.0, 0.0), q: pt(1.0, 1.0) };
    // on one side of a
    assert_eq!(a.intersection(&Line { p: pt(0.0, 1.0), q: pt(1.0, 2.0) }), Ok(None));
    // the lines cross, the segments do not
    assert_eq!(a.intersection(&Line { p: pt(2.0, 0.0), q: pt(3.0, -5.0) }), Ok(None));
    assert_eq!(a.intersection(&Line { p: pt(3.0, 0.0), q: pt(0.0, 3.0) }), Ok(None));
}

#[test]
fn segments_that_touch_cross_in_the_touching_end() {
    let a = Line { p: pt(0.0, 0.0), q: pt(2.0, 0.0) };
    let b = Line { p: pt(1.0, 0.0), q: pt(3.0, 1.0) };
    assert_eq!(a.intersection(&b), Ok(Some(pt(1.0, 0.0))));
    assert_eq!(b.intersection(&a), Ok(Some(pt(1.0, 0.0))));
    // a common end
    let c = Line { p: pt(2.0, 0.0), q: pt(3.0, 5.0) };
    assert_eq!(a.intersection(&c), Ok(Some(pt(2.0, 0.0))));
}

#[test]
fn segments_on_one_line_are_an_error() {
    let a = Line { p: pt(0.0, 0.0), q: pt(2.0, 2.0) };
    let b = Line { p: pt(1.0, 1.0), q: pt(3.0, 3.0) };
    let c = Line { p: pt(5.0, 5.0), q: pt(6.0, 6.0) };
    assert_eq!(a.intersection(&b), Err(SweepError::CollinearSegments));
    assert_eq!(a.intersection(&c), Err(SweepError::CollinearSegments));
    assert_eq!(a.intersection(&a), Err(SweepError::CollinearSegments));
}

#[test]
fn crossing_at_the_edge_of_the_range() {
    let a = Line { p: pt(-1e9, -1e9), q: pt(1e9, 1e9) };
    let b = Line { p: pt(-1e9, 1e9), q: pt(1e9, -1e9) };
    assert_eq!(a.intersection(&b), Ok(Some(pt(0.0, 0.0))));
    let c = Line { p: pt(1e9, 1e9), q: pt(999_999_999.0, -1e9) };
    assert_eq!(a.intersection(&c), Ok(Some(pt(1e9, 1e9))));
    assert_eq!(a.y(1_000_000_000_000_000_001).round(), 1_000_000_000_000_000_001);
    // a crossing whose products do not fit the machine
    let d = Line { p: pt(-1e9, 1e9), q: Point { x: 999_999_999_999_999_999, y: -999_999_999_999_999_998 } };
    assert_eq!(a.intersection(&d), Ok(Some(Point { x: 0, y: 0 })));
    let e = Line { p: pt(-1e9, 1e9), q: pt(1e9, -333_333_333.0) };
    assert_eq!(
        a.intersection(&e),
        Ok(Some(Point { x: 200_000_000_120_000_000, y: 200_000_000_120_000_000 }))
    );
}

#[test]
fn length_is_rounded_down() {
    assert_eq!(Line { p: pt(0.0, 0.0), q: pt(3.0, 4.0) }.len(), nano(5.0));
    assert_eq!(Line { p: pt(1.0, 1.0), q: pt(0.0, 0.0) }.len(), 1_414_213_562);
    assert_eq!(Line { p: pt(2.0, 2.0), q: pt(2.0, 2.0) }.len(), 0);
    assert_eq!(
        Line { p: pt(-1e9, -1e9), q: pt(1e9, 1e9) }.len(),
        2_828_427_124_746_190_097
    );
    assert_eq!(Line { p: Point { x: 0, y: 0 }, q: Point { x: 1, y: 1 } }.len(), 1);
}

#[test]
fn crossing_does_not_depend_on_which_segment_is_asked() {
    let segments = [
        Line { p: pt(0.0, 0.0), q: pt(1.0, 1.0) },
        Line { p: pt(0.0, 1.0), q: pt(0.5, 0.0) },
        Line { p: pt(0.0, 1.0), q: pt(2.0, 0.0) },
        Line { p: pt(-3.0, 0.123456789), q: pt(7.0, 0.987654321) },
        Line { p: pt(0.3, -5.0), q: pt(0.30000001, 9.0) },
        Line { p: Point { x: 47, y: 10 }, q: Point { x: 0, y: 33 } },
        Line { p: Point { x: 1, y: 9 }, q: Point { x: 16, y: 32 } },
        Line { p: pt(-1e9, 1e9), q: pt(1e9, -333_333_333.0) },
        Line { p: pt(-1e9, -1e9), q: pt(1e9, 1e9) },
        Line { p: pt(1.0, 1.0), q: pt(2.0, 5.0) },
    ];
    let mut met = 0;
    for a in &segments {
        for b in &segments {
            assert_eq!(a.intersection(b), b.intersection(a));
            if let Ok(Some(_)) = a.intersection(b) {
                met += 1;
            }
        }
    }
    assert!(met >= 20);
}
