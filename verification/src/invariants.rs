//! What holds of every sweep: each step keeps the invariant, moves the
//! sweep to the right or leaves it in place, and leaves less work than
//! there was; so a whole run does.

use crate::arith::{lemma_nearest_of_whole, nearest};
use crate::error::SweepError;
use crate::event_queue::{
    ascending, begin_of, built, end_of, lemma_lower_bound_from, lemma_offered_wf, lemma_popped_wf,
    lemma_rank_from, lemma_with_point, lower_bound, noted, of_segment, offered, popped,
    queue_wf, rank, with_event, Event, QueueView,
};
use crate::geometry::{Line, Point, Height};
use crate::sweep::{
    after, begun, crossed, ended, lemma_neighbors_sound, lemma_offered_work, lemma_report_sound,
    probed, probed_next, start, stepped, sweep_wf, work, SweepView,
};
use crate::sweep_line::{
    arranged, lemma_arranged_members, lemma_arranged_wf, lemma_held_after_swap, lemma_position,
    lemma_raised_sound, lemma_remeasured_sound, lemma_remove_keeps, neighbors_of, position,
    raised, remeasured, sound, stand_adjacent, swap_outcome, SweepLineElement,
};
use vstd::prelude::*;

verus! {

/// Rounding what is rounded already changes nothing: the nearest whole
/// number to a fraction is its own nearest whole number.
pub proof fn lemma_rounding_is_idempotent(n: int, d: int)
    requires
        d > 0,
    ensures
        nearest(nearest(n, d) * d, d) == nearest(n, d),
{
    lemma_nearest_of_whole(nearest(n, d), d);
}

/// Testing two segments keeps the invariant of the queue and the position
/// of the sweep, and adds no work.
pub proof fn lemma_probed(queue: QueueView, a: Line, b: Line)
    requires
        queue_wf(queue),
        a.valid(),
        b.valid(),
    ensures
        probed(queue, a, b) matches Ok(next) ==> {
            &&& queue_wf(next)
            &&& next.last_x == queue.last_x
            &&& work(next) <= work(queue)
        },
{
    if !a.apart(b) && !a.collinear(b) {
        a.lemma_meeting_point_in_range(b);
        let point = a.meeting_point(b);
        lemma_offered_wf(queue, point, a, b);
        lemma_offered_work(queue, point, a, b);
    }
}

/// Testing a segment against a neighbouring entry keeps the invariant of
/// the queue and the position of the sweep, and adds no work.
pub proof fn lemma_probed_next(
    queue: Result<QueueView, SweepError>,
    a: Line,
    other: Option<SweepLineElement>,
)
    requires
        queue matches Ok(v) ==> queue_wf(v),
        a.valid(),
        other matches Some(e) ==> e.line.valid(),
    ensures
        probed_next(queue, a, other) matches Ok(next) ==> {
            &&& queue matches Ok(v)
            &&& queue_wf(next)
            &&& next.last_x == v.last_x
            &&& work(next) <= work(v)
        },
{
    match (queue, other) {
        (Ok(v), Some(e)) => {
            lemma_probed(v, a, e.line);
        },
        _ => {},
    }
}

/// Handling the beginning of a segment keeps the invariant and the
/// position of the sweep, and adds no work.
pub proof fn lemma_begun(v: SweepView, point: Point, line: Line)
    requires
        sweep_wf(v),
        point.in_range(),
        line.valid(),
    ensures
        begun(v, point, line) matches Ok(w) ==> {
            &&& sweep_wf(w)
            &&& w.queue.last_x == v.queue.last_x
            &&& work(w.queue) <= work(v.queue)
        },
{
    let element = SweepLineElement { y: Height::whole(point.y), line };
    let status = arranged(v.status.push(element));
    assert(sound(v.status.push(element)));
    lemma_arranged_wf(v.status.push(element));
    lemma_neighbors_sound(status, line);
    match neighbors_of(status, line) {
        Some(near) => {
            let first = probed_next(Ok(v.queue), line, near.above);
            lemma_probed_next(Ok(v.queue), line, near.above);
            lemma_probed_next(first, line, near.below);
        },
        None => {},
    }
}

/// Handling the end of a segment keeps the invariant and the position of
/// the sweep, and adds no work.
pub proof fn lemma_ended(v: SweepView, line: Line)
    requires
        sweep_wf(v),
    ensures
        ended(v, line) matches Ok(w) ==> {
            &&& sweep_wf(w)
            &&& w.queue.last_x == v.queue.last_x
            &&& work(w.queue) <= work(v.queue)
        },
{
    lemma_neighbors_sound(v.status, line);
    lemma_position(v.status, line);
    match neighbors_of(v.status, line) {
        Some(near) => {
            lemma_remove_keeps(v.status, position(v.status, line));
            match near.below {
                Some(low) => {
                    lemma_probed_next(Ok(v.queue), low.line, near.above);
                },
                None => {},
            }
        },
        None => {},
    }
}

/// Handling a crossing keeps the invariant and the position of the sweep,
/// and adds no work.
pub proof fn lemma_crossed(v: SweepView, point: Point, line: Line, other_line: Line)
    requires
        sweep_wf(v),
        point.in_range(),
    ensures
        crossed(v, point, line, other_line) matches Ok(w) ==> {
            &&& sweep_wf(w)
            &&& w.queue.last_x == v.queue.last_x
            &&& work(w.queue) <= work(v.queue)
        },
{
    let i = position(v.status, line);
    let j = position(v.status, other_line);
    lemma_position(v.status, line);
    lemma_position(v.status, other_line);
    if i < v.status.len() && j < v.status.len() {
        lemma_remeasured_sound(v.status, i, j, point.x + 1);
        lemma_arranged_wf(remeasured(v.status, i, j, point.x + 1));
        lemma_held_after_swap(v.status, i, j, point.x + 1, line);
        lemma_held_after_swap(v.status, i, j, point.x + 1, other_line);
        let (status, report) = swap_outcome(v.status, line, other_line, point.x as int);
        lemma_report_sound(
            status,
            position(status, line),
            position(status, other_line),
            stand_adjacent(v.status, line, other_line),
        );
        let first = probed_next(Ok(v.queue), report.bigger.line, report.above);
        lemma_probed_next(Ok(v.queue), report.bigger.line, report.above);
        lemma_probed_next(first, report.smaller.line, report.below);
        if !v.found.contains(point) {
            lemma_with_point(v.found, point);
        }
    }
}

/// A step keeps the invariant of the sweep. Where an event was left, the
/// sweep now stands at that event, which is not to the left of where it
/// stood, and less work is left than there was.
pub proof fn lemma_stepped(v: SweepView)
    requires
        sweep_wf(v),
    ensures
        stepped(v) matches Ok(w) ==> {
            &&& sweep_wf(w)
            &&& w.queue.last_x >= v.queue.last_x
            &&& v.queue.events.len() > 0 ==> w.queue.last_x == v.queue.events[0].at().x
            &&& v.queue.events.len() > 0 ==> work(w.queue) < work(v.queue)
        },
{
    if v.queue.events.len() > 0 {
        let event = v.queue.events[0];
        assert(event.sound());
        lemma_popped_wf(v.queue);
        lemma_raised_sound(v.status, event.at().x as int);
        lemma_arranged_wf(raised(v.status, event.at().x as int));
        let moved = SweepView {
            queue: popped(v.queue),
            status: arranged(raised(v.status, event.at().x as int)),
            found: v.found,
        };
        assert(work(moved.queue) < work(v.queue));
        match event {
            Event::Begin { point, line } => {
                lemma_begun(moved, point, line);
            },
            Event::End { point, line } => {
                lemma_ended(moved, line);
            },
            Event::Intersection { point, line, other_line } => {
                lemma_crossed(moved, point, line, other_line);
            },
        }
    }
}

/// However many steps a sweep takes, it keeps its invariant: the events to
/// come stand in order and none behind the sweep, the sweep line is in
/// order, and the points found stand in their strict order, so that no
/// point is found twice.
pub proof fn lemma_run_keeps_invariant(v: SweepView, n: nat)
    requires
        sweep_wf(v),
    ensures
        after(v, n) matches Ok(w) ==> sweep_wf(w),
    decreases n,
{
    if n > 0 {
        lemma_run_keeps_invariant(v, (n - 1) as nat);
        match after(v, (n - 1) as nat) {
            Ok(w) => {
                lemma_stepped(w);
            },
            Err(_) => {},
        }
    }
}

/// A run once failed stays failed.
pub proof fn lemma_run_stays_failed(v: SweepView, m: nat, n: nat)
    requires
        m <= n,
        after(v, m) is Err,
    ensures
        after(v, n) == after(v, m),
    decreases n,
{
    if m < n {
        lemma_run_stays_failed(v, m, (n - 1) as nat);
    }
}

/// The sweep never moves to the left: after more steps it stands where it
/// stood after fewer, or to the right of that. As a sweep stands at the
/// event that it took last, the events are taken in ascending order of `x`.
pub proof fn lemma_sweep_never_goes_back(v: SweepView, m: nat, n: nat)
    requires
        sweep_wf(v),
        m <= n,
    ensures
        after(v, n) matches Ok(late) ==> {
            &&& after(v, m) matches Ok(early)
            &&& early.queue.last_x <= late.queue.last_x
        },
    decreases n,
{
    if m < n {
        lemma_sweep_never_goes_back(v, m, (n - 1) as nat);
        lemma_run_keeps_invariant(v, (n - 1) as nat);
        match after(v, (n - 1) as nat) {
            Ok(w) => {
                lemma_stepped(w);
            },
            Err(_) => {},
        }
    }
}

/// No point is found twice: the points found after any number of steps are
/// pairwise different.
pub proof fn lemma_found_once(v: SweepView, n: nat)
    requires
        sweep_wf(v),
    ensures
        after(v, n) matches Ok(w) ==> w.found.no_duplicates(),
{
    lemma_run_keeps_invariant(v, n);
    match after(v, n) {
        Ok(w) => {
            assert forall|i: int, j: int| 0 <= i < w.found.len() && 0 <= j < w.found.len() && i
                != j implies w.found[i] != w.found[j] by {
                if i < j {
                    assert(w.found[i].precedes(w.found[j]));
                } else {
                    assert(w.found[j].precedes(w.found[i]));
                }
            }
        },
        Err(_) => {},
    }
}

/// A segment that has just been put on the sweep line is found there: its
/// beginning never fails for want of the segment.
pub proof fn lemma_begun_finds_segment(v: SweepView, point: Point, line: Line)
    ensures
        neighbors_of(
            arranged(v.status.push(SweepLineElement { y: Height::whole(point.y), line })),
            line,
        ) is Some,
{
    let element = SweepLineElement { y: Height::whole(point.y), line };
    let grown = v.status.push(element);
    let status = arranged(grown);
    lemma_arranged_members(grown);
    assert(grown[grown.len() - 1] == element);
    assert(status.contains(element));
    let k = choose|k: int| 0 <= k < status.len() && status[k] == element;
    lemma_position(status, line);
    assert(status[k].line == line);
}

/// The point is the crossing of two different segments of `lines`.
pub open spec fn is_crossing(p: Point, lines: Set<Line>) -> bool {
    exists|a: Line, b: Line|
        lines.contains(a) && lines.contains(b) && a != b && #[trigger] a.crossing(b) == Ok::<
            Option<Point>,
            SweepError,
        >(Some(p))
}

/// The event brings nothing but the segments `lines` to the sweep: the
/// segment that begins is one of them; a crossing is the crossing of two of
/// them, at the point in which the two meet.
pub open spec fn event_from(e: Event, lines: Set<Line>) -> bool {
    match e {
        Event::Begin { line, .. } => lines.contains(line),
        Event::End { .. } => true,
        Event::Intersection { point, line, other_line } => {
            &&& lines.contains(line)
            &&& lines.contains(other_line)
            &&& line.crossing(other_line) == Ok::<Option<Point>, SweepError>(Some(point))
        },
    }
}

/// Every event brings nothing but the segments `lines`.
pub open spec fn events_from(events: Seq<Event>, lines: Set<Line>) -> bool {
    forall|i: int| 0 <= i < events.len() ==> event_from(#[trigger] events[i], lines)
}

/// Every entry holds one of the segments `lines`.
pub open spec fn status_from(s: Seq<SweepLineElement>, lines: Set<Line>) -> bool {
    forall|i: int| 0 <= i < s.len() ==> lines.contains((#[trigger] s[i]).line)
}

/// Every point is the crossing of two of the segments `lines`.
pub open spec fn found_from(found: Seq<Point>, lines: Set<Line>) -> bool {
    forall|i: int| 0 <= i < found.len() ==> is_crossing(#[trigger] found[i], lines)
}

/// The sweep deals with nothing but the segments `lines`.
pub open spec fn drawn_from(v: SweepView, lines: Set<Line>) -> bool {
    &&& events_from(v.queue.events, lines)
    &&& status_from(v.status, lines)
    &&& found_from(v.found, lines)
}

/// The segments that begin among the events.
pub open spec fn begun_segments(events: Seq<Event>) -> Set<Line> {
    Set::new(|line: Line| exists|i: int| 0 <= i < events.len() && #[trigger] events[i] is Begin
        && events[i]->Begin_line == line)
}

/// Arranged entries hold the segments that the entries held.
pub proof fn lemma_arranged_from(s: Seq<SweepLineElement>, lines: Set<Line>)
    requires
        status_from(s, lines),
    ensures
        status_from(arranged(s), lines),
{
    lemma_arranged_members(s);
    assert forall|i: int| 0 <= i < arranged(s).len() implies lines.contains(
        (#[trigger] arranged(s)[i]).line,
    ) by {
        assert(s.contains(arranged(s)[i]));
        let k = choose|k: int| 0 <= k < s.len() && s[k] == arranged(s)[i];
        assert(lines.contains(s[k].line));
    }
}

/// Testing two of the segments brings nothing but the segments to the
/// queue.
pub proof fn lemma_probed_from(queue: QueueView, a: Line, b: Line, lines: Set<Line>)
    requires
        events_from(queue.events, lines),
        lines.contains(a),
        lines.contains(b),
    ensures
        probed(queue, a, b) matches Ok(next) ==> events_from(next.events, lines),
{
    match a.crossing(b) {
        Ok(Some(point)) => {
            let e = Event::Intersection { point, line: a, other_line: b };
            let next = offered(queue, point, a, b);
            if next != queue {
                lemma_rank_keeps(queue.events, e, lines);
            }
        },
        _ => {},
    }
}

/// An event that brings nothing but the segments, put in its place among
/// such events, leaves such events.
pub proof fn lemma_rank_keeps(events: Seq<Event>, e: Event, lines: Set<Line>)
    requires
        events_from(events, lines),
        event_from(e, lines),
    ensures
        events_from(with_event(events, e), lines),
{
    let out = with_event(events, e);
    let k = rank(events, e);
    lemma_rank_from(events, e, 0);
    events.insert_ensures(k, e);
    assert forall|i: int| 0 <= i < out.len() implies event_from(#[trigger] out[i], lines) by {
        if i < k {
            assert(out[i] == events[i]);
        } else if i > k {
            assert(out[i] == events[i - 1]);
        }
    }
}

/// Testing one of the segments against a neighbouring entry that holds one
/// of them brings nothing but the segments to the queue.
pub proof fn lemma_probed_next_from(
    queue: Result<QueueView, SweepError>,
    a: Line,
    other: Option<SweepLineElement>,
    lines: Set<Line>,
)
    requires
        queue matches Ok(v) ==> events_from(v.events, lines),
        lines.contains(a),
        other matches Some(e) ==> lines.contains(e.line),
    ensures
        probed_next(queue, a, other) matches Ok(next) ==> events_from(next.events, lines),
{
    match (queue, other) {
        (Ok(v), Some(e)) => {
            lemma_probed_from(v, a, e.line, lines);
        },
        _ => {},
    }
}

/// The entries next to a segment hold segments of the sweep line.
pub proof fn lemma_neighbors_from(s: Seq<SweepLineElement>, line: Line, lines: Set<Line>)
    requires
        status_from(s, lines),
    ensures
        neighbors_of(s, line) matches Some(near) ==> {
            &&& near.above matches Some(e) ==> lines.contains(e.line)
            &&& near.below matches Some(e) ==> lines.contains(e.line)
        },
{
    let i = position(s, line);
    lemma_position(s, line);
    if i < s.len() {
        if i > 0 {
            assert(lines.contains(s[i - 1].line));
        }
        if i + 1 < s.len() {
            assert(lines.contains(s[i + 1].line));
        }
    }
}

/// A step of a sweep that deals with nothing but the segments `lines`
/// leaves such a sweep: no other segment comes to the sweep line or into
/// an event, and every point found is the crossing of two of them.
pub proof fn lemma_stepped_from(v: SweepView, lines: Set<Line>)
    requires
        drawn_from(v, lines),
    ensures
        stepped(v) matches Ok(w) ==> drawn_from(w, lines),
{
    if v.queue.events.len() > 0 {
        let event = v.queue.events[0];
        let x = event.at().x as int;
        assert(event_from(event, lines));
        let rest = popped(v.queue);
        assert forall|i: int| 0 <= i < rest.events.len() implies event_from(
            #[trigger] rest.events[i],
            lines,
        ) by {
            assert(rest.events[i] == v.queue.events[i + 1]);
        }
        assert forall|i: int| 0 <= i < raised(v.status, x).len() implies lines.contains(
            (#[trigger] raised(v.status, x)[i]).line,
        ) by {
            assert(lines.contains(v.status[i].line));
        }
        lemma_arranged_from(raised(v.status, x), lines);
        let status = arranged(raised(v.status, x));
        match event {
            Event::Begin { point, line } => {
                let element = SweepLineElement { y: Height::whole(point.y), line };
                let grown = status.push(element);
                assert forall|i: int| 0 <= i < grown.len() implies lines.contains(
                    (#[trigger] grown[i]).line,
                ) by {
                    if i < status.len() {
                        assert(grown[i] == status[i]);
                    }
                }
                lemma_arranged_from(grown, lines);
                lemma_neighbors_from(arranged(grown), line, lines);
                match neighbors_of(arranged(grown), line) {
                    Some(near) => {
                        let first = probed_next(Ok(rest), line, near.above);
                        lemma_probed_next_from(Ok(rest), line, near.above, lines);
                        lemma_probed_next_from(first, line, near.below, lines);
                    },
                    None => {},
                }
            },
            Event::End { point, line } => {
                lemma_neighbors_from(status, line, lines);
                lemma_position(status, line);
                match neighbors_of(status, line) {
                    Some(near) => {
                        let at = position(status, line);
                        let less = status.remove(at);
                        assert forall|i: int| 0 <= i < less.len() implies lines.contains(
                            (#[trigger] less[i]).line,
                        ) by {
                            if i < at {
                                assert(less[i] == status[i]);
                            } else {
                                assert(less[i] == status[i + 1]);
                            }
                        }
                        match near.below {
                            Some(low) => {
                                lemma_probed_next_from(Ok(rest), low.line, near.above, lines);
                            },
                            None => {},
                        }
                    },
                    None => {},
                }
            },
            Event::Intersection { point, line, other_line } => {
                let i = position(status, line);
                let j = position(status, other_line);
                lemma_position(status, line);
                lemma_position(status, other_line);
                if i < status.len() && j < status.len() {
                    let lifted = remeasured(status, i, j, point.x + 1);
                    assert forall|k: int| 0 <= k < lifted.len() implies lines.contains(
                        (#[trigger] lifted[k]).line,
                    ) by {
                        assert(lines.contains(status[k].line));
                    }
                    lemma_arranged_from(lifted, lines);
                    lemma_arranged_members(lifted);
                    lemma_held_after_swap(status, i, j, point.x + 1, line);
                    lemma_held_after_swap(status, i, j, point.x + 1, other_line);
                    let (swapped, report) = swap_outcome(status, line, other_line, point.x as int);
                    let a = position(swapped, line);
                    let b = position(swapped, other_line);
                    let top = if a < b {
                        a
                    } else {
                        b
                    };
                    let bottom = if a < b {
                        b
                    } else {
                        a
                    };
                    assert(lines.contains(swapped[top].line));
                    assert(lines.contains(swapped[bottom].line));
                    if top > 0 {
                        assert(lines.contains(swapped[top - 1].line));
                    }
                    if bottom + 1 < swapped.len() {
                        assert(lines.contains(swapped[bottom + 1].line));
                    }
                    let first = probed_next(Ok(rest), report.bigger.line, report.above);
                    lemma_probed_next_from(Ok(rest), report.bigger.line, report.above, lines);
                    lemma_probed_next_from(first, report.smaller.line, report.below, lines);
                    line.lemma_no_crossing_with_itself();
                    assert(line != other_line);
                    assert(is_crossing(point, lines));
                    lemma_noted_from(v.found, point, lines);
                }
            },
        }
    }
}

/// A crossing of two of the segments, noted among such crossings, leaves
/// such crossings.
pub proof fn lemma_noted_from(found: Seq<Point>, p: Point, lines: Set<Line>)
    requires
        found_from(found, lines),
        is_crossing(p, lines),
    ensures
        found_from(noted(found, p), lines),
{
    if !found.contains(p) {
        let k = lower_bound(found, p);
        lemma_lower_bound_from(found, p, 0);
        found.insert_ensures(k, p);
        let out = noted(found, p);
        assert forall|i: int| 0 <= i < out.len() implies is_crossing(#[trigger] out[i], lines) by {
            if i < k {
                assert(out[i] == found[i]);
            } else if i > k {
                assert(out[i] == found[i - 1]);
            }
        }
    }
}

/// However many steps a sweep takes that deals with nothing but the
/// segments `lines`, every point that it has found is the crossing of two
/// of them: the sweep reports no point in which no two segments meet.
pub proof fn lemma_run_from(v: SweepView, lines: Set<Line>, n: nat)
    requires
        drawn_from(v, lines),
    ensures
        after(v, n) matches Ok(w) ==> drawn_from(w, lines),
    decreases n,
{
    if n > 0 {
        lemma_run_from(v, lines, (n - 1) as nat);
        match after(v, (n - 1) as nat) {
            Ok(w) => {
                lemma_stepped_from(w, lines);
            },
            Err(_) => {},
        }
    }
}

/// A queue that holds the events of segments and nothing else starts a
/// sweep that deals with nothing but those segments.
pub proof fn lemma_built_from(queue: QueueView, lines: Seq<Line>)
    requires
        built(queue.events, lines, lines.len() as int),
    ensures
        drawn_from(start(queue), lines.to_set()),
        drawn_from(start(queue), begun_segments(queue.events)),
{
    assert forall|i: int| 0 <= i < queue.events.len() implies event_from(
        #[trigger] queue.events[i],
        lines.to_set(),
    ) && event_from(queue.events[i], begun_segments(queue.events)) by {
        assert(of_segment(queue.events[i], lines, lines.len() as int));
        let j = choose|j: int|
            0 <= j < lines.len() && (queue.events[i] == begin_of(#[trigger] lines[j])
                || queue.events[i] == end_of(lines[j]));
        assert(lines.contains(lines[j]));
    }
}

/// The outcome of a sweep is one: once no event is left, further steps
/// change nothing, so that every number of steps that ends the sweep gives
/// the same sweep line and the same points.
pub proof fn lemma_outcome_is_one(v: SweepView, m: nat, n: nat)
    requires
        m <= n,
        after(v, m) matches Ok(end) && end.queue.events.len() == 0,
    ensures
        after(v, n) == after(v, m),
    decreases n,
{
    if m < n {
        lemma_outcome_is_one(v, m, (n - 1) as nat);
    }
}

/// It takes two segments to have a crossing: of fewer than two segments
/// no point is the crossing, so a sweep over them reports none.
pub proof fn lemma_needs_two_segments(points: Seq<Point>, lines: Seq<Line>)
    requires
        lines.len() <= 1,
        found_from(points, lines.to_set()),
    ensures
        points.len() == 0,
{
    if points.len() > 0 {
        assert(is_crossing(points[0], lines.to_set()));
        let (a, b): (Line, Line) = choose|a: Line, b: Line|
            lines.to_set().contains(a) && lines.to_set().contains(b) && a != b
                && #[trigger] a.crossing(b) == Ok::<Option<Point>, SweepError>(Some(points[0]));
        assert(lines.contains(a) && lines.contains(b));
        let i = choose|i: int| 0 <= i < lines.len() && lines[i] == a;
        let j = choose|j: int| 0 <= j < lines.len() && lines[j] == b;
        assert(i == 0 && j == 0);
    }
}

/// The point is the crossing of two of the segments `lines`, the one that
/// stands first asked for its crossing with the one that stands later.
pub open spec fn is_crossing_of_pair(p: Point, lines: Seq<Line>) -> bool {
    exists|i: int, j: int|
        0 <= i < j < lines.len() && #[trigger] lines[i].crossing(lines[j]) == Ok::<
            Option<Point>,
            SweepError,
        >(Some(p))
}

/// The crossing of two different segments among `lines` is the crossing of
/// a pair of them taken in their order.
pub proof fn lemma_crossing_of_pair(p: Point, lines: Seq<Line>)
    requires
        is_crossing(p, lines.to_set()),
    ensures
        is_crossing_of_pair(p, lines),
{
    let (a, b): (Line, Line) = choose|a: Line, b: Line|
        lines.to_set().contains(a) && lines.to_set().contains(b) && a != b
            && #[trigger] a.crossing(b) == Ok::<Option<Point>, SweepError>(Some(p));
    assert(lines.contains(a) && lines.contains(b));
    let i = choose|i: int| 0 <= i < lines.len() && lines[i] == a;
    let j = choose|j: int| 0 <= j < lines.len() && lines[j] == b;
    if i < j {
        assert(lines[i].crossing(lines[j]) == Ok::<Option<Point>, SweepError>(Some(p)));
    } else {
        a.lemma_crossing_is_mutual(b);
        assert(lines[j].crossing(lines[i]) == Ok::<Option<Point>, SweepError>(Some(p)));
    }
}

/// The number of pairs among `n` things.
pub open spec fn pairs(n: nat) -> nat
    decreases n,
{
    if n == 0 {
        0
    } else {
        pairs((n - 1) as nat) + (n - 1) as nat
    }
}

/// Among `n` things there are `n * (n - 1) / 2` pairs.
pub proof fn lemma_pairs(n: nat)
    ensures
        2 * pairs(n) == n * (n - 1),
    decreases n,
{
    let m: int = n as int;
    if n > 0 {
        lemma_pairs((n - 1) as nat);
        assert(m * (m - 1) == (m - 1) * ((m - 1) - 1) + 2 * (m - 1)) by (nonlinear_arith);
    } else {
        assert(m * (m - 1) == 0) by (nonlinear_arith)
            requires
                m == 0,
        ;
    }
}

/// More things have no fewer pairs.
pub proof fn lemma_pairs_grow(m: nat, n: nat)
    requires
        m <= n,
    ensures
        pairs(m) <= pairs(n),
    decreases n,
{
    if m < n {
        lemma_pairs_grow(m, (n - 1) as nat);
    }
}

/// The number of the pair `i < j` among all pairs, counted by the second
/// and then by the first.
pub open spec fn pair_number(i: int, j: int) -> int {
    pairs(j as nat) + i
}

/// Pairs have their numbers each for itself, and below the number of pairs.
pub proof fn lemma_pair_number(i: int, j: int, k: int, l: int, n: nat)
    requires
        0 <= i < j < n,
        0 <= k < l < n,
    ensures
        0 <= pair_number(i, j) < pairs(n),
        pair_number(i, j) == pair_number(k, l) ==> i == k && j == l,
{
    lemma_pairs_grow((j + 1) as nat, n);
    if j < l {
        lemma_pairs_grow((j + 1) as nat, l as nat);
    } else if l < j {
        lemma_pairs_grow((l + 1) as nat, j as nat);
    }
}

/// The number of a pair of `lines` that cross in `p`.
pub open spec fn number_of(p: Point, lines: Seq<Line>) -> int {
    let (i, j): (int, int) = choose|i: int, j: int|
        0 <= i < j < lines.len() && #[trigger] lines[i].crossing(lines[j]) == Ok::<
            Option<Point>,
            SweepError,
        >(Some(p));
    pair_number(i, j)
}

/// Different points, each the crossing of a pair of the segments, are no
/// more than the segments have pairs: of `n` segments at most
/// `n * (n - 1) / 2` points.
pub proof fn lemma_no_more_than_pairs(points: Seq<Point>, lines: Seq<Line>)
    requires
        points.no_duplicates(),
        forall|k: int| 0 <= k < points.len() ==> is_crossing_of_pair(#[trigger] points[k], lines),
    ensures
        points.len() <= pairs(lines.len()),
        2 * points.len() <= lines.len() * (lines.len() - 1),
{
    let n = lines.len();
    let numbers = Seq::new(points.len(), |k: int| number_of(points[k], lines));
    assert forall|k: int| 0 <= k < numbers.len() implies 0 <= #[trigger] numbers[k] < pairs(n) by {
        assert(is_crossing_of_pair(points[k], lines));
        let (i, j): (int, int) = choose|i: int, j: int|
            0 <= i < j < lines.len() && #[trigger] lines[i].crossing(lines[j]) == Ok::<
                Option<Point>,
                SweepError,
            >(Some(points[k]));
        lemma_pair_number(i, j, i, j, n);
    }
    assert forall|k: int, l: int|
        0 <= k < numbers.len() && 0 <= l < numbers.len() && k != l implies numbers[k]
        != numbers[l] by {
        assert(is_crossing_of_pair(points[k], lines));
        assert(is_crossing_of_pair(points[l], lines));
        let (i, j): (int, int) = choose|i: int, j: int|
            0 <= i < j < lines.len() && #[trigger] lines[i].crossing(lines[j]) == Ok::<
                Option<Point>,
                SweepError,
            >(Some(points[k]));
        let (g, h): (int, int) = choose|g: int, h: int|
            0 <= g < h < lines.len() && #[trigger] lines[g].crossing(lines[h]) == Ok::<
                Option<Point>,
                SweepError,
            >(Some(points[l]));
        lemma_pair_number(i, j, g, h, n);
        if numbers[k] == numbers[l] {
            assert(points[k] == points[l]);
        }
    }
    numbers.unique_seq_to_set();
    vstd::set_lib::lemma_int_range(0, pairs(n) as int);
    assert(numbers.to_set().subset_of(vstd::set_lib::set_int_range(0, pairs(n) as int))) by {
        assert forall|c: int| numbers.to_set().contains(c) implies vstd::set_lib::set_int_range(
            0,
            pairs(n) as int,
        ).contains(c) by {
            let k = choose|k: int| 0 <= k < numbers.len() && numbers[k] == c;
            assert(0 <= numbers[k] < pairs(n));
        }
    }
    vstd::set_lib::lemma_len_subset(
        numbers.to_set(),
        vstd::set_lib::set_int_range(0, pairs(n) as int),
    );
    lemma_pairs(n);
}

/// What a sweep over the segments `lines` has found: every point is the
/// crossing of a pair of them, taken in their order, and the points are no
/// more than the pairs.
pub proof fn lemma_found_of_pairs(found: Seq<Point>, lines: Seq<Line>)
    requires
        ascending(found),
        found_from(found, lines.to_set()),
    ensures
        forall|k: int| 0 <= k < found.len() ==> is_crossing_of_pair(#[trigger] found[k], lines),
        2 * found.len() <= lines.len() * (lines.len() - 1),
{
    assert forall|k: int| 0 <= k < found.len() implies is_crossing_of_pair(
        #[trigger] found[k],
        lines,
    ) by {
        lemma_crossing_of_pair(found[k], lines);
    }
    assert forall|i: int, j: int| 0 <= i < found.len() && 0 <= j < found.len() && i != j implies
        found[i] != found[j] by {
        if i < j {
            assert(found[i].precedes(found[j]));
        } else {
            assert(found[j].precedes(found[i]));
        }
    }
    lemma_no_more_than_pairs(found, lines);
}

} // verus!
