//! The events of a sweep and the queue that hands them out in order.

use crate::error::SweepError;
use crate::geometry::{Line, Point, COORD_MAX};
use crate::invariants::{drawn_from, lemma_built_from};
use crate::sweep::start;
use std::cmp::Ordering;
use vstd::prelude::*;

verus! {

/// A position at which the sweep stops: a segment begins, a segment ends, or
/// two segments cross.
#[derive(Clone, Copy, Debug, PartialEq, Eq, Structural)]
pub enum Event {
    Begin { point: Point, line: Line },
    End { point: Point, line: Line },
    Intersection { point: Point, line: Line, other_line: Line },
}

impl Event {
    /// The point at which the event takes place.
    pub open spec fn at(self) -> Point {
        match self {
            Event::Begin { point, .. } => point,
            Event::End { point, .. } => point,
            Event::Intersection { point, .. } => point,
        }
    }

    /// The point at which the event takes place.
    pub fn point(&self) -> (r: &Point)
        ensures
            *r == self.at(),
    {
        match self {
            Event::Begin { point, .. } => point,
            Event::End { point, .. } => point,
            Event::Intersection { point, .. } => point,
        }
    }

    /// The strict order of events: by point; at one point a crossing comes
    /// before the end of a segment, and no other two events are ordered.
    pub open spec fn before(self, other: Event) -> bool {
        ||| self.at().precedes(other.at())
        ||| (self.at() == other.at() && self is Intersection && other is End)
    }

    /// The point lies in the range of coordinates and every segment of the
    /// event is one that a sweep takes.
    pub open spec fn sound(self) -> bool {
        match self {
            Event::Begin { point, line } => point.in_range() && line.valid(),
            Event::End { point, line } => point.in_range() && line.valid(),
            Event::Intersection { point, line, other_line } => point.in_range() && line.valid()
                && other_line.valid(),
        }
    }

    /// Whether the event comes strictly before `other`.
    pub fn is_before(&self, other: &Event) -> (r: bool)
        ensures
            r == self.before(*other),
    {
        let a = self.point();
        let b = other.point();
        if a.x < b.x || (a.x == b.x && a.y < b.y) {
            true
        } else if a.x == b.x && a.y == b.y {
            match (self, other) {
                (Event::Intersection { .. }, Event::End { .. }) => true,
                _ => false,
            }
        } else {
            false
        }
    }

    /// Three-way comparison of events: `Less` where the event comes before
    /// `other`, `Greater` where `other` comes before it, else `Equal`.
    pub fn cmp(&self, other: &Event) -> (r: Ordering)
        ensures
            r == Ordering::Less <==> self.before(*other),
            r == Ordering::Greater <==> other.before(*self),
    {
        if self.is_before(other) {
            Ordering::Less
        } else if other.is_before(self) {
            Ordering::Greater
        } else {
            Ordering::Equal
        }
    }

    /// The order of events is transitive.
    pub proof fn lemma_before_transitive(a: Event, b: Event, c: Event)
        requires
            a.before(b),
            b.before(c),
        ensures
            a.before(c),
    {
    }
}

/// What a queue holds: the position of the sweep, the events to come in
/// their order, and the points of the crossings that were scheduled, in the
/// order of points.
pub struct QueueView {
    pub last_x: int,
    pub events: Seq<Event>,
    pub scheduled: Seq<Point>,
}

/// No event comes before an earlier one.
pub open spec fn ordered(events: Seq<Event>) -> bool {
    forall|i: int, j: int|
        0 <= i < j < events.len() ==> !(#[trigger] events[j]).before(#[trigger] events[i])
}

/// Every event is sound.
pub open spec fn all_sound(events: Seq<Event>) -> bool {
    forall|i: int| 0 <= i < events.len() ==> (#[trigger] events[i]).sound()
}

/// No event lies to the left of `x`.
pub open spec fn all_ahead(events: Seq<Event>, x: int) -> bool {
    forall|i: int| 0 <= i < events.len() ==> (#[trigger] events[i]).at().x >= x
}

/// No two events of one kind, crossing or not, share their point: at a
/// point at most one segment begins or ends, and at most one crossing is
/// scheduled.
pub open spec fn distinct_points(events: Seq<Event>) -> bool {
    forall|i: int, j: int|
        0 <= i < j < events.len() && ((#[trigger] events[i]) is Intersection <==> (
        #[trigger] events[j]) is Intersection) ==> events[i].at() != events[j].at()
}

/// The point of every crossing in `events` is among `scheduled`.
pub open spec fn crossings_recorded(events: Seq<Event>, scheduled: Seq<Point>) -> bool {
    forall|i: int|
        0 <= i < events.len() && (#[trigger] events[i]) is Intersection ==> scheduled.contains(
            events[i].at(),
        )
}

/// The points stand in their strict order, so none occurs twice, and lie in
/// the range of coordinates.
pub open spec fn ascending(points: Seq<Point>) -> bool {
    &&& forall|i: int, j: int|
        0 <= i < j < points.len() ==> (#[trigger] points[i]).precedes(#[trigger] points[j])
    &&& forall|i: int| 0 <= i < points.len() ==> (#[trigger] points[i]).in_range()
}

/// The first index from `from` on whose event `e` comes before, or the
/// length of `events`.
pub open spec fn rank_from(events: Seq<Event>, e: Event, from: int) -> int
    decreases events.len() - from,
{
    if from >= events.len() {
        events.len() as int
    } else if e.before(events[from]) {
        from
    } else {
        rank_from(events, e, from + 1)
    }
}

/// The place of a new event: before the first event that it comes before,
/// so behind every event that it does not.
pub open spec fn rank(events: Seq<Event>, e: Event) -> int {
    rank_from(events, e, 0)
}

/// The first index from `from` on whose point does not precede `p`, or the
/// length of `points`.
pub open spec fn lower_bound_from(points: Seq<Point>, p: Point, from: int) -> int
    decreases points.len() - from,
{
    if from >= points.len() {
        points.len() as int
    } else if !points[from].precedes(p) {
        from
    } else {
        lower_bound_from(points, p, from + 1)
    }
}

/// The place of the point `p` among `points`: the first index whose point
/// does not precede it.
pub open spec fn lower_bound(points: Seq<Point>, p: Point) -> int {
    lower_bound_from(points, p, 0)
}

/// The points with `p` put in its place.
pub open spec fn with_point(points: Seq<Point>, p: Point) -> Seq<Point> {
    points.insert(lower_bound(points, p), p)
}

/// The points with `p` among them: put in its place if it was not there.
pub open spec fn noted(points: Seq<Point>, p: Point) -> Seq<Point> {
    if points.contains(p) {
        points
    } else {
        with_point(points, p)
    }
}

/// The events with `e` put in its place.
pub open spec fn with_event(events: Seq<Event>, e: Event) -> Seq<Event> {
    events.insert(rank(events, e), e)
}

/// What a queue holds after the crossing of `line` and `other_line` at
/// `point` was offered to it: the crossing is scheduled if it does not lie
/// behind the sweep and no crossing at its point was scheduled before.
pub open spec fn offered(v: QueueView, point: Point, line: Line, other_line: Line) -> QueueView {
    if point.x >= v.last_x && !v.scheduled.contains(point) {
        QueueView {
            last_x: v.last_x,
            events: with_event(v.events, Event::Intersection { point, line, other_line }),
            scheduled: with_point(v.scheduled, point),
        }
    } else {
        v
    }
}

/// What a queue holds after its first event was taken.
pub open spec fn popped(v: QueueView) -> QueueView {
    if v.events.len() > 0 {
        QueueView {
            last_x: v.events[0].at().x as int,
            events: v.events.drop_first(),
            scheduled: v.scheduled,
        }
    } else {
        v
    }
}

/// The event with which a segment begins: at its lower endpoint.
pub open spec fn begin_of(line: Line) -> Event {
    Event::Begin { point: line.lower(), line }
}

/// The event with which a segment ends: at its upper endpoint.
pub open spec fn end_of(line: Line) -> Event {
    Event::End { point: line.upper(), line }
}

/// One of the first `n` segments has an endpoint at `p`.
pub open spec fn endpoint_among(lines: Seq<Line>, n: int, p: Point) -> bool {
    exists|j: int| 0 <= j < n && has_endpoint(#[trigger] lines[j], p)
}

/// The segment has an endpoint at `p`.
pub open spec fn has_endpoint(line: Line, p: Point) -> bool {
    line.p == p || line.q == p
}

/// Why the segment at index `i` cannot be taken after those before it, if
/// anything stands against it: a coordinate out of range, both endpoints at
/// one point, both at one `x`, or an endpoint that an earlier segment has.
pub open spec fn fault(lines: Seq<Line>, i: int) -> Option<SweepError> {
    let line = lines[i];
    if !line.in_range() {
        Some(SweepError::OutOfRange)
    } else if line.p == line.q {
        Some(SweepError::ZeroLengthSegment)
    } else if line.p.x == line.q.x {
        Some(SweepError::VerticalSegment)
    } else if endpoint_among(lines, i, line.p) || endpoint_among(lines, i, line.q) {
        Some(SweepError::DuplicatePoint)
    } else {
        None
    }
}

/// The event begins or ends one of the first `n` segments.
pub open spec fn of_segment(e: Event, lines: Seq<Line>, n: int) -> bool {
    exists|j: int| 0 <= j < n && (e == begin_of(#[trigger] lines[j]) || e == end_of(lines[j]))
}

/// The events are those of the first `n` segments: two for each.
pub open spec fn built(events: Seq<Event>, lines: Seq<Line>, n: int) -> bool {
    &&& events.len() == 2 * n
    &&& forall|j: int|
        0 <= j < n ==> events.contains(begin_of(#[trigger] lines[j])) && events.contains(
            end_of(lines[j]),
        )
    &&& forall|k: int| 0 <= k < events.len() ==> of_segment(#[trigger] events[k], lines, n)
}

/// The invariant of a queue.
pub open spec fn queue_wf(v: QueueView) -> bool {
    &&& -COORD_MAX <= v.last_x <= COORD_MAX
    &&& ordered(v.events)
    &&& all_sound(v.events)
    &&& all_ahead(v.events, v.last_x)
    &&& distinct_points(v.events)
    &&& crossings_recorded(v.events, v.scheduled)
    &&& ascending(v.scheduled)
}

/// The rank of an event is an index or the length; the event comes before
/// the event at its rank and before none that stands earlier.
pub proof fn lemma_rank_from(events: Seq<Event>, e: Event, from: int)
    requires
        0 <= from <= events.len(),
    ensures
        from <= rank_from(events, e, from) <= events.len(),
        rank_from(events, e, from) < events.len() ==> e.before(events[rank_from(events, e, from)]),
        forall|k: int| from <= k < rank_from(events, e, from) ==> !e.before(#[trigger] events[k]),
    decreases events.len() - from,
{
    if from < events.len() && !e.before(events[from]) {
        lemma_rank_from(events, e, from + 1);
    }
}

/// The lower bound of a point is an index or the length; every point
/// before it precedes the point, and the point at it does not.
pub proof fn lemma_lower_bound_from(points: Seq<Point>, p: Point, from: int)
    requires
        0 <= from <= points.len(),
    ensures
        from <= lower_bound_from(points, p, from) <= points.len(),
        lower_bound_from(points, p, from) < points.len() ==> !points[lower_bound_from(
            points,
            p,
            from,
        )].precedes(p),
        forall|k: int|
            from <= k < lower_bound_from(points, p, from) ==> (#[trigger] points[k]).precedes(p),
    decreases points.len() - from,
{
    if from < points.len() && points[from].precedes(p) {
        lemma_lower_bound_from(points, p, from + 1);
    }
}

/// Among ascending points, a point is present exactly if it stands at its
/// lower bound.
pub proof fn lemma_contains_at_lower_bound(points: Seq<Point>, p: Point)
    requires
        ascending(points),
    ensures
        points.contains(p) <==> (lower_bound(points, p) < points.len() && points[lower_bound(
            points,
            p,
        )] == p),
{
    let k = lower_bound(points, p);
    lemma_lower_bound_from(points, p, 0);
    if points.contains(p) {
        let i = choose|i: int| 0 <= i < points.len() && points[i] == p;
        if i < k {
            assert(points[i].precedes(p));
        } else if i > k {
            assert(points[k].precedes(points[i]));
        }
    }
}

/// A point put in its place among ascending points that lack it leaves
/// them ascending, and present are the point and those that were.
pub proof fn lemma_with_point(points: Seq<Point>, p: Point)
    requires
        ascending(points),
        p.in_range(),
        !points.contains(p),
    ensures
        ascending(with_point(points, p)),
        with_point(points, p).len() == points.len() + 1,
        with_point(points, p).contains(p),
        forall|q: Point| #[trigger] points.contains(q) ==> with_point(points, p).contains(q),
        forall|q: Point|
            #[trigger] with_point(points, p).contains(q) ==> q == p || points.contains(q),
{
    let k = lower_bound(points, p);
    lemma_lower_bound_from(points, p, 0);
    lemma_contains_at_lower_bound(points, p);
    points.insert_ensures(k, p);
    let out = points.insert(k, p);
    assert forall|i: int, j: int| 0 <= i < j < out.len() implies (#[trigger] out[i]).precedes(
        #[trigger] out[j],
    ) by {
        if j == k {
            assert(out[i] == points[i]);
        } else if i == k {
            assert(out[j] == points[j - 1]);
            assert(!points[k].precedes(p));
            if j - 1 > k {
                assert(points[k].precedes(points[j - 1]));
            }
        } else if j < k {
            assert(out[i] == points[i] && out[j] == points[j]);
        } else if i < k {
            assert(out[i] == points[i] && out[j] == points[j - 1]);
        } else {
            assert(out[i] == points[i - 1] && out[j] == points[j - 1]);
        }
    }
    assert forall|i: int| 0 <= i < out.len() implies (#[trigger] out[i]).in_range() by {
        if i < k {
            assert(out[i] == points[i]);
        } else if i > k {
            assert(out[i] == points[i - 1]);
        }
    }
    assert(out[k] == p);
    assert forall|q: Point| points.contains(q) implies out.contains(q) by {
        let i = choose|i: int| 0 <= i < points.len() && points[i] == q;
        if i < k {
            assert(out[i] == q);
        } else {
            assert(out[i + 1] == q);
        }
    }
    assert forall|q: Point| out.contains(q) implies q == p || points.contains(q) by {
        let i = choose|i: int| 0 <= i < out.len() && out[i] == q;
        if i < k {
            assert(points[i] == q);
        } else if i > k {
            assert(points[i - 1] == q);
        }
    }
}

/// An event put in its place among ordered events leaves them ordered.
pub proof fn lemma_with_event(events: Seq<Event>, e: Event)
    requires
        ordered(events),
    ensures
        ordered(with_event(events, e)),
        with_event(events, e).len() == events.len() + 1,
        with_event(events, e).contains(e),
        forall|d: Event| #[trigger] events.contains(d) ==> with_event(events, e).contains(d),
        forall|d: Event|
            #[trigger] with_event(events, e).contains(d) ==> d == e || events.contains(d),
{
    let k = rank(events, e);
    lemma_rank_from(events, e, 0);
    events.insert_ensures(k, e);
    let out = events.insert(k, e);
    assert forall|i: int, j: int| 0 <= i < j < out.len() implies !(#[trigger] out[j]).before(
        #[trigger] out[i],
    ) by {
        if j == k {
            assert(out[i] == events[i]);
        } else if i == k {
            assert(out[j] == events[j - 1]);
            if j - 1 > k && events[j - 1].before(e) {
                Event::lemma_before_transitive(events[j - 1], e, events[k]);
            }
        } else if j < k {
            assert(out[i] == events[i] && out[j] == events[j]);
        } else if i < k {
            assert(out[i] == events[i] && out[j] == events[j - 1]);
        } else {
            assert(out[i] == events[i - 1] && out[j] == events[j - 1]);
        }
    }
    assert(out[k] == e);
    assert forall|d: Event| events.contains(d) implies out.contains(d) by {
        let i = choose|i: int| 0 <= i < events.len() && events[i] == d;
        if i < k {
            assert(out[i] == d);
        } else {
            assert(out[i + 1] == d);
        }
    }
    assert forall|d: Event| out.contains(d) implies d == e || events.contains(d) by {
        let i = choose|i: int| 0 <= i < out.len() && out[i] == d;
        if i < k {
            assert(events[i] == d);
        } else if i > k {
            assert(events[i - 1] == d);
        }
    }
}

/// An event put in its place keeps what holds of every event, if it holds
/// of the new one: soundness, and not lying behind the sweep.
pub proof fn lemma_with_event_keeps(events: Seq<Event>, e: Event, x: int)
    requires
        all_sound(events),
        all_ahead(events, x),
        e.sound(),
        e.at().x >= x,
    ensures
        all_sound(with_event(events, e)),
        all_ahead(with_event(events, e), x),
{
    let k = rank(events, e);
    lemma_rank_from(events, e, 0);
    events.insert_ensures(k, e);
    let out = events.insert(k, e);
    assert forall|i: int| 0 <= i < out.len() implies (#[trigger] out[i]).sound() && out[i].at().x
        >= x by {
        if i < k {
            assert(out[i] == events[i]);
        } else if i > k {
            assert(out[i] == events[i - 1]);
        }
    }
}

/// An event put in its place keeps the points of the events of its kind
/// distinct, if none of them has its point.
pub proof fn lemma_with_event_distinct(events: Seq<Event>, e: Event)
    requires
        distinct_points(events),
        forall|i: int|
            0 <= i < events.len() && ((#[trigger] events[i]) is Intersection <==> e is Intersection)
                ==> events[i].at() != e.at(),
    ensures
        distinct_points(with_event(events, e)),
{
    let k = rank(events, e);
    lemma_rank_from(events, e, 0);
    events.insert_ensures(k, e);
    let out = events.insert(k, e);
    assert forall|i: int, j: int|
        0 <= i < j < out.len() && ((#[trigger] out[i]) is Intersection <==> (
        #[trigger] out[j]) is Intersection) implies out[i].at() != out[j].at() by {
        if j == k {
            assert(out[i] == events[i]);
        } else if i == k {
            assert(out[j] == events[j - 1]);
        } else if j < k {
            assert(out[i] == events[i] && out[j] == events[j]);
        } else if i < k {
            assert(out[i] == events[i] && out[j] == events[j - 1]);
        } else {
            assert(out[i] == events[i - 1] && out[j] == events[j - 1]);
        }
    }
}

/// Offering a crossing to a queue keeps its invariant.
pub proof fn lemma_offered_wf(v: QueueView, point: Point, line: Line, other_line: Line)
    requires
        queue_wf(v),
        point.in_range(),
        line.valid(),
        other_line.valid(),
    ensures
        queue_wf(offered(v, point, line, other_line)),
{
    if point.x >= v.last_x && !v.scheduled.contains(point) {
        let e = Event::Intersection { point, line, other_line };
        lemma_with_event(v.events, e);
        lemma_with_event_keeps(v.events, e, v.last_x);
        lemma_with_event_distinct(v.events, e);
        lemma_with_point(v.scheduled, point);
        let out = with_event(v.events, e);
        let points = with_point(v.scheduled, point);
        assert forall|i: int| 0 <= i < out.len() && (#[trigger] out[i]) is Intersection implies
            points.contains(out[i].at()) by {
            assert(out.contains(out[i]));
            if out[i] != e {
                let k = choose|k: int| 0 <= k < v.events.len() && v.events[k] == out[i];
                assert(v.scheduled.contains(v.events[k].at()));
            }
        }
    }
}

/// Taking the first event off a queue keeps its invariant, and the sweep
/// does not move to the left.
pub proof fn lemma_popped_wf(v: QueueView)
    requires
        queue_wf(v),
        v.events.len() > 0,
    ensures
        queue_wf(popped(v)),
        popped(v).last_x >= v.last_x,
{
    let first = v.events[0];
    let rest = v.events.drop_first();
    assert(first.sound());
    assert forall|i: int| 0 <= i < rest.len() implies (#[trigger] rest[i]).sound()
        && rest[i].at().x >= first.at().x by {
        assert(rest[i] == v.events[i + 1]);
        assert(!v.events[i + 1].before(v.events[0]));
    }
    assert forall|i: int, j: int| 0 <= i < j < rest.len() implies !(#[trigger] rest[j]).before(
        #[trigger] rest[i],
    ) by {
        assert(rest[i] == v.events[i + 1] && rest[j] == v.events[j + 1]);
    }
    assert forall|i: int, j: int|
        0 <= i < j < rest.len() && ((#[trigger] rest[i]) is Intersection <==> (
        #[trigger] rest[j]) is Intersection) implies rest[i].at() != rest[j].at() by {
        assert(rest[i] == v.events[i + 1] && rest[j] == v.events[j + 1]);
    }
    assert forall|i: int| 0 <= i < rest.len() && (#[trigger] rest[i]) is Intersection implies
        v.scheduled.contains(rest[i].at()) by {
        assert(rest[i] == v.events[i + 1]);
    }
}

/// Among the events of the first `n` segments one takes place at `p`
/// exactly if one of those segments has an endpoint at `p`.
pub proof fn lemma_built_holds(events: Seq<Event>, lines: Seq<Line>, n: int, p: Point)
    requires
        built(events, lines, n),
    ensures
        (exists|k: int| 0 <= k < events.len() && (#[trigger] events[k]).at() == p)
            <==> endpoint_among(lines, n, p),
{
    if exists|k: int| 0 <= k < events.len() && (#[trigger] events[k]).at() == p {
        let k = choose|k: int| 0 <= k < events.len() && (#[trigger] events[k]).at() == p;
        assert(of_segment(events[k], lines, n));
        let j = choose|j: int|
            0 <= j < n && (events[k] == begin_of(#[trigger] lines[j]) || events[k] == end_of(
                lines[j],
            ));
        assert(has_endpoint(lines[j], p));
    }
    if endpoint_among(lines, n, p) {
        let j = choose|j: int| 0 <= j < n && has_endpoint(#[trigger] lines[j], p);
        let e = if lines[j].lower() == p {
            begin_of(lines[j])
        } else {
            end_of(lines[j])
        };
        assert(events.contains(e));
        let k = choose|k: int| 0 <= k < events.len() && events[k] == e;
        assert(events[k].at() == p);
    }
}

/// A queue of the events of the first `n` segments, with the two events
/// of the next segment put in their places, is a queue of the events of
/// the first `n + 1` segments, if nothing stands against that segment.
pub proof fn lemma_built_grows(v: QueueView, lines: Seq<Line>, n: int)
    requires
        0 <= n < lines.len(),
        queue_wf(v),
        v.last_x == -COORD_MAX,
        v.scheduled == Seq::<Point>::empty(),
        built(v.events, lines, n),
        fault(lines, n) is None,
    ensures
        ({
            let first = with_event(v.events, begin_of(lines[n]));
            let second = with_event(first, end_of(lines[n]));
            &&& queue_wf(QueueView { last_x: v.last_x, events: second, scheduled: v.scheduled })
            &&& built(second, lines, n + 1)
        }),
{
    let line = lines[n];
    let start = begin_of(line);
    let end = end_of(line);
    let first = with_event(v.events, start);
    let second = with_event(first, end);
    lemma_built_holds(v.events, lines, n, line.p);
    lemma_built_holds(v.events, lines, n, line.q);
    assert forall|k: int| 0 <= k < v.events.len() implies !((#[trigger] v.events[k]) is Intersection)
        && v.events[k].at() != start.at() && v.events[k].at() != end.at() by {
        assert(of_segment(v.events[k], lines, n));
    }
    lemma_with_event(v.events, start);
    lemma_with_event_keeps(v.events, start, v.last_x);
    lemma_with_event_distinct(v.events, start);
    assert forall|k: int| 0 <= k < first.len() implies !((#[trigger] first[k]) is Intersection)
        && first[k].at() != end.at() by {
        assert(first.contains(first[k]));
        if first[k] != start {
            let m = choose|m: int| 0 <= m < v.events.len() && v.events[m] == first[k];
            assert(v.events[m].at() != end.at());
        }
    }
    lemma_with_event(first, end);
    lemma_with_event_keeps(first, end, v.last_x);
    lemma_with_event_distinct(first, end);
    assert forall|k: int| 0 <= k < second.len() implies !((#[trigger] second[k]) is Intersection)
        && of_segment(second[k], lines, n + 1) by {
        assert(second.contains(second[k]));
        if second[k] == end || second[k] == start {
            assert(second[k] == begin_of(lines[n]) || second[k] == end_of(lines[n]));
        } else {
            assert(first.contains(second[k]));
            let m = choose|m: int| 0 <= m < v.events.len() && v.events[m] == second[k];
            assert(of_segment(v.events[m], lines, n));
            let j = choose|j: int|
                0 <= j < n && (v.events[m] == begin_of(#[trigger] lines[j]) || v.events[m]
                    == end_of(lines[j]));
            assert(second[k] == begin_of(lines[j]) || second[k] == end_of(lines[j]));
        }
    }
    assert forall|j: int| 0 <= j < n + 1 implies second.contains(begin_of(#[trigger] lines[j]))
        && second.contains(end_of(lines[j])) by {
        if j < n {
            assert(v.events.contains(begin_of(lines[j])));
            assert(v.events.contains(end_of(lines[j])));
            assert(first.contains(begin_of(lines[j])));
            assert(first.contains(end_of(lines[j])));
        } else {
            assert(first.contains(start));
        }
    }
}

/// Puts a point in its place among ascending points, unless it is among
/// them already. Returns whether it was put.
pub fn insert_point(points: &mut Vec<Point>, p: Point) -> (added: bool)
    requires
        ascending(old(points)@),
        p.in_range(),
    ensures
        added == !old(points)@.contains(p),
        final(points)@ == noted(old(points)@, p),
        ascending(final(points)@),
{
    proof {
        lemma_contains_at_lower_bound(points@, p);
        if !points@.contains(p) {
            lemma_with_point(points@, p);
        }
    }
    let mut k: usize = 0;
    while k < points.len() && (points[k].x < p.x || (points[k].x == p.x && points[k].y < p.y))
        invariant
            k <= points@.len(),
            points@ == old(points)@,
            lower_bound(points@, p) == lower_bound_from(points@, p, k as int),
        decreases points@.len() - k,
    {
        k += 1;
    }
    if k < points.len() && points[k].x == p.x && points[k].y == p.y {
        return false;
    }
    points.insert(k, p);
    true
}

/// The events of a sweep in their order, the position of the sweep, and the
/// points of the crossings that were scheduled.
pub struct EventQueue {
    last_x: i64,
    queue: Vec<Event>,
    intersection_points: Vec<Point>,
}

impl View for EventQueue {
    type V = QueueView;

    closed spec fn view(&self) -> QueueView {
        QueueView {
            last_x: self.last_x as int,
            events: self.queue@,
            scheduled: self.intersection_points@,
        }
    }
}

impl EventQueue {
    /// The invariant of the queue: the events stand in their order, none
    /// behind the sweep; at a point at most one segment begins or ends and
    /// at most one crossing is scheduled; the scheduled points stand in
    /// their order and hold the point of every crossing to come.
    pub open spec fn wf(&self) -> bool {
        queue_wf(self@)
    }

    /// The queue for a sweep over `lines`: for each segment the event with
    /// which it begins and the event with which it ends, in their order.
    /// The segments are taken one after the other; the first that cannot be
    /// taken gives the error. A sweep that starts with the queue deals with
    /// nothing but these segments.
    pub fn new(lines: Vec<Line>) -> (r: Result<EventQueue, SweepError>)
        ensures
            match r {
                Ok(queue) => {
                    &&& forall|i: int| 0 <= i < lines@.len() ==> fault(lines@, i) is None
                    &&& queue.wf()
                    &&& queue@.last_x == -COORD_MAX
                    &&& queue@.scheduled == Seq::<Point>::empty()
                    &&& built(queue@.events, lines@, lines@.len() as int)
                    &&& drawn_from(start(queue@), lines@.to_set())
                },
                Err(e) => exists|i: int|
                    {
                        &&& 0 <= i < lines@.len()
                        &&& #[trigger] fault(lines@, i) == Some(e)
                        &&& forall|j: int| 0 <= j < i ==> fault(lines@, j) is None
                    },
            },
    {
        let mut events = EventQueue {
            last_x: -COORD_MAX,
            queue: Vec::new(),
            intersection_points: Vec::new(),
        };
        let mut i: usize = 0;
        while i < lines.len()
            invariant
                i <= lines@.len(),
                events.wf(),
                events@.last_x == -COORD_MAX,
                events@.scheduled == Seq::<Point>::empty(),
                built(events@.events, lines@, i as int),
                forall|j: int| 0 <= j < i ==> fault(lines@, j) is None,
            decreases lines@.len() - i,
        {
            let line = lines[i];
            if !line.is_in_range() {
                assert(fault(lines@, i as int) == Some(SweepError::OutOfRange));
                return Err(SweepError::OutOfRange);
            }
            if line.p.x == line.q.x {
                if line.p.y == line.q.y {
                    assert(fault(lines@, i as int) == Some(SweepError::ZeroLengthSegment));
                    return Err(SweepError::ZeroLengthSegment);
                }
                assert(fault(lines@, i as int) == Some(SweepError::VerticalSegment));
                return Err(SweepError::VerticalSegment);
            }
            let smaller = line.lower();
            let larger = line.upper();
            let taken = events.holds_point(&smaller) || events.holds_point(&larger);
            proof {
                lemma_built_holds(events@.events, lines@, i as int, line.p);
                lemma_built_holds(events@.events, lines@, i as int, line.q);
            }
            if taken {
                assert(fault(lines@, i as int) == Some(SweepError::DuplicatePoint));
                return Err(SweepError::DuplicatePoint);
            }
            let first = Event::Begin { point: smaller, line };
            let last = Event::End { point: larger, line };
            proof {
                lemma_built_grows(events@, lines@, i as int);
            }
            events.enqueue(first);
            events.enqueue(last);
            i += 1;
        }
        proof {
            lemma_built_from(events@, lines@);
        }
        Ok(events)
    }

    /// Whether an event to come takes place at `p`.
    fn holds_point(&self, p: &Point) -> (r: bool)
        ensures
            r == exists|k: int| 0 <= k < self@.events.len() && (#[trigger] self@.events[k]).at() == *p,
    {
        let mut k: usize = 0;
        while k < self.queue.len()
            invariant
                k <= self.queue@.len(),
                forall|m: int| 0 <= m < k ==> (#[trigger] self.queue@[m]).at() != *p,
            decreases self.queue@.len() - k,
        {
            let at = self.queue[k].point();
            if at.x == p.x && at.y == p.y {
                assert(self@.events[k as int].at() == *p);
                return true;
            }
            k += 1;
        }
        false
    }

    /// The number of events to come.
    pub fn len(&self) -> (n: usize)
        ensures
            n == self@.events.len(),
    {
        self.queue.len()
    }

    /// The position of the sweep: the `x` of the event taken last, or the
    /// left edge of the range of coordinates before the first.
    pub fn last_x(&self) -> (x: i64)
        ensures
            x == self@.last_x,
    {
        self.last_x
    }

    /// The points of the crossings scheduled so far, in the order of points.
    pub fn intersection_points(&self) -> (r: &Vec<Point>)
        ensures
            r@ == self@.scheduled,
    {
        &self.intersection_points
    }

    /// Puts an event in its place among the events to come.
    fn enqueue(&mut self, e: Event)
        ensures
            final(self)@.events == with_event(old(self)@.events, e),
            final(self)@.last_x == old(self)@.last_x,
            final(self)@.scheduled == old(self)@.scheduled,
    {
        let mut k: usize = 0;
        while k < self.queue.len() && !e.is_before(&self.queue[k])
            invariant
                k <= self.queue@.len(),
                self@ == old(self)@,
                rank(self.queue@, e) == rank_from(self.queue@, e, k as int),
            decreases self.queue@.len() - k,
        {
            k += 1;
        }
        self.queue.insert(k, e);
    }

    /// Takes the first event off the queue and moves the sweep to it.
    /// The sweep never moves to the left.
    pub fn pop_first(&mut self) -> (r: Option<Event>)
        requires
            old(self).wf(),
        ensures
            final(self).wf(),
            final(self)@ == popped(old(self)@),
            r == (if old(self)@.events.len() > 0 {
                Some(old(self)@.events[0])
            } else {
                None
            }),
            final(self)@.last_x >= old(self)@.last_x,
            r matches Some(e) ==> e.at().x == final(self)@.last_x,
    {
        if self.queue.len() == 0 {
            return None;
        }
        proof {
            lemma_popped_wf(self@);
        }
        let event = self.queue.remove(0);
        self.last_x = event.point().x;
        proof {
            assert(self.queue@ =~= old(self)@.events.drop_first());
        }
        Some(event)
    }

    /// Offers the crossing of two segments to the queue. The crossing is
    /// scheduled, and its point recorded, if the point does not lie behind
    /// the sweep and no crossing at that point was scheduled before; else
    /// nothing changes. A point carries nine decimal places, so two
    /// crossings that agree to the ninth place are one crossing.
    pub fn add_intersection_event(
        &mut self,
        intersection_point: Point,
        line: &Line,
        other_line: &Line,
    )
        requires
            old(self).wf(),
            intersection_point.in_range(),
            line.valid(),
            other_line.valid(),
        ensures
            final(self).wf(),
            final(self)@ == offered(old(self)@, intersection_point, *line, *other_line),
    {
        proof {
            lemma_offered_wf(self@, intersection_point, *line, *other_line);
        }
        if intersection_point.x < self.last_x {
            return ;
        }
        if !insert_point(&mut self.intersection_points, intersection_point) {
            return ;
        }
        self.enqueue(
            Event::Intersection { point: intersection_point, line: *line, other_line: *other_line },
        );
    }
}

} // verus!
