//! The sweep: it takes the events in their order, keeps the sweep line, and
//! offers the crossings of segments that come to stand next to each other
//! back to the queue.

use crate::error::SweepError;
use crate::event_queue::{
    ascending, insert_point, lemma_with_event, lemma_with_point, noted, offered, popped,
    queue_wf, Event, EventQueue, QueueView,
};
use crate::geometry::{Line, Point, Height, COORD_MAX};
use crate::invariants::{drawn_from, found_from, lemma_run_from};
use crate::sweep_line::{
    arranged, descending, lemma_held_after_swap, lemma_position, neighbors_of, position, raised,
    report_at, sound, stand_adjacent, swap_outcome, SweepLine, SweepLineElement,
};
use vstd::prelude::*;

verus! {

/// What a sweep holds: the queue, the entries of the sweep line, and the
/// points of the crossings that it has passed, in the order of points.
pub struct SweepView {
    pub queue: QueueView,
    pub status: Seq<SweepLineElement>,
    pub found: Seq<Point>,
}

/// The invariant of a sweep.
pub open spec fn sweep_wf(v: SweepView) -> bool {
    &&& queue_wf(v.queue)
    &&& sound(v.status)
    &&& descending(v.status)
    &&& ascending(v.found)
}

/// A sweep that has not taken an event yet.
pub open spec fn start(queue: QueueView) -> SweepView {
    SweepView { queue, status: Seq::empty(), found: Seq::empty() }
}

/// The queue after the segments `a` and `b` were tested: their crossing,
/// if they have one, is offered to it.
pub open spec fn probed(queue: QueueView, a: Line, b: Line) -> Result<QueueView, SweepError> {
    match a.crossing(b) {
        Ok(Some(point)) => Ok(offered(queue, point, a, b)),
        Ok(None) => Ok(queue),
        Err(e) => Err(e),
    }
}

/// The queue after the segment `a` was tested against the segment of a
/// neighbouring entry, if there is such an entry and nothing failed before.
pub open spec fn probed_next(
    queue: Result<QueueView, SweepError>,
    a: Line,
    other: Option<SweepLineElement>,
) -> Result<QueueView, SweepError> {
    match (queue, other) {
        (Ok(v), Some(e)) => probed(v, a, e.line),
        _ => queue,
    }
}

/// The sweep with `queue` in place of its queue, or the error.
pub open spec fn with_queue(v: SweepView, queue: Result<QueueView, SweepError>) -> Result<
    SweepView,
    SweepError,
> {
    match queue {
        Ok(queue) => Ok(SweepView { queue, status: v.status, found: v.found }),
        Err(e) => Err(e),
    }
}

/// The sweep after a segment has begun at `point`: the segment is put on
/// the sweep line at the height of the point and tested against the entry
/// above it and the entry below it.
pub open spec fn begun(v: SweepView, point: Point, line: Line) -> Result<SweepView, SweepError> {
    let status = arranged(v.status.push(SweepLineElement { y: Height::whole(point.y), line }));
    match neighbors_of(status, line) {
        Some(near) => {
            let first = probed_next(Ok(v.queue), line, near.above);
            let second = probed_next(first, line, near.below);
            with_queue(SweepView { queue: v.queue, status, found: v.found }, second)
        },
        None => Err(SweepError::InactiveSegment),
    }
}

/// The sweep after the segment `line` has ended: the entries above and
/// below it, if it has both, are tested against each other, and the
/// segment is taken off the sweep line.
pub open spec fn ended(v: SweepView, line: Line) -> Result<SweepView, SweepError> {
    match neighbors_of(v.status, line) {
        Some(near) => {
            let queue = match near.below {
                Some(low) => probed_next(Ok(v.queue), low.line, near.above),
                None => Ok(v.queue),
            };
            with_queue(
                SweepView {
                    queue: v.queue,
                    status: v.status.remove(position(v.status, line)),
                    found: v.found,
                },
                queue,
            )
        },
        None => Err(SweepError::InactiveSegment),
    }
}

/// The sweep after two segments have crossed at `point`: the two change
/// places on the sweep line, the higher is tested against the entry above
/// it and the lower against the entry below it, and the point is noted.
pub open spec fn crossed(v: SweepView, point: Point, line: Line, other_line: Line) -> Result<
    SweepView,
    SweepError,
> {
    if position(v.status, line) < v.status.len() && position(v.status, other_line)
        < v.status.len() {
        let (status, report) = swap_outcome(v.status, line, other_line, point.x as int);
        let first = probed_next(Ok(v.queue), report.bigger.line, report.above);
        let second = probed_next(first, report.smaller.line, report.below);
        with_queue(SweepView { queue: v.queue, status, found: noted(v.found, point) }, second)
    } else {
        Err(SweepError::InactiveSegment)
    }
}

/// The sweep after its next event: the event is taken off the queue, every
/// segment on the sweep line is measured at the position of the event, and
/// the event is handled by its kind. A sweep without events stays as it is.
pub open spec fn stepped(v: SweepView) -> Result<SweepView, SweepError> {
    if v.queue.events.len() == 0 {
        Ok(v)
    } else {
        let event = v.queue.events[0];
        let moved = SweepView {
            queue: popped(v.queue),
            status: arranged(raised(v.status, event.at().x as int)),
            found: v.found,
        };
        match event {
            Event::Begin { point, line } => begun(moved, point, line),
            Event::End { point, line } => ended(moved, line),
            Event::Intersection { point, line, other_line } => crossed(
                moved,
                point,
                line,
                other_line,
            ),
        }
    }
}

/// The next event finds the sweep line as it expects it: it is no crossing,
/// or the two segments that cross stand next to each other once every
/// segment is measured at the position of the event.
pub open spec fn in_place(v: SweepView) -> bool {
    v.queue.events.len() > 0 ==> match v.queue.events[0] {
        Event::Intersection { point, line, other_line } => stand_adjacent(
            arranged(raised(v.status, point.x as int)),
            line,
            other_line,
        ),
        _ => true,
    }
}

/// The sweep after `n` steps, or the error of the first step that failed.
pub open spec fn after(v: SweepView, n: nat) -> Result<SweepView, SweepError>
    decreases n,
{
    if n == 0 {
        Ok(v)
    } else {
        match after(v, (n - 1) as nat) {
            Ok(w) => stepped(w),
            Err(e) => Err(e),
        }
    }
}

/// The number of points in the range of coordinates.
pub open spec fn grid() -> int {
    4_000_000_000_000_000_004_000_000_000_000_000_001
}

/// A bound on the steps that a sweep has left: every event to come takes
/// one, and every point at which no crossing is scheduled yet may add an
/// event.
pub open spec fn work(queue: QueueView) -> int {
    2 * (grid() - queue.scheduled.len()) + queue.events.len()
}

/// The place of a point in the range of coordinates, counted row by row.
pub open spec fn cell(p: Point) -> int {
    (p.x + COORD_MAX) * (2 * COORD_MAX + 1) + (p.y + COORD_MAX)
}

/// Ascending points are no more than the range of coordinates holds.
pub proof fn lemma_ascending_fits(points: Seq<Point>)
    requires
        ascending(points),
    ensures
        points.len() <= grid(),
{
    if points.len() > 0 {
        lemma_cells_ascend(points, points.len() - 1);
    }
}

/// Cells are counted row by row: a row of `width` cells before the next.
proof fn lemma_rows(row: int, column: int, next_row: int, next_column: int, width: int)
    by (nonlinear_arith)
    requires
        0 <= column < width,
        0 <= next_column < width,
        0 <= row,
        row < next_row || (row == next_row && column < next_column),
        next_row < width,
    ensures
        0 <= row * width + column < next_row * width + next_column < width * width,
{
    if row < next_row {
        assert(next_row * width >= (row + 1) * width);
        assert((row + 1) * width == row * width + width);
    }
    assert(next_row * width <= (width - 1) * width);
    assert((width - 1) * width == width * width - width);
    assert(row * width >= 0);
}

/// The cell of the point at index `i` of ascending points is at least `i`.
proof fn lemma_cells_ascend(points: Seq<Point>, i: int)
    requires
        ascending(points),
        0 <= i < points.len(),
    ensures
        i <= cell(points[i]) < grid(),
    decreases i,
{
    let width = 2 * COORD_MAX + 1;
    assert(width * width == grid()) by (nonlinear_arith)
        requires
            width == 2_000_000_000_000_000_001,
            grid() == 4_000_000_000_000_000_004_000_000_000_000_000_001,
    ;
    let p = points[i];
    assert(p.in_range());
    if i > 0 {
        let o = points[i - 1];
        lemma_cells_ascend(points, i - 1);
        assert(o.in_range());
        assert(o.precedes(p));
        lemma_rows(o.x + COORD_MAX, o.y + COORD_MAX, p.x + COORD_MAX, p.y + COORD_MAX, width);
    } else {
        assert((p.x + COORD_MAX) * width >= 0) by (nonlinear_arith)
            requires
                p.x + COORD_MAX >= 0,
                width > 0,
        ;
        assert((p.x + COORD_MAX) * width <= (width - 1) * width) by (nonlinear_arith)
            requires
                p.x + COORD_MAX <= width - 1,
                width > 0,
        ;
        assert((width - 1) * width == width * width - width) by (nonlinear_arith);
    }
}

/// Offering a crossing to a queue does not add to the work that is left.
pub proof fn lemma_offered_work(v: QueueView, point: Point, line: Line, other_line: Line)
    requires
        queue_wf(v),
        point.in_range(),
    ensures
        work(offered(v, point, line, other_line)) <= work(v),
{
    if point.x >= v.last_x && !v.scheduled.contains(point) {
        lemma_with_event(v.events, Event::Intersection { point, line, other_line });
        lemma_with_point(v.scheduled, point);
    }
}

/// An event that a sweep has handled, and whether the sweep line was in the
/// state that the event expects.
#[derive(Clone, Copy, Debug)]
pub struct Handled {
    /// The event.
    pub event: Event,
    /// `false` for a crossing whose two segments did not stand next to each
    /// other on the sweep line when the sweep reached it; `true` for every
    /// other event.
    pub adjacent: bool,
}

/// A sweep in progress.
pub struct Sweep {
    queue: EventQueue,
    status: SweepLine,
    found: Vec<Point>,
}

impl View for Sweep {
    type V = SweepView;

    closed spec fn view(&self) -> SweepView {
        SweepView { queue: self.queue@, status: self.status@, found: self.found@ }
    }
}

impl Sweep {
    /// The invariant of the sweep: that of its queue, a sweep line in
    /// order, and the points found in their strict order.
    pub open spec fn wf(&self) -> bool {
        sweep_wf(self@)
    }

    /// A sweep over the events of `queue`, with nothing on the sweep line
    /// and nothing found.
    pub fn new(queue: EventQueue) -> (r: Sweep)
        requires
            queue.wf(),
        ensures
            r.wf(),
            r@ == start(queue@),
    {
        Sweep { queue, status: SweepLine::new(), found: Vec::new() }
    }

    /// Whether no event is left.
    pub fn is_done(&self) -> (r: bool)
        ensures
            r == (self@.queue.events.len() == 0),
    {
        self.queue.len() == 0
    }

    /// The queue of the sweep.
    pub fn queue(&self) -> (r: &EventQueue)
        ensures
            r@ == self@.queue,
    {
        &self.queue
    }

    /// The sweep line.
    pub fn status(&self) -> (r: &SweepLine)
        ensures
            r@ == self@.status,
    {
        &self.status
    }

    /// The points of the crossings that the sweep has passed, in the order
    /// of points.
    pub fn found(&self) -> (r: &Vec<Point>)
        ensures
            r@ == self@.found,
    {
        &self.found
    }

    /// Ends the sweep and hands out the points that it has found.
    pub fn into_points(self) -> (r: Vec<Point>)
        ensures
            r@ == self@.found,
    {
        self.found
    }

    /// Tests the segment `a` against the segment of a neighbouring entry,
    /// if there is one, and offers their crossing to the queue.
    fn probe(&mut self, a: &Line, other: Option<SweepLineElement>) -> (r: Result<(), SweepError>)
        requires
            old(self).wf(),
            a.valid(),
            other matches Some(e) ==> e.line.valid(),
        ensures
            final(self).wf(),
            final(self)@.status == old(self)@.status,
            final(self)@.found == old(self)@.found,
            work(final(self)@.queue) <= work(old(self)@.queue),
            final(self)@.queue.last_x == old(self)@.queue.last_x,
            match r {
                Ok(_) => probed_next(Ok(old(self)@.queue), *a, other) == Ok::<
                    QueueView,
                    SweepError,
                >(final(self)@.queue),
                Err(e) => probed_next(Ok(old(self)@.queue), *a, other) == Err::<
                    QueueView,
                    SweepError,
                >(e),
            },
    {
        match other {
            None => Ok(()),
            Some(e) => {
                match a.intersection(&e.line) {
                    Err(err) => Err(err),
                    Ok(None) => Ok(()),
                    Ok(Some(point)) => {
                        proof {
                            lemma_offered_work(self@.queue, point, *a, e.line);
                        }
                        self.queue.add_intersection_event(point, a, &e.line);
                        Ok(())
                    },
                }
            },
        }
    }

    /// Handles the beginning of a segment.
    fn begin(&mut self, point: Point, line: Line) -> (r: Result<(), SweepError>)
        requires
            old(self).wf(),
            point.in_range(),
            line.valid(),
        ensures
            final(self).wf(),
            work(final(self)@.queue) <= work(old(self)@.queue),
            final(self)@.queue.last_x == old(self)@.queue.last_x,
            match r {
                Ok(_) => begun(old(self)@, point, line) == Ok::<SweepView, SweepError>(final(self)@),
                Err(e) => begun(old(self)@, point, line) == Err::<SweepView, SweepError>(e),
            },
    {
        self.status.insert(point.y, line);
        let near = match self.status.get_neighbors(&line) {
            Some(near) => near,
            None => {
                return Err(SweepError::InactiveSegment);
            },
        };
        match self.probe(&line, near.above) {
            Err(e) => {
                return Err(e);
            },
            Ok(_) => {},
        }
        self.probe(&line, near.below)
    }

    /// Handles the end of a segment.
    fn end(&mut self, line: Line) -> (r: Result<(), SweepError>)
        requires
            old(self).wf(),
        ensures
            final(self).wf(),
            work(final(self)@.queue) <= work(old(self)@.queue),
            final(self)@.queue.last_x == old(self)@.queue.last_x,
            match r {
                Ok(_) => ended(old(self)@, line) == Ok::<SweepView, SweepError>(final(self)@),
                Err(e) => ended(old(self)@, line) == Err::<SweepView, SweepError>(e),
            },
    {
        let near = match self.status.get_neighbors(&line) {
            Some(near) => near,
            None => {
                return Err(SweepError::InactiveSegment);
            },
        };
        proof {
            lemma_neighbors_sound(self@.status, line);
        }
        match near.below {
            Some(low) => {
                match self.probe(&low.line, near.above) {
                    Err(e) => {
                        return Err(e);
                    },
                    Ok(_) => {},
                }
            },
            None => {},
        }
        self.status.remove(&line);
        Ok(())
    }

    /// Handles the crossing of two segments. Returns whether the two stood
    /// next to each other.
    fn cross(&mut self, point: Point, line: Line, other_line: Line) -> (r: Result<
        bool,
        SweepError,
    >)
        requires
            old(self).wf(),
            point.in_range(),
        ensures
            final(self).wf(),
            work(final(self)@.queue) <= work(old(self)@.queue),
            final(self)@.queue.last_x == old(self)@.queue.last_x,
            match r {
                Ok(adjacent) => {
                    &&& crossed(old(self)@, point, line, other_line) == Ok::<SweepView, SweepError>(
                        final(self)@,
                    )
                    &&& adjacent == stand_adjacent(old(self)@.status, line, other_line)
                },
                Err(e) => crossed(old(self)@, point, line, other_line) == Err::<
                    SweepView,
                    SweepError,
                >(e),
            },
    {
        let report = match self.status.swap_and_get_new_neighbors(&line, &other_line, &point) {
            Some(report) => report,
            None => {
                return Err(SweepError::InactiveSegment);
            },
        };
        proof {
            let before = old(self)@.status;
            lemma_position(before, line);
            lemma_position(before, other_line);
            lemma_held_after_swap(
                before,
                position(before, line),
                position(before, other_line),
                point.x + 1,
                line,
            );
            lemma_held_after_swap(
                before,
                position(before, line),
                position(before, other_line),
                point.x + 1,
                other_line,
            );
            lemma_report_sound(
                self@.status,
                position(self@.status, line),
                position(self@.status, other_line),
                stand_adjacent(before, line, other_line),
            );
        }
        match self.probe(&report.bigger.line, report.above) {
            Err(e) => {
                return Err(e);
            },
            Ok(_) => {},
        }
        match self.probe(&report.smaller.line, report.below) {
            Err(e) => {
                return Err(e);
            },
            Ok(_) => {},
        }
        insert_point(&mut self.found, point);
        Ok(report.adjacent)
    }

    /// Takes the next event and handles it. Returns the event, `None` if
    /// the queue was empty, or the error that ends the sweep.
    pub fn step(&mut self) -> (r: Result<Option<Handled>, SweepError>)
        requires
            old(self).wf(),
        ensures
            final(self).wf(),
            final(self)@.queue.last_x >= old(self)@.queue.last_x,
            match r {
                Ok(None) => old(self)@.queue.events.len() == 0 && final(self)@ == old(self)@,
                Ok(Some(handled)) => {
                    &&& old(self)@.queue.events.len() > 0
                    &&& handled.event == old(self)@.queue.events[0]
                    &&& stepped(old(self)@) == Ok::<SweepView, SweepError>(final(self)@)
                    &&& work(final(self)@.queue) < work(old(self)@.queue)
                    &&& final(self)@.queue.last_x == handled.event.at().x
                    &&& handled.adjacent == in_place(old(self)@)
                },
                Err(e) => old(self)@.queue.events.len() > 0 && stepped(old(self)@) == Err::<
                    SweepView,
                    SweepError,
                >(e),
            },
    {
        let event = match self.queue.pop_first() {
            Some(event) => event,
            None => {
                return Ok(None);
            },
        };
        assert(event.sound());
        self.status.update(event.point().x);
        match event {
            Event::Begin { point, line } => {
                match self.begin(point, line) {
                    Ok(_) => Ok(Some(Handled { event, adjacent: true })),
                    Err(e) => Err(e),
                }
            },
            Event::End { point, line } => {
                match self.end(line) {
                    Ok(_) => Ok(Some(Handled { event, adjacent: true })),
                    Err(e) => Err(e),
                }
            },
            Event::Intersection { point, line, other_line } => {
                match self.cross(point, line, other_line) {
                    Ok(adjacent) => Ok(Some(Handled { event, adjacent })),
                    Err(e) => Err(e),
                }
            },
        }
    }
}

/// The entries next to a segment on a sound sweep line hold segments that a
/// sweep takes.
pub proof fn lemma_neighbors_sound(s: Seq<SweepLineElement>, line: Line)
    requires
        sound(s),
    ensures
        neighbors_of(s, line) matches Some(near) ==> {
            &&& near.above matches Some(e) ==> e.line.valid()
            &&& near.below matches Some(e) ==> e.line.valid()
        },
{
    let i = position(s, line);
    lemma_position(s, line);
    if i < s.len() {
        if i > 0 {
            assert(s[i - 1].line.valid());
        }
        if i + 1 < s.len() {
            assert(s[i + 1].line.valid());
        }
    }
}

/// What a swap reports of a sound sweep line are entries with segments
/// that a sweep takes.
pub proof fn lemma_report_sound(s: Seq<SweepLineElement>, a: int, b: int, adjacent: bool)
    requires
        sound(s),
        0 <= a < s.len(),
        0 <= b < s.len(),
    ensures
        report_at(s, a, b, adjacent).bigger.line.valid(),
        report_at(s, a, b, adjacent).smaller.line.valid(),
        report_at(s, a, b, adjacent).above matches Some(e) ==> e.line.valid(),
        report_at(s, a, b, adjacent).below matches Some(e) ==> e.line.valid(),
{
    let top = if a < b {
        a
    } else {
        b
    };
    let bottom = if a < b {
        b
    } else {
        a
    };
    assert(s[top].line.valid() && s[bottom].line.valid());
    if top > 0 {
        assert(s[top - 1].line.valid());
    }
    if bottom + 1 < s.len() {
        assert(s[bottom + 1].line.valid());
    }
}

impl EventQueue {
    /// Sweeps over the events of the queue and returns the points in which
    /// segments cross, in the order of points, each once.
    ///
    /// The result is that of taking step after step until no event is
    /// left; the first step that fails ends the sweep with its error. If
    /// the queue holds nothing but the events of some segments, every point
    /// returned is the crossing of two of them.
    pub fn sweep(self) -> (r: Result<Vec<Point>, SweepError>)
        requires
            self.wf(),
        ensures
            self@.events.len() == 0 ==> (r matches Ok(points) && points@.len() == 0),
            match r {
                Ok(points) => {
                    &&& ascending(points@)
                    &&& forall|lines: Set<Line>| #[trigger]
                        drawn_from(start(self@), lines) ==> found_from(points@, lines)
                    &&& exists|n: nat|
                        {
                            &&& #[trigger] after(start(self@), n) matches Ok(end)
                            &&& end.queue.events.len() == 0
                            &&& end.found == points@
                        }
                },
                Err(e) => exists|n: nat|
                    #[trigger] after(start(self@), n) == Err::<SweepView, SweepError>(e),
            },
    {
        let ghost begin = start(self@);
        let mut sweep = Sweep::new(self);
        let ghost mut steps: nat = 0;
        loop
            invariant
                begin == start(self@),
                sweep.wf(),
                after(begin, steps) == Ok::<SweepView, SweepError>(sweep@),
                begin.queue.events.len() == 0 ==> sweep@ == begin,
            decreases work(sweep@.queue),
        {
            proof {
                lemma_ascending_fits(sweep@.queue.scheduled);
            }
            match sweep.step() {
                Ok(None) => {
                    proof {
                        assert forall|lines: Set<Line>| #[trigger]
                            drawn_from(begin, lines) implies found_from(sweep@.found, lines) by {
                            lemma_run_from(begin, lines, steps);
                        }
                    }
                    return Ok(sweep.into_points());
                },
                Ok(Some(_)) => {
                    proof {
                        steps = steps + 1;
                        lemma_ascending_fits(sweep@.queue.scheduled);
                    }
                },
                Err(e) => {
                    proof {
                        assert(after(begin, steps + 1) == Err::<SweepView, SweepError>(e));
                    }
                    return Err(e);
                },
            }
        }
    }
}

} // verus!
