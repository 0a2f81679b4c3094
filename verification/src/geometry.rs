//! Points, segments and the three geometric primitives of the sweep: the
//! orientation of a triple, the crossing of two segments and the height of a
//! segment at a sweep position.

use crate::arith::{
    floor_div, lemma_division_identity, lemma_nearest_monotone, lemma_nearest_of_whole,
    lemma_nearest_shift, lemma_product_bound, lemma_quotient_is, magnitude, nearest, share, times,
};
use crate::error::SweepError;
use std::cmp::Ordering;
use vstd::prelude::*;

verus! {

/// The largest magnitude of a coordinate: a billion units, in billionths.
pub const COORD_MAX: i64 = 1_000_000_000_000_000_000;

/// The farthest sweep position at which a height is taken: one step past
/// the range of coordinates.
pub const SWEEP_MAX: i64 = 1_000_000_000_000_000_001;

/// The largest magnitude of an orientation of three points in range.
pub const AREA_MAX: i128 = 8_000_000_000_000_000_000_000_000_000_000_000_000;

/// The largest denominator of a height: the widest span of a segment.
pub const DEN_MAX: i128 = 2_000_000_000_000_000_000;

/// The largest magnitude of the whole part of a height.
pub const WHOLE_MAX: i128 = 5_000_000_000_000_000_000_000_000_000_000_000_000;

/// A point of the plane. Each coordinate counts billionths of a unit.
#[derive(Clone, Copy, Debug, PartialEq, Eq, Ord, Hash, Structural)]
pub struct Point {
    pub x: i64,
    pub y: i64,
}

impl Point {
    /// Both coordinates lie within `COORD_MAX` of the origin.
    pub open spec fn in_range(self) -> bool {
        &&& -COORD_MAX <= self.x <= COORD_MAX
        &&& -COORD_MAX <= self.y <= COORD_MAX
    }

    /// The strict order of points: by `x`, then by `y`.
    pub open spec fn precedes(self, other: Point) -> bool {
        self.x < other.x || (self.x == other.x && self.y < other.y)
    }

    /// Three-way comparison in the order of `precedes`.
    pub fn cmp(&self, other: &Point) -> (r: Ordering)
        ensures
            r == Ordering::Less <==> self.precedes(*other),
            r == Ordering::Equal <==> *self == *other,
            r == Ordering::Greater <==> other.precedes(*self),
    {
        if self.x < other.x {
            Ordering::Less
        } else if self.x > other.x {
            Ordering::Greater
        } else if self.y < other.y {
            Ordering::Less
        } else if self.y > other.y {
            Ordering::Greater
        } else {
            Ordering::Equal
        }
    }

    /// Whether both coordinates lie within `COORD_MAX` of the origin.
    pub fn is_in_range(&self) -> (r: bool)
        ensures
            r == self.in_range(),
    {
        -COORD_MAX <= self.x && self.x <= COORD_MAX && -COORD_MAX <= self.y && self.y
            <= COORD_MAX
    }
}

impl PartialOrd for Point {
    fn partial_cmp(&self, other: &Point) -> (r: Option<Ordering>) {
        Some(self.cmp(other))
    }
}

impl vstd::std_specs::cmp::PartialOrdSpecImpl for Point {
    open spec fn obeys_partial_cmp_spec() -> bool {
        true
    }

    open spec fn partial_cmp_spec(&self, other: &Point) -> Option<Ordering> {
        if self.precedes(*other) {
            Some(Ordering::Less)
        } else if other.precedes(*self) {
            Some(Ordering::Greater)
        } else {
            Some(Ordering::Equal)
        }
    }
}

/// Why a piece of text is not a coordinate.
#[derive(Clone, Copy, Debug, PartialEq, Eq, Structural)]
pub enum NumberError {
    /// The text is empty.
    Empty,
    /// The text is not an optional sign, digits with at most one point
    /// among them, and an optional exponent of ten.
    Invalid,
    /// The number lies outside the range of coordinates.
    OutOfRange,
}

/// Why a line of text is not a segment.
#[derive(Clone, Copy, Debug, PartialEq, Eq, Structural)]
pub enum ParseLineError {
    /// One of the four fields is not a coordinate.
    ParseFloat(NumberError),
    /// The line does not have four fields.
    NotFourElements,
}

/// A segment between two points.
#[derive(Clone, Copy, Debug, PartialEq, Eq, Hash, Structural)]
pub struct Line {
    pub p: Point,
    pub q: Point,
}

/// The height of a segment at a sweep position, exact: `whole` billionths
/// and the proper fraction `num / den` of one more.
#[derive(Clone, Copy, Debug, PartialEq, Eq, Hash, Structural)]
pub struct Height {
    pub whole: i128,
    pub num: i128,
    pub den: i128,
}

impl Height {
    /// The fraction is proper and the parts are within their bounds.
    pub open spec fn wf(self) -> bool {
        &&& 0 <= self.num < self.den <= DEN_MAX
        &&& -WHOLE_MAX <= self.whole <= WHOLE_MAX
    }

    /// The height is strictly below `other`: its whole part is less, or the
    /// whole parts are equal and its fraction is less.
    pub open spec fn below(self, other: Height) -> bool {
        ||| self.whole < other.whole
        ||| (self.whole == other.whole && self.num * other.den < other.num * self.den)
    }

    /// The order of heights is transitive: if `a` is not below `b` and `b`
    /// is not below `c`, then `a` is not below `c`.
    pub proof fn lemma_not_below_transitive(a: Height, b: Height, c: Height)
        requires
            a.den > 0,
            b.den > 0,
            c.den > 0,
            !a.below(b),
            !b.below(c),
        ensures
            !a.below(c),
    {
        if a.whole == b.whole && b.whole == c.whole {
            lemma_order_chain(
                a.num as int,
                a.den as int,
                b.num as int,
                b.den as int,
                c.num as int,
                c.den as int,
            );
        }
    }

    /// The height of `y` billionths.
    pub open spec fn whole(y: i64) -> Height {
        Height { whole: y as i128, num: 0, den: 1 }
    }

    /// The nearest whole number of billionths; a tie goes up.
    pub open spec fn rounded(self) -> int {
        if 2 * self.num >= self.den {
            self.whole + 1
        } else {
            self.whole as int
        }
    }

    /// The rounded height is the whole number nearest to the height
    /// written as one fraction.
    pub proof fn lemma_rounded_is_nearest(self)
        requires
            0 <= self.num < self.den,
        ensures
            self.rounded() == nearest(self.whole * self.den + self.num, self.den as int),
    {
        let (w, n, d) = (self.whole as int, self.num as int, self.den as int);
        assert(w * (2 * d) == 2 * (w * d) && (w + 1) * (2 * d) == 2 * (w * d) + 2 * d)
            by (nonlinear_arith);
        if 2 * n >= d {
            lemma_quotient_is(2 * (w * d + n) + d, 2 * d, w + 1, 2 * n - d);
        } else {
            lemma_quotient_is(2 * (w * d + n) + d, 2 * d, w, 2 * n + d);
        }
    }

    /// The height of `y` billionths.
    pub fn from_whole(y: i64) -> (r: Height)
        ensures
            r == Height::whole(y),
    {
        Height { whole: y as i128, num: 0, den: 1 }
    }

    /// Whether the height is strictly below `other`.
    pub fn is_below(&self, other: &Height) -> (r: bool)
        requires
            self.wf(),
            other.wf(),
        ensures
            r == self.below(*other),
    {
        if self.whole != other.whole {
            return self.whole < other.whole;
        }
        let left = times(self.num, other.den, Ghost(DEN_MAX as int), Ghost(DEN_MAX as int));
        let right = times(other.num, self.den, Ghost(DEN_MAX as int), Ghost(DEN_MAX as int));
        left < right
    }

    /// The height rounded to the nearest whole number of billionths, a tie
    /// going up.
    pub fn round(&self) -> (r: i128)
        requires
            self.wf(),
        ensures
            r == self.rounded(),
    {
        if 2 * self.num >= self.den {
            self.whole + 1
        } else {
            self.whole
        }
    }
}

/// Fractions with positive denominators are ordered: what is not below a
/// second that is not below a third is not below the third.
proof fn lemma_order_chain(an: int, ad: int, bn: int, bd: int, cn: int, cd: int)
    by (nonlinear_arith)
    requires
        ad > 0,
        bd > 0,
        cd > 0,
        an * bd >= bn * ad,
        bn * cd >= cn * bd,
    ensures
        an * cd >= cn * ad,
{
    assert((an * bd) * cd >= (bn * ad) * cd);
    assert((bn * cd) * ad >= (cn * bd) * ad);
    assert((bn * ad) * cd == (bn * cd) * ad);
    assert((an * cd) * bd == (an * bd) * cd);
    assert((cn * ad) * bd == (cn * bd) * ad);
    assert((an * cd) * bd >= (cn * ad) * bd);
}

/// The cross product of the vectors `(ax, ay)` and `(bx, by)`.
pub open spec fn cross(ax: int, ay: int, bx: int, by: int) -> int {
    ax * by - ay * bx
}

/// Twice the signed area of the triangle `p`, `q`, `r`: positive where the
/// three turn left, negative where they turn right, zero where they lie on
/// one line.
pub open spec fn orientation(p: Point, q: Point, r: Point) -> int {
    cross(q.x - p.x, q.y - p.y, r.x - p.x, r.y - p.y)
}

/// Both values lie strictly on the same side of zero.
pub open spec fn same_side(a: int, b: int) -> bool {
    (a > 0 && b > 0) || (a < 0 && b < 0)
}

/// Two vectors parallel to a third that is not zero are parallel.
proof fn lemma_parallel(ux: int, uy: int, a1: int, b1: int, a2: int, b2: int)
    by (nonlinear_arith)
    requires
        ux * b1 == uy * a1,
        ux * b2 == uy * a2,
        ux != 0 || uy != 0,
    ensures
        a1 * b2 - b1 * a2 == 0,
{
    let w = a1 * b2 - b1 * a2;
    assert(ux * w == a1 * (ux * b2) - a2 * (ux * b1));
    assert(a1 * (uy * a2) == a2 * (uy * a1));
    assert(ux * w == 0);
    assert(uy * w == (uy * a1) * b2 - (uy * a2) * b1);
    assert((ux * b1) * b2 == (ux * b2) * b1);
    assert(uy * w == 0);
}

/// The cross product goes over sums and differences in its second vector,
/// and changes its sign when the two vectors change places.
proof fn lemma_cross_linear(ax: int, ay: int, bx: int, by: int, cx: int, cy: int)
    by (nonlinear_arith)
    ensures
        cross(ax, ay, bx + cx, by + cy) == cross(ax, ay, bx, by) + cross(ax, ay, cx, cy),
        cross(ax, ay, bx - cx, by - cy) == cross(ax, ay, bx, by) - cross(ax, ay, cx, cy),
        cross(ax, ay, -bx, -by) == -cross(ax, ay, bx, by),
        cross(ax, ay, bx, by) == -cross(bx, by, ax, ay),
{
}

/// Where the lines through `r` along `v` and through the origin along `u`
/// meet: the same point, counted along the one or along the other.
proof fn lemma_meet(ux: int, uy: int, vx: int, vy: int, rx: int, ry: int, w: int, ur: int, vr: int)
    by (nonlinear_arith)
    requires
        w == ux * vy - uy * vx,
        ur == ux * ry - uy * rx,
        vr == vx * ry - vy * rx,
    ensures
        rx * w - ur * vx + vr * ux == 0,
        ry * w - ur * vy + vr * uy == 0,
{
    assert(rx * w == rx * (ux * vy) - rx * (uy * vx));
    assert(ur * vx == (ux * ry) * vx - (uy * rx) * vx);
    assert(vr * ux == (vx * ry) * ux - (vy * rx) * ux);
    assert(rx * (uy * vx) == (uy * rx) * vx);
    assert((ux * ry) * vx == (vx * ry) * ux);
    assert(rx * (ux * vy) == (vy * rx) * ux);
    assert(ry * w == ry * (ux * vy) - ry * (uy * vx));
    assert(ur * vy == (ux * ry) * vy - (uy * rx) * vy);
    assert(vr * uy == (vx * ry) * uy - (vy * rx) * uy);
    assert(ry * (ux * vy) == (ux * ry) * vy);
    assert(ry * (uy * vx) == (vx * ry) * uy);
    assert((uy * rx) * vy == (vy * rx) * uy);
}

/// The place of the meeting point on the one segment and on the other,
/// each over the common denominator `w`: they are one number.
proof fn lemma_meet_places(
    origin: int,
    u: int,
    v: int,
    r: int,
    w: int,
    ur: int,
    vr: int,
)
    by (nonlinear_arith)
    requires
        r * w - ur * v + vr * u == 0,
    ensures
        (origin + r + v) * w + (ur + w) * (0 - v) == (origin + u) * w + (w + vr) * (0 - u),
        (origin + r + v) * (0 - w) + (0 - (ur + w)) * (0 - v) == (origin + u) * (0 - w) + (0 - (
        w + vr)) * (0 - u),
{
}

/// The cross product of two differences of vectors, multiplied out.
proof fn lemma_cross_of_differences(a1: int, b1: int, a2: int, b2: int, ux: int, uy: int)
    by (nonlinear_arith)
    ensures
        cross(a2 - a1, b2 - b1, ux - a1, uy - b1) == cross(a1, b1, a2, b2) + cross(ux, uy, a1, b1)
            - cross(ux, uy, a2, b2),
{
}

/// Two points on the line through `p` and `q` are on one line with `p`, and
/// with `q`.
pub proof fn lemma_on_one_line(p: Point, q: Point, r1: Point, r2: Point)
    requires
        p != q,
        orientation(p, q, r1) == 0,
        orientation(p, q, r2) == 0,
    ensures
        orientation(r1, r2, p) == 0,
        orientation(r1, r2, q) == 0,
{
    // coordinates relative to p
    let (ux, uy) = (q.x - p.x, q.y - p.y);
    let (a1, b1) = (r1.x - p.x, r1.y - p.y);
    let (a2, b2) = (r2.x - p.x, r2.y - p.y);
    lemma_parallel(ux, uy, a1, b1, a2, b2);
    lemma_cross_of_differences(a1, b1, a2, b2, 0, 0);
    lemma_cross_of_differences(a1, b1, a2, b2, ux, uy);
    assert(cross(0, 0, a1, b1) == 0 && cross(0, 0, a2, b2) == 0);
    assert(orientation(r1, r2, p) == cross(a2 - a1, b2 - b1, 0 - a1, 0 - b1));
    assert(orientation(r1, r2, q) == cross(a2 - a1, b2 - b1, ux - a1, uy - b1));
}

/// Twice the signed area of the triangle `p`, `q`, `r`.
pub fn ccw(p: &Point, q: &Point, r: &Point) -> (a: i128)
    requires
        p.in_range(),
        q.in_range(),
        r.in_range(),
    ensures
        a == orientation(*p, *q, *r),
        -AREA_MAX <= a <= AREA_MAX,
{
    let ghost m = 2 * COORD_MAX as int;
    let ux: i128 = q.x as i128 - p.x as i128;
    let uy: i128 = q.y as i128 - p.y as i128;
    let vx: i128 = r.x as i128 - p.x as i128;
    let vy: i128 = r.y as i128 - p.y as i128;
    times(ux, vy, Ghost(m), Ghost(m)) - times(uy, vx, Ghost(m), Ghost(m))
}

/// A quotient by a positive divisor is no greater in magnitude than the
/// dividend.
pub proof fn lemma_quotient_within(x: int, d: int)
    by (nonlinear_arith)
    requires
        d > 0,
    ensures
        x >= 0 ==> 0 <= x / d <= x,
        x <= 0 ==> x <= x / d <= 0,
{
    assert(x == d * (x / d) + x % d && 0 <= x % d < d);
    let q = x / d;
    if x >= 0 {
        if q < 0 {
            assert(d * q <= -d);
        }
        if q > x {
            assert(d * q >= q);
        }
    } else {
        if q > 0 {
            assert(d * q >= d);
        }
        if q < x {
            assert(d * (q + 1) <= q + 1);
        }
    }
}

/// A fraction of a span, rounded, lies between zero and the span.
pub proof fn lemma_share_of_span(n: int, d: int, span: int)
    requires
        0 <= n <= d,
        0 < d,
    ensures
        span >= 0 ==> 0 <= nearest(n * span, d) <= span,
        span <= 0 ==> span <= nearest(n * span, d) <= 0,
{
    lemma_nearest_of_whole(0, d);
    lemma_nearest_of_whole(span, d);
    assert(0 * d == 0);
    if span >= 0 {
        assert(0 <= n * span <= span * d) by (nonlinear_arith)
            requires
                0 <= n <= d,
                span >= 0,
        ;
        lemma_nearest_monotone(0, n * span, d);
        lemma_nearest_monotone(n * span, span * d, d);
    } else {
        assert(span * d <= n * span <= 0) by (nonlinear_arith)
            requires
                0 <= n <= d,
                span <= 0,
        ;
        lemma_nearest_monotone(span * d, n * span, d);
        lemma_nearest_monotone(n * span, 0, d);
    }
}

impl Line {
    /// Both endpoints lie within the range of coordinates.
    pub open spec fn in_range(self) -> bool {
        self.p.in_range() && self.q.in_range()
    }

    /// A segment that a sweep takes: in range and not vertical (so not of
    /// zero length either).
    pub open spec fn valid(self) -> bool {
        self.in_range() && self.p.x != self.q.x
    }

    /// The endpoint that comes first in the order of points.
    pub open spec fn spec_lower(&self) -> Point {
        if self.p.precedes(self.q) {
            self.p
        } else {
            self.q
        }
    }

    /// The endpoint that comes last in the order of points.
    pub open spec fn spec_upper(&self) -> Point {
        if self.p.precedes(self.q) {
            self.q
        } else {
            self.p
        }
    }

    /// The endpoint that comes first in the order of points.
    #[verifier::when_used_as_spec(spec_lower)]
    pub fn lower(&self) -> (r: Point)
        ensures
            r == self.spec_lower(),
    {
        if self.p.x < self.q.x || (self.p.x == self.q.x && self.p.y < self.q.y) {
            self.p
        } else {
            self.q
        }
    }

    /// The endpoint that comes last in the order of points.
    #[verifier::when_used_as_spec(spec_upper)]
    pub fn upper(&self) -> (r: Point)
        ensures
            r == self.spec_upper(),
    {
        if self.p.x < self.q.x || (self.p.x == self.q.x && self.p.y < self.q.y) {
            self.q
        } else {
            self.p
        }
    }

    /// Whether both endpoints lie within the range of coordinates.
    pub fn is_in_range(&self) -> (r: bool)
        ensures
            r == self.in_range(),
    {
        self.p.is_in_range() && self.q.is_in_range()
    }

    /// The square of the length of the segment.
    pub open spec fn squared_length(self) -> int {
        (self.p.x - self.q.x) * (self.p.x - self.q.x) + (self.p.y - self.q.y) * (self.p.y
            - self.q.y)
    }

    /// The length of the segment in billionths, rounded down: the largest
    /// whole number whose square is not above the square of the length.
    pub fn len(&self) -> (r: i64)
        requires
            self.in_range(),
        ensures
            0 <= r,
            r * r <= self.squared_length() < (r + 1) * (r + 1),
    {
        let ghost span = 2 * COORD_MAX as int;
        let dx: i128 = self.p.x as i128 - self.q.x as i128;
        let dy: i128 = self.p.y as i128 - self.q.y as i128;
        let square = times(dx, dx, Ghost(span), Ghost(span)) + times(
            dy,
            dy,
            Ghost(span),
            Ghost(span),
        );
        assert(dx * dx >= 0 && dy * dy >= 0) by (nonlinear_arith);
        let mut low: i128 = 0;
        let mut high: i128 = 4_000_000_000_000_000_000;
        assert(low * low == 0 && high * high == 16_000_000_000_000_000_000_000_000_000_000_000_000)
            by (nonlinear_arith)
            requires
                low == 0,
                high == 4_000_000_000_000_000_000,
        ;
        while high - low > 1
            invariant
                0 <= low < high <= 4_000_000_000_000_000_000,
                low * low <= square < high * high,
            decreases high - low,
        {
            let middle = low + (high - low) / 2;
            let product = times(
                middle,
                middle,
                Ghost(4_000_000_000_000_000_000),
                Ghost(4_000_000_000_000_000_000),
            );
            if product <= square {
                low = middle;
            } else {
                high = middle;
            }
        }
        low as i64
    }

    /// The height of the line through the segment at the position `x`: the
    /// height of the lower endpoint plus the rise over the run times the
    /// distance from it.
    pub open spec fn height(self, x: int) -> Height {
        let lo = self.lower();
        let hi = self.upper();
        let run = hi.x - lo.x;
        let climb = (hi.y - lo.y) * (x - lo.x);
        Height { whole: (lo.y + climb / run) as i128, num: (climb % run) as i128, den: run as i128 }
    }

    /// The height of a segment that a sweep takes, at a position that a
    /// sweep reaches, is within bounds; its parts are the quotient and the
    /// remainder of the climb by the run.
    pub proof fn lemma_height_wf(self, x: int)
        requires
            self.valid(),
            -SWEEP_MAX <= x <= SWEEP_MAX,
        ensures
            self.height(x).wf(),
            self.height(x).whole == self.lower().y + ((self.upper().y - self.lower().y) * (x
                - self.lower().x)) / (self.upper().x - self.lower().x),
            self.height(x).num == ((self.upper().y - self.lower().y) * (x - self.lower().x)) % (
            self.upper().x - self.lower().x),
            self.height(x).den == self.upper().x - self.lower().x,
    {
        let lo = self.lower();
        let hi = self.upper();
        let run = hi.x - lo.x;
        let climb = (hi.y - lo.y) * (x - lo.x);
        lemma_product_bound(hi.y - lo.y, x - lo.x, 2 * COORD_MAX, 2 * COORD_MAX + 1);
        lemma_division_identity(climb, run);
        lemma_quotient_within(climb, run);
    }

    /// The height of the segment's line at the position `x`.
    pub fn y(&self, x: i64) -> (h: Height)
        requires
            self.valid(),
            -SWEEP_MAX <= x <= SWEEP_MAX,
        ensures
            h == self.height(x as int),
            h.wf(),
    {
        let lo = self.lower();
        let hi = self.upper();
        let run: i128 = hi.x as i128 - lo.x as i128;
        let rise: i128 = hi.y as i128 - lo.y as i128;
        let along: i128 = x as i128 - lo.x as i128;
        let climb = times(rise, along, Ghost(2 * COORD_MAX), Ghost(2 * COORD_MAX + 1));
        let (steps, rest) = floor_div(climb, run);
        proof {
            self.lemma_height_wf(x as int);
        }
        Height { whole: lo.y as i128 + steps, num: rest, den: run }
    }

    /// The two segments have no point in common: both ends of one lie
    /// strictly on one side of the other.
    pub open spec fn apart(self, other: Line) -> bool {
        ||| same_side(
            orientation(self.p, self.q, other.p),
            orientation(self.p, self.q, other.q),
        )
        ||| same_side(
            orientation(other.p, other.q, self.p),
            orientation(other.p, other.q, self.q),
        )
    }

    /// All four ends lie on one line.
    pub open spec fn collinear(self, other: Line) -> bool {
        &&& orientation(self.p, self.q, other.p) == 0
        &&& orientation(self.p, self.q, other.q) == 0
        &&& orientation(other.p, other.q, self.p) == 0
        &&& orientation(other.p, other.q, self.q) == 0
    }

    /// The share of `other`, counted from its end `q`, at which the line
    /// through `self` cuts it, as numerator and denominator: the areas that
    /// the ends of `other` span with `self` divide it in their ratio.
    pub open spec fn cut(self, other: Line) -> (int, int) {
        let at_p = magnitude(orientation(self.p, self.q, other.p));
        let at_q = magnitude(orientation(self.p, self.q, other.q));
        (at_q, at_p + at_q)
    }

    /// The point in which two segments meet that are neither apart nor on
    /// one line, each coordinate rounded to the nearest billionth.
    pub open spec fn meeting_point(self, other: Line) -> Point {
        let (n, d) = self.cut(other);
        Point {
            x: (other.q.x + nearest(n * (other.p.x - other.q.x), d)) as i64,
            y: (other.q.y + nearest(n * (other.p.y - other.q.y), d)) as i64,
        }
    }

    /// What `intersection` returns: nothing where the segments are apart,
    /// an error where they lie on one line, else the point in which they
    /// meet.
    pub open spec fn crossing(self, other: Line) -> Result<Option<Point>, SweepError> {
        if self.apart(other) {
            Ok(None)
        } else if self.collinear(other) {
            Err(SweepError::CollinearSegments)
        } else {
            Ok(Some(self.meeting_point(other)))
        }
    }

    /// Two segments cross each other in one point: whichever of the two is
    /// asked for its crossing with the other, the answer is the same.
    pub proof fn lemma_crossing_is_mutual(self, other: Line)
        ensures
            self.crossing(other) == other.crossing(self),
    {
        if !self.apart(other) && !self.collinear(other) {
            self.lemma_cut_defined(other);
            other.lemma_cut_defined(self);
            let (ux, uy) = (self.q.x - self.p.x, self.q.y - self.p.y);
            let (vx, vy) = (other.q.x - other.p.x, other.q.y - other.p.y);
            let (rx, ry) = (other.p.x - self.p.x, other.p.y - self.p.y);
            let w = cross(ux, uy, vx, vy);
            let ur = cross(ux, uy, rx, ry);
            let vr = cross(vx, vy, rx, ry);
            let c1 = orientation(self.p, self.q, other.p);
            let c2 = orientation(self.p, self.q, other.q);
            let d1 = orientation(other.p, other.q, self.p);
            let d2 = orientation(other.p, other.q, self.q);
            lemma_cross_linear(ux, uy, rx, ry, vx, vy);
            lemma_cross_linear(vx, vy, rx, ry, 0, 0);
            lemma_cross_linear(vx, vy, ux, uy, rx, ry);
            assert(c1 == ur);
            assert(c2 == cross(ux, uy, rx + vx, ry + vy));
            assert(c2 == ur + w);
            assert(d1 == cross(vx, vy, -rx, -ry));
            assert(d1 == -vr);
            assert(d2 == cross(vx, vy, ux - rx, uy - ry));
            assert(d2 == -w - vr);
            lemma_meet(ux, uy, vx, vy, rx, ry, w, ur, vr);
            lemma_meet_places(self.p.x as int, ux, vx, rx, w, ur, vr);
            lemma_meet_places(self.p.y as int, uy, vy, ry, w, ur, vr);
            let (n, d) = self.cut(other);
            let (m, e) = other.cut(self);
            assert(w != 0);
            assert(d == e);
            lemma_nearest_shift(other.q.x as int, n * (other.p.x - other.q.x), d);
            lemma_nearest_shift(other.q.y as int, n * (other.p.y - other.q.y), d);
            lemma_nearest_shift(self.q.x as int, m * (self.p.x - self.q.x), d);
            lemma_nearest_shift(self.q.y as int, m * (self.p.y - self.q.y), d);
            if w > 0 {
                assert(d == w && n == ur + w && m == w + vr);
            } else {
                assert(d == -w && n == -(ur + w) && m == -(w + vr));
            }
            assert(other.q.x * d + n * (other.p.x - other.q.x) == self.q.x * d + m * (self.p.x
                - self.q.x));
            assert(other.q.y * d + n * (other.p.y - other.q.y) == self.q.y * d + m * (self.p.y
                - self.q.y));
        }
    }

    /// A segment does not cross itself: it lies on one line with itself.
    pub proof fn lemma_no_crossing_with_itself(self)
        ensures
            self.crossing(self) == Err::<Option<Point>, SweepError>(SweepError::CollinearSegments),
    {
        let ux = self.q.x - self.p.x;
        let uy = self.q.y - self.p.y;
        assert(cross(ux, uy, ux, uy) == 0) by (nonlinear_arith);
        assert(cross(ux, uy, 0, 0) == 0) by (nonlinear_arith);
        assert(cross(ux, uy, -ux, -uy) == 0) by (nonlinear_arith);
        assert(orientation(self.p, self.q, self.p) == 0);
        assert(orientation(self.p, self.q, self.q) == 0);
    }

    /// Segments that are neither apart nor on one line are cut in a proper
    /// share: the denominator of `cut` is positive.
    pub proof fn lemma_cut_defined(self, other: Line)
        requires
            !self.apart(other),
            !self.collinear(other),
        ensures
            0 <= self.cut(other).0 <= self.cut(other).1,
            0 < self.cut(other).1,
    {
        let c1 = orientation(self.p, self.q, other.p);
        let c2 = orientation(self.p, self.q, other.q);
        if c1 == 0 && c2 == 0 {
            if self.p == self.q {
                assert(orientation(other.p, other.q, self.p) == orientation(
                    other.p,
                    other.q,
                    self.q,
                ));
            } else {
                lemma_on_one_line(self.p, self.q, other.p, other.q);
            }
        }
    }

    /// The point lies in the box that the two ends of the segment span.
    pub open spec fn boxes(self, p: Point) -> bool {
        &&& (self.p.x <= p.x <= self.q.x || self.q.x <= p.x <= self.p.x)
        &&& (self.p.y <= p.y <= self.q.y || self.q.y <= p.y <= self.p.y)
    }

    /// The point in which two segments cross lies in the box of the one and
    /// in the box of the other.
    pub proof fn lemma_crossing_in_both_boxes(self, other: Line)
        requires
            self.in_range(),
            other.in_range(),
        ensures
            self.crossing(other) matches Ok(Some(p)) ==> self.boxes(p) && other.boxes(p),
    {
        if !self.apart(other) && !self.collinear(other) {
            self.lemma_crossing_is_mutual(other);
            self.lemma_meeting_point_in_range(other);
            other.lemma_meeting_point_in_range(self);
        }
    }

    /// The point in which two segments meet lies between the ends of the
    /// second, so within the range of coordinates.
    pub proof fn lemma_meeting_point_in_range(self, other: Line)
        requires
            other.in_range(),
            !self.apart(other),
            !self.collinear(other),
        ensures
            self.meeting_point(other).in_range(),
            self.meeting_point(other).x == other.q.x + nearest(
                self.cut(other).0 * (other.p.x - other.q.x),
                self.cut(other).1,
            ),
            self.meeting_point(other).y == other.q.y + nearest(
                self.cut(other).0 * (other.p.y - other.q.y),
                self.cut(other).1,
            ),
            other.lower().x <= self.meeting_point(other).x <= other.upper().x,
            other.boxes(self.meeting_point(other)),
    {
        self.lemma_cut_defined(other);
        let (n, d) = self.cut(other);
        lemma_share_of_span(n, d, other.p.x - other.q.x);
        lemma_share_of_span(n, d, other.p.y - other.q.y);
    }

    /// The point in which the segment meets `other`, if they meet.
    pub fn intersection(&self, other: &Line) -> (r: Result<Option<Point>, SweepError>)
        requires
            self.in_range(),
            other.in_range(),
        ensures
            r == self.crossing(*other),
            r matches Ok(Some(pt)) ==> pt.in_range(),
    {
        let at_p = ccw(&self.p, &self.q, &other.p);
        let at_q = ccw(&self.p, &self.q, &other.q);
        if (at_p > 0 && at_q > 0) || (at_p < 0 && at_q < 0) {
            return Ok(None);
        }
        let from_p = ccw(&other.p, &other.q, &self.p);
        let from_q = ccw(&other.p, &other.q, &self.q);
        if (from_p > 0 && from_q > 0) || (from_p < 0 && from_q < 0) {
            return Ok(None);
        }
        if at_p == 0 && at_q == 0 && from_p == 0 && from_q == 0 {
            return Err(SweepError::CollinearSegments);
        }
        proof {
            self.lemma_cut_defined(*other);
            self.lemma_meeting_point_in_range(*other);
        }
        let n: i128 = if at_q < 0 {
            -at_q
        } else {
            at_q
        };
        let d: i128 = n + if at_p < 0 {
            -at_p
        } else {
            at_p
        };
        let run: i128 = other.p.x as i128 - other.q.x as i128;
        let rise: i128 = other.p.y as i128 - other.q.y as i128;
        let along = share(n, run, d);
        let up = share(n, rise, d);
        Ok(Some(Point { x: (other.q.x as i128 + along) as i64, y: (other.q.y as i128 + up) as i64 }))
    }
}

} // verus!
