//! Segments from text: a line of four coordinates `x1 y1 x2 y2` with blanks
//! between them. A coordinate is written in decimal notation with an
//! optional sign and an optional exponent of ten; what follows its ninth
//! decimal place is rounded away.

use crate::geometry::{Line, NumberError, ParseLineError, Point, COORD_MAX};
use vstd::prelude::*;
use vstd::string::StringSliceAdditionalSpecFns;

verus! {

/// The byte is one of the digits `0` to `9`.
pub open spec fn is_digit(b: u8) -> bool {
    48 <= b <= 57
}

/// Every byte is a digit.
pub open spec fn all_digits(t: Seq<u8>) -> bool {
    forall|i: int| 0 <= i < t.len() ==> is_digit(#[trigger] t[i])
}

/// The number that a string of digits denotes.
pub open spec fn digits_value(t: Seq<u8>) -> int
    decreases t.len(),
{
    if t.len() == 0 {
        0
    } else {
        10 * digits_value(t.drop_last()) + (t.last() - 48)
    }
}

/// The digit at index `i` of a fraction; zero behind its end.
pub open spec fn digit_at(f: Seq<u8>, i: int) -> int {
    if 0 <= i < f.len() {
        f[i] - 48
    } else {
        0
    }
}

/// The first `n` decimal places of the fraction `f`, as a whole number.
pub open spec fn places(f: Seq<u8>, n: nat) -> int
    decreases n,
{
    if n == 0 {
        0
    } else {
        10 * places(f, (n - 1) as nat) + digit_at(f, n - 1)
    }
}

/// The first index from `from` on at which `s` holds the byte `a` or the
/// byte `b`, or the length of `s`.
pub open spec fn next_either(s: Seq<u8>, a: u8, b: u8, from: int) -> int
    decreases s.len() - from,
{
    if from >= s.len() || from < 0 {
        s.len() as int
    } else if s[from] == a || s[from] == b {
        from
    } else {
        next_either(s, a, b, from + 1)
    }
}

/// The first index at which `s` holds the point, or the length of `s`.
pub open spec fn point_index(s: Seq<u8>) -> int {
    next_either(s, 46, 46, 0)
}

/// The first index at which `s` holds the letter `e`, small or capital,
/// that begins an exponent, or the length of `s`.
pub open spec fn mark_index(s: Seq<u8>) -> int {
    next_either(s, 101, 69, 0)
}

/// The text has a sign in front.
pub open spec fn signed(t: Seq<u8>) -> bool {
    t.len() > 0 && (t[0] == 43 || t[0] == 45)
}

/// The text without its sign.
pub open spec fn body(t: Seq<u8>) -> Seq<u8> {
    if signed(t) {
        t.drop_first()
    } else {
        t
    }
}

/// The number that a string of digits with an optional sign denotes.
pub open spec fn signed_value(t: Seq<u8>) -> int {
    if t.len() > 0 && t[0] == 45 {
        -digits_value(body(t))
    } else {
        digits_value(body(t))
    }
}

/// The text in front of the exponent, without the sign.
pub open spec fn mantissa(t: Seq<u8>) -> Seq<u8> {
    body(t).subrange(0, mark_index(body(t)))
}

/// The text has an exponent.
pub open spec fn has_exponent(t: Seq<u8>) -> bool {
    mark_index(body(t)) < body(t).len()
}

/// The text behind the letter that begins the exponent.
pub open spec fn exponent_text(t: Seq<u8>) -> Seq<u8> {
    body(t).subrange(mark_index(body(t)) + 1, body(t).len() as int)
}

/// The exponent of ten; zero where the text has none.
pub open spec fn exponent(t: Seq<u8>) -> int {
    if has_exponent(t) {
        signed_value(exponent_text(t))
    } else {
        0
    }
}

/// The digits in front of the point.
pub open spec fn whole_part(t: Seq<u8>) -> Seq<u8> {
    mantissa(t).subrange(0, point_index(mantissa(t)))
}

/// The digits behind the point; none where there is no point.
pub open spec fn fraction_part(t: Seq<u8>) -> Seq<u8> {
    let at = point_index(mantissa(t));
    if at < mantissa(t).len() {
        mantissa(t).subrange(at + 1, mantissa(t).len() as int)
    } else {
        Seq::empty()
    }
}

/// The text is a number: an optional sign, then digits with at most one
/// point among them and at least one digit, then, if the letter `e`
/// follows, an exponent: an optional sign and at least one digit.
pub open spec fn is_number(t: Seq<u8>) -> bool {
    &&& all_digits(whole_part(t))
    &&& all_digits(fraction_part(t))
    &&& whole_part(t).len() + fraction_part(t).len() > 0
    &&& has_exponent(t) ==> all_digits(body(exponent_text(t))) && body(exponent_text(t)).len() > 0
}

/// All digits of the number, those in front of the point and those behind.
pub open spec fn all_places(t: Seq<u8>) -> Seq<u8> {
    whole_part(t) + fraction_part(t)
}

/// How many of the digits count whole billionths: those in front of the
/// point, nine more, and as many more as the exponent says.
pub open spec fn whole_places(t: Seq<u8>) -> int {
    whole_part(t).len() + 9 + exponent(t)
}

/// The number of billionths that the digits `d` denote with the first `p`
/// of them counting whole billionths, rounded to the nearest: one more
/// billionth if the digit behind them is five or more.
pub open spec fn rounded_places(d: Seq<u8>, p: int) -> int {
    (if p > 0 {
        places(d, p as nat)
    } else {
        0
    }) + if digit_at(d, p) >= 5 {
        1int
    } else {
        0int
    }
}

/// The magnitude of the number in billionths.
pub open spec fn number_magnitude(t: Seq<u8>) -> int {
    rounded_places(all_places(t), whole_places(t))
}

/// The coordinate that the text denotes, or why it denotes none.
pub open spec fn number(t: Seq<u8>) -> Result<i64, NumberError> {
    if t.len() == 0 {
        Err(NumberError::Empty)
    } else if !is_number(t) {
        Err(NumberError::Invalid)
    } else if number_magnitude(t) > COORD_MAX {
        Err(NumberError::OutOfRange)
    } else if t[0] == 45 {
        Ok((-number_magnitude(t)) as i64)
    } else {
        Ok(number_magnitude(t) as i64)
    }
}

/// The segment that four fields denote, or the error of the first field
/// that denotes no coordinate.
pub open spec fn line_of(a: Seq<u8>, b: Seq<u8>, c: Seq<u8>, d: Seq<u8>) -> Result<
    Line,
    ParseLineError,
> {
    match (number(a), number(b), number(c), number(d)) {
        (Err(e), _, _, _) => Err(ParseLineError::ParseFloat(e)),
        (_, Err(e), _, _) => Err(ParseLineError::ParseFloat(e)),
        (_, _, Err(e), _) => Err(ParseLineError::ParseFloat(e)),
        (_, _, _, Err(e)) => Err(ParseLineError::ParseFloat(e)),
        (Ok(x1), Ok(y1), Ok(x2), Ok(y2)) => Ok(
            Line { p: Point { x: x1, y: y1 }, q: Point { x: x2, y: y2 } },
        ),
    }
}

/// The byte is a blank: a space, a tab, or one of the bytes that end a
/// line or a page.
pub open spec fn is_blank(b: u8) -> bool {
    b == 32 || b == 9 || b == 10 || b == 12 || b == 13
}

/// The first index from `from` on at which `s` holds a blank, if `blank`,
/// or a byte that is none, if not; the length of `s` where there is none.
pub open spec fn next_of(s: Seq<u8>, blank: bool, from: int) -> int
    decreases s.len() - from,
{
    if from >= s.len() {
        s.len() as int
    } else if from >= 0 && is_blank(s[from]) == blank {
        from
    } else if from >= 0 {
        next_of(s, blank, from + 1)
    } else {
        s.len() as int
    }
}

/// Where the field begins that follows index `from`: at the first byte
/// that is no blank.
pub open spec fn field_start(s: Seq<u8>, from: int) -> int {
    next_of(s, false, from)
}

/// Where the field ends that begins at index `from`: at the first blank.
pub open spec fn field_end(s: Seq<u8>, from: int) -> int {
    next_of(s, true, from)
}

/// The segment that a line of text denotes: the text must hold exactly
/// four fields, parted by blanks, and they are its coordinates.
pub open spec fn parsed_line(s: Seq<u8>) -> Result<Line, ParseLineError> {
    let a = field_start(s, 0);
    let b = field_start(s, field_end(s, a));
    let c = field_start(s, field_end(s, b));
    let d = field_start(s, field_end(s, c));
    if d < s.len() && field_start(s, field_end(s, d)) == s.len() {
        line_of(
            s.subrange(a, field_end(s, a)),
            s.subrange(b, field_end(s, b)),
            s.subrange(c, field_end(s, c)),
            s.subrange(d, field_end(s, d)),
        )
    } else {
        Err(ParseLineError::NotFourElements)
    }
}

/// The next occurrence of one of two bytes is an index from `from` on or
/// the length; one of the two stands there and neither stands between.
pub proof fn lemma_next_either(s: Seq<u8>, a: u8, b: u8, from: int)
    requires
        0 <= from <= s.len(),
    ensures
        from <= next_either(s, a, b, from) <= s.len(),
        next_either(s, a, b, from) < s.len() ==> s[next_either(s, a, b, from)] == a || s[next_either(
            s,
            a,
            b,
            from,
        )] == b,
        forall|k: int|
            from <= k < next_either(s, a, b, from) ==> #[trigger] s[k] != a && s[k] != b,
    decreases s.len() - from,
{
    if from < s.len() && s[from] != a && s[from] != b {
        lemma_next_either(s, a, b, from + 1);
    }
}

/// An index at which one of two bytes stands, with neither before it from
/// `from` on, is the next occurrence of the two.
pub proof fn lemma_next_either_is(s: Seq<u8>, a: u8, b: u8, from: int, at: int)
    requires
        0 <= from <= at <= s.len(),
        at < s.len() ==> s[at] == a || s[at] == b,
        forall|k: int| from <= k < at ==> #[trigger] s[k] != a && s[k] != b,
    ensures
        next_either(s, a, b, from) == at,
    decreases at - from,
{
    if from < at {
        lemma_next_either_is(s, a, b, from + 1, at);
    }
}

/// The first places of digits denote no negative number, and more places
/// denote no less.
pub proof fn lemma_places_grow(d: Seq<u8>, k: nat, p: nat)
    requires
        all_digits(d),
        k <= p,
    ensures
        0 <= places(d, k) <= places(d, p),
    decreases p,
{
    if p == 0 {
    } else {
        if p - 1 < d.len() {
            assert(is_digit(d[p - 1]));
        }
        if k < p {
            lemma_places_grow(d, k, (p - 1) as nat);
        } else {
            lemma_places_grow(d, (k - 1) as nat, (p - 1) as nat);
        }
    }
}

/// Places behind the last digit are zeros: where the digits denote zero,
/// they denote zero with any number of places more.
pub proof fn lemma_places_of_zero(d: Seq<u8>, k: nat, p: nat)
    requires
        d.len() <= k <= p,
        places(d, k) == 0,
    ensures
        places(d, p) == 0,
    decreases p,
{
    if k < p {
        lemma_places_of_zero(d, k, (p - 1) as nat);
    }
}

/// Twenty places behind the last digit make a number that is not zero
/// greater than any coordinate.
pub proof fn lemma_places_far(d: Seq<u8>, k: nat, p: nat)
    requires
        all_digits(d),
        d.len() <= k,
        k + 20 <= p,
        places(d, k) >= 1,
    ensures
        places(d, p) > COORD_MAX,
{
    lemma_places_padded(d, k, 20);
    lemma_places_grow(d, (k + 20) as nat, p);
}

/// Each place behind the last digit makes the number ten times as great.
proof fn lemma_places_padded(d: Seq<u8>, k: nat, n: nat)
    requires
        d.len() <= k,
        places(d, k) >= 1,
        n <= 20,
    ensures
        places(d, (k + n) as nat) >= 1,
        n >= 19 ==> places(d, (k + n) as nat) >= 10_000_000_000_000_000_000,
        n == 1 ==> places(d, (k + n) as nat) >= 10,
        n == 2 ==> places(d, (k + n) as nat) >= 100,
        n == 3 ==> places(d, (k + n) as nat) >= 1_000,
        n == 4 ==> places(d, (k + n) as nat) >= 10_000,
        n == 5 ==> places(d, (k + n) as nat) >= 100_000,
        n == 6 ==> places(d, (k + n) as nat) >= 1_000_000,
        n == 7 ==> places(d, (k + n) as nat) >= 10_000_000,
        n == 8 ==> places(d, (k + n) as nat) >= 100_000_000,
        n == 9 ==> places(d, (k + n) as nat) >= 1_000_000_000,
        n == 10 ==> places(d, (k + n) as nat) >= 10_000_000_000,
        n == 11 ==> places(d, (k + n) as nat) >= 100_000_000_000,
        n == 12 ==> places(d, (k + n) as nat) >= 1_000_000_000_000,
        n == 13 ==> places(d, (k + n) as nat) >= 10_000_000_000_000,
        n == 14 ==> places(d, (k + n) as nat) >= 100_000_000_000_000,
        n == 15 ==> places(d, (k + n) as nat) >= 1_000_000_000_000_000,
        n == 16 ==> places(d, (k + n) as nat) >= 10_000_000_000_000_000,
        n == 17 ==> places(d, (k + n) as nat) >= 100_000_000_000_000_000,
        n == 18 ==> places(d, (k + n) as nat) >= 1_000_000_000_000_000_000,
    decreases n,
{
    if n > 0 {
        lemma_places_padded(d, k, (n - 1) as nat);
        assert(digit_at(d, k + n - 1) == 0);
    }
}

/// The first index from `from` on at which `bytes` holds a blank, if
/// `blank`, or a byte that is none, if not; the length of `bytes` where
/// there is none.
fn scan(bytes: &[u8], blank: bool, from: usize) -> (at: usize)
    requires
        from <= bytes@.len(),
    ensures
        at == next_of(bytes@, blank, from as int),
        from <= at <= bytes@.len(),
{
    let mut at = from;
    while at < bytes.len() && (bytes[at] == 32 || bytes[at] == 9 || bytes[at] == 10 || bytes[at]
        == 12 || bytes[at] == 13) != blank
        invariant
            from <= at <= bytes@.len(),
            next_of(bytes@, blank, from as int) == next_of(bytes@, blank, at as int),
        decreases bytes@.len() - at,
    {
        at += 1;
    }
    at
}

/// The digits in front of the exponent, and the point among them, hold
/// neither letter that begins an exponent; the digits in front of the
/// point hold no point.
proof fn lemma_plain_digits(bytes: Seq<u8>, first: int, w_end: int, f_end: int, to: int)
    requires
        0 <= first <= w_end <= f_end <= to <= bytes.len(),
        all_digits(bytes.subrange(first, w_end)),
        w_end < f_end ==> bytes[w_end] == 46 && all_digits(bytes.subrange(w_end + 1, f_end)),
    ensures
        forall|k: int|
            0 <= k < f_end - first ==> #[trigger] bytes.subrange(first, to)[k] != 101
                && bytes.subrange(first, to)[k] != 69,
        forall|k: int| 0 <= k < w_end - first ==> #[trigger] bytes.subrange(first, to)[k] != 46,
{
    let rest = bytes.subrange(first, to);
    assert forall|k: int| 0 <= k < f_end - first implies #[trigger] rest[k] != 101 && rest[k]
        != 69 by {
        if k < w_end - first {
            assert(is_digit(bytes.subrange(first, w_end)[k]));
        } else if k > w_end - first {
            assert(is_digit(bytes.subrange(w_end + 1, f_end)[k - (w_end + 1 - first)]));
        }
    }
    assert forall|k: int| 0 <= k < w_end - first implies #[trigger] rest[k] != 46 by {
        assert(is_digit(bytes.subrange(first, w_end)[k]));
    }
}

/// A byte that is no digit, no point in its place and no letter of an
/// exponent, standing behind the digits, makes the text no number.
proof fn lemma_stray_byte(bytes: Seq<u8>, from: int, first: int, w_end: int, f_end: int, to: int)
    requires
        0 <= from <= first <= w_end <= f_end < to <= bytes.len(),
        bytes.subrange(first, to) == body(bytes.subrange(from, to)),
        all_digits(bytes.subrange(first, w_end)),
        w_end < f_end ==> bytes[w_end] == 46 && all_digits(bytes.subrange(w_end + 1, f_end)),
        w_end == f_end ==> bytes[w_end] != 46,
        !is_digit(bytes[f_end]),
        bytes[f_end] != 101 && bytes[f_end] != 69,
    ensures
        !is_number(bytes.subrange(from, to)),
{
    let t = bytes.subrange(from, to);
    let rest = bytes.subrange(first, to);
    lemma_plain_digits(bytes, first, w_end, f_end, to);
    lemma_next_either(rest, 101, 69, 0);
    let m = mantissa(t);
    let at = f_end - first;
    assert(rest[at] == bytes[f_end]);
    assert(mark_index(rest) > at);
    assert(m[at] == rest[at]);
    lemma_next_either(m, 46, 46, 0);
    assert forall|k: int| 0 <= k < w_end - first implies #[trigger] m[k] != 46 by {
        assert(m[k] == rest[k]);
    }
    if w_end < f_end {
        assert(m[w_end - first] == rest[w_end - first]);
        lemma_next_either_is(m, 46, 46, 0, w_end - first);
        assert(fraction_part(t)[at - (w_end - first) - 1] == m[at]);
    } else {
        assert(m[at] != 46);
        assert(point_index(m) > at);
        assert(whole_part(t)[at] == m[at]);
    }
}

/// Where the digits, with a point among them or none, reach to the end of
/// the text or to a letter that begins an exponent, they are the parts of
/// the number.
proof fn lemma_parts(bytes: Seq<u8>, from: int, first: int, w_end: int, f_end: int, to: int)
    requires
        0 <= from <= first <= w_end <= f_end <= to <= bytes.len(),
        bytes.subrange(first, to) == body(bytes.subrange(from, to)),
        all_digits(bytes.subrange(first, w_end)),
        w_end < f_end ==> bytes[w_end] == 46 && all_digits(bytes.subrange(w_end + 1, f_end)),
        w_end == f_end && w_end < to ==> bytes[w_end] != 46,
        f_end < to ==> bytes[f_end] == 101 || bytes[f_end] == 69,
    ensures
        ({
            let t = bytes.subrange(from, to);
            &&& whole_part(t) == bytes.subrange(first, w_end)
            &&& fraction_part(t) == (if w_end < f_end {
                bytes.subrange(w_end + 1, f_end)
            } else {
                Seq::<u8>::empty()
            })
            &&& has_exponent(t) == (f_end < to)
            &&& f_end < to ==> exponent_text(t) == bytes.subrange(f_end + 1, to)
        }),
{
    let t = bytes.subrange(from, to);
    let rest = bytes.subrange(first, to);
    lemma_plain_digits(bytes, first, w_end, f_end, to);
    if f_end < to {
        assert(rest[f_end - first] == bytes[f_end]);
    }
    lemma_next_either_is(rest, 101, 69, 0, f_end - first);
    let m = mantissa(t);
    assert(m =~= bytes.subrange(first, f_end));
    assert forall|k: int| 0 <= k < w_end - first implies #[trigger] m[k] != 46 by {
        assert(m[k] == rest[k]);
    }
    if w_end < f_end {
        assert(m[w_end - first] == bytes[w_end]);
    }
    lemma_next_either_is(m, 46, 46, 0, w_end - first);
    assert(whole_part(t) =~= bytes.subrange(first, w_end));
    if w_end < f_end {
        assert(fraction_part(t) =~= bytes.subrange(w_end + 1, f_end));
    }
    if f_end < to {
        assert(exponent_text(t) =~= bytes.subrange(f_end + 1, to));
    }
}

/// The greatest exponent that is read exactly; a greater one counts as
/// this one, which is beyond every number of digits.
pub const EXPONENT_MAX: i128 = 1_000_000_000_000_000_000_000_000;

/// Reads the digits from `from` on, up to `to` at most, and returns where
/// they end.
fn scan_digits(bytes: &[u8], from: usize, to: usize) -> (end: usize)
    requires
        from <= to <= bytes@.len(),
    ensures
        from <= end <= to,
        all_digits(bytes@.subrange(from as int, end as int)),
        end < to ==> !is_digit(bytes@[end as int]),
{
    let mut end = from;
    while end < to && 48 <= bytes[end] && bytes[end] <= 57
        invariant
            from <= end <= to <= bytes@.len(),
            all_digits(bytes@.subrange(from as int, end as int)),
        decreases to - end,
    {
        proof {
            let shorter = bytes@.subrange(from as int, end as int);
            let longer = bytes@.subrange(from as int, end as int + 1);
            assert forall|k: int| 0 <= k < longer.len() implies is_digit(#[trigger] longer[k]) by {
                if k < shorter.len() {
                    assert(longer[k] == shorter[k]);
                }
            }
        }
        end += 1;
    }
    end
}

/// The exponent that the bytes from `from` up to `to` denote: an optional
/// sign and at least one digit. An exponent beyond `EXPONENT_MAX` is
/// returned as `EXPONENT_MAX`, with its sign.
fn read_exponent(bytes: &[u8], from: usize, to: usize) -> (r: Option<i128>)
    requires
        from <= to <= bytes@.len(),
    ensures
        ({
            let t = bytes@.subrange(from as int, to as int);
            let v = signed_value(t);
            match r {
                None => !(all_digits(body(t)) && body(t).len() > 0),
                Some(e) => {
                    &&& all_digits(body(t))
                    &&& body(t).len() > 0
                    &&& -EXPONENT_MAX <= e <= EXPONENT_MAX
                    &&& (e == v || (e == EXPONENT_MAX && v > e) || (e == -EXPONENT_MAX && v < e))
                },
            }
        }),
{
    let ghost t = bytes@.subrange(from as int, to as int);
    if from == to {
        return None;
    }
    let negative = bytes[from] == 45;
    let first = if bytes[from] == 43 || bytes[from] == 45 {
        from + 1
    } else {
        from
    };
    assert(bytes@.subrange(first as int, to as int) =~= body(t));
    let mut value: i128 = 0;
    let mut i = first;
    proof {
        assert(bytes@.subrange(first as int, i as int) =~= Seq::<u8>::empty());
    }
    while i < to && 48 <= bytes[i] && bytes[i] <= 57
        invariant
            first <= i <= to <= bytes@.len(),
            all_digits(bytes@.subrange(first as int, i as int)),
            0 <= value <= EXPONENT_MAX,
            value < EXPONENT_MAX ==> value == digits_value(bytes@.subrange(first as int, i as int)),
            value == EXPONENT_MAX ==> digits_value(bytes@.subrange(first as int, i as int))
                >= EXPONENT_MAX,
        decreases to - i,
    {
        let digit = (bytes[i] - 48) as i128;
        proof {
            let shorter = bytes@.subrange(first as int, i as int);
            let longer = bytes@.subrange(first as int, i as int + 1);
            assert(longer.drop_last() =~= shorter);
            assert(longer.last() == bytes@[i as int]);
            assert forall|k: int| 0 <= k < longer.len() implies is_digit(#[trigger] longer[k]) by {
                if k < shorter.len() {
                    assert(longer[k] == shorter[k]);
                }
            }
        }
        if value < EXPONENT_MAX {
            let next = value * 10 + digit;
            value = if next > EXPONENT_MAX {
                EXPONENT_MAX
            } else {
                next
            };
        }
        i += 1;
    }
    if i < to {
        proof {
            assert(body(t)[i - first] == bytes@[i as int]);
        }
        return None;
    }
    if i == first {
        return None;
    }
    if negative {
        Some(-value)
    } else {
        Some(value)
    }
}

/// The digit at index `i` of the digits from `first` up to `w_end`
/// followed by those from `begin` up to `f_end`.
fn digit_of(bytes: &[u8], first: usize, w_end: usize, begin: usize, f_end: usize, i: usize) -> (d:
    u8)
    requires
        first <= w_end <= begin <= f_end <= bytes@.len(),
        i < (w_end - first) + (f_end - begin),
        all_digits(bytes@.subrange(first as int, w_end as int)),
        all_digits(bytes@.subrange(begin as int, f_end as int)),
    ensures
        d == digit_at(
            bytes@.subrange(first as int, w_end as int) + bytes@.subrange(
                begin as int,
                f_end as int,
            ),
            i as int,
        ),
        0 <= d <= 9,
{
    let ghost whole = bytes@.subrange(first as int, w_end as int);
    let ghost fraction = bytes@.subrange(begin as int, f_end as int);
    if i < w_end - first {
        assert((whole + fraction)[i as int] == whole[i as int]);
        assert(is_digit(whole[i as int]));
        bytes[first + i] - 48
    } else {
        assert((whole + fraction)[i as int] == fraction[i - (w_end - first)]);
        assert(is_digit(fraction[i - (w_end - first)]));
        bytes[begin + (i - (w_end - first))] - 48
    }
}

/// The first `p` places of the digits from `first` up to `w_end` followed
/// by those from `begin` up to `f_end`, as a whole number; `None` where
/// that number is beyond the range of coordinates. The places asked for
/// are `wanted`: `p` itself, or more where `p` lies twenty places or more
/// behind the last digit.
fn take_places(
    bytes: &[u8],
    first: usize,
    w_end: usize,
    begin: usize,
    f_end: usize,
    p: i128,
    Ghost(wanted): Ghost<int>,
) -> (r: Option<i128>)
    requires
        first <= w_end <= begin <= f_end <= bytes@.len(),
        all_digits(bytes@.subrange(first as int, w_end as int)),
        all_digits(bytes@.subrange(begin as int, f_end as int)),
        0 <= p <= EXPONENT_MAX + 40_000_000_000_000_000_000,
        wanted == p || (wanted >= p && p >= (w_end - first) + (f_end - begin) + 20),
    ensures
        ({
            let d = bytes@.subrange(first as int, w_end as int) + bytes@.subrange(
                begin as int,
                f_end as int,
            );
            match r {
                Some(v) => v == places(d, wanted as nat) && 0 <= v <= COORD_MAX,
                None => places(d, wanted as nat) > COORD_MAX,
            }
        }),
{
    let ghost d = bytes@.subrange(first as int, w_end as int) + bytes@.subrange(
        begin as int,
        f_end as int,
    );
    assert forall|k: int| 0 <= k < d.len() implies is_digit(#[trigger] d[k]) by {
        if k < w_end - first {
            assert(d[k] == bytes@.subrange(first as int, w_end as int)[k]);
        } else {
            assert(d[k] == bytes@.subrange(begin as int, f_end as int)[k - (w_end - first)]);
        }
    }
    let count: usize = (w_end - first) + (f_end - begin);
    let mut value: i128 = 0;
    let mut over = false;
    let mut i: usize = 0;
    while i < count && (i as i128) < p
        invariant
            first <= w_end <= begin <= f_end <= bytes@.len(),
            count == (w_end - first) + (f_end - begin),
            d == bytes@.subrange(first as int, w_end as int) + bytes@.subrange(
                begin as int,
                f_end as int,
            ),
            all_digits(bytes@.subrange(first as int, w_end as int)),
            all_digits(bytes@.subrange(begin as int, f_end as int)),
            all_digits(d),
            i <= count,
            i <= p,
            0 <= value <= COORD_MAX,
            !over ==> value == places(d, i as nat),
            over ==> places(d, i as nat) > COORD_MAX,
        decreases count - i,
    {
        let digit = digit_of(bytes, first, w_end, begin, f_end, i) as i128;
        proof {
            lemma_places_grow(d, i as nat, (i + 1) as nat);
        }
        if !over {
            let next = value * 10 + digit;
            if next > COORD_MAX as i128 {
                over = true;
            } else {
                value = next;
            }
        }
        i += 1;
    }
    // places behind the last digit are zeros
    let mut n: i128 = i as i128;
    while n < p && !over && value > 0
        invariant
            all_digits(d),
            i <= n <= p,
            n < p ==> i == count,
            count == d.len(),
            0 <= value <= COORD_MAX,
            !over ==> value == places(d, n as nat),
            over ==> places(d, n as nat) > COORD_MAX,
        decreases
                (if over {
                    0
                } else {
                    COORD_MAX + 2 - value
                }),
    {
        proof {
            assert(digit_at(d, n as int) == 0);
            lemma_places_grow(d, n as nat, (n + 1) as nat);
        }
        let next = value * 10;
        if next > COORD_MAX as i128 {
            over = true;
        } else {
            value = next;
        }
        n += 1;
    }
    proof {
        if over {
            lemma_places_grow(d, n as nat, wanted as nat);
        } else if n < p {
            // the digits denote zero
            lemma_places_of_zero(d, n as nat, wanted as nat);
        } else if wanted > p {
            // twenty places behind the last digit, and not beyond the range
            if places(d, count as nat) >= 1 {
                lemma_places_far(d, count as nat, p as nat);
                lemma_places_grow(d, count as nat, p as nat);
            } else {
                lemma_places_grow(d, 0, count as nat);
                lemma_places_of_zero(d, count as nat, wanted as nat);
                lemma_places_of_zero(d, count as nat, p as nat);
            }
        }
    }
    if over {
        None
    } else {
        Some(value)
    }
}

/// The billionths that the digits from `first` up to `w_end` and, behind
/// the point, from `begin` up to `f_end` denote with the exponent `power`,
/// rounded to the nearest; `None` where they are beyond the range of
/// coordinates. The exponent meant is `meant`: `power` itself, or one
/// beyond `EXPONENT_MAX` on the side of `power`.
fn magnitude_of(
    bytes: &[u8],
    first: usize,
    w_end: usize,
    begin: usize,
    f_end: usize,
    power: i128,
    Ghost(meant): Ghost<int>,
) -> (r: Option<i128>)
    requires
        first <= w_end <= begin <= f_end <= bytes@.len(),
        all_digits(bytes@.subrange(first as int, w_end as int)),
        all_digits(bytes@.subrange(begin as int, f_end as int)),
        -EXPONENT_MAX <= power <= EXPONENT_MAX,
        power == meant || (power == EXPONENT_MAX && meant > power) || (power == -EXPONENT_MAX
            && meant < power),
    ensures
        ({
            let d = bytes@.subrange(first as int, w_end as int) + bytes@.subrange(
                begin as int,
                f_end as int,
            );
            let p = (w_end - first) + 9 + meant;
            match r {
                Some(v) => v == rounded_places(d, p) && 0 <= v <= COORD_MAX,
                None => rounded_places(d, p) > COORD_MAX,
            }
        }),
{
    let count: usize = (w_end - first) + (f_end - begin);
    let p: i128 = (w_end - first) as i128 + 9 + power;
    let ghost wanted = (w_end - first) + 9 + meant;
    let whole_billionths: i128 = if p > 0 {
        match take_places(bytes, first, w_end, begin, f_end, p, Ghost(wanted)) {
            Some(v) => v,
            None => {
                return None;
            },
        }
    } else {
        0
    };
    let up = 0 <= p && p < count as i128 && digit_of(
        bytes,
        first,
        w_end,
        begin,
        f_end,
        p as usize,
    ) >= 5;
    let magnitude: i128 = whole_billionths + if up {
        1
    } else {
        0
    };
    if magnitude > COORD_MAX as i128 {
        return None;
    }
    Some(magnitude)
}

/// The coordinate that the bytes from `from` up to `to` denote.
pub fn parse_number(bytes: &[u8], from: usize, to: usize) -> (r: Result<i64, NumberError>)
    requires
        from <= to <= bytes@.len(),
    ensures
        r == number(bytes@.subrange(from as int, to as int)),
        r matches Ok(v) ==> -COORD_MAX <= v <= COORD_MAX,
{
    let ghost t = bytes@.subrange(from as int, to as int);
    if from == to {
        return Err(NumberError::Empty);
    }
    let negative = bytes[from] == 45;
    let first = if bytes[from] == 43 || bytes[from] == 45 {
        from + 1
    } else {
        from
    };
    let ghost rest = bytes@.subrange(first as int, to as int);
    assert(rest =~= body(t));
    // the digits in front of the point and those behind it
    let w_end = scan_digits(bytes, first, to);
    let pointed = w_end < to && bytes[w_end] == 46;
    let begin = if pointed {
        w_end + 1
    } else {
        w_end
    };
    let f_end = scan_digits(bytes, begin, to);
    let marked = f_end < to && (bytes[f_end] == 101 || bytes[f_end] == 69);
    proof {
        if !pointed && f_end > w_end {
            assert(is_digit(bytes@.subrange(begin as int, f_end as int)[0]));
        }
        if !pointed {
            assert(bytes@.subrange(begin as int, f_end as int) =~= Seq::<u8>::empty());
        }
    }
    if f_end < to && !marked {
        proof {
            lemma_stray_byte(bytes@, from as int, first as int, w_end as int, f_end as int, to as int);
        }
        return Err(NumberError::Invalid);
    }
    proof {
        lemma_parts(bytes@, from as int, first as int, w_end as int, f_end as int, to as int);
    }
    if w_end == first && f_end == begin {
        return Err(NumberError::Invalid);
    }
    let power: i128 = if marked {
        match read_exponent(bytes, f_end + 1, to) {
            Some(e) => e,
            None => {
                return Err(NumberError::Invalid);
            },
        }
    } else {
        0
    };
    let magnitude = match magnitude_of(bytes, first, w_end, begin, f_end, power, Ghost(exponent(t))) {
        Some(v) => v,
        None => {
            return Err(NumberError::OutOfRange);
        },
    };
    if negative {
        Ok((-magnitude) as i64)
    } else {
        Ok(magnitude as i64)
    }
}

/// The segment that a line of text denotes.
pub fn parse_line(bytes: &[u8]) -> (r: Result<Line, ParseLineError>)
    ensures
        r == parsed_line(bytes@),
        r matches Ok(line) ==> line.in_range(),
{
    let n = bytes.len();
    let a = scan(bytes, false, 0);
    let a_end = scan(bytes, true, a);
    let b = scan(bytes, false, a_end);
    let b_end = scan(bytes, true, b);
    let c = scan(bytes, false, b_end);
    let c_end = scan(bytes, true, c);
    let d = scan(bytes, false, c_end);
    let d_end = scan(bytes, true, d);
    if d >= n || scan(bytes, false, d_end) < n {
        return Err(ParseLineError::NotFourElements);
    }
    let x1 = match parse_number(bytes, a, a_end) {
        Ok(v) => v,
        Err(e) => {
            return Err(ParseLineError::ParseFloat(e));
        },
    };
    let y1 = match parse_number(bytes, b, b_end) {
        Ok(v) => v,
        Err(e) => {
            return Err(ParseLineError::ParseFloat(e));
        },
    };
    let x2 = match parse_number(bytes, c, c_end) {
        Ok(v) => v,
        Err(e) => {
            return Err(ParseLineError::ParseFloat(e));
        },
    };
    let y2 = match parse_number(bytes, d, d_end) {
        Ok(v) => v,
        Err(e) => {
            return Err(ParseLineError::ParseFloat(e));
        },
    };
    Ok(Line { p: Point { x: x1, y: y1 }, q: Point { x: x2, y: y2 } })
}

impl Line {
    /// The segment that a line of text denotes: four coordinates
    /// `x1 y1 x2 y2` with blanks between them.
    pub fn from_str(s: &str) -> (r: Result<Line, ParseLineError>)
        ensures
            r == parsed_line(s.spec_bytes()),
            r matches Ok(line) ==> line.in_range(),
    {
        parse_line(s.as_bytes())
    }
}

} // verus!
