//! The sweep line: the segments that the sweep crosses at its current
//! position, from the highest to the lowest.

use crate::geometry::{Line, Point, Height, COORD_MAX, SWEEP_MAX};
use vstd::prelude::*;
use vstd::seq_lib::{to_multiset_build, to_multiset_contains, to_multiset_insert};

verus! {

/// A segment on the sweep line, with its height at the position at which it
/// was last measured.
#[derive(Clone, Copy, Debug, PartialEq, Eq, Structural)]
pub struct SweepLineElement {
    pub y: Height,
    pub line: Line,
}

/// The segments crossed at the current position, highest first.
pub struct SweepLine {
    pub elements: Vec<SweepLineElement>,
}

/// The entries next to a segment on the sweep line.
#[derive(Clone, Copy, Debug)]
pub struct Neighbors {
    /// The entry that follows the segment: the next one down.
    pub below: Option<SweepLineElement>,
    /// The entry that precedes the segment: the next one up.
    pub above: Option<SweepLineElement>,
}

/// Two segments after they have crossed, and the entries around them.
#[derive(Clone, Copy, Debug)]
pub struct SwapResult {
    /// The entry that follows `smaller`, if there is one.
    pub below: Option<SweepLineElement>,
    /// The entry of the one of the two segments that now stands behind
    /// the other: the lower of the pair.
    pub smaller: SweepLineElement,
    /// The entry of the one of the two segments that now stands before
    /// the other: the higher of the pair.
    pub bigger: SweepLineElement,
    /// The entry that precedes `bigger`, if there is one.
    pub above: Option<SweepLineElement>,
    /// Whether the two segments stood next to each other before the swap.
    pub adjacent: bool,
}

/// Every entry has a segment that a sweep takes and a height within bounds.
pub open spec fn sound(s: Seq<SweepLineElement>) -> bool {
    forall|i: int| 0 <= i < s.len() ==> (#[trigger] s[i]).y.wf() && s[i].line.valid()
}

/// No entry is below a later one.
pub open spec fn descending(s: Seq<SweepLineElement>) -> bool {
    forall|i: int, j: int| 0 <= i < j < s.len() ==> !(#[trigger] s[i]).y.below((#[trigger] s[j]).y)
}

/// The place of a new entry among `s`: behind the last entry that is not
/// below it.
pub open spec fn slot(s: Seq<SweepLineElement>, e: SweepLineElement) -> int
    decreases s.len(),
{
    if s.len() == 0 {
        0
    } else if s.last().y.below(e.y) {
        slot(s.drop_last(), e)
    } else {
        s.len() as int
    }
}

/// The entries of `s` in descending order of height, entries of one height
/// in the order in which they stand in `s`.
pub open spec fn arranged(s: Seq<SweepLineElement>) -> Seq<SweepLineElement>
    decreases s.len(),
{
    if s.len() == 0 {
        s
    } else {
        let front = arranged(s.drop_last());
        front.insert(slot(front, s.last()), s.last())
    }
}

/// The first index from `from` on at which `s` holds the segment `line`, or
/// the length of `s` if there is none.
pub open spec fn position_from(s: Seq<SweepLineElement>, line: Line, from: int) -> int
    decreases s.len() - from,
{
    if from >= s.len() {
        s.len() as int
    } else if s[from].line == line {
        from
    } else {
        position_from(s, line, from + 1)
    }
}

/// The first index at which `s` holds the segment `line`, or the length of
/// `s` if it does not hold it.
pub open spec fn position(s: Seq<SweepLineElement>, line: Line) -> int {
    position_from(s, line, 0)
}

/// The entries of `s`, each with the height of its segment at `x`.
pub open spec fn raised(s: Seq<SweepLineElement>, x: int) -> Seq<SweepLineElement> {
    Seq::new(s.len(), |i: int| SweepLineElement { y: s[i].line.height(x), line: s[i].line })
}

/// The entry of `s` at index `i`, if there is one.
pub open spec fn entry(s: Seq<SweepLineElement>, i: int) -> Option<SweepLineElement> {
    if 0 <= i < s.len() {
        Some(s[i])
    } else {
        None
    }
}

/// The entries before and behind the first entry of `s` that holds `line`.
pub open spec fn neighbors_of(s: Seq<SweepLineElement>, line: Line) -> Option<Neighbors> {
    let i = position(s, line);
    if i < s.len() {
        Some(Neighbors { below: entry(s, i + 1), above: entry(s, i - 1) })
    } else {
        None
    }
}

/// The entries of `s` with the two at `i` and `j` measured at `x`.
pub open spec fn remeasured(s: Seq<SweepLineElement>, i: int, j: int, x: int) -> Seq<
    SweepLineElement,
> {
    let first = s.update(i, SweepLineElement { y: s[i].line.height(x), line: s[i].line });
    first.update(j, SweepLineElement { y: first[j].line.height(x), line: first[j].line })
}

/// The two segments stand next to each other among the entries `s`: their
/// places differ by one.
pub open spec fn stand_adjacent(s: Seq<SweepLineElement>, line1: Line, line2: Line) -> bool {
    let i = position(s, line1);
    let j = position(s, line2);
    i - j == 1 || j - i == 1
}

/// What a swap reports of the entries `s` in which the two segments now
/// stand at the places `a` and `b`: the higher and the lower of the two,
/// the entry before the higher and the entry behind the lower.
pub open spec fn report_at(s: Seq<SweepLineElement>, a: int, b: int, adjacent: bool) -> SwapResult {
    let top = if a < b {
        a
    } else {
        b
    };
    let bottom = if a < b {
        b
    } else {
        a
    };
    SwapResult {
        below: entry(s, bottom + 1),
        smaller: s[bottom],
        bigger: s[top],
        above: entry(s, top - 1),
        adjacent,
    }
}

/// The entries after the swap of two segments that stand at the places `i`
/// and `j`: both are measured at `x`, and the entries are arranged anew.
pub open spec fn swapped(s: Seq<SweepLineElement>, i: int, j: int, x: int) -> Seq<
    SweepLineElement,
> {
    arranged(remeasured(s, i, j, x))
}

/// What a swap of the segments `line1` and `line2` at the sweep position
/// `x` leaves of the entries `s` that hold both, and what it reports: the
/// two are looked up again among the entries arranged anew.
pub open spec fn swap_outcome(s: Seq<SweepLineElement>, line1: Line, line2: Line, x: int) -> (
    Seq<SweepLineElement>,
    SwapResult,
) {
    let after = swapped(s, position(s, line1), position(s, line2), x + 1);
    (
        after,
        report_at(
            after,
            position(after, line1),
            position(after, line2),
            stand_adjacent(s, line1, line2),
        ),
    )
}

/// The slot of an entry is an index of the sequence or its length; no entry
/// before the slot that is next to it is below the new one, and every entry
/// from the slot on is.
pub proof fn lemma_slot(s: Seq<SweepLineElement>, e: SweepLineElement)
    ensures
        0 <= slot(s, e) <= s.len(),
        slot(s, e) > 0 ==> !s[slot(s, e) - 1].y.below(e.y),
        forall|m: int| slot(s, e) <= m < s.len() ==> (#[trigger] s[m]).y.below(e.y),
    decreases s.len(),
{
    if s.len() > 0 && s.last().y.below(e.y) {
        let front = s.drop_last();
        lemma_slot(front, e);
        assert forall|m: int| slot(s, e) <= m < s.len() implies (#[trigger] s[m]).y.below(e.y) by {
            if m < front.len() {
                assert(front[m].y.below(e.y));
            }
        }
    }
}

/// Arranging keeps every entry, as often as it occurred.
pub proof fn lemma_arranged_permutes(s: Seq<SweepLineElement>)
    ensures
        arranged(s).len() == s.len(),
        arranged(s).to_multiset() == s.to_multiset(),
    decreases s.len(),
{
    if s.len() > 0 {
        let front = arranged(s.drop_last());
        lemma_arranged_permutes(s.drop_last());
        lemma_slot(front, s.last());
        to_multiset_insert(front, slot(front, s.last()), s.last());
        to_multiset_build(s.drop_last(), s.last());
        assert(s.drop_last().push(s.last()) =~= s);
    }
}

/// Every entry of the arranged sequence is an entry of the sequence.
pub proof fn lemma_arranged_members(s: Seq<SweepLineElement>)
    ensures
        arranged(s).len() == s.len(),
        forall|i: int| 0 <= i < s.len() ==> s.contains(#[trigger] arranged(s)[i]),
        forall|i: int| 0 <= i < s.len() ==> arranged(s).contains(#[trigger] s[i]),
        sound(s) ==> sound(arranged(s)),
{
    lemma_arranged_permutes(s);
    assert forall|i: int| 0 <= i < s.len() implies s.contains(#[trigger] arranged(s)[i]) by {
        assert(arranged(s).contains(arranged(s)[i]));
        to_multiset_contains(arranged(s), arranged(s)[i]);
        to_multiset_contains(s, arranged(s)[i]);
    }
    assert forall|i: int| 0 <= i < s.len() implies arranged(s).contains(#[trigger] s[i]) by {
        assert(s.contains(s[i]));
        to_multiset_contains(arranged(s), s[i]);
        to_multiset_contains(s, s[i]);
    }
    if sound(s) {
        assert forall|i: int| 0 <= i < arranged(s).len() implies (#[trigger] arranged(s)[i]).y.wf()
            && arranged(s)[i].line.valid() by {
            let e = arranged(s)[i];
            assert(s.contains(e));
            let k = choose|k: int| 0 <= k < s.len() && s[k] == e;
            assert(s[k].y.wf());
        }
    }
}

/// An entry put into its slot keeps a descending sequence descending.
pub proof fn lemma_insert_descending(front: Seq<SweepLineElement>, e: SweepLineElement)
    requires
        descending(front),
        e.y.den > 0,
        forall|i: int| 0 <= i < front.len() ==> (#[trigger] front[i]).y.den > 0,
    ensures
        descending(front.insert(slot(front, e), e)),
{
    let k = slot(front, e);
    lemma_slot(front, e);
    front.insert_ensures(k, e);
    let out = front.insert(k, e);
    assert forall|i: int, j: int| 0 <= i < j < out.len() implies !(#[trigger] out[i]).y.below(
        (#[trigger] out[j]).y,
    ) by {
        if j == k {
            assert(out[i] == front[i]);
            assert(out[j] == e);
            if i < k - 1 {
                assert(!front[i].y.below(front[k - 1].y));
                Height::lemma_not_below_transitive(front[i].y, front[k - 1].y, e.y);
            }
        } else if i == k {
            assert(out[i] == e);
            assert(out[j] == front[j - 1]);
            assert(front[j - 1].y.below(e.y));
        } else if j < k {
            assert(out[i] == front[i] && out[j] == front[j]);
        } else if i < k {
            assert(out[i] == front[i] && out[j] == front[j - 1]);
        } else {
            assert(out[i] == front[i - 1] && out[j] == front[j - 1]);
        }
    }
}

/// The arranged sequence is in descending order.
pub proof fn lemma_arranged_descending(s: Seq<SweepLineElement>)
    requires
        forall|i: int| 0 <= i < s.len() ==> (#[trigger] s[i]).y.den > 0,
    ensures
        descending(arranged(s)),
    decreases s.len(),
{
    if s.len() > 0 {
        let rest = s.drop_last();
        let front = arranged(rest);
        assert forall|i: int| 0 <= i < rest.len() implies (#[trigger] rest[i]).y.den > 0 by {
            assert(rest[i] == s[i]);
        }
        lemma_arranged_descending(rest);
        lemma_arranged_members(rest);
        assert forall|i: int| 0 <= i < front.len() implies (#[trigger] front[i]).y.den > 0 by {
            assert(rest.contains(front[i]));
            let m = choose|m: int| 0 <= m < rest.len() && rest[m] == front[i];
            assert(rest[m].y.den > 0);
        }
        lemma_insert_descending(front, s.last());
    }
}

/// A sequence in descending order is arranged.
pub proof fn lemma_descending_is_arranged(s: Seq<SweepLineElement>)
    requires
        descending(s),
    ensures
        arranged(s) == s,
    decreases s.len(),
{
    if s.len() > 0 {
        let front = s.drop_last();
        lemma_descending_is_arranged(front);
        if front.len() > 0 {
            assert(front.last() == s[s.len() - 2]);
            assert(!s[s.len() - 2].y.below(s[s.len() - 1].y));
        }
        assert(front.insert(front.len() as int, s.last()) =~= s);
    }
}

/// The position of a segment is the first index that holds it.
pub proof fn lemma_position_from(s: Seq<SweepLineElement>, line: Line, from: int)
    requires
        0 <= from <= s.len(),
    ensures
        from <= position_from(s, line, from) <= s.len(),
        position_from(s, line, from) < s.len() ==> s[position_from(s, line, from)].line == line,
        forall|k: int| from <= k < position_from(s, line, from) ==> (#[trigger] s[k]).line != line,
    decreases s.len() - from,
{
    if from < s.len() && s[from].line != line {
        lemma_position_from(s, line, from + 1);
    }
}

/// The position of a segment is the first index that holds it, and the
/// length of the sequence if none does.
pub proof fn lemma_position(s: Seq<SweepLineElement>, line: Line)
    ensures
        0 <= position(s, line) <= s.len(),
        position(s, line) < s.len() ==> s[position(s, line)].line == line,
        forall|k: int| 0 <= k < position(s, line) ==> (#[trigger] s[k]).line != line,
{
    lemma_position_from(s, line, 0);
}

/// Measuring sound entries at a position that a sweep reaches leaves them
/// sound.
pub proof fn lemma_raised_sound(s: Seq<SweepLineElement>, x: int)
    requires
        sound(s),
        -SWEEP_MAX <= x <= SWEEP_MAX,
    ensures
        sound(raised(s, x)),
        raised(s, x).len() == s.len(),
{
    assert forall|i: int| 0 <= i < s.len() implies (#[trigger] raised(s, x)[i]).y.wf() && raised(
        s,
        x,
    )[i].line.valid() by {
        assert(s[i].line.valid());
        s[i].line.lemma_height_wf(x);
    }
}

/// Measuring two of the sound entries at a position that a sweep reaches
/// leaves the entries sound.
pub proof fn lemma_remeasured_sound(s: Seq<SweepLineElement>, i: int, j: int, x: int)
    requires
        sound(s),
        0 <= i < s.len(),
        0 <= j < s.len(),
        -SWEEP_MAX <= x <= SWEEP_MAX,
    ensures
        sound(remeasured(s, i, j, x)),
        remeasured(s, i, j, x).len() == s.len(),
{
    let out = remeasured(s, i, j, x);
    assert(s[i].line.valid() && s[j].line.valid());
    s[i].line.lemma_height_wf(x);
    s[j].line.lemma_height_wf(x);
    assert forall|k: int| 0 <= k < out.len() implies (#[trigger] out[k]).y.wf()
        && out[k].line.valid() by {
        assert(s[k].line.valid());
    }
}

/// Entries that are sound and in descending order stay so when one is
/// taken away.
pub proof fn lemma_remove_keeps(s: Seq<SweepLineElement>, i: int)
    requires
        sound(s),
        descending(s),
        0 <= i < s.len(),
    ensures
        sound(s.remove(i)),
        descending(s.remove(i)),
{
    let out = s.remove(i);
    assert forall|k: int| 0 <= k < out.len() implies (#[trigger] out[k]).y.wf()
        && out[k].line.valid() by {
        if k < i {
            assert(out[k] == s[k]);
        } else {
            assert(out[k] == s[k + 1]);
        }
    }
    assert forall|a: int, b: int| 0 <= a < b < out.len() implies !(#[trigger] out[a]).y.below(
        (#[trigger] out[b]).y,
    ) by {
        let a0 = if a < i {
            a
        } else {
            a + 1
        };
        let b0 = if b < i {
            b
        } else {
            b + 1
        };
        assert(out[a] == s[a0] && out[b] == s[b0]);
    }
}

/// Arranging sound entries gives entries that are sound and in descending
/// order.
pub proof fn lemma_arranged_wf(s: Seq<SweepLineElement>)
    requires
        sound(s),
    ensures
        sound(arranged(s)),
        descending(arranged(s)),
        arranged(s).len() == s.len(),
{
    lemma_arranged_members(s);
    lemma_arranged_descending(s);
}

/// A segment that the entries hold is held by them after a swap.
pub proof fn lemma_held_after_swap(
    s: Seq<SweepLineElement>,
    i: int,
    j: int,
    x: int,
    line: Line,
)
    requires
        0 <= i < s.len(),
        0 <= j < s.len(),
        position(s, line) < s.len(),
    ensures
        swapped(s, i, j, x).len() == s.len(),
        0 <= position(swapped(s, i, j, x), line) < s.len(),
        swapped(s, i, j, x)[position(swapped(s, i, j, x), line)].line == line,
{
    let k = position(s, line);
    lemma_position(s, line);
    let lifted = remeasured(s, i, j, x);
    assert(lifted[k].line == line);
    lemma_arranged_members(lifted);
    let after = arranged(lifted);
    assert(after.contains(lifted[k]));
    let m = choose|m: int| 0 <= m < after.len() && after[m] == lifted[k];
    lemma_position(after, line);
    assert(after[m].line == line);
}

/// After a swap of two segments that the entries hold, the report names the
/// two: the higher and the lower are entries of the two segments.
pub proof fn lemma_swap_names_the_pair(s: Seq<SweepLineElement>, line1: Line, line2: Line, x: int)
    requires
        position(s, line1) < s.len(),
        position(s, line2) < s.len(),
    ensures
        ({
            let report = swap_outcome(s, line1, line2, x).1;
            ||| (report.bigger.line == line1 && report.smaller.line == line2)
            ||| (report.bigger.line == line2 && report.smaller.line == line1)
        }),
{
    lemma_position(s, line1);
    lemma_position(s, line2);
    lemma_held_after_swap(s, position(s, line1), position(s, line2), x + 1, line1);
    lemma_held_after_swap(s, position(s, line1), position(s, line2), x + 1, line2);
}

impl View for SweepLine {
    type V = Seq<SweepLineElement>;

    open spec fn view(&self) -> Seq<SweepLineElement> {
        self.elements@
    }
}

impl SweepLine {
    /// The entries are sound and stand in descending order of height.
    pub open spec fn wf(&self) -> bool {
        sound(self@) && descending(self@)
    }

    /// A sweep line that crosses no segment.
    pub fn new() -> (r: SweepLine)
        ensures
            r@ == Seq::<SweepLineElement>::empty(),
            r.wf(),
    {
        SweepLine { elements: Vec::new() }
    }

    /// The number of segments on the sweep line.
    pub fn len(&self) -> (n: usize)
        ensures
            n == self@.len(),
    {
        self.elements.len()
    }

    /// Puts the entries into descending order of height; entries of one
    /// height keep their order.
    fn sort(&mut self)
        requires
            forall|i: int| 0 <= i < old(self)@.len() ==> (#[trigger] old(self)@[i]).y.wf(),
        ensures
            final(self)@ == arranged(old(self)@),
    {
        let mut out: Vec<SweepLineElement> = Vec::new();
        let n = self.elements.len();
        let mut i: usize = 0;
        proof {
            assert(self@.subrange(0, 0) =~= Seq::<SweepLineElement>::empty());
        }
        while i < n
            invariant
                n == self.elements.len(),
                i <= n,
                self@ == old(self)@,
                out@ == arranged(self@.subrange(0, i as int)),
                forall|k: int| 0 <= k < self@.len() ==> (#[trigger] self@[k]).y.wf(),
                forall|k: int| 0 <= k < out@.len() ==> (#[trigger] out@[k]).y.wf(),
            decreases n - i,
        {
            let e = self.elements[i];
            let mut k = out.len();
            proof {
                assert(out@.subrange(0, k as int) =~= out@);
            }
            while k > 0 && out[k - 1].y.is_below(&e.y)
                invariant
                    k <= out.len(),
                    e.y.wf(),
                    forall|m: int| 0 <= m < out@.len() ==> (#[trigger] out@[m]).y.wf(),
                    slot(out@, e) == slot(out@.subrange(0, k as int), e),
                decreases k,
            {
                proof {
                    assert(out@.subrange(0, k as int).drop_last() =~= out@.subrange(
                        0,
                        k as int - 1,
                    ));
                }
                k -= 1;
            }
            proof {
                let ghost front = self@.subrange(0, i as int);
                let ghost next = self@.subrange(0, i as int + 1);
                assert(next.drop_last() =~= front);
                assert(next.last() == e);
            }
            out.insert(k, e);
            i += 1;
        }
        proof {
            assert(self@.subrange(0, n as int) =~= self@);
        }
        self.elements = out;
    }

    /// Puts a segment on the sweep line at the height `y`.
    pub fn insert(&mut self, y: i64, line: Line)
        requires
            old(self).wf(),
            line.valid(),
            -COORD_MAX <= y <= COORD_MAX,
        ensures
            final(self).wf(),
            final(self)@ == arranged(old(self)@.push(SweepLineElement { y: Height::whole(y), line })),
            final(self)@ == old(self)@.insert(
                slot(old(self)@, SweepLineElement { y: Height::whole(y), line }),
                SweepLineElement { y: Height::whole(y), line },
            ),
    {
        let element = SweepLineElement { y: Height::from_whole(y), line };
        let ghost before = self@;
        self.elements.push(element);
        proof {
            assert(sound(self@));
            lemma_arranged_members(self@);
            lemma_arranged_descending(self@);
            lemma_descending_is_arranged(before);
            assert(self@.drop_last() =~= before);
        }
        self.sort();
    }

    /// Takes a segment off the sweep line; does nothing if it is not on it.
    pub fn remove(&mut self, line: &Line)
        requires
            old(self).wf(),
        ensures
            final(self).wf(),
            position(old(self)@, *line) < old(self)@.len() ==> final(self)@ == old(self)@.remove(
                position(old(self)@, *line),
            ),
            position(old(self)@, *line) == old(self)@.len() ==> final(self)@ == old(self)@,
    {
        let index = self.find(line);
        if index < self.elements.len() {
            self.elements.remove(index);
        }
    }

    /// The first index at which the sweep line holds `line`, or its length.
    pub fn find(&self, line: &Line) -> (i: usize)
        ensures
            i == position(self@, *line),
            i <= self@.len(),
    {
        let mut i: usize = 0;
        while i < self.elements.len() && !(self.elements[i].line == *line)
            invariant
                i <= self@.len(),
                position(self@, *line) == position_from(self@, *line, i as int),
            decreases self@.len() - i,
        {
            i += 1;
        }
        i
    }

    /// Measures every segment at the position `x` and puts the entries into
    /// order again.
    pub fn update(&mut self, x: i64)
        requires
            old(self).wf(),
            -SWEEP_MAX <= x <= SWEEP_MAX,
        ensures
            final(self).wf(),
            final(self)@ == arranged(raised(old(self)@, x as int)),
    {
        let n = self.elements.len();
        let mut i: usize = 0;
        while i < n
            invariant
                n == self@.len(),
                n == old(self)@.len(),
                i <= n,
                sound(old(self)@),
                -SWEEP_MAX <= x <= SWEEP_MAX,
                forall|k: int|
                    0 <= k < i ==> #[trigger] self@[k] == raised(old(self)@, x as int)[k]
                        && self@[k].y.wf(),
                forall|k: int| i <= k < n ==> #[trigger] self@[k] == old(self)@[k],
            decreases n - i,
        {
            let line = self.elements[i].line;
            let y = line.y(x);
            self.elements[i] = SweepLineElement { y, line };
            i += 1;
        }
        proof {
            assert(self@ =~= raised(old(self)@, x as int));
            assert forall|k: int| 0 <= k < self@.len() implies (#[trigger] self@[k]).y.wf()
                && self@[k].line.valid() by {
                assert(old(self)@[k].line.valid());
            }
            lemma_arranged_members(self@);
            lemma_arranged_descending(self@);
        }
        self.sort();
    }

    /// The entries next to the first entry that holds `line`, or `None` if
    /// the sweep line does not hold it.
    pub fn get_neighbors(&self, line: &Line) -> (r: Option<Neighbors>)
        ensures
            r == neighbors_of(self@, *line),
    {
        let index = self.find(line);
        if index >= self.elements.len() {
            return None;
        }
        let below = if index + 1 < self.elements.len() {
            Some(self.elements[index + 1])
        } else {
            None
        };
        let above = if index > 0 {
            Some(self.elements[index - 1])
        } else {
            None
        };
        Some(Neighbors { below, above })
    }

    /// Lets two segments cross at `intersection_point`: measures both one
    /// step past the point, puts the entries into order again, looks the
    /// two up among them, and reports the higher and the lower of the two
    /// and the entries around the pair. Returns `None`, and changes
    /// nothing, if the sweep line does not hold both segments.
    pub fn swap_and_get_new_neighbors(
        &mut self,
        line1: &Line,
        line2: &Line,
        intersection_point: &Point,
    ) -> (r: Option<SwapResult>)
        requires
            old(self).wf(),
            intersection_point.in_range(),
        ensures
            final(self).wf(),
            ({
                let s = old(self)@;
                if position(s, *line1) < s.len() && position(s, *line2) < s.len() {
                    &&& final(self)@ == swap_outcome(s, *line1, *line2, intersection_point.x as int).0
                    &&& final(self)@.len() == s.len()
                    &&& r == Some(
                        swap_outcome(s, *line1, *line2, intersection_point.x as int).1,
                    )
                } else {
                    &&& final(self)@ == s
                    &&& r is None
                }
            }),
    {
        let i = self.find(line1);
        let j = self.find(line2);
        let n = self.elements.len();
        if i >= n || j >= n {
            return None;
        }
        proof {
            lemma_position(self@, *line1);
            lemma_position(self@, *line2);
        }
        let adjacent = (i > j && i - j == 1) || (j > i && j - i == 1);
        let x = intersection_point.x + 1;
        let first = self.elements[i].line;
        self.elements[i] = SweepLineElement { y: first.y(x), line: first };
        let second = self.elements[j].line;
        self.elements[j] = SweepLineElement { y: second.y(x), line: second };
        proof {
            assert(self@ =~= remeasured(old(self)@, i as int, j as int, x as int));
            assert forall|k: int| 0 <= k < self@.len() implies (#[trigger] self@[k]).y.wf()
                && self@[k].line.valid() by {
                assert(old(self)@[k].line.valid());
            }
            lemma_arranged_members(self@);
            lemma_arranged_descending(self@);
            lemma_held_after_swap(old(self)@, i as int, j as int, x as int, *line1);
            lemma_held_after_swap(old(self)@, i as int, j as int, x as int, *line2);
        }
        self.sort();
        let a = self.find(line1);
        let b = self.find(line2);
        let top = if a < b {
            a
        } else {
            b
        };
        let bottom = if a < b {
            b
        } else {
            a
        };
        let below = if bottom + 1 < n {
            Some(self.elements[bottom + 1])
        } else {
            None
        };
        let above = if top > 0 {
            Some(self.elements[top - 1])
        } else {
            None
        };
        Some(
            SwapResult {
                below,
                smaller: self.elements[bottom],
                bigger: self.elements[top],
                above,
                adjacent,
            },
        )
    }
}

} // verus!
