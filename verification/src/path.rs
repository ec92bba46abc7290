//! The path: the cells that were driven, in the order in which they were
//! driven, and what can be said of them once the loops are taken out.

use vstd::prelude::*;
use crate::bounded::{vec_as_slice, vec_items, vec_new, vec_push};
use crate::maze::{in_maze, on_grid};
use crate::vec::{Veci, Vecu};
use crate::{MAZE_HEIGHT_U8, MAZE_SIZE, MAZE_WIDTH_U8};

verus! {

/// The time that one cell of a path takes, in ticks. A tick is half a unit of time.
pub const TICKS_PER_STEP: u32 = 2;

/// The time that a turn takes on top of its cell, in ticks.
pub const TICKS_PER_TURN: u32 = 1;

/// The step that leads from `from` to `to`.
pub open spec fn step_between(from: Vecu, to: Vecu) -> Veci {
    Veci { x: (to.x - from.x) as i16, y: (to.y - from.y) as i16 }
}

/// Whether the path `s` turns at place `i`: the step that arrives there and
/// the step that leaves differ in both axes.
pub open spec fn is_turn_at(s: Seq<Vecu>, i: int) -> bool {
    let arrive = step_between(s[i - 1], s[i]);
    let leave = step_between(s[i], s[i + 1]);
    arrive.x != leave.x && arrive.y != leave.y
}

/// The number of turns of `s` at the places from 1 up to `n`, `n` left out.
pub open spec fn turns_before(s: Seq<Vecu>, n: int) -> nat
    decreases n,
{
    if n <= 1 {
        0
    } else {
        turns_before(s, n - 1) + if is_turn_at(s, n - 1) {
            1nat
        } else {
            0nat
        }
    }
}

/// The number of turns of `s`: its first and last cell are none.
pub open spec fn turns(s: Seq<Vecu>) -> nat {
    turns_before(s, s.len() - 1)
}

/// The number of cells of `s` between its first and its last.
pub open spec fn interior(s: Seq<Vecu>) -> nat {
    if s.len() >= 2 {
        (s.len() - 2) as nat
    } else {
        0
    }
}

/// The time that `s` takes, in ticks: each cell between the first and the
/// last takes a step's time, and a turn's time more where the path turns.
pub open spec fn travel_ticks(s: Seq<Vecu>) -> nat {
    TICKS_PER_STEP as nat * interior(s) + TICKS_PER_TURN as nat * turns(s)
}

/// The last place at which `v` stands in `s`, or -1 where it stands nowhere.
pub open spec fn last_index(s: Seq<Vecu>, v: Vecu) -> int
    decreases s.len(),
{
    if s.len() == 0 {
        -1
    } else if s.last() == v {
        s.len() - 1
    } else {
        last_index(s.drop_last(), v)
    }
}

/// `s` without its loops: the first cell, then what follows the last
/// occurrence of that cell, treated in the same way.
pub open spec fn collapse(s: Seq<Vecu>) -> Seq<Vecu>
    decreases s.len(),
{
    if s.len() == 0 {
        Seq::empty()
    } else {
        let k = last_index(s, s[0]);
        if 0 <= k < s.len() {
            seq![s[0]] + collapse(s.subrange(k + 1, s.len() as int))
        } else {
            seq![s[0]]
        }
    }
}

/// `last_index` finds the last occurrence.
pub proof fn lemma_last_index(s: Seq<Vecu>, v: Vecu)
    ensures
        s.contains(v) ==> 0 <= last_index(s, v) < s.len() && s[last_index(s, v)] == v,
        !s.contains(v) ==> last_index(s, v) == -1,
        forall|j: int| last_index(s, v) < j < s.len() ==> s[j] != v,
    decreases s.len(),
{
    if s.len() == 0 {
    } else if s.last() == v {
    } else {
        let t = s.drop_last();
        lemma_last_index(t, v);
        if s.contains(v) {
            let i = choose|i: int| 0 <= i < s.len() && s[i] == v;
            assert(t[i] == v);
        }
        if t.contains(v) {
            assert(s[last_index(t, v)] == v);
        }
        assert forall|j: int| last_index(s, v) < j < s.len() implies s[j] != v by {
            if j < t.len() {
                assert(t[j] == s[j]);
            }
        }
    }
}

/// The place of an occurrence that no other follows is the `last_index`.
pub proof fn lemma_last_index_is(s: Seq<Vecu>, v: Vecu, k: int)
    requires
        0 <= k < s.len(),
        s[k] == v,
        forall|j: int| k < j < s.len() ==> s[j] != v,
    ensures
        last_index(s, v) == k,
{
    lemma_last_index(s, v);
    assert(s.contains(v));
}

/// Where a cell comes back later, the loop between the two occurrences is
/// left out: what remains is the same from either of them.
proof fn lemma_collapse_skip(s: Seq<Vecu>, i: int, j: int)
    requires
        0 <= i < j < s.len(),
        s[i] == s[j],
    ensures
        collapse(s.subrange(i, s.len() as int)) == collapse(s.subrange(j, s.len() as int)),
{
    let n = s.len() as int;
    let a = s.subrange(i, n);
    let b = s.subrange(j, n);
    let v = s[i];
    lemma_last_index(a, v);
    assert(a[j - i] == v);
    assert(a.contains(v));
    let la = last_index(a, v);
    assert(la >= j - i);
    assert(b[la - (j - i)] == a[la]);
    assert forall|m: int| la - (j - i) < m < b.len() implies b[m] != v by {
        assert(b[m] == a[m + (j - i)]);
    }
    lemma_last_index_is(b, v, la - (j - i));
    assert(a.subrange(la + 1, a.len() as int) =~= b.subrange(
        la - (j - i) + 1,
        b.len() as int,
    ));
}

/// A cell that does not come back is kept, and the rest follows it.
proof fn lemma_collapse_keep(s: Seq<Vecu>, i: int)
    requires
        0 <= i < s.len(),
        forall|k: int| i < k < s.len() ==> s[k] != s[i],
    ensures
        collapse(s.subrange(i, s.len() as int)) == seq![s[i]] + collapse(
            s.subrange(i + 1, s.len() as int),
        ),
{
    let n = s.len() as int;
    let a = s.subrange(i, n);
    let v = s[i];
    assert forall|m: int| 0 < m < a.len() implies #[trigger] a[m] != v by {
        assert(a[m] == s[m + i]);
    }
    lemma_last_index_is(a, v, 0);
    assert(a.subrange(1, a.len() as int) =~= s.subrange(i + 1, n));
}

/// How `collapse` goes on from the first cell of a path.
proof fn lemma_collapse_unfold(s: Seq<Vecu>)
    requires
        s.len() > 0,
    ensures
        0 <= last_index(s, s[0]) < s.len(),
        s[last_index(s, s[0])] == s[0],
        forall|j: int| last_index(s, s[0]) < j < s.len() ==> #[trigger] s[j] != s[0],
        collapse(s) == seq![s[0]] + collapse(
            s.subrange(last_index(s, s[0]) + 1, s.len() as int),
        ),
{
    lemma_last_index(s, s[0]);
    assert(s.contains(s[0]));
}

/// A path without its loops holds no cell that the path did not hold.
pub proof fn lemma_collapse_members(s: Seq<Vecu>)
    ensures
        forall|x: Vecu| #[trigger] collapse(s).contains(x) ==> s.contains(x),
        collapse(s).len() <= s.len(),
    decreases s.len(),
{
    if s.len() > 0 {
        lemma_collapse_unfold(s);
        let k = last_index(s, s[0]);
        let t = s.subrange(k + 1, s.len() as int);
        lemma_collapse_members(t);
        assert forall|x: Vecu| collapse(s).contains(x) implies s.contains(x) by {
            let i = choose|i: int| 0 <= i < collapse(s).len() && collapse(s)[i] == x;
            if i == 0 {
                assert(s[0] == x);
            } else {
                assert(collapse(t)[i - 1] == x);
                assert(collapse(t).contains(x));
                assert(t.contains(x));
                let j = choose|j: int| 0 <= j < t.len() && t[j] == x;
                assert(s[j + k + 1] == x);
            }
        }
    }
}

/// A path without its loops holds no cell twice.
pub proof fn lemma_collapse_has_no_repeats(s: Seq<Vecu>)
    ensures
        collapse(s).no_duplicates(),
    decreases s.len(),
{
    if s.len() > 0 {
        lemma_collapse_unfold(s);
        let k = last_index(s, s[0]);
        let t = s.subrange(k + 1, s.len() as int);
        lemma_collapse_has_no_repeats(t);
        lemma_collapse_members(t);
        let c = collapse(s);
        assert forall|i: int, j: int| 0 <= i < c.len() && 0 <= j < c.len() && i != j implies c[i]
            != c[j] by {
            if i == 0 || j == 0 {
                let m = if i == 0 {
                    j
                } else {
                    i
                };
                assert(c[m] == collapse(t)[m - 1]);
                assert(collapse(t).contains(c[m]));
                assert(t.contains(c[m]));
                let at = choose|at: int| 0 <= at < t.len() && t[at] == c[m];
                assert(s[at + k + 1] == c[m]);
            } else {
                assert(c[i] == collapse(t)[i - 1]);
                assert(c[j] == collapse(t)[j - 1]);
            }
        }
    }
}

/// A path without its loops starts where the path starts and ends where
/// the path ends: the start is never lost.
pub proof fn lemma_collapse_keeps_ends(s: Seq<Vecu>)
    requires
        s.len() > 0,
    ensures
        collapse(s).len() > 0,
        collapse(s)[0] == s[0],
        collapse(s).last() == s.last(),
    decreases s.len(),
{
    lemma_collapse_unfold(s);
    let k = last_index(s, s[0]);
    let t = s.subrange(k + 1, s.len() as int);
    if t.len() > 0 {
        lemma_collapse_keeps_ends(t);
        assert(collapse(s).last() == collapse(t).last());
        assert(t.last() == s.last());
    } else {
        assert(collapse(t) =~= Seq::<Vecu>::empty());
        assert(collapse(s) =~= seq![s[0]]);
    }
}

/// A path that holds no cell twice has no loops to take out.
pub proof fn lemma_collapse_of_simple(s: Seq<Vecu>)
    requires
        s.no_duplicates(),
    ensures
        collapse(s) == s,
    decreases s.len(),
{
    if s.len() > 0 {
        lemma_collapse_unfold(s);
        let k = last_index(s, s[0]);
        assert(k == 0);
        let t = s.subrange(1, s.len() as int);
        lemma_collapse_of_simple(t);
        assert(seq![s[0]] + t =~= s);
    } else {
        assert(collapse(s) =~= s);
    }
}

/// Taking the loops out a second time changes nothing.
pub proof fn lemma_collapse_idempotent(s: Seq<Vecu>)
    ensures
        collapse(collapse(s)) == collapse(s),
{
    lemma_collapse_has_no_repeats(s);
    lemma_collapse_of_simple(collapse(s));
}

/// A path without its loops is what stands in the path at the places `at`:
/// these go upwards, each is the last place of its cell in the path, and
/// the cell that follows in the result is the cell that follows in the path.
/// So every step of the result is a step that the path made.
pub proof fn lemma_collapse_embeds(s: Seq<Vecu>) -> (at: Seq<int>)
    ensures
        at.len() == collapse(s).len(),
        forall|m: int|
            0 <= m < at.len() ==> 0 <= #[trigger] at[m] < s.len() && s[at[m]] == collapse(s)[m],
        forall|m: int, j: int|
            0 <= m < at.len() && at[m] < j < s.len() ==> #[trigger] s[j] != #[trigger] collapse(
                s,
            )[m],
        forall|m: int, n: int|
            0 <= m && n == m + 1 && n < at.len() ==> (#[trigger] at[m]) < (#[trigger] at[n])
                && s[at[m] + 1] == collapse(s)[n],
        s.len() > 0 ==> at.len() > 0 && at.last() == s.len() - 1,
    decreases s.len(),
{
    if s.len() == 0 {
        Seq::empty()
    } else {
        lemma_collapse_unfold(s);
        let k = last_index(s, s[0]);
        let t = s.subrange(k + 1, s.len() as int);
        let inner = lemma_collapse_embeds(t);
        let at = seq![k] + inner.map_values(|i: int| i + k + 1);
        let c = collapse(s);
        assert forall|m: int| 0 <= m < at.len() implies 0 <= #[trigger] at[m] < s.len()
            && s[at[m]] == c[m] by {
            if m > 0 {
                assert(at[m] == inner[m - 1] + k + 1);
                assert(c[m] == collapse(t)[m - 1]);
                assert(t[inner[m - 1]] == s[inner[m - 1] + k + 1]);
            }
        }
        assert forall|m: int, j: int| 0 <= m < at.len() && at[m] < j < s.len() implies
            #[trigger] s[j] != #[trigger] c[m] by {
            if m > 0 {
                assert(at[m] == inner[m - 1] + k + 1);
                assert(c[m] == collapse(t)[m - 1]);
                assert(t[j - k - 1] == s[j]);
            }
        }
        assert forall|m: int, n: int| 0 <= m && n == m + 1 && n < at.len() implies (
        #[trigger] at[m]) < (#[trigger] at[n]) && s[at[m] + 1] == c[n] by {
            assert(at[n] == inner[m] + k + 1);
            assert(c[n] == collapse(t)[m]);
            if m == 0 {
                lemma_collapse_keeps_ends(t);
                assert(t[0] == s[k + 1]);
            } else {
                assert(at[m] == inner[m - 1] + k + 1);
                assert(inner[m - 1] < inner[m]);
                assert(t[inner[m - 1] + 1] == s[inner[m - 1] + 1 + k + 1]);
            }
        }
        if t.len() > 0 {
            assert(at.last() == inner.last() + k + 1);
        } else {
            assert(inner.len() == 0);
            assert(at.last() == k);
        }
        at
    }
}

/// Of two paths with the same number of cells, the times differ by the time
/// of a turn for each turn that one has more than the other: more turns
/// take strictly longer.
pub proof fn lemma_time_grows_with_turns(a: Seq<Vecu>, b: Seq<Vecu>)
    requires
        a.len() == b.len(),
    ensures
        travel_ticks(b) - travel_ticks(a) == TICKS_PER_TURN * (turns(b) - turns(a)),
        turns(a) < turns(b) ==> travel_ticks(a) < travel_ticks(b),
{
}

/// Represents a path that may be taken
#[derive(Debug)]
pub struct Path {
    /// The taken segments
    segments: heapless::Vec<Vecu, MAZE_SIZE>,
    optimized: bool,
}

impl View for Path {
    type V = Seq<Vecu>;

    /// The cells of the path, from the start to the head.
    closed spec fn view(&self) -> Seq<Vecu> {
        vec_items(self.segments)
    }
}

impl Path {
    /// Whether the loops of this path have been taken out.
    pub closed spec fn spec_optimized(&self) -> bool {
        self.optimized
    }

    /// Returns a new path instance
    pub fn new() -> (path: Self)
        ensures
            path@ == Seq::<Vecu>::empty(),
            !path.optimized(),
    {
        Path { segments: vec_new(), optimized: false }
    }

    /// Whether the current value at a path is a turn or not.
    fn is_turn(&self, current: usize) -> (b: bool)
        requires
            0 < current,
            current + 1 < self@.len(),
        ensures
            b == is_turn_at(self@, current as int),
    {
        let segments = vec_as_slice(&self.segments);
        let prev = segments[current - 1];
        let here = segments[current];
        let next = segments[current + 1];
        let arrive = step(prev, here);
        let leave = step(here, next);

        arrive.x != leave.x && arrive.y != leave.y
    }

    /// Returns the current estimated amount of time to complete this path, in
    /// ticks of half a unit of time. The path must be an optimized one.
    pub fn time_to_complete(&self) -> (time: u32)
        requires
            self.optimized(),
        ensures
            time == travel_ticks(self@),
    {
        let n = self.len();
        let mut time: u32 = 0;

        let mut i: usize = 1;
        while i + 1 < n
            invariant
                1 <= i,
                n >= 2 ==> i + 1 <= n,
                n < 2 ==> i == 1,
                n == self@.len(),
                n <= MAZE_SIZE,
                turns_before(self@, i as int) <= i - 1,
                time == TICKS_PER_STEP * (i - 1) + TICKS_PER_TURN * turns_before(self@, i as int),
            decreases n - i,
        {
            if self.is_turn(i) {
                time += TICKS_PER_TURN;
            }
            time += TICKS_PER_STEP;
            i += 1;
        }
        proof {
            if n < 2 {
                assert(turns_before(self@, 1) == 0);
                assert(turns_before(self@, n - 1) == 0);
            }
        }

        time
    }

    /// Returns the current size of this path.
    pub fn len(&self) -> (n: usize)
        ensures
            n == self@.len(),
            n <= MAZE_SIZE,
    {
        vec_as_slice(&self.segments).len()
    }

    /// Return the _n_-th segment that this path has taken, or `None` where
    /// the path is no longer than `index`.
    pub fn segment(&self, index: usize) -> (r: Option<Vecu>)
        ensures
            r == if index < self@.len() {
                Some(self@[index as int])
            } else {
                None
            },
    {
        if index >= self.len() {
            return None;
        }
        Some(vec_as_slice(&self.segments)[index])
    }

    /// Returns the current head of the path: the cell that was driven last.
    pub fn head(&self) -> (r: Option<Vecu>)
        ensures
            r == if self@.len() > 0 {
                Some(self@.last())
            } else {
                None
            },
    {
        if self.len() == 0 {
            return None;
        }
        Some(vec_as_slice(&self.segments)[self.len() - 1])
    }

    /// Appends a segment to the path. The path must not be full.
    ///
    /// ### Arguments
    ///
    /// - `segment` - The `Segment` to append to the path.
    pub fn append(&mut self, segment: Vecu)
        requires
            old(self)@.len() < MAZE_SIZE,
        ensures
            final(self)@ == old(self)@.push(segment),
            final(self).optimized() == old(self).optimized(),
    {
        let _ = vec_push(&mut self.segments, segment);
    }

    /// Appends segments to the path, which must have room for all of them.
    ///
    /// ### Arguments
    ///
    /// - `segments` - The `Segment`s to append to the path.
    pub fn append_all(&mut self, segments: &[Vecu])
        requires
            old(self)@.len() + segments@.len() <= MAZE_SIZE,
        ensures
            final(self)@ == old(self)@ + segments@,
            final(self).optimized() == old(self).optimized(),
    {
        let mut i: usize = 0;
        while i < segments.len()
            invariant
                i <= segments@.len(),
                old(self)@.len() + segments@.len() <= MAZE_SIZE,
                self@ == old(self)@ + segments@.subrange(0, i as int),
                self.optimized() == old(self).optimized(),
            decreases segments@.len() - i,
        {
            let _ = vec_push(&mut self.segments, segments[i]);
            assert(self@ =~= old(self)@ + segments@.subrange(0, i + 1));
            i += 1;
        }
        assert(segments@.subrange(0, i as int) =~= segments@);
    }

    /// Returns whether this path contains the specified vector.
    ///
    /// ### Arguments
    ///
    /// - `vec` - The vec to check for containment.
    pub fn contains(&self, vec: Vecu) -> (b: bool)
        ensures
            b == self@.contains(vec),
    {
        let segments = vec_as_slice(&self.segments);
        let mut i: usize = segments.len();
        while i > 0
            invariant
                i <= segments@.len(),
                segments@ == self@,
                forall|k: int| i <= k < segments@.len() ==> segments@[k] != vec,
            decreases i,
        {
            i -= 1;
            if segments[i] == vec {
                return true;
            }
        }
        false
    }

    /// Returns whether every cell of this path lies on the grid of the maze.
    pub fn lies_on_grid(&self) -> (b: bool)
        ensures
            b == on_grid(self@),
    {
        let segments = vec_as_slice(&self.segments);
        let mut i: usize = 0;
        while i < segments.len()
            invariant
                i <= segments@.len(),
                segments@ == self@,
                forall|k: int| 0 <= k < i ==> in_maze(#[trigger] segments@[k]),
            decreases segments@.len() - i,
        {
            if segments[i].x >= MAZE_WIDTH_U8 || segments[i].y >= MAZE_HEIGHT_U8 {
                assert(!in_maze(self@[i as int]));
                return false;
            }
            i += 1;
        }
        true
    }

    /// Optimizes this path by removing any cycle that has the same start and end point.
    pub fn optimize(&mut self)
        ensures
            final(self)@ == collapse(old(self)@),
            final(self)@.no_duplicates(),
            final(self).optimized(),
    {
        let mut optimized = vec_new();
        let segments = vec_as_slice(&self.segments);
        let n = segments.len();
        proof {
            assert(segments@.subrange(0, n as int) =~= segments@);
            assert(vec_items(optimized) + collapse(segments@) =~= collapse(segments@));
        }

        let mut i: usize = 0;
        while i < n
            invariant
                i <= n,
                n == segments@.len(),
                n <= MAZE_SIZE,
                segments@ == old(self)@,
                vec_items(optimized).len() <= i,
                collapse(segments@) == vec_items(optimized) + collapse(
                    segments@.subrange(i as int, n as int),
                ),
            decreases n - i,
        {
            let pos = segments[i];

            let mut j: usize = i + 1;
            let mut repeated = false;
            while j < n
                invariant_except_break
                    !repeated,
                invariant
                    i < j <= n,
                    n == segments@.len(),
                    pos == segments@[i as int],
                    forall|k: int| i < k < j ==> segments@[k] != pos,
                ensures
                    repeated ==> j < n && segments@[j as int] == pos,
                    !repeated ==> j == n,
                decreases n - j,
            {
                if segments[j] == pos {
                    repeated = true;
                    break;
                }
                j += 1;
            }

            if repeated {
                proof {
                    lemma_collapse_skip(segments@, i as int, j as int);
                }
                i = j;
            } else {
                proof {
                    lemma_collapse_keep(segments@, i as int);
                    assert(vec_items(optimized).push(pos) + collapse(
                        segments@.subrange(i + 1, n as int),
                    ) =~= vec_items(optimized) + (seq![pos] + collapse(
                        segments@.subrange(i + 1, n as int),
                    )));
                }
                let _ = vec_push(&mut optimized, pos);
                i += 1;
            }
        }
        proof {
            assert(segments@.subrange(n as int, n as int) =~= Seq::<Vecu>::empty());
            assert(vec_items(optimized) + Seq::<Vecu>::empty() =~= vec_items(optimized));
            lemma_collapse_has_no_repeats(segments@);
        }

        self.segments = optimized;
        self.optimized = true;
    }

    /// Returns whether this path has been optimized.
    #[verifier::when_used_as_spec(spec_optimized)]
    pub fn optimized(&self) -> (b: bool)
        ensures
            b == self.spec_optimized(),
    {
        self.optimized
    }
}

/// Computes the step that leads from `from` to `to`.
fn step(from: Vecu, to: Vecu) -> (d: Veci)
    ensures
        d == step_between(from, to),
{
    Veci { x: to.x as i16 - from.x as i16, y: to.y as i16 - from.y as i16 }
}

} // verus!
