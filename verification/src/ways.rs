//! The ways of a breadth-first search: on which of several shortest ways it
//! finds a cell, and that it is the first of them in the order in which the
//! search looks at the directions.

use vstd::prelude::*;
use crate::maze::{neighbour, Relative};
use crate::search::{
    lemma_level_of_found, lemma_near_cells_found, lemma_nearer_cells_left, Ground, Search,
};
use crate::vec::Vecu;

verus! {

/// The cell at which the step number `k` of the way `r` from `root` starts.
pub open spec fn step_start(root: Vecu, r: Seq<Vecu>, k: int) -> Vecu {
    if k == 0 {
        root
    } else {
        r[k - 1]
    }
}

/// The direction in which `b` lies next to `a`.
pub open spec fn direction_to(a: Vecu, b: Vecu) -> Relative {
    choose|d: Relative| neighbour(a, d) == Some(b)
}

/// Whether `r` is a way of the search over `g` from `root`: each of its
/// cells is one step from the cell before it, the first from `root`.
pub open spec fn is_way(g: Ground, root: Vecu, r: Seq<Vecu>) -> bool {
    forall|k: int| 0 <= k < r.len() ==> g.link(#[trigger] step_start(root, r, k), r[k])
}

/// Whether the way `a` comes before the way `b`: where the two part, `a`
/// takes the direction that is looked at first.
pub open spec fn turns_off_first(root: Vecu, a: Seq<Vecu>, b: Seq<Vecu>) -> bool {
    exists|k: int| parts_at(root, a, b, k)
}

/// Whether the ways `a` and `b` are the same for `k` steps, and `a` then
/// takes a direction that is looked at before the one that `b` takes.
pub open spec fn parts_at(root: Vecu, a: Seq<Vecu>, b: Seq<Vecu>, k: int) -> bool {
    &&& 0 <= k < a.len()
    &&& k < b.len()
    &&& a.subrange(0, k) == b.subrange(0, k)
    &&& direction_to(step_start(root, a, k), a[k]).spec_index() < direction_to(
        step_start(root, b, k),
        b[k],
    ).spec_index()
}

/// One direction leads from a cell to its neighbour.
pub proof fn lemma_direction_to(a: Vecu, d: Relative)
    requires
        neighbour(a, d) is Some,
    ensures
        direction_to(a, neighbour(a, d).unwrap()) == d,
{
    let b = neighbour(a, d).unwrap();
    assert(neighbour(a, d) == Some(b));
    let e = direction_to(a, b);
    assert(neighbour(a, e) == Some(b));
}

/// The two ways start the same step from the same cell where they are the
/// same up to that step.
proof fn lemma_same_start(root: Vecu, a: Seq<Vecu>, b: Seq<Vecu>, k: int)
    requires
        0 <= k <= a.len(),
        k <= b.len(),
        a.subrange(0, k) == b.subrange(0, k),
    ensures
        step_start(root, a, k) == step_start(root, b, k),
        forall|i: int| 0 <= i < k ==> a[i] == b[i],
{
    assert forall|i: int| 0 <= i < k implies a[i] == b[i] by {
        assert(a.subrange(0, k)[i] == a[i]);
        assert(b.subrange(0, k)[i] == b[i]);
    }
}

/// Of two ways, only one comes before the other.
pub proof fn lemma_turns_off_one_way(root: Vecu, a: Seq<Vecu>, b: Seq<Vecu>)
    requires
        turns_off_first(root, a, b),
    ensures
        !turns_off_first(root, b, a),
        a != b,
{
    let k = choose|k: int| parts_at(root, a, b, k);
    lemma_same_start(root, a, b, k);
    if turns_off_first(root, b, a) {
        let j = choose|j: int| parts_at(root, b, a, j);
        lemma_same_start(root, b, a, j);
        if j < k {
            assert(a[j] == b[j]);
            assert(step_start(root, a, j) == step_start(root, b, j));
        } else if k < j {
            assert(a[k] == b[k]);
        }
    }
}

/// A way that comes before a second, which comes before a third, comes
/// before the third.
pub proof fn lemma_turns_off_transitive(root: Vecu, a: Seq<Vecu>, b: Seq<Vecu>, c: Seq<Vecu>)
    requires
        turns_off_first(root, a, b),
        turns_off_first(root, b, c),
    ensures
        turns_off_first(root, a, c),
{
    let k = choose|k: int| parts_at(root, a, b, k);
    let j = choose|j: int| parts_at(root, b, c, j);
    lemma_same_start(root, a, b, k);
    lemma_same_start(root, b, c, j);
    let m = if k <= j {
        k
    } else {
        j
    };
    assert(a.subrange(0, m) =~= c.subrange(0, m));
    lemma_same_start(root, a, c, m);
    if k < j {
        assert(b[k] == c[k]);
    } else if j < k {
        assert(a[j] == b[j]);
    }
    assert(parts_at(root, a, c, m));
}

/// Ways that have parted stay parted when they go on.
pub proof fn lemma_turns_off_extends(root: Vecu, a: Seq<Vecu>, b: Seq<Vecu>, x: Vecu, y: Vecu)
    requires
        turns_off_first(root, a, b),
    ensures
        turns_off_first(root, a.push(x), b.push(y)),
{
    let k = choose|k: int| parts_at(root, a, b, k);
    assert(a.push(x).subrange(0, k) =~= a.subrange(0, k));
    assert(b.push(y).subrange(0, k) =~= b.subrange(0, k));
    assert(parts_at(root, a.push(x), b.push(y), k));
}

/// Two ways that part at their last step.
pub proof fn lemma_turns_off_at_end(root: Vecu, a: Seq<Vecu>, x: Vecu, y: Vecu)
    requires
        direction_to(step_start(root, a, a.len() as int), x).spec_index() < direction_to(
            step_start(root, a, a.len() as int),
            y,
        ).spec_index(),
    ensures
        turns_off_first(root, a.push(x), a.push(y)),
{
    let k = a.len() as int;
    assert(a.push(x).subrange(0, k) =~= a.push(y).subrange(0, k));
    assert(step_start(root, a.push(x), k) == step_start(root, a, k));
    assert(step_start(root, a.push(y), k) == step_start(root, a, k));
    assert(parts_at(root, a.push(x), a.push(y), k));
}

/// A way leads to its last cell in as many steps as it has cells.
pub proof fn lemma_way_reaches(g: Ground, root: Vecu, r: Seq<Vecu>)
    requires
        is_way(g, root, r),
    ensures
        g.reach_in(root, step_start(root, r, r.len() as int), r.len()),
    decreases r.len(),
{
    if r.len() > 0 {
        let before = r.drop_last();
        assert forall|k: int| 0 <= k < before.len() implies g.link(
            #[trigger] step_start(root, before, k),
            before[k],
        ) by {
            assert(g.link(step_start(root, r, k), r[k]));
        }
        lemma_way_reaches(g, root, before);
        let via = step_start(root, before, before.len() as int);
        assert(via == step_start(root, r, r.len() - 1));
        assert(g.link(via, r[r.len() - 1]));
        assert(g.reach_in(root, via, (r.len() - 1) as nat) && g.link(via, r.last()));
    }
}

impl Search {
    /// The place of `x` in the order in which the cells were found.
    pub open spec fn place(self, x: Vecu) -> int {
        choose|k: int| 0 <= k < self.order.len() && self.order[k] == x
    }

    /// What holds of the way on which `x` was found: it is a way of the
    /// search, as long as the level of `x`, and the way of the cell from
    /// which `x` was found with `x` behind it. That cell has been taken from
    /// the queue.
    pub open spec fn way_of(self, g: Ground, root: Vecu, x: Vecu) -> bool {
        &&& self.way.contains_key(x)
        &&& is_way(g, root, self.way[x])
        &&& self.way[x].len() == self.level[x]
        &&& x != root ==> {
            &&& self.way[x] == self.way[self.parent[x]].push(x)
            &&& self.place(self.parent[x]) < self.taken
        }
    }

    /// Whether the way on which `x` was found comes before every other way
    /// to `x` that is as short.
    pub open spec fn least_way(self, g: Ground, root: Vecu, x: Vecu) -> bool {
        forall|r: Seq<Vecu>|
            #[trigger] is_way(g, root, r) && r.len() == self.level[x] && r.len() > 0 && r.last()
                == x ==> r == self.way[x] || turns_off_first(root, self.way[x], r)
    }

    /// Whether the cells of one level were found in the order of their ways.
    pub open spec fn in_order_of_ways(self, root: Vecu) -> bool {
        forall|x: Vecu, y: Vecu|
            #![trigger self.way[x], self.way[y]]
            self.found(x) && self.found(y) && self.level[x] == self.level[y] && self.place(x)
                < self.place(y) ==> turns_off_first(root, self.way[x], self.way[y])
    }

    /// Whether the cells found from the current cell lie in one of its
    /// first `upto` directions.
    pub open spec fn children_before(self, root: Vecu, upto: int) -> bool {
        forall|x: Vecu|
            self.found(x) && x != root && #[trigger] self.parent[x] == self.current()
                ==> direction_to(self.current(), x).spec_index() < upto
    }

    /// What holds of the ways of a search, beside [`Search::inv`]: each cell
    /// was found on the first of its shortest ways.
    pub open spec fn routed(self, g: Ground, root: Vecu, upto: int) -> bool {
        &&& forall|x: Vecu| #[trigger]
            self.found(x) ==> self.way_of(g, root, x) && self.least_way(g, root, x)
        &&& self.in_order_of_ways(root)
        &&& self.taken >= 1 ==> self.children_before(root, upto)
    }
}

/// The place of a cell found is where it stands in the order.
pub proof fn lemma_place(s: Search, k: int)
    requires
        s.order.no_duplicates(),
        0 <= k < s.order.len(),
    ensures
        s.place(s.order[k]) == k,
{
    let p = s.place(s.order[k]);
    assert(0 <= p < s.order.len() && s.order[p] == s.order[k]);
}

/// The place of a cell found lies in the order, and the cell stands there.
pub proof fn lemma_place_of_found(s: Search, root: Vecu, x: Vecu)
    requires
        s.well_ordered(root),
        s.found(x),
    ensures
        0 <= s.place(x) < s.order.len(),
        s.order[s.place(x)] == x,
{
    assert(s.order.contains(x));
}


/// A way without its last cell is a way, and it leads to the cell at which
/// the last step starts.
proof fn lemma_way_before(g: Ground, root: Vecu, r: Seq<Vecu>)
    requires
        is_way(g, root, r),
        r.len() > 0,
    ensures
        is_way(g, root, r.drop_last()),
        g.reach_in(root, step_start(root, r, r.len() - 1), (r.len() - 1) as nat),
        g.link(step_start(root, r, r.len() - 1), r.last()),
        r.len() > 1 ==> r.drop_last().last() == step_start(root, r, r.len() - 1),
        r == r.drop_last().push(r.last()),
{
    let before = r.drop_last();
    assert forall|k: int| 0 <= k < before.len() implies g.link(
        #[trigger] step_start(root, before, k),
        before[k],
    ) by {
        assert(g.link(step_start(root, r, k), r[k]));
    }
    lemma_way_reaches(g, root, before);
    assert(step_start(root, before, before.len() as int) == step_start(root, r, r.len() - 1));
    assert(g.link(step_start(root, r, r.len() - 1), r[r.len() - 1]));
    assert(r =~= before.push(r.last()));
}

/// The way of the search to a cell found ends at that cell.
proof fn lemma_way_ends(s: Search, g: Ground, root: Vecu, upto: int, x: Vecu)
    requires
        s.inv(g, root, upto),
        s.routed(g, root, upto),
        s.found(x),
    ensures
        step_start(root, s.way[x], s.way[x].len() as int) == x,
        s.way[x].len() == s.level[x],
        is_way(g, root, s.way[x]),
{
    lemma_level_of_found(s, g, root, upto, x);
    assert(s.way_of(g, root, x));
}

/// A search that has found its root and nothing else has found it on the
/// empty way.
pub proof fn lemma_start_routed(s: Search, g: Ground, root: Vecu)
    requires
        s.inv(g, root, 0),
        s.order == seq![root],
        s.taken == 0,
        s.level == Map::<Vecu, nat>::empty().insert(root, 0),
        s.way == Map::<Vecu, Seq<Vecu>>::empty().insert(root, Seq::empty()),
    ensures
        s.routed(g, root, 0),
{
    assert forall|x: Vecu| #[trigger] s.found(x) implies s.way_of(g, root, x) && s.least_way(
        g,
        root,
        x,
    ) by {
        assert(x == root);
    }
    assert forall|x: Vecu, y: Vecu|
        #![trigger s.way[x], s.way[y]]
        s.found(x) && s.found(y) && s.level[x] == s.level[y] && s.place(x) < s.place(
            y,
        ) implies turns_off_first(root, s.way[x], s.way[y]) by {
        assert(x == root && y == root);
    }
}

/// Taking the next cell from the queue changes no way.
pub proof fn lemma_take_routed(s: Search, g: Ground, root: Vecu, t: Search)
    requires
        s.taken < s.order.len(),
        s.taken == 0 ==> s.inv(g, root, 0) && s.routed(g, root, 0),
        s.taken >= 1 ==> s.inv(g, root, 4) && s.routed(g, root, 4),
        t == (Search { taken: s.taken + 1, ..s }),
        t.inv(g, root, 0),
    ensures
        t.routed(g, root, 0),
{
    assert forall|x: Vecu| #[trigger] t.found(x) implies t.way_of(g, root, x) && t.least_way(
        g,
        root,
        x,
    ) by {
        assert(s.found(x));
        assert(s.way_of(g, root, x));
        assert(s.least_way(g, root, x));
        assert(t.place(s.parent[x]) == s.place(s.parent[x]));
    }
    assert forall|x: Vecu, y: Vecu|
        #![trigger t.way[x], t.way[y]]
        t.found(x) && t.found(y) && t.level[x] == t.level[y] && t.place(x) < t.place(
            y,
        ) implies turns_off_first(root, t.way[x], t.way[y]) by {
        assert(s.place(x) == t.place(x));
        assert(s.place(y) == t.place(y));
        assert(turns_off_first(root, s.way[x], s.way[y]));
    }
    assert forall|x: Vecu|
        t.found(x) && x != root && #[trigger] t.parent[x] == t.current() implies direction_to(
        t.current(),
        x,
    ).spec_index() < 0 by {
        assert(s.found(x));
        assert(s.way_of(g, root, x));
        lemma_place(s, s.taken as int);
        assert(t.current() == s.order[s.taken as int]);
    }
}

/// A direction that leads to nothing new changes no way.
pub proof fn lemma_pass_routed(s: Search, g: Ground, root: Vecu, upto: int)
    requires
        s.routed(g, root, upto),
    ensures
        s.routed(g, root, upto + 1),
{
    if s.taken >= 1 {
        assert forall|x: Vecu|
            s.found(x) && x != root && #[trigger] s.parent[x] == s.current() implies direction_to(
            s.current(),
            x,
        ).spec_index() < upto + 1 by {}
    }
}

/// The way to a cell that the search finds from its current cell is the
/// first of the shortest ways to that cell.
proof fn lemma_new_way_is_least(s: Search, g: Ground, root: Vecu, d: Relative, r: Seq<Vecu>)
    requires
        s.inv(g, root, d.spec_index()),
        s.routed(g, root, d.spec_index()),
        s.taken >= 1,
        g.link_by(s.current(), d),
        !s.found(neighbour(s.current(), d).unwrap()),
        g.is_hops(root, neighbour(s.current(), d).unwrap(), s.level[s.current()] + 1),
        is_way(g, root, r),
        r.len() == s.level[s.current()] + 1,
        r.last() == neighbour(s.current(), d).unwrap(),
    ensures
        r == s.way[s.current()].push(neighbour(s.current(), d).unwrap()) || turns_off_first(
            root,
            s.way[s.current()].push(neighbour(s.current(), d).unwrap()),
            r,
        ),
{
    let upto = d.spec_index();
    let c = s.current();
    let b = neighbour(c, d).unwrap();
    let lc = s.level[c];
    let before = r.drop_last();
    let from = step_start(root, r, r.len() - 1);
    lemma_way_before(g, root, r);
    assert(s.order.contains(c));
    lemma_way_ends(s, g, root, upto, c);
    lemma_place(s, s.taken - 1);

    // the cell before the new one on `r` has been found, at the level of the current cell
    lemma_near_cells_found(s, g, root, upto, from, lc);
    lemma_level_of_found(s, g, root, upto, from);
    lemma_place_of_found(s, root, from);
    let lf = s.level[from];
    assert(lf <= lc) by {
        reveal(Ground::is_hops);
        if lf > lc {
            assert(!g.reach_in(root, from, lc));
        }
    }
    assert(lf >= lc) by {
        reveal(Ground::is_hops);
        if lf < lc {
            assert(g.reach_in(root, from, ((lf + 1) - 1) as nat) && g.link(from, b));
            assert(g.reach_in(root, b, lf + 1));
            assert(!g.reach_in(root, b, lf + 1));
        }
    }
    // and it has not been dealt with
    let pf = s.place(from);
    if pf < s.taken - 1 {
        assert(s.expanded(g, s.order[pf], 4));
        let e = choose|e: Relative| #[trigger] g.link_by(from, e) && neighbour(from, e) == Some(b);
        assert(g.link_by(from, e));
        assert(s.found(b));
    }
    if lc == 0 {
        assert(from == root);
        assert(c == root);
        assert(before =~= s.way[c]);
    } else {
        assert(before.last() == from);
        assert(s.least_way(g, root, from));
        assert(is_way(g, root, before));
        assert(before == s.way[from] || turns_off_first(root, s.way[from], before));
        if from != c {
            assert(pf > s.taken - 1);
            assert(s.place(c) < s.place(from));
            assert(s.found(c) && s.found(from));
            assert(s.in_order_of_ways(root));
            let wc = s.way[c];
            let wf = s.way[from];
            assert(turns_off_first(root, wc, wf));
            if before != wf {
                lemma_turns_off_transitive(root, wc, wf, before);
            }
            assert(turns_off_first(root, wc, before));
        }
        if before != s.way[c] {
            lemma_turns_off_extends(root, s.way[c], before, b, b);
        }
    }
}

/// The cell that the search finds from its current cell is found on the
/// first of its shortest ways, behind the cells of its level found before.
pub proof fn lemma_discover_routed(s: Search, g: Ground, root: Vecu, d: Relative, t: Search)
    requires
        s.inv(g, root, d.spec_index()),
        s.routed(g, root, d.spec_index()),
        s.taken >= 1,
        g.link_by(s.current(), d),
        !s.found(neighbour(s.current(), d).unwrap()),
        t.inv(g, root, d.spec_index() + 1),
        t.order == s.order.push(neighbour(s.current(), d).unwrap()),
        t.taken == s.taken,
        t.level == s.level.insert(
            neighbour(s.current(), d).unwrap(),
            s.level[s.current()] + 1,
        ),
        t.parent == s.parent.insert(neighbour(s.current(), d).unwrap(), s.current()),
        t.way == s.way.insert(
            neighbour(s.current(), d).unwrap(),
            s.way[s.current()].push(neighbour(s.current(), d).unwrap()),
        ),
    ensures
        t.routed(g, root, d.spec_index() + 1),
{
    let upto = d.spec_index();
    let c = s.current();
    let b = neighbour(c, d).unwrap();
    let lc = s.level[c];
    let n = s.order.len() as int;
    let wc = s.way[c];
    assert(s.order.contains(c));
    assert(s.found(c));
    assert(c != b);
    lemma_way_ends(s, g, root, upto, c);
    lemma_place(s, s.taken - 1);
    lemma_place(t, s.taken - 1);
    lemma_place(t, n);
    lemma_direction_to(c, d);
    assert(g.link(c, b));
    assert(t.current() == c);
    lemma_level_of_found(t, g, root, upto + 1, b);

    // the places of the cells found before stay
    assert forall|x: Vecu| s.found(x) implies #[trigger] t.place(x) == s.place(x) && s.place(x)
        < n by {
        lemma_place_of_found(s, root, x);
        lemma_place(t, s.place(x));
    }

    // the way to the new cell
    let wb = wc.push(b);
    assert(is_way(g, root, wb)) by {
        assert forall|k: int| 0 <= k < wb.len() implies g.link(
            #[trigger] step_start(root, wb, k),
            wb[k],
        ) by {
            if k < wc.len() {
                assert(g.link(step_start(root, wc, k), wc[k]));
            }
        }
    }
    assert(t.least_way(g, root, b)) by {
        assert forall|r: Seq<Vecu>|
            #[trigger] is_way(g, root, r) && r.len() == t.level[b] && r.len() > 0 && r.last()
                == b implies r == t.way[b] || turns_off_first(root, t.way[b], r) by {
            lemma_new_way_is_least(s, g, root, d, r);
        }
    }

    assert forall|x: Vecu| #[trigger] t.found(x) implies t.way_of(g, root, x) && t.least_way(
        g,
        root,
        x,
    ) by {
        if x != b {
            assert(s.found(x));
            assert(s.way_of(g, root, x));
            assert(s.least_way(g, root, x));
            if x != root {
                assert(s.parent.contains_key(x));
                assert(s.found(s.parent[x]));
            }
        }
    }

    assert forall|x: Vecu, y: Vecu|
        #![trigger t.way[x], t.way[y]]
        t.found(x) && t.found(y) && t.level[x] == t.level[y] && t.place(x) < t.place(
            y,
        ) implies turns_off_first(root, t.way[x], t.way[y]) by {
        if y != b {
            assert(x != b);
            assert(s.found(x) && s.found(y));
            assert(turns_off_first(root, s.way[x], s.way[y]));
        } else {
            assert(x != b);
            assert(s.found(x));
            lemma_level_of_found(s, g, root, upto, x);
            assert(x != root);
            let px = s.parent[x];
            assert(s.parent.contains_key(x));
            assert(s.found(px));
            assert(s.way_of(g, root, x));
            if px == c {
                assert(direction_to(c, x).spec_index() < upto);
                lemma_turns_off_at_end(root, wc, x, b);
            } else {
                assert(s.place(px) < s.place(c));
                assert(turns_off_first(root, s.way[px], s.way[c]));
                lemma_turns_off_extends(root, s.way[px], wc, x, b);
            }
        }
    }

    assert forall|x: Vecu|
        t.found(x) && x != root && #[trigger] t.parent[x] == t.current() implies direction_to(
        t.current(),
        x,
    ).spec_index() < upto + 1 by {
        if x != b {
            assert(s.found(x));
            assert(s.parent[x] == s.current());
        }
    }
}

/// A cell of the level of the current cell that has not been dealt with
/// is the current cell, or was found on a later way.
proof fn lemma_later_way(s: Search, g: Ground, root: Vecu, upto: int, x: Vecu)
    requires
        s.well_ordered(root),
        s.in_order_of_ways(root),
        s.taken >= 1,
        s.found(x),
        s.level[x] == s.level[s.current()],
        s.place(x) >= s.taken - 1,
    ensures
        x == s.current() || turns_off_first(root, s.way[s.current()], s.way[x]),
{
    let c = s.current();
    assert(s.order.contains(c));
    lemma_place(s, s.taken - 1);
    lemma_place_of_found(s, root, x);
    if x != c {
        assert(s.place(c) < s.place(x));
        assert(s.found(c) && s.found(x));
        let wc = s.way[c];
        let wx = s.way[x];
        assert(turns_off_first(root, wc, wx));
    }
}

/// A cell that no step may leave, and that is as many steps from the root
/// as the current cell, has not been dealt with and is at its level.
proof fn lemma_outside_cell_waits(s: Search, g: Ground, root: Vecu, upto: int, x: Vecu)
    requires
        s.inv(g, root, upto),
        s.taken >= 1,
        !g.leave.contains(x),
        g.reach_in(root, x, s.level[s.current()]),
    ensures
        s.found(x),
        s.level[x] == s.level[s.current()],
        s.place(x) >= s.taken - 1,
{
    let lc = s.level[s.current()];
    lemma_near_cells_found(s, g, root, upto, x, lc);
    lemma_level_of_found(s, g, root, upto, x);
    lemma_place_of_found(s, root, x);
    let lx = s.level[x];
    assert(lx <= lc) by {
        reveal(Ground::is_hops);
        if lx > lc {
            assert(!g.reach_in(root, x, lc));
        }
    }
    if lx < lc {
        lemma_nearer_cells_left(s, g, root, upto, x, lx);
    }
    let px = s.place(x);
    if px < s.taken - 1 {
        assert(g.leave.contains(s.order[px]));
    }
}

/// The cell that the search has just taken from its queue, where no step
/// may leave it, was found on the first of the shortest ways that lead to
/// such a cell.
pub proof fn lemma_first_way(s: Search, g: Ground, root: Vecu, upto: int, r: Seq<Vecu>)
    requires
        s.inv(g, root, upto),
        s.routed(g, root, upto),
        s.taken >= 1,
        !g.leave.contains(s.current()),
        is_way(g, root, r),
        r.len() > 0,
        !g.leave.contains(r.last()),
    ensures
        s.way[s.current()].len() < r.len() || (s.way[s.current()].len() == r.len() && (r
            == s.way[s.current()] || turns_off_first(root, s.way[s.current()], r))),
{
    let c = s.current();
    let x = r.last();
    let lc = s.level[c];
    assert(s.order.contains(c));
    lemma_way_ends(s, g, root, upto, c);
    lemma_way_reaches(g, root, r);
    assert(step_start(root, r, r.len() as int) == x);
    if r.len() < lc {
        lemma_nearer_cells_left(s, g, root, upto, x, r.len());
    } else if r.len() == lc {
        lemma_outside_cell_waits(s, g, root, upto, x);
        lemma_later_way(s, g, root, upto, x);
        assert(s.least_way(g, root, x));
        let wc = s.way[c];
        let wx = s.way[x];
        assert(r == wx || turns_off_first(root, wx, r));
        if x != c && r != wx {
            lemma_turns_off_transitive(root, wc, wx, r);
        }
    }
}

} // verus!
