//! What a breadth-first search over the maze finds, and the bookkeeping by
//! which the searches of the pathfinder are shown to find it.

use vstd::prelude::*;
use crate::maze::{cell_index, in_maze, neighbour, on_grid, open_step, Maze, Relative};
use crate::vec::Vecu;
use crate::MAZE_SIZE;

verus! {

/// The ground that a search covers: the walls of `maze`, the cells that a
/// step may leave, and the cells that a step may enter.
pub struct Ground {
    pub maze: Maze,
    pub leave: Set<Vecu>,
    pub enter: Set<Vecu>,
}

impl Ground {
    /// Whether a step of the search leads from `a` in direction `d`.
    pub open spec fn link_by(self, a: Vecu, d: Relative) -> bool {
        self.leave.contains(a) && open_step(self.maze, a, d) && self.enter.contains(
            neighbour(a, d).unwrap(),
        )
    }

    /// Whether a step of the search leads from `a` to `b`.
    pub open spec fn link(self, a: Vecu, b: Vecu) -> bool {
        exists|d: Relative| #[trigger] self.link_by(a, d) && neighbour(a, d) == Some(b)
    }

    /// Whether `n` steps of the search lead from `root` to `to`.
    pub open spec fn reach_in(self, root: Vecu, to: Vecu, n: nat) -> bool
        decreases n,
    {
        if n == 0 {
            to == root
        } else {
            exists|via: Vecu|
                self.reach_in(root, via, (n - 1) as nat) && #[trigger] self.link(via, to)
        }
    }

    /// Whether steps of the search lead from `root` to `to`.
    pub open spec fn reachable(self, root: Vecu, to: Vecu) -> bool {
        exists|n: nat| self.reach_in(root, to, n)
    }

    /// Whether `n` is the least number of steps that lead from `root` to `to`.
    #[verifier::opaque]
    pub open spec fn is_hops(self, root: Vecu, to: Vecu, n: nat) -> bool {
        self.reach_in(root, to, n) && forall|m: nat| m < n ==> !self.reach_in(root, to, m)
    }

    /// The least number of steps that lead from `root` to `to`, where any do.
    pub open spec fn hops(self, root: Vecu, to: Vecu) -> nat {
        choose|n: nat| self.is_hops(root, to, n)
    }
}

/// The least number of steps is one number.
pub proof fn lemma_hops_is(g: Ground, root: Vecu, to: Vecu, n: nat)
    requires
        g.is_hops(root, to, n),
    ensures
        g.hops(root, to) == n,
        g.reachable(root, to),
{
    reveal(Ground::is_hops);
    let h = g.hops(root, to);
    assert(g.is_hops(root, to, h));
    if h < n {
        assert(!g.reach_in(root, to, h));
    }
    if n < h {
        assert(!g.reach_in(root, to, n));
    }
}

/// Where some number of steps leads from `root` to `to`, a least number does.
proof fn lemma_least_steps(g: Ground, root: Vecu, to: Vecu, n: nat)
    requires
        g.reach_in(root, to, n),
    ensures
        exists|m: nat| g.is_hops(root, to, m),
    decreases n,
{
    reveal(Ground::is_hops);
    if exists|m: nat| m < n && g.reach_in(root, to, m) {
        let m = choose|m: nat| m < n && g.reach_in(root, to, m);
        lemma_least_steps(g, root, to, m);
    } else {
        assert(g.is_hops(root, to, n));
    }
}

/// For a cell that steps lead to, `hops` is the least number of steps, and
/// it is 0 for the root alone.
pub proof fn lemma_hops_exist(g: Ground, root: Vecu, to: Vecu)
    requires
        g.reachable(root, to),
    ensures
        g.is_hops(root, to, g.hops(root, to)),
        g.reach_in(root, to, g.hops(root, to)),
        g.hops(root, to) == 0 <==> to == root,
{
    reveal(Ground::is_hops);
    let n = choose|n: nat| g.reach_in(root, to, n);
    lemma_least_steps(g, root, to, n);
    let h = g.hops(root, to);
    assert(g.is_hops(root, to, h));
    if to == root {
        assert(g.reach_in(root, to, 0));
        if h > 0 {
            assert(!g.reach_in(root, to, 0));
        }
    }
}

/// Cells of the grid that are all different are at most as many as the grid has.
pub proof fn lemma_cells_fit(cells: Seq<Vecu>)
    requires
        cells.no_duplicates(),
        on_grid(cells),
    ensures
        cells.len() <= MAZE_SIZE,
{
    let numbers = cells.map_values(|p: Vecu| cell_index(p));
    assert forall|i: int, j: int|
        0 <= i < numbers.len() && 0 <= j < numbers.len() && i != j implies numbers[i]
        != numbers[j] by {
        assert(in_maze(cells[i]) && in_maze(cells[j]));
        assert(cells[i] != cells[j]);
    }
    numbers.unique_seq_to_set();
    vstd::set_lib::lemma_int_range(0, MAZE_SIZE as int);
    assert forall|n: int| numbers.to_set().contains(n) implies vstd::set_lib::set_int_range(
        0,
        MAZE_SIZE as int,
    ).contains(n) by {
        let i = choose|i: int| 0 <= i < numbers.len() && numbers[i] == n;
        assert(in_maze(cells[i]));
    }
    vstd::set_lib::lemma_len_subset(
        numbers.to_set(),
        vstd::set_lib::set_int_range(0, MAZE_SIZE as int),
    );
}

/// The state of a breadth-first search, as far as proofs need it.
pub struct Search {
    /// The cells found so far, in the order in which they were found: the
    /// root first.
    pub order: Seq<Vecu>,
    /// How many of them have been taken from the queue. The last of these is
    /// the cell whose neighbours are being looked at.
    pub taken: nat,
    /// The number of steps from the root to each cell found.
    pub level: Map<Vecu, nat>,
    /// The cell from which each cell but the root was found.
    pub parent: Map<Vecu, Vecu>,
    /// The way on which each cell was found: the cells from the root to it,
    /// the root left out.
    pub way: Map<Vecu, Seq<Vecu>>,
}

impl Search {
    /// The cell whose neighbours are being looked at.
    pub open spec fn current(self) -> Vecu {
        self.order[self.taken - 1]
    }

    /// The cells that wait in the queue.
    pub open spec fn waiting(self) -> Seq<Vecu> {
        self.order.subrange(self.taken as int, self.order.len() as int)
    }

    /// Whether the search has found `x`.
    pub open spec fn found(self, x: Vecu) -> bool {
        self.level.contains_key(x)
    }

    /// Whether the order of discovery is sound: it starts with the root,
    /// holds no cell twice and no cell off the grid, holds just the cells
    /// that have a level, and no more cells have been taken than were found.
    pub open spec fn well_ordered(self, root: Vecu) -> bool {
        &&& self.order.len() >= 1
        &&& self.order[0] == root
        &&& self.order.no_duplicates()
        &&& on_grid(self.order)
        &&& self.taken <= self.order.len()
        &&& (self.taken == 0 ==> self.order.len() == 1)
        &&& forall|x: Vecu| #[trigger] self.level.contains_key(x) <==> self.order.contains(x)
    }

    /// Whether the levels are sound: the level of a cell is its least number
    /// of steps from the root, the cells were found in the order of their
    /// levels, and no cell is more than one level behind the current cell.
    pub open spec fn levelled(self, g: Ground, root: Vecu) -> bool {
        &&& forall|k: int|
            0 <= k < self.order.len() ==> {
                &&& g.is_hops(root, #[trigger] self.order[k], self.level[self.order[k]])
                &&& self.level[self.order[k]] <= k
            }
        &&& forall|a: int, b: int|
            0 <= a <= b < self.order.len() ==> self.level[#[trigger] self.order[a]]
                <= self.level[#[trigger] self.order[b]]
        &&& self.taken >= 1 ==> forall|k: int|
            0 <= k < self.order.len() ==> self.level[#[trigger] self.order[k]]
                <= self.level[self.current()] + 1
    }

    /// Whether every step from `c` in one of the first `upto` directions
    /// leads to a cell that has been found.
    pub open spec fn expanded(self, g: Ground, c: Vecu, upto: int) -> bool {
        forall|d: Relative|
            d.spec_index() < upto && #[trigger] g.link_by(c, d) ==> self.found(
                neighbour(c, d).unwrap(),
            )
    }

    /// Whether the cells taken before the current cell are dealt with in all
    /// four directions, each a cell that a step may leave, and the current
    /// cell in its first `upto` directions.
    pub open spec fn settled(self, g: Ground, upto: int) -> bool {
        &&& forall|k: int|
            0 <= k < self.taken - 1 ==> g.leave.contains(#[trigger] self.order[k])
                && self.expanded(g, self.order[k], 4)
        &&& self.taken >= 1 ==> self.expanded(g, self.current(), upto)
    }

    /// Whether each cell found but the root was found from a cell found
    /// before, one step and one level before it.
    pub open spec fn rooted(self, g: Ground, root: Vecu) -> bool {
        forall|c: Vecu|
            self.found(c) && c != root ==> {
                &&& #[trigger] self.parent.contains_key(c)
                &&& self.found(self.parent[c])
                &&& g.link(self.parent[c], c)
                &&& self.level[c] == self.level[self.parent[c]] + 1
            }
    }

    /// What holds of a search from `root` over `g` while it looks at the
    /// neighbours of its current cell and has dealt with the first `upto`
    /// directions: each cell found has its least number of steps as its
    /// level, the cells were found in the order of their levels, and every
    /// step from a cell that was dealt with leads to a cell found.
    pub open spec fn inv(self, g: Ground, root: Vecu, upto: int) -> bool {
        &&& self.well_ordered(root)
        &&& self.levelled(g, root)
        &&& self.settled(g, upto)
        &&& self.rooted(g, root)
    }
}

/// A search that has found its root and nothing else.
pub proof fn lemma_start(g: Ground, root: Vecu) -> (s: Search)
    requires
        in_maze(root),
    ensures
        s.inv(g, root, 0),
        s.order == seq![root],
        s.taken == 0,
        s.level == Map::<Vecu, nat>::empty().insert(root, 0),
        s.way == Map::<Vecu, Seq<Vecu>>::empty().insert(root, Seq::empty()),
{
    let s = Search {
        order: seq![root],
        taken: 0,
        level: Map::<Vecu, nat>::empty().insert(root, 0),
        parent: Map::empty(),
        way: Map::<Vecu, Seq<Vecu>>::empty().insert(root, Seq::empty()),
    };
    assert(g.is_hops(root, root, 0)) by {
        reveal(Ground::is_hops);
        assert(g.reach_in(root, root, 0));
    }
    assert forall|x: Vecu| #[trigger] s.level.contains_key(x) <==> s.order.contains(x) by {
        if x == root {
            assert(s.order[0] == x);
        }
    }
    s
}

/// Taking the next cell from the queue.
pub proof fn lemma_take(s: Search, g: Ground, root: Vecu) -> (t: Search)
    requires
        s.taken < s.order.len(),
        s.taken == 0 ==> s.inv(g, root, 0),
        s.taken >= 1 ==> s.inv(g, root, 4) && g.leave.contains(s.current()),
    ensures
        t == (Search { taken: s.taken + 1, ..s }),
        t.inv(g, root, 0),
        t.current() == s.waiting()[0],
{
    let t = Search { taken: s.taken + 1, ..s };
    assert(t.current() == s.order[s.taken as int]);
    if s.taken >= 1 {
        assert forall|k: int| 0 <= k < t.order.len() implies t.level[#[trigger] t.order[k]]
            <= t.level[t.current()] + 1 by {
            assert(s.level[s.order[k]] <= s.level[s.current()] + 1);
            assert(s.level[s.order[s.taken - 1]] <= s.level[s.order[s.taken as int]]);
        }
    } else {
        assert forall|k: int| 0 <= k < t.order.len() implies t.level[#[trigger] t.order[k]]
            <= t.level[t.current()] + 1 by {
            assert(k == 0);
        }
    }
    assert forall|k: int| 0 <= k < t.taken - 1 implies g.leave.contains(#[trigger] t.order[k])
        && t.expanded(g, t.order[k], 4) by {
        if k < s.taken - 1 {
            assert(s.expanded(g, s.order[k], 4));
        } else {
            assert(t.order[k] == s.current());
        }
    }
    assert(s.rooted(g, root));
    assert forall|x: Vecu| t.found(x) && x != root implies {
        &&& #[trigger] t.parent.contains_key(x)
        &&& t.found(t.parent[x])
        &&& g.link(t.parent[x], x)
        &&& t.level[x] == t.level[t.parent[x]] + 1
    } by {
        assert(s.found(x));
        assert(s.parent.contains_key(x));
    }
    t
}

/// A direction that leads to nothing new is dealt with.
pub proof fn lemma_pass(s: Search, g: Ground, root: Vecu, d: Relative)
    requires
        s.inv(g, root, d.spec_index()),
        s.taken >= 1,
        !g.link_by(s.current(), d) || s.found(neighbour(s.current(), d).unwrap()),
    ensures
        s.inv(g, root, d.spec_index() + 1),
{
    assert forall|e: Relative|
        e.spec_index() < d.spec_index() + 1 && #[trigger] g.link_by(
            s.current(),
            e,
        ) implies s.found(neighbour(s.current(), e).unwrap()) by {
        if e.spec_index() == d.spec_index() {
            assert(e == d);
        }
    }
}

/// While the search looks at the neighbours of a cell, it has found every
/// cell that is no more steps from the root than that cell.
pub proof fn lemma_near_cells_found(s: Search, g: Ground, root: Vecu, upto: int, x: Vecu, m: nat)
    requires
        s.inv(g, root, upto),
        s.taken >= 1,
        m <= s.level[s.current()],
        g.reach_in(root, x, m),
    ensures
        s.found(x),
    decreases m,
{
    if m == 0 {
        assert(s.order[0] == x);
        assert(s.order.contains(x));
    } else {
        let via = choose|via: Vecu|
            g.reach_in(root, via, (m - 1) as nat) && #[trigger] g.link(via, x);
        lemma_near_cells_found(s, g, root, upto, via, (m - 1) as nat);
        assert(s.order.contains(via));
        let k = choose|k: int| 0 <= k < s.order.len() && s.order[k] == via;
        assert(s.level[via] <= m - 1) by {
            reveal(Ground::is_hops);
            assert(g.is_hops(root, s.order[k], s.level[s.order[k]]));
            if s.level[via] > m - 1 {
                assert(!g.reach_in(root, via, (m - 1) as nat));
            }
        }
        if k >= s.taken - 1 {
            assert(s.level[s.order[s.taken - 1]] <= s.level[s.order[k]]);
        }
        assert(s.expanded(g, s.order[k], 4));
        let d = choose|d: Relative| #[trigger] g.link_by(via, d) && neighbour(via, d) == Some(x);
        assert(g.link_by(via, d));
    }
}

/// Once the queue is empty and the last cell is dealt with, the search has
/// found every cell that steps lead to.
pub proof fn lemma_all_cells_found(s: Search, g: Ground, root: Vecu, x: Vecu, m: nat)
    requires
        s.inv(g, root, 4),
        s.taken == s.order.len(),
        g.reach_in(root, x, m),
    ensures
        s.found(x),
    decreases m,
{
    if m == 0 {
        assert(s.order[0] == x);
        assert(s.order.contains(x));
    } else {
        let via = choose|via: Vecu|
            g.reach_in(root, via, (m - 1) as nat) && #[trigger] g.link(via, x);
        lemma_all_cells_found(s, g, root, via, (m - 1) as nat);
        assert(s.order.contains(via));
        let k = choose|k: int| 0 <= k < s.order.len() && s.order[k] == via;
        if k < s.taken - 1 {
            assert(s.expanded(g, s.order[k], 4));
        } else {
            assert(s.order[k] == s.current());
        }
        let d = choose|d: Relative| #[trigger] g.link_by(via, d) && neighbour(via, d) == Some(x);
        assert(g.link_by(via, d));
    }
}

/// A step from the current cell in direction `d` that leads to a cell not
/// found before: that cell is one step further from the root, and it joins
/// the queue, which has room for it.
pub proof fn lemma_discover(s: Search, g: Ground, root: Vecu, d: Relative) -> (t: Search)
    requires
        s.inv(g, root, d.spec_index()),
        s.taken >= 1,
        g.link_by(s.current(), d),
        !s.found(neighbour(s.current(), d).unwrap()),
    ensures
        t.inv(g, root, d.spec_index() + 1),
        t.order == s.order.push(neighbour(s.current(), d).unwrap()),
        t.taken == s.taken,
        t.level == s.level.insert(
            neighbour(s.current(), d).unwrap(),
            s.level[s.current()] + 1,
        ),
        t.parent == s.parent.insert(neighbour(s.current(), d).unwrap(), s.current()),
        t.way == s.way.insert(
            neighbour(s.current(), d).unwrap(),
            s.way[s.current()].push(neighbour(s.current(), d).unwrap()),
        ),
        s.order.len() < MAZE_SIZE,
{
    let c = s.current();
    let b = neighbour(c, d).unwrap();
    let lc = s.level[c];
    let t = Search {
        order: s.order.push(b),
        taken: s.taken,
        level: s.level.insert(b, lc + 1),
        parent: s.parent.insert(b, c),
        way: s.way.insert(b, s.way[c].push(b)),
    };
    let n = s.order.len() as int;
    assert(c == s.order[s.taken - 1]);
    assert(in_maze(c));
    assert(in_maze(b));
    assert(g.link(c, b));
    assert(g.is_hops(root, c, lc));
    assert(s.order.contains(c));
    assert(s.found(c));
    assert(!s.order.contains(b));

    // the new cell is one step further than the current one, and no nearer
    assert(g.is_hops(root, b, lc + 1)) by {
        reveal(Ground::is_hops);
        assert(g.reach_in(root, b, lc + 1)) by {
            assert(g.reach_in(root, c, ((lc + 1) - 1) as nat) && g.link(c, b));
        }
        assert forall|m: nat| m < lc + 1 implies !g.reach_in(root, b, m) by {
            if g.reach_in(root, b, m) {
                lemma_near_cells_found(s, g, root, d.spec_index(), b, m);
            }
        }
    }

    // the order of discovery
    assert forall|k: int| 0 <= k < n implies t.order[k] == s.order[k] && s.order[k] != b
        && t.level[s.order[k]] == s.level[s.order[k]] by {}
    assert(t.order[n] == b);
    assert(t.order.no_duplicates());
    assert(on_grid(t.order));
    lemma_cells_fit(t.order);
    assert(t.current() == c);
    assert forall|x: Vecu| #[trigger] t.level.contains_key(x) <==> t.order.contains(x) by {
        if x == b {
            assert(t.order[n] == b);
        } else {
            if s.order.contains(x) {
                let i = choose|i: int| 0 <= i < s.order.len() && s.order[i] == x;
                assert(t.order[i] == x);
            }
            if t.order.contains(x) {
                let i = choose|i: int| 0 <= i < t.order.len() && t.order[i] == x;
                assert(s.order[i] == x);
            }
        }
    }
    assert(t.well_ordered(root));

    // the levels
    assert forall|k: int| 0 <= k < t.order.len() implies {
        &&& g.is_hops(root, #[trigger] t.order[k], t.level[t.order[k]])
        &&& t.level[t.order[k]] <= k
        &&& t.level[t.order[k]] <= t.level[t.current()] + 1
    } by {
        if k < n {
            assert(s.level[s.order[k]] <= s.level[s.current()] + 1);
        } else {
            assert(s.level[s.order[s.taken - 1]] <= s.taken - 1);
        }
    }
    assert forall|x: int, y: int| 0 <= x <= y < t.order.len() implies t.level[
        #[trigger] t.order[x]] <= t.level[#[trigger] t.order[y]] by {
        if y < n {
            assert(s.level[s.order[x]] <= s.level[s.order[y]]);
        } else if x < n {
            assert(s.level[s.order[x]] <= s.level[s.current()] + 1);
        }
    }
    assert(t.levelled(g, root));

    // what was dealt with stays dealt with
    assert forall|k: int| 0 <= k < t.taken - 1 implies g.leave.contains(#[trigger] t.order[k])
        && t.expanded(g, t.order[k], 4) by {
        assert(s.expanded(g, s.order[k], 4));
    }
    assert forall|e: Relative|
        e.spec_index() < d.spec_index() + 1 && #[trigger] g.link_by(c, e) implies t.found(
        neighbour(c, e).unwrap(),
    ) by {
        if e.spec_index() == d.spec_index() {
            assert(e == d);
        }
    }
    assert(t.settled(g, d.spec_index() + 1));

    // the parents
    assert forall|x: Vecu| t.found(x) && x != root implies {
        &&& #[trigger] t.parent.contains_key(x)
        &&& t.found(t.parent[x])
        &&& g.link(t.parent[x], x)
        &&& t.level[x] == t.level[t.parent[x]] + 1
    } by {
        if x != b {
            assert(s.found(x));
            assert(s.parent.contains_key(x));
            assert(s.found(s.parent[x]));
        } else {
            assert(t.parent[x] == c);
        }
    }
    assert(t.rooted(g, root));
    t
}


/// While the search looks at the neighbours of a cell, every cell that is
/// fewer steps from the root than that cell has been dealt with, so it is
/// one that a step may leave.
pub proof fn lemma_nearer_cells_left(s: Search, g: Ground, root: Vecu, upto: int, x: Vecu, m: nat)
    requires
        s.inv(g, root, upto),
        s.taken >= 1,
        m < s.level[s.current()],
        g.reach_in(root, x, m),
    ensures
        g.leave.contains(x),
{
    lemma_near_cells_found(s, g, root, upto, x, m);
    assert(s.order.contains(x));
    let k = choose|k: int| 0 <= k < s.order.len() && s.order[k] == x;
    assert(s.level[x] <= m) by {
        reveal(Ground::is_hops);
        assert(g.is_hops(root, s.order[k], s.level[s.order[k]]));
        if s.level[x] > m {
            assert(!g.reach_in(root, x, m));
        }
    }
    if k >= s.taken - 1 {
        assert(s.level[s.order[s.taken - 1]] <= s.level[s.order[k]]);
    }
}

/// The level of a cell found is the number of steps of the shortest way to
/// it, and below the number of cells of the grid.
pub proof fn lemma_level_of_found(s: Search, g: Ground, root: Vecu, upto: int, x: Vecu)
    requires
        s.inv(g, root, upto),
        s.found(x),
    ensures
        g.is_hops(root, x, s.level[x]),
        g.reach_in(root, x, s.level[x]),
        s.level[x] < MAZE_SIZE,
        s.level[x] == 0 <==> x == root,
        in_maze(x),
{
    reveal(Ground::is_hops);
    assert(s.order.contains(x));
    let k = choose|k: int| 0 <= k < s.order.len() && s.order[k] == x;
    assert(g.is_hops(root, s.order[k], s.level[s.order[k]]));
    lemma_cells_fit(s.order);
    assert(g.is_hops(root, s.order[0], s.level[s.order[0]]));
    if x == root {
        assert(g.reach_in(root, root, 0));
        if s.level[x] > 0 {
            assert(!g.reach_in(root, x, 0));
        }
    }
}

} // verus!
