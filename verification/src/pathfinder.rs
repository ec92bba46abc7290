//! The search: which cell to drive to next, and how to recover from a dead end.

use vstd::prelude::*;
use crate::bounded::{
    deque_is_empty, deque_items, deque_new, deque_pop_front, deque_push_back, vec_as_slice,
    vec_items, vec_new, vec_push,
};
use crate::cell_map::CellMap;
use crate::maze::{
    adjacent, in_maze, lemma_neighbour_back, linked, neighbour, on_grid, open_step, Maze, Relative,
    Segment,
};
use crate::path::Path;
use crate::search::{
    lemma_all_cells_found, lemma_cells_fit, lemma_discover, lemma_hops_exist, lemma_hops_is,
    lemma_level_of_found, lemma_nearer_cells_left, lemma_pass, lemma_start, lemma_take, Ground,
    Search,
};
use crate::vec::Vecu;
use crate::ways::{
    is_way, lemma_discover_routed, lemma_first_way, lemma_pass_routed, lemma_start_routed,
    lemma_take_routed, lemma_way_reaches, step_start, turns_off_first,
};
use crate::MAZE_SIZE;

verus! {

/// The cells that the distances of a maze count down to.
#[derive(PartialEq, Eq, Structural, Copy, Clone, Debug)]
pub enum Target {
    /// The four cells around the middle of the maze.
    Center,
    /// The cell in the corner, `(0, 0)`.
    Origin,
}

/// The result of an attempted pathfinding using [next].
#[derive(Debug)]
pub enum Result {
    /// Indicates that no cell next to the path is nearer to the target than
    /// the head of the path. Contains the way back along the path to the cell
    /// from which the best cell is reached, and at its end that cell; it is
    /// empty where no cell next to the path can be driven to.
    Stuck(heapless::Vec<Vecu, MAZE_SIZE>),
    /// Indicates that a cell has been found that is nearer to the target than
    /// the head of the path.
    Found(Segment),
}

impl Result {
    /// Whether this result is a dead end or not.
    pub fn is_dead_end(&self) -> (b: bool)
        ensures
            b == (self is Stuck),
    {
        matches!(*self, Result::Stuck(_))
    }

    /// Whether this result contains a found [Segment] or not.
    pub fn is_found(&self) -> (b: bool)
        ensures
            b == (self is Found),
    {
        matches!(*self, Result::Found(_))
    }

    /// Unwraps the found value. The result must be a `Found`.
    pub fn unwrap_found(self) -> (s: Segment)
        requires
            self is Found,
        ensures
            self == Result::Found(s),
    {
        match self {
            Result::Found(s) => s,
            Result::Stuck(_) => vstd::pervasive::unreached(),
        }
    }

    /// Unwraps the stuck value. The result must be a `Stuck`.
    pub fn unwrap_stuck(&self) -> (s: &heapless::Vec<Vecu, MAZE_SIZE>)
        requires
            self is Stuck,
        ensures
            *self == Result::Stuck(*s),
    {
        match self {
            Result::Stuck(s) => s,
            Result::Found(_) => vstd::pervasive::unreached(),
        }
    }
}

/// Whether the cell in direction `d` of the `i`-th cell of `path` can be
/// driven to next: the way there is free and the path has not been there.
pub open spec fn is_candidate(maze: Maze, path: Seq<Vecu>, i: int, d: Relative) -> bool {
    &&& 0 <= i < path.len()
    &&& open_step(maze, path[i], d)
    &&& !path.contains(neighbour(path[i], d).unwrap())
}

/// The segment in direction `d` of the `i`-th cell of `path`.
pub open spec fn candidate(maze: Maze, path: Seq<Vecu>, i: int, d: Relative) -> Segment {
    maze.cell(neighbour(path[i], d).unwrap())
}

/// The order in which the candidates are looked at: from the head of the
/// path backwards, and at each cell north, east, south, west.
pub open spec fn scanned_before(i: int, d: Relative, j: int, e: Relative) -> bool {
    i > j || (i == j && d.spec_index() < e.spec_index())
}

/// Whether the candidate `(i, d)` is the one to take: no candidate has a
/// smaller distance, and of those with the same distance it is looked at
/// first.
pub open spec fn is_best(maze: Maze, path: Seq<Vecu>, i: int, d: Relative) -> bool {
    &&& is_candidate(maze, path, i, d)
    &&& forall|j: int, e: Relative| #[trigger]
        is_candidate(maze, path, j, e) ==> {
            &&& candidate(maze, path, i, d).distance <= candidate(maze, path, j, e).distance
            &&& candidate(maze, path, j, e).distance == candidate(maze, path, i, d).distance
                ==> !scanned_before(j, e, i, d)
        }
}

/// Whether a candidate is nearer to the target than the head of `path`: the
/// best candidate is.
pub open spec fn improves(maze: Maze, path: Seq<Vecu>) -> bool {
    exists|i: int, d: Relative| #[trigger]
        is_best(maze, path, i, d) && candidate(maze, path, i, d).distance < maze.cell(
            path.last(),
        ).distance
}

/// The way back along `path` from the cell before its head to its `from`-th cell.
pub open spec fn back_walk(path: Seq<Vecu>, from: int) -> Seq<Vecu> {
    Seq::new((path.len() - 1 - from) as nat, |k: int| path[path.len() - 2 - k])
}

/// What [next] hands back where it is stuck: the way back to the cell from
/// which the best candidate is reached, and then that candidate. Where
/// there is no candidate at all, it is the empty way.
pub open spec fn stuck_route(maze: Maze, path: Seq<Vecu>, route: Seq<Vecu>) -> bool {
    ||| exists|i: int, d: Relative| #[trigger]
        is_best(maze, path, i, d) && maze.cell(path.last()).distance <= candidate(
            maze,
            path,
            i,
            d,
        ).distance && route == back_walk(path, i).push(neighbour(path[i], d).unwrap())
    ||| (forall|i: int, d: Relative| !is_candidate(maze, path, i, d)) && route == Seq::<
        Vecu,
    >::empty()
}

/// At most one candidate is the one to take.
pub proof fn lemma_best_is_unique(
    maze: Maze,
    path: Seq<Vecu>,
    i: int,
    d: Relative,
    j: int,
    e: Relative,
)
    requires
        is_best(maze, path, i, d),
        is_best(maze, path, j, e),
    ensures
        i == j,
        d == e,
{
    assert(is_candidate(maze, path, i, d));
    assert(is_candidate(maze, path, j, e));
    assert(!scanned_before(j, e, i, d));
    assert(!scanned_before(i, d, j, e));
}

/// The direction that is looked at as number `j`.
pub open spec fn nth_direction(j: int) -> Relative {
    if j == 0 {
        Relative::North
    } else if j == 1 {
        Relative::East
    } else if j == 2 {
        Relative::South
    } else {
        Relative::West
    }
}

/// Whether the candidate `(a, e)` has been looked at when the scan stands at
/// direction number `j` of the cell `i`.
pub open spec fn looked_at(a: int, e: Relative, i: int, j: int) -> bool {
    a > i || (a == i && e.spec_index() < j)
}

/// What the scan of [next] knows when it stands at direction number `j` of
/// the cell `i`: it has `found` no candidate yet, or `seg`, reached from the
/// cell `at` in direction `dir`, is the best of the candidates looked at.
pub open spec fn best_so_far(
    maze: Maze,
    path: Seq<Vecu>,
    found: bool,
    seg: Segment,
    at: int,
    dir: Relative,
    i: int,
    j: int,
) -> bool {
    if !found {
        forall|a: int, e: Relative|
            !(#[trigger] is_candidate(maze, path, a, e) && looked_at(a, e, i, j))
    } else {
        &&& is_candidate(maze, path, at, dir)
        &&& looked_at(at, dir, i, j)
        &&& seg == candidate(maze, path, at, dir)
        &&& forall|a: int, e: Relative|
            #[trigger] is_candidate(maze, path, a, e) && looked_at(a, e, i, j) ==> {
                &&& seg.distance <= candidate(maze, path, a, e).distance
                &&& candidate(maze, path, a, e).distance == seg.distance ==> !scanned_before(
                    a,
                    e,
                    at,
                    dir,
                )
            }
    }
}

/// The best of the candidates that the scan has looked at when it stands at
/// direction number `j` of the cell `i`, if it has looked at any.
proof fn lemma_scan(maze: Maze, path: Seq<Vecu>, i: int, j: int) -> (r: (bool, int, Relative))
    requires
        0 <= i <= path.len(),
        0 <= j <= 4,
    ensures
        best_so_far(maze, path, r.0, candidate(maze, path, r.1, r.2), r.1, r.2, i, j),
    decreases path.len() - i, j,
{
    if j == 0 {
        if i + 1 >= path.len() {
            (false, 0, Relative::North)
        } else {
            let r = lemma_scan(maze, path, i + 1, 4);
            assert forall|a: int, e: Relative| looked_at(a, e, i + 1, 4) == looked_at(
                a,
                e,
                i,
                0,
            ) by {}
            r
        }
    } else {
        let r = lemma_scan(maze, path, i, j - 1);
        let d = nth_direction(j - 1);
        assert forall|a: int, e: Relative| looked_at(a, e, i, j) implies looked_at(a, e, i, j - 1)
            || (a == i && e == d) by {}
        if is_candidate(maze, path, i, d) && (!r.0 || candidate(maze, path, i, d).distance
            < candidate(maze, path, r.1, r.2).distance) {
            (true, i, d)
        } else {
            r
        }
    }
}

/// Where there is a candidate, one of the candidates is the one to take.
pub proof fn lemma_best_exists(maze: Maze, path: Seq<Vecu>, i: int, d: Relative)
    requires
        is_candidate(maze, path, i, d),
    ensures
        exists|j: int, e: Relative| is_best(maze, path, j, e),
{
    let r = lemma_scan(maze, path, 0, 4);
    assert forall|a: int, e: Relative| #[trigger] is_candidate(maze, path, a, e) implies looked_at(
        a,
        e,
        0,
        4,
    ) by {}
    assert(looked_at(i, d, 0, 4));
    assert(r.0);
    assert(is_best(maze, path, r.1, r.2));
}

/// What [next] hands back where it is stuck can be driven. Where the path
/// has no gap, the path with that way behind it has none. The way is empty
/// only where there is no candidate; otherwise it leads over cells of the
/// path to a cell that the path has not been at.
pub proof fn lemma_stuck_route_joins(maze: Maze, path: Seq<Vecu>, route: Seq<Vecu>)
    requires
        path.len() > 0,
        on_grid(path),
        linked(path),
        stuck_route(maze, path, route),
    ensures
        linked(path + route),
        route.len() == 0 <==> forall|i: int, d: Relative| !is_candidate(maze, path, i, d),
        route.len() > 0 ==> !path.contains(route.last()),
        forall|k: int| 0 <= k < route.len() - 1 ==> path.contains(#[trigger] route[k]),
{
    if forall|i: int, d: Relative| !is_candidate(maze, path, i, d) {
        assert forall|i: int, d: Relative| !is_best(maze, path, i, d) by {}
        assert(route =~= Seq::<Vecu>::empty());
        assert(path + route =~= path);
    } else {
        let (i, d) = choose|i: int, d: Relative| #[trigger]
            is_best(maze, path, i, d) && maze.cell(path.last()).distance <= candidate(
                maze,
                path,
                i,
                d,
            ).distance && route == back_walk(path, i).push(neighbour(path[i], d).unwrap());
        assert(is_candidate(maze, path, i, d));
        let n = path.len() as int;
        let back = back_walk(path, i);
        let whole = path + route;
        assert forall|k: int| 0 <= k < route.len() - 1 implies path.contains(
            #[trigger] route[k],
        ) by {
            assert(route[k] == path[n - 2 - k]);
        }
        assert forall|j: int, k: int| 0 <= j && j + 1 == k && k < whole.len() implies adjacent(
            #[trigger] whole[j],
            #[trigger] whole[k],
        ) by {
            if k < n {
                assert(whole[k] == path[k]);
                assert(whole[j] == path[j]);
                assert(adjacent(path[j], path[k]));
            } else if k < n + back.len() {
                // a step back: from the cell at `from` to the one before it
                let from = n - 1 - (k - n);
                assert(whole[k] == back[k - n]);
                assert(whole[k] == path[from - 1]);
                if k == n {
                    assert(whole[j] == path[n - 1]);
                } else {
                    assert(whole[j] == back[j - n]);
                }
                assert(whole[j] == path[from]);
                assert(adjacent(path[from - 1], path[from]));
                let step = choose|step: Relative| #[trigger]
                    neighbour(path[from - 1], step) == Some(path[from]);
                assert(in_maze(path[from - 1]));
                lemma_neighbour_back(path[from - 1], step);
            } else {
                // the last step: from the cell at `i` to the candidate
                assert(k == n + back.len());
                assert(whole[k] == neighbour(path[i], d).unwrap());
                if back.len() == 0 {
                    assert(i == n - 1);
                    assert(whole[j] == path[n - 1]);
                } else {
                    assert(whole[j] == back[back.len() - 1]);
                }
                assert(whole[j] == path[i]);
                assert(neighbour(path[i], d) == Some(neighbour(path[i], d).unwrap()));
            }
        }
    }
}

/// Attempts to find the next segment based on `maze` and the taken `path`.
///
/// ### Description
///
/// Looks at every cell that is next to a cell of `path`, can be reached from
/// it and is not on `path` itself, and picks the one with the smallest
/// distance to the target; of several with that distance, the one next to
/// the latest cell of the path, and there the first of north, east, south,
/// west.
///
/// ### Arguments
///
/// - `maze` - The current maze.
/// - `path` - The taken path, which is not empty and lies on the grid.
///
/// ### Returns
///
/// - [Result::Found] - The picked segment, where it is nearer to the target
///   than the head of `path`.
/// - [Result::Stuck] - Otherwise: the way back from the head of `path` to the
///   picked segment, or the empty way where there is no cell to pick.
pub fn next(maze: &Maze, path: &Path) -> (r: Result)
    requires
        maze.wf(),
        path@.len() > 0,
        on_grid(path@),
    ensures
        r is Found <==> improves(*maze, path@),
        match r {
            Result::Found(seg) => exists|i: int, d: Relative| #[trigger]
                is_best(*maze, path@, i, d) && seg == candidate(*maze, path@, i, d)
                    && seg.distance < maze.cell(path@.last()).distance,
            Result::Stuck(route) => stuck_route(*maze, path@, vec_items(route)),
        },
{
    // the smallest segment so far, once one is found
    let mut min_segment = Segment::new();
    let mut found = false;
    // the place in the path of the cell from which it is reached
    let mut min_segment_distance: usize = 0;
    let ghost mut min_dir = Relative::North;

    let directions = Relative::iter();
    let n = path.len();
    let mut i: usize = n;
    while i > 0
        invariant
            maze.wf(),
            on_grid(path@),
            n == path@.len(),
            i <= n,
            min_segment_distance < n,
            directions@ == seq![Relative::North, Relative::East, Relative::South, Relative::West],
            best_so_far(
                *maze,
                path@,
                found,
                min_segment,
                min_segment_distance as int,
                min_dir,
                i as int,
                4,
            ),
        decreases i,
    {
        i -= 1;
        let current = maze.segment_vec(path.segment(i).unwrap());
        proof {
            assert(current.pos == path@[i as int]);
            assert forall|a: int, e: Relative| looked_at(a, e, i + 1, 4) == looked_at(
                a,
                e,
                i as int,
                0,
            ) by {}
        }

        let mut j: usize = 0;
        while j < 4
            invariant
                maze.wf(),
                on_grid(path@),
                n == path@.len(),
                i < n,
                j <= 4,
                min_segment_distance < n,
                current == maze.cell(path@[i as int]),
                current.pos == path@[i as int],
                directions@ == seq![
                    Relative::North,
                    Relative::East,
                    Relative::South,
                    Relative::West,
                ],
                best_so_far(
                    *maze,
                    path@,
                    found,
                    min_segment,
                    min_segment_distance as int,
                    min_dir,
                    i as int,
                    j as int,
                ),
            decreases 4 - j,
        {
            let dir = directions[j];
            assert(dir.spec_index() == j);
            if !current.walls[j] {
                if let Some(segment) = current.relative(maze, &dir) {
                    assert(segment.pos == neighbour(path@[i as int], dir).unwrap());
                    if !path.contains(segment.pos()) {
                        assert(is_candidate(*maze, path@, i as int, dir));
                        if !found || segment.distance < min_segment.distance {
                            min_segment = segment;
                            min_segment_distance = i;
                            found = true;
                            proof {
                                min_dir = dir;
                            }
                        }
                    }
                }
            }
            proof {
                assert forall|a: int, e: Relative|
                    looked_at(a, e, i as int, j + 1) implies looked_at(a, e, i as int, j as int)
                    || (a == i && e == dir) by {}
                assert(best_so_far(
                    *maze,
                    path@,
                    found,
                    min_segment,
                    min_segment_distance as int,
                    min_dir,
                    i as int,
                    j + 1,
                ));
            }
            j += 1;
        }
    }
    proof {
        assert forall|a: int, e: Relative| #[trigger]
            is_candidate(*maze, path@, a, e) implies looked_at(a, e, 0, 4) by {}
    }

    if !found {
        // nothing to drive to: there is no way to hand back
        let to_min = vec_new();
        proof {
            assert forall|a: int, e: Relative| !is_best(*maze, path@, a, e) by {}
        }
        return Result::Stuck(to_min);
    }
    let ghost at = min_segment_distance as int;
    proof {
        assert(is_best(*maze, path@, at, min_dir));
        assert forall|a: int, e: Relative| is_best(*maze, path@, a, e) implies a == at && e
            == min_dir by {
            lemma_best_is_unique(*maze, path@, a, e, at, min_dir);
        }
    }

    if maze.segment_vec(path.head().unwrap()).distance <= min_segment.distance {
        let mut to_min = vec_new();
        let mut k: usize = n - 1;
        while k > min_segment_distance
            invariant
                n == path@.len(),
                n <= MAZE_SIZE,
                min_segment_distance <= k <= n - 1,
                vec_items(to_min) == back_walk(path@, k as int),
            decreases k,
        {
            k -= 1;
            let _ = vec_push(&mut to_min, path.segment(k).unwrap());
            assert(vec_items(to_min) =~= back_walk(path@, k as int));
        }
        let _ = vec_push(&mut to_min, min_segment.pos());

        Result::Stuck(to_min)
    } else {
        Result::Found(min_segment)
    }
}

/// Whether `i` is the first place at which `v` stands in `s`.
pub open spec fn is_first_index(s: Seq<Vecu>, v: Vecu, i: int) -> bool {
    &&& 0 <= i < s.len()
    &&& s[i] == v
    &&& forall|k: int| 0 <= k < i ==> s[k] != v
}

/// The first place at which `v` stands in `s`.
pub open spec fn first_index(s: Seq<Vecu>, v: Vecu) -> int {
    choose|i: int| is_first_index(s, v, i)
}

/// The cell from which the head of `path` was reached: where a detour came
/// back to the path, the cell at which it had left.
pub open spec fn repair_root(path: Seq<Vecu>) -> Vecu {
    path[path.len() - 2]
}

/// Whether the distances along `path` can be repaired: the path still has
/// its loops, and the cell before its head stands in it a second time, earlier.
pub open spec fn repairs(path: Seq<Vecu>, optimized: bool) -> bool {
    &&& !optimized
    &&& path.len() >= 2
    &&& first_index(path, repair_root(path)) < path.len() - 2
}

/// The cells whose distances are repaired at most: those that `path` went
/// through between the first time at the cell before its head and the last.
pub open spec fn repair_zone(path: Seq<Vecu>) -> Set<Vecu> {
    Set::new(
        |p: Vecu|
            exists|k: int|
                first_index(path, repair_root(path)) < k < path.len() - 2 && path[k] == p,
    )
}

/// The ground of the repair: steps through the walls of `maze` that enter
/// nothing but the cells to repair.
pub open spec fn repair_ground(maze: Maze, path: Seq<Vecu>) -> Ground {
    Ground { maze, leave: Set::full(), enter: repair_zone(path) }
}

/// `n` as a distance: what does not fit is unknown.
pub open spec fn capped(n: int) -> u8 {
    if n > u8::MAX {
        u8::MAX
    } else {
        n as u8
    }
}

/// The distance of `p` after the repair along `path`: a cell that steps
/// through the cells to repair lead to, from the cell before the head, is
/// as many steps further from the target than that cell as the shortest
/// such way has; every other cell keeps its distance.
pub open spec fn repaired_distance(maze: Maze, path: Seq<Vecu>, p: Vecu) -> u8 {
    let root = repair_root(path);
    let g = repair_ground(maze, path);
    if p != root && g.reachable(root, p) {
        capped(maze.cell(root).distance + g.hops(root, p))
    } else {
        maze.cell(p).distance
    }
}

/// After the repair no cell of the detour looks nearer to the target than
/// the cell at which the detour began: each has a greater distance, or an
/// unknown one.
pub proof fn lemma_repaired_is_further(maze: Maze, path: Seq<Vecu>, p: Vecu)
    requires
        p != repair_root(path),
        repair_ground(maze, path).reachable(repair_root(path), p),
    ensures
        repaired_distance(maze, path, p) > maze.cell(repair_root(path)).distance
            || repaired_distance(maze, path, p) == u8::MAX,
{
    lemma_hops_exist(repair_ground(maze, path), repair_root(path), p);
}

/// What the repair has written while its search stands at `search`.
pub open spec fn repaired_so_far(
    before: Maze,
    now: Maze,
    root: Vecu,
    search: Search,
) -> bool {
    &&& now.wf()
    &&& forall|p: Vecu|
        in_maze(p) ==> {
            &&& (#[trigger] now.cell(p)).walls == before.cell(p).walls
            &&& now.cell(p).distance == if search.found(p) && p != root {
                capped(before.cell(root).distance + search.level[p])
            } else {
                before.cell(p).distance
            }
        }
}

/// Updates the distances in `maze` when a dead end is reached.
///
/// ### Description
///
/// The head of `path` was reached from the cell before it, the root. Where
/// the path has been at the root before, it has made a detour since, and
/// the cells of that detour lead nowhere nearer to the target. Their
/// distances are set by a breadth-first search from the root that enters
/// no other cells: each gets the distance of the cell from which the search
/// reached it, plus 1, so that none of them looks nearer to the target than
/// the root does.
///
/// Nothing changes where the path has been optimized, is shorter than two
/// cells, or has not been at the root before.
///
/// ### Arguments
///
/// - `maze` - The current maze.
/// - `path` - The taken path, which lies on the grid.
pub fn update_distances(maze: &mut Maze, path: &Path)
    requires
        old(maze).wf(),
        on_grid(path@),
    ensures
        final(maze).wf(),
        forall|p: Vecu|
            in_maze(p) ==> {
                &&& (#[trigger] final(maze).cell(p)).walls == old(maze).cell(p).walls
                &&& final(maze).cell(p).distance == if repairs(path@, path.optimized()) {
                    repaired_distance(*old(maze), path@, p)
                } else {
                    old(maze).cell(p).distance
                }
            },
{
    if path.optimized() || path.len() < 2 {
        return ;
    }
    let head_idx = path.len() - 2;
    let root = path.segment(head_idx).unwrap();

    // the first time at the root
    let mut previous_head_idx: usize = 0;
    while previous_head_idx < head_idx && path.segment(previous_head_idx).unwrap() != root
        invariant
            previous_head_idx <= head_idx,
            head_idx == path@.len() - 2,
            root == path@[head_idx as int],
            forall|k: int| 0 <= k < previous_head_idx ==> path@[k] != root,
        decreases head_idx - previous_head_idx,
    {
        previous_head_idx += 1;
    }
    proof {
        assert(is_first_index(path@, root, previous_head_idx as int));
        let chosen = first_index(path@, root);
        assert(is_first_index(path@, root, chosen));
        assert(chosen == previous_head_idx) by {
            if chosen < previous_head_idx {
                assert(path@[chosen] != root);
            }
            if previous_head_idx < chosen {
                assert(path@[previous_head_idx as int] != root);
            }
        }
    }

    // updating distances cannot be applied if there is no loop
    if previous_head_idx == head_idx {
        return ;
    }
    let ghost before = *maze;
    let ghost g = repair_ground(before, path@);
    assert(in_maze(root));

    // contains all vecs that can be explored.
    let mut options: CellMap<bool> = CellMap::new();
    let mut i: usize = previous_head_idx + 1;
    while i < head_idx
        invariant
            previous_head_idx < i <= head_idx,
            head_idx == path@.len() - 2,
            forall|p: Vecu|
                options@.contains_key(p) <==> exists|k: int|
                    previous_head_idx < k < i && path@[k] == p,
        decreases head_idx - i,
    {
        let ghost filled = options@;
        let cell = path.segment(i).unwrap();
        options.insert(cell, true);
        proof {
            assert forall|p: Vecu| options@.contains_key(p) <==> exists|k: int|
                previous_head_idx < k < i + 1 && path@[k] == p by {
                if options@.contains_key(p) {
                    if p == cell {
                        assert(previous_head_idx < i < i + 1 && path@[i as int] == p);
                    } else {
                        assert(filled.contains_key(p));
                        let k = choose|k: int| previous_head_idx < k < i && path@[k] == p;
                        assert(previous_head_idx < k < i + 1 && path@[k] == p);
                    }
                }
                if exists|k: int| previous_head_idx < k < i + 1 && path@[k] == p {
                    let k = choose|k: int| previous_head_idx < k < i + 1 && path@[k] == p;
                    if k < i {
                        assert(filled.contains_key(p));
                    }
                }
            }
        }
        i += 1;
    }
    assert forall|p: Vecu| options@.contains_key(p) == g.enter.contains(p) by {}

    let mut to_explore = deque_new();
    // contains the vecs that have been explored, with the value being the parent vec.
    // for the root, value is `None`.
    let mut explored: CellMap<Option<Vecu>> = CellMap::new();

    explored.insert(root, None);
    let _ = deque_push_back(&mut to_explore, root);
    let ghost mut search = lemma_start(g, root);
    proof {
        assert(deque_items(to_explore) =~= search.waiting());
        assert(explored@.dom() =~= search.level.dom());
    }

    let directions = Relative::iter();
    while !deque_is_empty(&to_explore)
        invariant
            in_maze(root),
            before.wf(),
            g == repair_ground(before, path@),
            forall|p: Vecu| options@.contains_key(p) == g.enter.contains(p),
            directions@ == seq![Relative::North, Relative::East, Relative::South, Relative::West],
            search.taken == 0 ==> search.inv(g, root, 0),
            search.taken >= 1 ==> search.inv(g, root, 4),
            deque_items(to_explore) == search.waiting(),
            explored@.dom() == search.level.dom(),
            repaired_so_far(before, *maze, root, search),
        decreases MAZE_SIZE - search.taken,
    {
        proof {
            lemma_cells_fit(search.order);
            assert(search.waiting().len() > 0);
            assert(search.waiting()[0] == search.order[search.taken as int]);
        }
        let current_pos = deque_pop_front(&mut to_explore).unwrap();
        let ghost taken_before = search.taken;
        proof {
            search = lemma_take(search, g, root);
            assert(deque_items(to_explore) =~= search.waiting());
        }
        assert(in_maze(current_pos));
        let current_segment = maze.segment_vec(current_pos);

        // check all directions for unvisited segments
        let mut j: usize = 0;
        while j < 4
            invariant
                j <= 4,
                in_maze(root),
                before.wf(),
                g == repair_ground(before, path@),
                forall|p: Vecu| options@.contains_key(p) == g.enter.contains(p),
                directions@ == seq![
                    Relative::North,
                    Relative::East,
                    Relative::South,
                    Relative::West,
                ],
                search.taken == taken_before + 1,
                taken_before < MAZE_SIZE,
                search.current() == current_pos,
                in_maze(current_pos),
                current_segment == maze.cell(current_pos),
                search.inv(g, root, j as int),
                deque_items(to_explore) == search.waiting(),
                explored@.dom() == search.level.dom(),
                repaired_so_far(before, *maze, root, search),
            decreases 4 - j,
        {
            let dir = directions[j];
            assert(dir.spec_index() == j);
            assert(current_segment.pos == current_pos);
            assert(current_segment.walls == before.cell(current_pos).walls);
            let mut fresh: Option<Vecu> = None;
            if !current_segment.walls[j] {
                if let Some(segment) = current_segment.relative(maze, &dir) {
                    let new_pos = segment.pos();
                    assert(new_pos == neighbour(current_pos, dir).unwrap());
                    if !explored.contains_key(&new_pos) && options.contains_key(&new_pos) {
                        fresh = Some(new_pos);
                    }
                }
            }
            match fresh {
                Some(new_pos) => {
                    let ghost found_before = search;
                    let ghost maze_before = *maze;
                    proof {
                        assert(!search.found(new_pos));
                        assert(g.link_by(current_pos, dir));
                        search = lemma_discover(search, g, root, dir);
                        lemma_cells_fit(found_before.order);
                    }
                    explored.insert(new_pos, Some(current_pos));
                    let _ = deque_push_back(&mut to_explore, new_pos);
                    maze.update_distance(
                        new_pos.x,
                        new_pos.y,
                        current_segment.distance.saturating_add(1),
                    );
                    proof {
                        assert(deque_items(to_explore) =~= search.waiting());
                        assert(explored@.dom() =~= search.level.dom());
                        assert(new_pos != current_pos);
                        assert(new_pos != root) by {
                            assert(found_before.order[0] == root);
                            assert(found_before.order.contains(root));
                        }
                        assert(found_before.order.contains(current_pos));
                        assert forall|p: Vecu| in_maze(p) implies {
                            &&& (#[trigger] maze.cell(p)).walls == before.cell(p).walls
                            &&& maze.cell(p).distance == if search.found(p) && p != root {
                                capped(before.cell(root).distance + search.level[p])
                            } else {
                                before.cell(p).distance
                            }
                        } by {
                            assert(maze_before.cell(p).walls == before.cell(p).walls);
                            if p != new_pos {
                                assert(maze.cell(p) == maze_before.cell(p));
                            }
                        }
                    }
                },
                None => {
                    proof {
                        lemma_pass(search, g, root, dir);
                    }
                },
            }
            j += 1;
        }
    }
    proof {
        assert(search.waiting().len() == 0);
        assert(search.taken == search.order.len());
        assert(search.taken >= 1);
        assert(repairs(path@, path.optimized()));
        assert forall|p: Vecu| in_maze(p) implies (#[trigger] maze.cell(p)).distance
            == repaired_distance(before, path@, p) by {
            if search.found(p) {
                assert(search.order.contains(p));
                let k = choose|k: int| 0 <= k < search.order.len() && search.order[k] == p;
                assert(g.is_hops(root, search.order[k], search.level[search.order[k]]));
                lemma_hops_is(g, root, p, search.level[p]);
            } else {
                if g.reachable(root, p) {
                    let m = choose|m: nat| g.reach_in(root, p, m);
                    lemma_all_cells_found(search, g, root, p, m);
                }
            }
        }
    }
}


/// The ground of the search for a cell that `path` has not been at: steps
/// through the walls of `maze` that leave nothing but cells of the path.
pub open spec fn frontier_ground(maze: Maze, path: Seq<Vecu>) -> Ground {
    Ground { maze, leave: path.to_set(), enter: Set::full() }
}

/// Whether `route` leads from the head of `path`, which it leaves out, step
/// by step over cells of the path to a cell that the path has not been at.
pub open spec fn is_route(maze: Maze, path: Seq<Vecu>, route: Seq<Vecu>) -> bool {
    &&& route.len() > 0
    &&& !path.contains(route.last())
    &&& is_way(frontier_ground(maze, path), path.last(), route)
}

/// The way that [next_unvisited] hands out can be driven: where the path
/// has no gap, the path with that way behind it has none.
pub proof fn lemma_route_joins(maze: Maze, path: Seq<Vecu>, route: Seq<Vecu>)
    requires
        path.len() > 0,
        linked(path),
        is_route(maze, path, route),
    ensures
        linked(path + route),
{
    let g = frontier_ground(maze, path);
    let n = path.len() as int;
    let whole = path + route;
    assert forall|j: int, k: int| 0 <= j && j + 1 == k && k < whole.len() implies adjacent(
        #[trigger] whole[j],
        #[trigger] whole[k],
    ) by {
        if k < n {
            assert(whole[k] == path[k]);
            assert(whole[j] == path[j]);
            assert(adjacent(path[j], path[k]));
        } else {
            assert(whole[k] == route[k - n]);
            assert(whole[j] == step_start(path.last(), route, k - n));
            assert(g.link(step_start(path.last(), route, k - n), route[k - n]));
            let step = choose|step: Relative| #[trigger]
                g.link_by(whole[j], step) && neighbour(whole[j], step) == Some(whole[k]);
            assert(neighbour(whole[j], step) == Some(whole[k]));
        }
    }
}

/// Of the ways that [next_unvisited] can hand out, it hands out one: no two
/// ways are each the first.
pub proof fn lemma_route_is_one(maze: Maze, path: Seq<Vecu>, a: Seq<Vecu>, b: Seq<Vecu>)
    requires
        is_first_route(maze, path, a),
        is_first_route(maze, path, b),
    ensures
        a == b,
{
    assert(is_route(maze, path, a));
    assert(is_route(maze, path, b));
    if a != b {
        assert(turns_off_first(path.last(), a, b));
        assert(turns_off_first(path.last(), b, a));
        crate::ways::lemma_turns_off_one_way(path.last(), a, b);
    }
}

/// Whether `route` is the first of the shortest ways from the head of
/// `path` to a cell that the path has not been at: none is shorter, and of
/// those as short, `route` takes at the first parting the direction that
/// comes first among north, east, south, west.
pub open spec fn is_first_route(maze: Maze, path: Seq<Vecu>, route: Seq<Vecu>) -> bool {
    &&& is_route(maze, path, route)
    &&& forall|other: Seq<Vecu>| #[trigger]
        is_route(maze, path, other) ==> route.len() < other.len() || (route.len() == other.len()
            && (other == route || turns_off_first(path.last(), route, other)))
}

/// What the search for an unvisited cell has noted of the cells it has
/// found: for the head of the path nothing, for every other cell the cell
/// from which it was found.
pub open spec fn noted(explored: Map<Vecu, Option<Vecu>>, search: Search, root: Vecu) -> bool {
    &&& explored.dom() == search.level.dom()
    &&& explored[root] == None::<Vecu>
    &&& forall|x: Vecu|
        search.found(x) && x != root ==> #[trigger] explored[x] == Some(search.parent[x])
}

/// Follows the notes of the search from `target` back to its root, and
/// returns the way from the root to `target`, the root left out.
fn trace_back(
    explored: &CellMap<Option<Vecu>>,
    target: Vecu,
    Ghost(search): Ghost<Search>,
    Ghost(g): Ghost<Ground>,
    Ghost(root): Ghost<Vecu>,
    Ghost(upto): Ghost<int>,
) -> (route: heapless::Vec<Vecu, MAZE_SIZE>)
    requires
        search.inv(g, root, upto),
        search.routed(g, root, upto),
        search.found(target),
        noted(explored@, search, root),
    ensures
        vec_items(route) == search.way[target],
{
    let ghost whole = search.way[target];
    let mut back = vec_new();
    let mut cur = target;
    proof {
        lemma_level_of_found(search, g, root, upto, target);
        assert(search.way_of(g, root, target));
        assert(whole.subrange(0, whole.len() as int) =~= whole);
    }
    loop
        invariant
            search.inv(g, root, upto),
            search.routed(g, root, upto),
            noted(explored@, search, root),
            search.found(cur),
            whole.len() < MAZE_SIZE,
            vec_items(back).len() + search.level[cur] == whole.len(),
            search.way[cur] == whole.subrange(0, search.level[cur] as int),
            forall|i: int|
                0 <= i < vec_items(back).len() ==> #[trigger] vec_items(back)[i] == whole[whole.len()
                    - 1 - i],
        ensures
            vec_items(back).len() == whole.len(),
        decreases search.level[cur],
    {
        proof {
            lemma_level_of_found(search, g, root, upto, cur);
            assert(search.way_of(g, root, cur));
            if cur != root {
                assert(search.parent.contains_key(cur));
                assert(search.way_of(g, root, search.parent[cur]));
            }
        }
        let parent: Option<Vecu> = match explored._get(&cur) {
            Some(entry) => *entry,
            None => None,
        };
        match parent {
            Some(from) => {
                let ghost walked = vec_items(back);
                let ghost at = search.level[cur] - 1;
                proof {
                    assert(from == search.parent[cur]);
                    assert(search.way[cur][at] == cur);
                    assert(whole.subrange(0, at + 1)[at] == whole[at]);
                    assert(search.way[from] =~= whole.subrange(0, at));
                }
                let _ = vec_push(&mut back, cur);
                proof {
                    assert forall|i: int| 0 <= i < vec_items(back).len() implies #[trigger] vec_items(
                        back,
                    )[i] == whole[whole.len() - 1 - i] by {
                        if i < walked.len() {
                            assert(vec_items(back)[i] == walked[i]);
                        }
                    }
                }
                cur = from;
            },
            None => {
                break ;
            },
        }
    }

    let steps = vec_as_slice(&back);
    let n = steps.len();
    let mut route = vec_new();
    let mut k: usize = n;
    while k > 0
        invariant
            k <= n,
            n == steps@.len(),
            n <= MAZE_SIZE,
            vec_items(route).len() == n - k,
            forall|i: int| 0 <= i < n - k ==> #[trigger] vec_items(route)[i] == steps@[n - 1 - i],
        decreases k,
    {
        k -= 1;
        let ghost so_far = vec_items(route);
        let _ = vec_push(&mut route, steps[k]);
        assert forall|i: int| 0 <= i < n - k implies #[trigger] vec_items(route)[i] == steps@[n
            - 1 - i] by {
            if i < n - k - 1 {
                assert(vec_items(route)[i] == so_far[i]);
            }
        }
    }
    proof {
        assert forall|i: int| 0 <= i < whole.len() implies vec_items(route)[i] == whole[i] by {
            assert(vec_items(route)[i] == steps@[n - 1 - i]);
        }
        assert(vec_items(route) =~= whole);
    }
    route
}

/// Finds the way to the nearest cell that `path` has not been at.
///
/// ### Description
///
/// Searches breadth first from the head of `path`, over the cells of the
/// path and through no wall, for a cell that is not on the path, and stops
/// at the first one that it takes from its queue: no such cell is fewer
/// steps away.
///
/// ### Arguments
///
/// - `maze` - The current maze.
/// - `path` - The taken path, which is not empty and lies on the grid.
///
/// ### Returns
///
/// The cells to drive over from the head of `path`, which is left out, to
/// that cell, which comes last; `None` where every cell that can be reached
/// from the head is on the path already, and nothing is left to explore.
pub fn next_unvisited(maze: &Maze, path: &Path) -> (r: Option<heapless::Vec<Vecu, MAZE_SIZE>>)
    requires
        maze.wf(),
        path@.len() > 0,
        on_grid(path@),
    ensures
        match r {
            Some(route) => {
                &&& is_first_route(*maze, path@, vec_items(route))
                &&& frontier_ground(*maze, path@).reach_in(
                    path@.last(),
                    vec_items(route).last(),
                    vec_items(route).len(),
                )
                &&& forall|x: Vecu, n: nat|
                    !path@.contains(x) && #[trigger] frontier_ground(*maze, path@).reach_in(
                        path@.last(),
                        x,
                        n,
                    ) ==> vec_items(route).len() <= n
            },
            None => forall|x: Vecu, n: nat| #[trigger]
                frontier_ground(*maze, path@).reach_in(path@.last(), x, n) ==> path@.contains(x),
        },
{
    let head = path.head().unwrap();
    let ghost g = frontier_ground(*maze, path@);
    assert(in_maze(head));

    let mut to_explore = deque_new();
    // contains the vecs that have been explored, with the value being the parent vec.
    // for the head, value is `None`.
    let mut explored: CellMap<Option<Vecu>> = CellMap::new();

    explored.insert(head, None);
    let _ = deque_push_back(&mut to_explore, head);
    let ghost mut search = lemma_start(g, head);
    proof {
        lemma_start_routed(search, g, head);
        assert(deque_items(to_explore) =~= search.waiting());
        assert(explored@.dom() =~= search.level.dom());
    }

    let directions = Relative::iter();
    while !deque_is_empty(&to_explore)
        invariant
            maze.wf(),
            in_maze(head),
            path@.len() > 0,
            search.taken == 0 ==> search.routed(g, head, 0),
            search.taken >= 1 ==> search.routed(g, head, 4),
            head == path@.last(),
            g == frontier_ground(*maze, path@),
            directions@ == seq![Relative::North, Relative::East, Relative::South, Relative::West],
            search.taken == 0 ==> search.inv(g, head, 0),
            search.taken >= 1 ==> search.inv(g, head, 4) && path@.contains(search.current()),
            deque_items(to_explore) == search.waiting(),
            noted(explored@, search, head),
        decreases MAZE_SIZE - search.taken,
    {
        proof {
            lemma_cells_fit(search.order);
            assert(search.waiting().len() > 0);
            assert(search.waiting()[0] == search.order[search.taken as int]);
        }
        let current_pos = deque_pop_front(&mut to_explore).unwrap();
        let ghost taken_before = search.taken;
        proof {
            let ghost taken_from = search;
            search = lemma_take(search, g, head);
            lemma_take_routed(taken_from, g, head, search);
            assert(deque_items(to_explore) =~= search.waiting());
            assert(search.order.contains(current_pos));
        }
        assert(in_maze(current_pos));

        if !path.contains(current_pos) {
            assert(path@[path@.len() - 1] == head);
            let route = trace_back(
                &explored,
                current_pos,
                Ghost(search),
                Ghost(g),
                Ghost(head),
                Ghost(0),
            );
            proof {
                let way = vec_items(route);
                lemma_level_of_found(search, g, head, 0, current_pos);
                assert(search.way_of(g, head, current_pos));
                assert(way.last() == current_pos) by {
                    assert(search.parent.contains_key(current_pos));
                }
                lemma_way_reaches(g, head, way);
                assert(step_start(head, way, way.len() as int) == way.last());
                assert forall|x: Vecu, n: nat|
                    !path@.contains(x) && #[trigger] g.reach_in(head, x, n) implies way.len()
                    <= n by {
                    if n < search.level[current_pos] {
                        lemma_nearer_cells_left(search, g, head, 0, x, n);
                    }
                }
                assert forall|other: Seq<Vecu>| #[trigger]
                    is_route(*maze, path@, other) implies way.len() < other.len() || (way.len()
                    == other.len() && (other == way || turns_off_first(head, way, other))) by {
                    lemma_first_way(search, g, head, 0, other);
                }
            }
            return Some(route);
        }
        let current_segment = maze.segment_vec(current_pos);

        // check all directions for unvisited segments
        let mut j: usize = 0;
        while j < 4
            invariant
                j <= 4,
                maze.wf(),
                in_maze(head),
                g == frontier_ground(*maze, path@),
                directions@ == seq![
                    Relative::North,
                    Relative::East,
                    Relative::South,
                    Relative::West,
                ],
                search.taken == taken_before + 1,
                taken_before < MAZE_SIZE,
                search.current() == current_pos,
                in_maze(current_pos),
                path@.contains(current_pos),
                current_segment == maze.cell(current_pos),
                search.inv(g, head, j as int),
                search.routed(g, head, j as int),
                deque_items(to_explore) == search.waiting(),
                noted(explored@, search, head),
            decreases 4 - j,
        {
            let dir = directions[j];
            assert(dir.spec_index() == j);
            assert(current_segment.pos == current_pos);
            let mut fresh: Option<Vecu> = None;
            if !current_segment.walls[j] {
                if let Some(segment) = current_segment.relative(maze, &dir) {
                    let new_pos = segment.pos();
                    assert(new_pos == neighbour(current_pos, dir).unwrap());
                    if !explored.contains_key(&new_pos) {
                        fresh = Some(new_pos);
                    }
                }
            }
            match fresh {
                Some(new_pos) => {
                    let ghost found_before = search;
                    proof {
                        assert(!search.found(new_pos));
                        assert(g.link_by(current_pos, dir));
                        search = lemma_discover(search, g, head, dir);
                        lemma_discover_routed(found_before, g, head, dir, search);
                        assert(found_before.order[0] == head);
                        assert(found_before.order.contains(head));
                    }
                    explored.insert(new_pos, Some(current_pos));
                    let _ = deque_push_back(&mut to_explore, new_pos);
                    proof {
                        assert(deque_items(to_explore) =~= search.waiting());
                        assert(explored@.dom() =~= search.level.dom());
                    }
                },
                None => {
                    proof {
                        lemma_pass(search, g, head, dir);
                        lemma_pass_routed(search, g, head, j as int);
                    }
                },
            }
            j += 1;
        }
    }
    proof {
        assert(search.waiting().len() == 0);
        assert(search.taken == search.order.len());
        assert forall|x: Vecu, n: nat| #[trigger] g.reach_in(head, x, n) implies path@.contains(
            x,
        ) by {
            lemma_all_cells_found(search, g, head, x, n);
            assert(search.order.contains(x));
            let k = choose|k: int| 0 <= k < search.order.len() && search.order[k] == x;
            if k < search.taken - 1 {
                assert(g.leave.contains(search.order[k]));
            }
        }
    }
    None
}

} // verus!
