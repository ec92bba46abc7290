//! The maze: a fixed grid of segments, each with its walls and its distance to
//! the target.

use vstd::prelude::*;
use crate::pathfinder::Target;
use crate::vec::Vecu;
use crate::{MAZE_HEIGHT_U8, MAZE_SIZE, MAZE_WIDTH_U8};

verus! {

/// The relative direction.
#[derive(PartialEq, Eq, Structural, Copy, Clone, Debug)]
pub enum Relative {
    North,
    East,
    South,
    West,
}

impl Relative {
    /// The place of this direction in a segment's `walls`.
    pub open spec fn spec_index(self) -> int {
        match self {
            Relative::North => 0,
            Relative::East => 1,
            Relative::South => 2,
            Relative::West => 3,
        }
    }

    /// The direction opposite to this direction.
    pub open spec fn spec_opposite(self) -> Relative {
        match self {
            Relative::North => Relative::South,
            Relative::East => Relative::West,
            Relative::South => Relative::North,
            Relative::West => Relative::East,
        }
    }

    /// Returns all relative directions, in the order of a segment's `walls`.
    pub fn iter() -> (all: [Relative; 4])
        ensures
            all@ == seq![Relative::North, Relative::East, Relative::South, Relative::West],
            forall|d: Relative| all@[d.spec_index()] == d,
    {
        let all = [Relative::North, Relative::East, Relative::South, Relative::West];
        assert(all@ =~= seq![Relative::North, Relative::East, Relative::South, Relative::West]);
        all
    }

    /// Returns the place of this direction in a segment's `walls`.
    #[verifier::when_used_as_spec(spec_index_usize)]
    pub fn index(&self) -> (i: usize)
        ensures
            i == self.spec_index(),
    {
        match self {
            Relative::North => 0,
            Relative::East => 1,
            Relative::South => 2,
            Relative::West => 3,
        }
    }

    /// What [`Relative::index`] returns.
    pub open spec fn spec_index_usize(&self) -> usize {
        self.spec_index() as usize
    }

    /// Returns the direction opposite to this direction.
    #[verifier::when_used_as_spec(spec_opposite_ref)]
    pub fn opposite(&self) -> (o: Relative)
        ensures
            o == self.spec_opposite(),
    {
        match self {
            Relative::North => Relative::South,
            Relative::East => Relative::West,
            Relative::South => Relative::North,
            Relative::West => Relative::East,
        }
    }

    /// What [`Relative::opposite`] returns.
    pub open spec fn spec_opposite_ref(&self) -> Relative {
        self.spec_opposite()
    }
}

/// Whether `pos` lies on the grid.
pub open spec fn in_maze(pos: Vecu) -> bool {
    pos.x < MAZE_WIDTH_U8 && pos.y < MAZE_HEIGHT_U8
}

/// The position next to `pos` in direction `dir`, if the grid has one.
/// North is towards smaller `y`, west towards smaller `x`.
pub open spec fn neighbour(pos: Vecu, dir: Relative) -> Option<Vecu> {
    match dir {
        Relative::North => if pos.y > 0 {
            Some(Vecu { x: pos.x, y: (pos.y - 1) as u8 })
        } else {
            None
        },
        Relative::East => if pos.x + 1 < MAZE_WIDTH_U8 {
            Some(Vecu { x: (pos.x + 1) as u8, y: pos.y })
        } else {
            None
        },
        Relative::South => if pos.y + 1 < MAZE_HEIGHT_U8 {
            Some(Vecu { x: pos.x, y: (pos.y + 1) as u8 })
        } else {
            None
        },
        Relative::West => if pos.x > 0 {
            Some(Vecu { x: (pos.x - 1) as u8, y: pos.y })
        } else {
            None
        },
    }
}

/// Whether `b` is the cell next to `a` in one of the four directions.
pub open spec fn adjacent(a: Vecu, b: Vecu) -> bool {
    exists|d: Relative| #[trigger] neighbour(a, d) == Some(b)
}

/// Whether `cells` can be driven without a gap: each cell is next to the
/// one before it.
pub open spec fn linked(cells: Seq<Vecu>) -> bool {
    forall|j: int, k: int|
        0 <= j && j + 1 == k && k < cells.len() ==> adjacent(
            #[trigger] cells[j],
            #[trigger] cells[k],
        )
}

/// The way back is a step too: the neighbour of a cell has that cell as its
/// neighbour in the opposite direction.
pub proof fn lemma_neighbour_back(a: Vecu, d: Relative)
    requires
        in_maze(a),
        neighbour(a, d) is Some,
    ensures
        in_maze(neighbour(a, d).unwrap()),
        neighbour(neighbour(a, d).unwrap(), d.spec_opposite()) == Some(a),
        adjacent(a, neighbour(a, d).unwrap()),
        adjacent(neighbour(a, d).unwrap(), a),
{
    let b = neighbour(a, d).unwrap();
    assert(neighbour(a, d) == Some(b));
    assert(neighbour(b, d.spec_opposite()) == Some(a));
}

/// Whether every cell of `cells` lies on the grid.
pub open spec fn on_grid(cells: Seq<Vecu>) -> bool {
    forall|i: int| 0 <= i < cells.len() ==> in_maze(#[trigger] cells[i])
}

/// Represents a point on the grid.
#[derive(Copy, Clone, Debug, PartialEq)]
pub struct Segment {
    pub pos: Vecu,
    pub distance: u8,
    pub walls: [bool; 4],
}

impl Segment {
    /// How many of the four walls are set.
    pub open spec fn wall_count(&self) -> int {
        (if self.walls[0] { 1int } else { 0 }) + (if self.walls[1] { 1int } else { 0 })
            + (if self.walls[2] { 1int } else { 0 }) + (if self.walls[3] { 1int } else { 0 })
    }

    /// Creates a new default Segment: at `(0, 0)`, no walls, distance unknown.
    pub fn new() -> (s: Self)
        ensures
            s.pos == (Vecu { x: 0, y: 0 }),
            s.distance == u8::MAX,
            s.walls@ == seq![false, false, false, false],
    {
        let s = Segment { pos: Vecu::new(), distance: u8::MAX, walls: [false, false, false, false] };
        assert(s.walls@ =~= seq![false, false, false, false]);
        s
    }

    /// Creates a new default Segment at `pos`.
    pub fn with_pos(pos: Vecu) -> (s: Self)
        ensures
            s.pos == pos,
            s.distance == u8::MAX,
            s.walls@ == seq![false, false, false, false],
    {
        let s = Segment { pos, distance: u8::MAX, walls: [false, false, false, false] };
        assert(s.walls@ =~= seq![false, false, false, false]);
        s
    }

    /// Returns the position of this segment.
    pub fn pos(&self) -> (p: Vecu)
        ensures
            p == self.pos,
    {
        self.pos
    }

    /// Counts the walls of this segment.
    fn count_walls(&self) -> (n: usize)
        ensures
            n == self.wall_count(),
    {
        let mut n: usize = 0;
        if self.walls[0] {
            n += 1;
        }
        if self.walls[1] {
            n += 1;
        }
        if self.walls[2] {
            n += 1;
        }
        if self.walls[3] {
            n += 1;
        }
        n
    }

    /// Whether this segment is a dead end.
    /// A dead end is defined as a segment with 3 walls and 1 entrance.
    pub fn is_dead_end(&self) -> (b: bool)
        ensures
            b == (self.wall_count() == 3),
    {
        self.count_walls() == 3
    }

    /// Whether this segment is straight.
    /// A segment is straight when there are 2 walls and 1 exit and 1 entrance.
    pub fn is_straight(&self) -> (b: bool)
        ensures
            b == (self.wall_count() == 2),
    {
        self.count_walls() == 2
    }

    /// Returns the segment relative to this one by direction `relative`, or
    /// `None` where the grid ends there.
    ///
    /// ### Arguments
    ///
    /// - `maze` - A maze ref.
    /// - `relative` - The direction.
    pub fn relative(&self, maze: &Maze, relative: &Relative) -> (r: Option<Segment>)
        requires
            in_maze(self.pos),
        ensures
            r == match neighbour(self.pos, *relative) {
                Some(p) => Some(maze.cell(p)),
                None => None,
            },
    {
        let (x, y) = (self.pos.x, self.pos.y);

        match *relative {
            Relative::North if y > 0 => Some(maze.segment(x, y - 1)),
            Relative::South if y + 1 < MAZE_HEIGHT_U8 => Some(maze.segment(x, y + 1)),
            Relative::West if x > 0 => Some(maze.segment(x - 1, y)),
            Relative::East if x + 1 < MAZE_WIDTH_U8 => Some(maze.segment(x + 1, y)),
            _ => None,
        }
    }
}

impl Default for Segment {
    fn default() -> (s: Self)
        ensures
            s.pos == (Vecu { x: 0, y: 0 }),
            s.distance == u8::MAX,
            s.walls@ == seq![false, false, false, false],
    {
        Self::new()
    }
}

/// Whether the wall of `target` in direction `d`, as `walls` has it, is the
/// wall `k` of the segment at `p` seen from the other side.
pub open spec fn raises(target: Vecu, walls: [bool; 4], d: Relative, p: Vecu, k: int) -> bool {
    walls[d.spec_index()] && neighbour(target, d) == Some(p) && k == d.spec_opposite().spec_index()
}

/// Whether one of the first `n` directions of `walls` at `target` raises the
/// wall `k` of the segment at `p`.
pub open spec fn raised_before(target: Vecu, walls: [bool; 4], p: Vecu, k: int, n: int) -> bool {
    ||| 0 < n && raises(target, walls, Relative::North, p, k)
    ||| 1 < n && raises(target, walls, Relative::East, p, k)
    ||| 2 < n && raises(target, walls, Relative::South, p, k)
    ||| 3 < n && raises(target, walls, Relative::West, p, k)
}

/// The place of `pos` in a maze's storage: row after row.
pub open spec fn cell_index(pos: Vecu) -> int {
    pos.x + pos.y * MAZE_WIDTH_U8
}

/// The number of steps between `pos` and the cell `(cx, cy)` on a grid without walls.
pub open spec fn manhattan(pos: Vecu, cx: int, cy: int) -> int {
    (if pos.x >= cx { pos.x - cx } else { cx - pos.x })
        + (if pos.y >= cy { pos.y - cy } else { cy - pos.y })
}

/// The smaller of two numbers.
pub open spec fn least(a: int, b: int) -> int {
    if a <= b { a } else { b }
}

/// The distance that a new maze gives to `pos`: the number of steps to the
/// nearest cell of the target on a grid without walls.
pub open spec fn target_distance(target: Target, pos: Vecu) -> int {
    match target {
        Target::Center => least(
            least(manhattan(pos, 8, 8), manhattan(pos, 7, 8)),
            least(manhattan(pos, 8, 7), manhattan(pos, 7, 7)),
        ),
        Target::Origin => manhattan(pos, 0, 0),
    }
}

/// Calculates the distance to the specified point
fn maze_calc_distance(x: u8, y: u8, cx: i8, cy: i8) -> (d: u8)
    requires
        x < MAZE_WIDTH_U8,
        y < MAZE_HEIGHT_U8,
        0 <= cx < MAZE_WIDTH_U8,
        0 <= cy < MAZE_HEIGHT_U8,
    ensures
        d == manhattan(Vecu { x, y }, cx as int, cy as int),
{
    let dx: i8 = (x as i8) - cx;
    let dy: i8 = (y as i8) - cy;
    let ax: i8 = if dx < 0 { -dx } else { dx };
    let ay: i8 = if dy < 0 { -dy } else { dy };
    (ax + ay) as u8
}

/// Converts the position to the index for `segments`.
fn xy_to_index(x: u8, y: u8) -> (i: usize)
    requires
        x < MAZE_WIDTH_U8,
        y < MAZE_HEIGHT_U8,
    ensures
        i == cell_index(Vecu { x, y }),
        i < MAZE_SIZE,
{
    (x + y * MAZE_WIDTH_U8) as usize
}

/// Converts the position to the index for `segments`.
fn pos_to_index(pos: Vecu) -> (i: usize)
    requires
        in_maze(pos),
    ensures
        i == cell_index(pos),
        i < MAZE_SIZE,
{
    xy_to_index(pos.x, pos.y)
}

/// The distance that a new maze with `target` gives to the cell at `x, y`.
fn initial_distance(target: Target, x: u8, y: u8) -> (d: u8)
    requires
        x < MAZE_WIDTH_U8,
        y < MAZE_HEIGHT_U8,
    ensures
        d == target_distance(target, Vecu { x, y }),
{
    let distances: [u8; 4] = match target {
        Target::Center => [
            maze_calc_distance(x, y, 8, 8),
            maze_calc_distance(x, y, 7, 8),
            maze_calc_distance(x, y, 8, 7),
            maze_calc_distance(x, y, 7, 7),
        ],
        Target::Origin => [maze_calc_distance(x, y, 0, 0), u8::MAX, u8::MAX, u8::MAX],
    };
    let mut min: u8 = distances[0];
    let mut k: usize = 1;
    while k < 4
        invariant
            1 <= k <= 4,
            forall|j: int| 0 <= j < k ==> min <= distances[j],
            exists|j: int| 0 <= j < k && min == distances[j],
        decreases 4 - k,
    {
        if distances[k] < min {
            min = distances[k];
        }
        k += 1;
    }
    min
}

/// Represents the maze
#[derive(Debug)]
pub struct Maze {
    segments: [Segment; MAZE_SIZE],
}

impl Maze {
    /// The segment at `pos`.
    pub closed spec fn cell(&self, pos: Vecu) -> Segment {
        self.segments@[cell_index(pos)]
    }

    /// What holds of every maze: each segment knows its own position, and a
    /// wall between two cells is recorded in both of them.
    pub open spec fn wf(&self) -> bool {
        &&& forall|p: Vecu| in_maze(p) ==> (#[trigger] self.cell(p)).pos == p
        &&& forall|p: Vecu, d: Relative|
            in_maze(p) && (#[trigger] neighbour(p, d)) is Some ==> self.cell(p).walls[d.spec_index()]
                == self.cell(neighbour(p, d).unwrap()).walls[d.spec_opposite().spec_index()]
    }

    /// Whether `walls` has every wall that the segment at `pos` has already.
    pub open spec fn keeps_walls(&self, pos: Vecu, walls: [bool; 4]) -> bool {
        forall|k: int| 0 <= k < 4 && self.cell(pos).walls[k] ==> walls[k]
    }

    /// The wall `k` of the segment at `p` once the segment at `target` has
    /// been given `walls`: the new walls at `target` itself, and beside it
    /// the walls that were there together with those that `walls` raises.
    pub open spec fn wall_after(&self, target: Vecu, walls: [bool; 4], p: Vecu, k: int) -> bool {
        if p == target {
            walls[k]
        } else {
            self.cell(p).walls[k] || raised_before(target, walls, p, k, 4)
        }
    }
}

/// Whether the way from `p` in direction `d` is free: `p` lies on the grid,
/// the grid goes on in that direction, and the segment at `p` has no wall
/// on that side.
pub open spec fn open_step(maze: Maze, p: Vecu, d: Relative) -> bool {
    in_maze(p) && !maze.cell(p).walls[d.spec_index()] && neighbour(p, d) is Some
}

/// Creates a new Maze with the provided walls.
fn with_walls_fn<T>(target: Target, walls: T) -> (maze: Maze) where T: Fn(u8, u8) -> [bool; 4]
    requires
        forall|x: u8, y: u8| x < MAZE_WIDTH_U8 && y < MAZE_HEIGHT_U8 ==> walls.requires((x, y)),
    ensures
        forall|p: Vecu|
            in_maze(p) ==> {
                &&& (#[trigger] maze.cell(p)).pos == p
                &&& maze.cell(p).distance == target_distance(target, p)
                &&& walls.ensures((p.x, p.y), maze.cell(p).walls)
            },
{
    let mut points = [Segment::new();MAZE_SIZE];

    for x in 0..MAZE_WIDTH_U8
        invariant
            forall|x: u8, y: u8| x < MAZE_WIDTH_U8 && y < MAZE_HEIGHT_U8 ==> walls.requires((x, y)),
            forall|p: Vecu|
                in_maze(p) && p.x < x ==> {
                    &&& (#[trigger] points@[cell_index(p)]).pos == p
                    &&& points@[cell_index(p)].distance == target_distance(target, p)
                    &&& walls.ensures((p.x, p.y), points@[cell_index(p)].walls)
                },
    {
        for y in 0..MAZE_HEIGHT_U8
            invariant
                x < MAZE_WIDTH_U8,
                forall|x: u8, y: u8|
                    x < MAZE_WIDTH_U8 && y < MAZE_HEIGHT_U8 ==> walls.requires((x, y)),
                forall|p: Vecu|
                    in_maze(p) && (p.x < x || (p.x == x && p.y < y)) ==> {
                        &&& (#[trigger] points@[cell_index(p)]).pos == p
                        &&& points@[cell_index(p)].distance == target_distance(target, p)
                        &&& walls.ensures((p.x, p.y), points@[cell_index(p)].walls)
                    },
        {
            let ghost before = points;
            points[xy_to_index(x, y)] = Segment {
                pos: Vecu { x, y },
                distance: initial_distance(target, x, y),
                walls: walls(x, y),
            };
            proof {
                assert forall|p: Vecu|
                    in_maze(p) && (p.x < x || (p.x == x && p.y < y + 1)) implies {
                    &&& (#[trigger] points@[cell_index(p)]).pos == p
                    &&& points@[cell_index(p)].distance == target_distance(target, p)
                    &&& walls.ensures((p.x, p.y), points@[cell_index(p)].walls)
                } by {
                    if p != (Vecu { x, y }) {
                        assert(cell_index(p) != cell_index(Vecu { x, y }));
                        assert(points@[cell_index(p)] == before@[cell_index(p)]);
                    }
                }
            }
        }
    }

    Maze { segments: points }
}

impl Maze {
    /// Creates a new maze centered around the center: no walls, and each
    /// distance counted to the nearest of the four cells in the middle.
    pub fn new() -> (maze: Self)
        ensures
            maze.wf(),
            forall|p: Vecu|
                in_maze(p) ==> {
                    &&& (#[trigger] maze.cell(p)).distance == target_distance(Target::Center, p)
                    &&& maze.cell(p).walls@ == seq![false, false, false, false]
                },
    {
        let none = |_x: u8, _y: u8| -> (w: [bool; 4])
            ensures
                w@ == seq![false, false, false, false],
            {
                let w = [false, false, false, false];
                assert(w@ =~= seq![false, false, false, false]);
                w
            };
        with_walls_fn(Target::Center, none)
    }

    /// Creates a new maze with the specified target and the existing maze to use walls from.
    pub fn with_walls(target: Target, maze: Maze) -> (fresh: Self)
        requires
            maze.wf(),
        ensures
            fresh.wf(),
            forall|p: Vecu|
                in_maze(p) ==> {
                    &&& (#[trigger] fresh.cell(p)).distance == target_distance(target, p)
                    &&& fresh.cell(p).walls == maze.cell(p).walls
                },
    {
        let copied = |x: u8, y: u8| -> (w: [bool; 4])
            requires
                x < MAZE_WIDTH_U8,
                y < MAZE_HEIGHT_U8,
            ensures
                w == maze.cell(Vecu { x, y }).walls,
            { maze.segment(x, y).walls };
        with_walls_fn(target, copied)
    }

    /// Returns the segment at `x, y`.
    pub fn segment(&self, x: u8, y: u8) -> (s: Segment)
        requires
            x < MAZE_WIDTH_U8,
            y < MAZE_HEIGHT_U8,
        ensures
            s == self.cell(Vecu { x, y }),
    {
        self.segments[xy_to_index(x, y)]
    }

    /// Returns the segment at `pos`.
    pub fn segment_vec(&self, pos: Vecu) -> (s: Segment)
        requires
            in_maze(pos),
        ensures
            s == self.cell(pos),
    {
        self.segment(pos.x, pos.y)
    }

    /// Whether `walls` has every wall that the segment at `x, y` has already:
    /// walls are only ever added, so only such walls can be handed to
    /// [`Maze::update_walls`].
    pub fn accepts_walls(&self, x: u8, y: u8, walls: [bool; 4]) -> (ok: bool)
        requires
            x < MAZE_WIDTH_U8,
            y < MAZE_HEIGHT_U8,
        ensures
            ok == self.keeps_walls(Vecu { x, y }, walls),
    {
        let existing = self.segment(x, y);
        let mut k: usize = 0;
        while k < 4
            invariant
                k <= 4,
                existing == self.cell(Vecu { x, y }),
                forall|j: int| 0 <= j < k && existing.walls[j] ==> walls[j],
            decreases 4 - k,
        {
            if existing.walls[k] && !walls[k] {
                return false;
            }
            k += 1;
        }
        true
    }

    /// Adds a wall at the specified direction.
    fn _add_wall(&mut self, x: u8, y: u8, direction: Relative)
        requires
            x < MAZE_WIDTH_U8,
            y < MAZE_HEIGHT_U8,
        ensures
            final(self).cell(Vecu { x, y }).pos == old(self).cell(Vecu { x, y }).pos,
            final(self).cell(Vecu { x, y }).distance == old(self).cell(Vecu { x, y }).distance,
            final(self).cell(Vecu { x, y }).walls@ == old(self).cell(Vecu { x, y }).walls@.update(
                direction.spec_index(),
                true,
            ),
            forall|p: Vecu|
                in_maze(p) && p != (Vecu { x, y }) ==> (#[trigger] final(self).cell(p)) == old(
                    self,
                ).cell(p),
    {
        let i = xy_to_index(x, y);
        let mut existing = self.segments[i];
        existing.walls[direction.index()] = true;
        self.segments[i] = existing;
        proof {
            assert forall|p: Vecu| in_maze(p) && p != (Vecu { x, y }) implies self.cell(p)
                == old(self).cell(p) by {
                assert(cell_index(p) != cell_index(Vecu { x, y }));
            }
        }
    }

    /// Updates the walls of the segment at `x, y` to the specified array, and
    /// raises the matching wall in each neighbour that a new wall faces.
    /// Walls can only be updated from false to true.
    pub fn update_walls(&mut self, x: u8, y: u8, walls: [bool; 4])
        requires
            old(self).wf(),
            x < MAZE_WIDTH_U8,
            y < MAZE_HEIGHT_U8,
            old(self).keeps_walls(Vecu { x, y }, walls),
        ensures
            final(self).wf(),
            forall|p: Vecu|
                in_maze(p) ==> (#[trigger] final(self).cell(p)).distance == old(self).cell(
                    p,
                ).distance,
            forall|p: Vecu, k: int|
                in_maze(p) && 0 <= k < 4 ==> (#[trigger] final(self).cell(p).walls[k]) == old(
                    self,
                ).wall_after(Vecu { x, y }, walls, p, k),
    {
        let target = Vecu { x, y };
        let i = xy_to_index(x, y);
        let mut existing = self.segments[i];
        existing.walls = walls;
        self.segments[i] = existing;
        proof {
            assert(old(self).cell(target).pos == target);
            assert(self.cell(target) == existing);
            assert forall|p: Vecu| in_maze(p) && p != target implies self.cell(p) == old(
                self,
            ).cell(p) by {
                assert(cell_index(p) != cell_index(target));
            }
            assert forall|p: Vecu| in_maze(p) implies {
                &&& (#[trigger] self.cell(p)).pos == p
                &&& self.cell(p).distance == old(self).cell(p).distance
            } by {
                assert(old(self).cell(p).pos == p);
            }
        }

        // update neighbouring segments' walls
        let directions = Relative::iter();
        let mut j: usize = 0;
        while j < 4
            invariant
                j <= 4,
                in_maze(target),
                target == (Vecu { x, y }),
                existing.pos == target,
                old(self).wf(),
                directions@ == seq![Relative::North, Relative::East, Relative::South, Relative::West],
                forall|p: Vecu|
                    in_maze(p) ==> {
                        &&& (#[trigger] self.cell(p)).pos == p
                        &&& self.cell(p).distance == old(self).cell(p).distance
                    },
                self.cell(target).walls == walls,
                forall|p: Vecu, k: int|
                    in_maze(p) && p != target && 0 <= k < 4 ==> (#[trigger] self.cell(p).walls[k])
                        == (old(self).cell(p).walls[k] || raised_before(
                        target,
                        walls,
                        p,
                        k,
                        j as int,
                    )),
            decreases 4 - j,
        {
            let dir = directions[j];
            if walls[j] {
                let relative = existing.relative(self, &dir);
                if let Some(found) = relative {
                    let ghost before = *self;
                    let mut relative = found;
                    relative.walls[dir.opposite().index()] = true;
                    self.segments[pos_to_index(relative.pos())] = relative;
                    proof {
                        let q = relative.pos;
                        assert(neighbour(target, dir) == Some(q));
                        assert(self.cell(q) == relative);
                        assert forall|p: Vecu, k: int|
                            in_maze(p) && p != target && 0 <= k < 4 implies (
                        #[trigger] self.cell(p).walls[k]) == (old(self).cell(p).walls[k]
                            || raised_before(target, walls, p, k, j + 1)) by {
                            if p == q {
                                assert(self.cell(p).walls@[k] == before.cell(p).walls@.update(
                                    dir.spec_opposite().spec_index(),
                                    true,
                                )[k]);
                            } else {
                                assert(cell_index(p) != cell_index(q));
                                assert(self.cell(p) == before.cell(p));
                            }
                        }
                        assert forall|p: Vecu| in_maze(p) implies {
                            &&& (#[trigger] self.cell(p)).pos == p
                            &&& self.cell(p).distance == old(self).cell(p).distance
                        } by {
                            if p != q {
                                assert(cell_index(p) != cell_index(q));
                            }
                            assert(before.cell(p).pos == p);
                        }
                    }
                }
            }
            j += 1;
        }
        proof {
            assert forall|p: Vecu, d: Relative|
                in_maze(p) && (#[trigger] neighbour(p, d)) is Some implies self.cell(
                p,
            ).walls[d.spec_index()] == self.cell(
                neighbour(p, d).unwrap(),
            ).walls[d.spec_opposite().spec_index()] by {
                let q = neighbour(p, d).unwrap();
                let o = d.spec_opposite();
                assert(neighbour(q, o) == Some(p));
                assert(old(self).cell(p).walls[d.spec_index()] == old(self).cell(
                    q,
                ).walls[o.spec_index()]);
                assert(self.cell(p).walls[d.spec_index()] == old(self).wall_after(
                    target,
                    walls,
                    p,
                    d.spec_index(),
                ));
                assert(self.cell(q).walls[o.spec_index()] == old(self).wall_after(
                    target,
                    walls,
                    q,
                    o.spec_index(),
                ));
            }
        }
    }

    /// Updates the walls of the segment at `x, y` as [`Maze::update_walls`]
    /// does, where `walls` has every wall that the segment has already, and
    /// returns `true`. Where `walls` would clear a wall, whatever it says of
    /// the other walls, the update fails: nothing in the maze changes, and
    /// `false` is returned.
    pub fn try_update_walls(&mut self, x: u8, y: u8, walls: [bool; 4]) -> (ok: bool)
        requires
            old(self).wf(),
            x < MAZE_WIDTH_U8,
            y < MAZE_HEIGHT_U8,
        ensures
            ok == old(self).keeps_walls(Vecu { x, y }, walls),
            !ok ==> *final(self) == *old(self),
            final(self).wf(),
            forall|p: Vecu|
                in_maze(p) ==> (#[trigger] final(self).cell(p)).distance == old(self).cell(
                    p,
                ).distance,
            ok ==> forall|p: Vecu, k: int|
                in_maze(p) && 0 <= k < 4 ==> (#[trigger] final(self).cell(p).walls[k]) == old(
                    self,
                ).wall_after(Vecu { x, y }, walls, p, k),
    {
        if !self.accepts_walls(x, y, walls) {
            return false;
        }
        self.update_walls(x, y, walls);
        true
    }

    /// Updates the distance of the segment at `x, y` to the specified value.
    pub fn update_distance(&mut self, x: u8, y: u8, distance: u8)
        requires
            x < MAZE_WIDTH_U8,
            y < MAZE_HEIGHT_U8,
        ensures
            final(self).cell(Vecu { x, y }) == (Segment {
                distance,
                ..old(self).cell(Vecu { x, y })
            }),
            forall|p: Vecu|
                in_maze(p) && p != (Vecu { x, y }) ==> (#[trigger] final(self).cell(p)) == old(
                    self,
                ).cell(p),
            old(self).wf() ==> final(self).wf(),
    {
        let i = xy_to_index(x, y);
        let existing = self.segments[i];
        self.segments[i] = Segment { pos: existing.pos, distance, walls: existing.walls };
        proof {
            assert forall|p: Vecu| in_maze(p) && p != (Vecu { x, y }) implies self.cell(p)
                == old(self).cell(p) by {
                assert(cell_index(p) != cell_index(Vecu { x, y }));
            }
            if old(self).wf() {
                assert forall|p: Vecu, d: Relative|
                    in_maze(p) && (#[trigger] neighbour(p, d)) is Some implies self.cell(
                    p,
                ).walls[d.spec_index()] == self.cell(
                    neighbour(p, d).unwrap(),
                ).walls[d.spec_opposite().spec_index()] by {
                    let q = neighbour(p, d).unwrap();
                    assert(self.cell(p).walls == old(self).cell(p).walls);
                    assert(self.cell(q).walls == old(self).cell(q).walls);
                }
            }
        }
    }
}

/// Walls are mutual: in every maze, a cell has a wall towards its neighbour
/// exactly where the neighbour has one towards the cell.
pub proof fn lemma_walls_mutual(maze: Maze, a: Vecu, d: Relative)
    requires
        maze.wf(),
        in_maze(a),
        neighbour(a, d) is Some,
    ensures
        maze.cell(a).walls[d.spec_index()] == maze.cell(
            neighbour(a, d).unwrap(),
        ).walls[d.spec_opposite().spec_index()],
        open_step(maze, a, d) == open_step(maze, neighbour(a, d).unwrap(), d.spec_opposite()),
{
    lemma_neighbour_back(a, d);
}

impl Default for Maze {
    fn default() -> (maze: Self)
        ensures
            maze.wf(),
            forall|p: Vecu|
                in_maze(p) ==> {
                    &&& (#[trigger] maze.cell(p)).distance == target_distance(Target::Center, p)
                    &&& maze.cell(p).walls@ == seq![false, false, false, false]
                },
    {
        Self::new()
    }
}

} // verus!
