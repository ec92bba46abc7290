use mouse::maze::{Maze, Relative, Segment};
use mouse::pathfinder::Target;
use mouse::vec::Vecu;

#[test]
fn test_wall_update() {
    let mut maze = Maze::new();
    maze.update_walls(0, 0, [false, true, false, false]);

    assert_eq!([false, true, false, false], maze.segment(0, 0).walls);
    assert_eq!([false, false, false, true], maze.segment(1, 0).walls);

    let mut maze = Maze::new();
    maze.update_walls(0, 0, [false, false, true, false]);

    assert_eq!([false, false, true, false], maze.segment(0, 0).walls);
    assert_eq!([true, false, false, false], maze.segment(0, 1).walls);

    let mut maze = Maze::new();
    maze.update_walls(1, 0, [false, false, false, true]);

    assert_eq!([false, false, false, true], maze.segment(1, 0).walls);
    assert_eq!([false, true, false, false], maze.segment(0, 0).walls);
}

#[test]
fn wall_update_refuses_to_clear_a_wall() {
    let mut maze = Maze::new();
    assert!(maze.accepts_walls(0, 0, [false, true, false, false]));
    maze.update_walls(0, 0, [false, true, false, false]);
    assert!(!maze.accepts_walls(0, 0, [false, false, false, false]));
    assert!(!maze.accepts_walls(0, 0, [true, false, true, true]));
    assert!(maze.accepts_walls(0, 0, [false, true, false, false]));
    assert!(maze.accepts_walls(0, 0, [true, true, true, true]));
    // the neighbour got the wall from the other side, and has to keep it
    assert!(!maze.accepts_walls(1, 0, [true, true, true, false]));
    assert!(maze.accepts_walls(1, 0, [false, false, false, true]));
}

#[test]
fn center_distances() {
    let maze = Maze::new();
    assert_eq!(14, maze.segment(0, 0).distance);
    assert_eq!(0, maze.segment(7, 7).distance);
    assert_eq!(0, maze.segment(7, 8).distance);
    assert_eq!(0, maze.segment(8, 7).distance);
    assert_eq!(0, maze.segment(8, 8).distance);
    assert_eq!(14, maze.segment(15, 15).distance);
    assert_eq!(14, maze.segment(0, 15).distance);
    assert_eq!(1, maze.segment(9, 8).distance);
    assert_eq!(7, maze.segment(0, 7).distance);
    assert_eq!(Vecu { x: 3, y: 9 }, maze.segment(3, 9).pos());
    assert_eq!([false, false, false, false], maze.segment(3, 9).walls);
}

#[test]
fn origin_distances_keep_the_walls() {
    let mut maze = Maze::new();
    maze.update_walls(2, 3, [true, false, false, true]);
    let maze = Maze::with_walls(Target::Origin, maze);
    assert_eq!(0, maze.segment(0, 0).distance);
    assert_eq!(30, maze.segment(15, 15).distance);
    assert_eq!(5, maze.segment(2, 3).distance);
    assert_eq!([true, false, false, true], maze.segment(2, 3).walls);
    assert_eq!([false, false, true, false], maze.segment(2, 2).walls);
    assert_eq!([false, true, false, false], maze.segment(1, 3).walls);
    assert_eq!([false, false, false, false], maze.segment(3, 3).walls);
}

#[test]
fn walls_are_mutual_after_updates() {
    let mut maze = Maze::new();
    maze.update_walls(5, 5, [true, true, true, true]);
    maze.update_walls(0, 0, [true, false, false, true]);
    maze.update_walls(15, 15, [false, true, true, false]);
    maze.update_walls(4, 5, [false, true, true, false]);
    for x in 0..16u8 {
        for y in 0..16u8 {
            let here = maze.segment(x, y);
            for dir in Relative::iter() {
                if let Some(there) = here.relative(&maze, &dir) {
                    assert_eq!(here.walls[dir.index()], there.walls[dir.opposite().index()]);
                }
            }
        }
    }
    assert_eq!([true, true, true, true], maze.segment(5, 5).walls);
    assert_eq!([false, true, true, false], maze.segment(4, 5).walls);
    assert_eq!([false, false, true, false], maze.segment(5, 4).walls);
    assert_eq!([false, false, false, true], maze.segment(6, 5).walls);
    assert_eq!([true, false, false, false], maze.segment(5, 6).walls);
    assert_eq!([true, false, false, false], maze.segment(4, 6).walls);
}

#[test]
fn update_distance_changes_one_cell() {
    let mut maze = Maze::new();
    maze.update_walls(3, 3, [true, false, false, false]);
    maze.update_distance(3, 3, 200);
    assert_eq!(200, maze.segment(3, 3).distance);
    assert_eq!([true, false, false, false], maze.segment(3, 3).walls);
    assert_eq!(Vecu { x: 3, y: 3 }, maze.segment_vec(Vecu { x: 3, y: 3 }).pos());
    assert_eq!(7, maze.segment(4, 3).distance);
    assert_eq!(9, maze.segment(3, 2).distance);
}

#[test]
fn relative_at_the_edges() {
    let maze = Maze::new();
    let corner = maze.segment(0, 0);
    assert!(corner.relative(&maze, &Relative::North).is_none());
    assert!(corner.relative(&maze, &Relative::West).is_none());
    assert_eq!(Vecu { x: 1, y: 0 }, corner.relative(&maze, &Relative::East).unwrap().pos());
    assert_eq!(Vecu { x: 0, y: 1 }, corner.relative(&maze, &Relative::South).unwrap().pos());
    let far = maze.segment(15, 15);
    assert!(far.relative(&maze, &Relative::South).is_none());
    assert!(far.relative(&maze, &Relative::East).is_none());
    assert_eq!(Vecu { x: 15, y: 14 }, far.relative(&maze, &Relative::North).unwrap().pos());
    assert_eq!(Vecu { x: 14, y: 15 }, far.relative(&maze, &Relative::West).unwrap().pos());
}

#[test]
fn directions_and_opposites() {
    assert_eq!(
        [Relative::North, Relative::East, Relative::South, Relative::West],
        Relative::iter()
    );
    assert_eq!(Relative::South, Relative::North.opposite());
    assert_eq!(Relative::West, Relative::East.opposite());
    assert_eq!(Relative::North, Relative::South.opposite());
    assert_eq!(Relative::East, Relative::West.opposite());
    assert_eq!(0, Relative::North.index());
    assert_eq!(1, Relative::East.index());
    assert_eq!(2, Relative::South.index());
    assert_eq!(3, Relative::West.index());
}

#[test]
fn segment_shapes() {
    let fresh = Segment::new();
    assert_eq!(Vecu { x: 0, y: 0 }, fresh.pos());
    assert_eq!(u8::MAX, fresh.distance);
    assert_eq!([false, false, false, false], fresh.walls);
    assert!(!fresh.is_dead_end());
    assert!(!fresh.is_straight());

    let mut seg = Segment::with_pos(Vecu { x: 4, y: 2 });
    assert_eq!(Vecu { x: 4, y: 2 }, seg.pos());
    seg.walls = [true, false, true, false];
    assert!(seg.is_straight());
    assert!(!seg.is_dead_end());
    seg.walls = [true, true, true, false];
    assert!(seg.is_dead_end());
    assert!(!seg.is_straight());
    seg.walls = [true, true, true, true];
    assert!(!seg.is_dead_end());
    assert_eq!(Segment::new(), Segment::default());
}

#[test]
fn wall_update_that_clears_a_wall_changes_nothing() {
    let mut maze = Maze::new();
    assert!(maze.try_update_walls(0, 0, [false, true, false, false]));
    assert_eq!([false, true, false, false], maze.segment(0, 0).walls);
    assert_eq!([false, false, false, true], maze.segment(1, 0).walls);

    // clears the east wall, whatever else it sets
    assert!(!maze.try_update_walls(0, 0, [false, false, false, false]));
    assert!(!maze.try_update_walls(0, 0, [true, false, true, true]));
    assert!(!maze.try_update_walls(1, 0, [true, true, true, false]));
    let fresh = {
        let mut fresh = Maze::new();
        fresh.update_walls(0, 0, [false, true, false, false]);
        fresh
    };
    for x in 0..16u8 {
        for y in 0..16u8 {
            assert_eq!(fresh.segment(x, y), maze.segment(x, y));
        }
    }

    // keeps it: the update goes through
    assert!(maze.try_update_walls(0, 0, [false, true, true, false]));
    assert_eq!([false, true, true, false], maze.segment(0, 0).walls);
    assert_eq!([true, false, false, false], maze.segment(0, 1).walls);
}
