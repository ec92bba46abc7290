use mouse::maze::Maze;
use mouse::path::Path;
use mouse::pathfinder;
use mouse::pathfinder::Target;
use mouse::vec::Vecu;

/// Finds any segment that has a distance of zero.
/// Updates `path` on the way.
///
/// ### Arguments
///
/// - `maze` - The maze.
/// - `path` - The path that has been taken so far. Is updated by this method.
fn find(maze: &mut Maze, path: &mut Path) {
    path.append(Vecu::new());

    loop {
        let result = pathfinder::next(&maze, &path);

        if result.is_found() {
            let next = result.unwrap_found();
            println!("{:?}", next);
            path.append(next.pos());

            if next.distance == 0 {
                break;
            }
            continue;
        } else {
            let next: &heapless::Vec<Vecu, 256> = result.unwrap_stuck();
            println!("{:?}", next);
            path.append_all(next);
            pathfinder::update_distances(maze, &path);
        }
    }
}

fn path_of(cells: &[(u8, u8)]) -> Path {
    let mut path = Path::new();
    for (x, y) in cells {
        path.append(Vecu { x: *x, y: *y });
    }
    path
}

fn cells_of(cells: &[Vecu]) -> Vec<(u8, u8)> {
    cells.iter().map(|c| (c.x, c.y)).collect()
}

#[test]
fn next() {
    let mut maze = Maze::new();
    let mut path = Path::new();

    find(&mut maze, &mut path);

    assert_eq!(15, path.len());
    assert_eq!(Vecu { x: 0, y: 0 }, path.segment(0).unwrap());
    assert_eq!(Vecu { x: 1, y: 0 }, path.segment(1).unwrap());
    assert_eq!(Vecu { x: 2, y: 0 }, path.segment(2).unwrap());
    assert_eq!(Vecu { x: 3, y: 0 }, path.segment(3).unwrap());
    assert_eq!(Vecu { x: 4, y: 0 }, path.segment(4).unwrap());
    assert_eq!(Vecu { x: 5, y: 0 }, path.segment(5).unwrap());
    assert_eq!(Vecu { x: 6, y: 0 }, path.segment(6).unwrap());
    assert_eq!(Vecu { x: 7, y: 0 }, path.segment(7).unwrap());
    assert_eq!(Vecu { x: 7, y: 1 }, path.segment(8).unwrap());
    assert_eq!(Vecu { x: 7, y: 2 }, path.segment(9).unwrap());
    assert_eq!(Vecu { x: 7, y: 3 }, path.segment(10).unwrap());
    assert_eq!(Vecu { x: 7, y: 4 }, path.segment(11).unwrap());
    assert_eq!(Vecu { x: 7, y: 5 }, path.segment(12).unwrap());
    assert_eq!(Vecu { x: 7, y: 6 }, path.segment(13).unwrap());
    assert_eq!(Vecu { x: 7, y: 7 }, path.segment(14).unwrap());
    assert!(path.segment(15).is_none());
}

#[test]
fn next_guided() {
    let mut maze = Maze::new();
    let mut path = Path::new();

    // ###
    // # #
    // # #
    maze.update_walls(0, 0, [true, true, false, true]);
    maze.update_walls(0, 1, [false, true, false, true]);

    find(&mut maze, &mut path);

    assert_eq!(Vecu { x: 0, y: 0 }, path.segment(0).unwrap());
    assert_eq!(Vecu { x: 0, y: 1 }, path.segment(1).unwrap());
    assert_eq!(Vecu { x: 0, y: 2 }, path.segment(2).unwrap());
    assert_eq!(Vecu { x: 1, y: 2 }, path.segment(3).unwrap());
    assert_eq!(Vecu { x: 2, y: 2 }, path.segment(4).unwrap());
}

#[test]
fn next_guided_diagonal() {
    let mut maze = Maze::new();
    let mut path = Path::new();

    // ######
    // #  ###
    // ##  ##
    // ###  #
    maze.update_walls(0, 0, [true, false, true, true]);
    maze.update_walls(1, 0, [true, true, false, false]);
    maze.update_walls(1, 1, [false, false, true, true]);
    maze.update_walls(2, 1, [true, true, false, false]);
    maze.update_walls(2, 2, [false, false, true, true]);
    maze.update_walls(3, 2, [true, true, false, false]);

    find(&mut maze, &mut path);

    assert_eq!(Vecu { x: 0, y: 0 }, path.segment(0).unwrap());
    assert_eq!(Vecu { x: 1, y: 0 }, path.segment(1).unwrap());
    assert_eq!(Vecu { x: 1, y: 1 }, path.segment(2).unwrap());
    assert_eq!(Vecu { x: 2, y: 1 }, path.segment(3).unwrap());
    assert_eq!(Vecu { x: 2, y: 2 }, path.segment(4).unwrap());
    assert_eq!(Vecu { x: 3, y: 2 }, path.segment(5).unwrap());
}

#[test]
fn general_deadend() {
    let mut maze = Maze::new();
    let mut path = Path::new();

    // #####
    // #   #
    // ## ##
    maze.update_walls(0, 0, [true, false, true, true]);
    maze.update_walls(1, 0, [true, false, false, false]);
    maze.update_walls(2, 0, [true, true, true, false]);
    maze.update_walls(1, 1, [false, false, false, false]);

    find(&mut maze, &mut path);

    assert_eq!(Vecu { x: 0, y: 0 }, path.segment(0).unwrap());
    assert_eq!(Vecu { x: 1, y: 0 }, path.segment(1).unwrap());
    assert_eq!(Vecu { x: 2, y: 0 }, path.segment(2).unwrap());
    assert_eq!(Vecu { x: 1, y: 0 }, path.segment(3).unwrap());
    assert_eq!(Vecu { x: 1, y: 1 }, path.segment(4).unwrap());

    println!("{:?}", maze);

    assert_eq!(14, maze.segment(0, 0).distance);
    assert_eq!(13, maze.segment(1, 0).distance);
    assert_eq!(14, maze.segment(2, 0).distance);
    assert_eq!(12, maze.segment(1, 1).distance);
}

#[test]
fn general_nontrivial_deadend() {
    let mut maze = Maze::new();
    let mut path = Path::new();

    // #######
    // #     #
    // # # # #
    // # #   #
    // # #####
    maze.update_walls(0, 0, [true, false, false, true]);
    maze.update_walls(1, 0, [true, false, false, false]);
    maze.update_walls(2, 0, [true, false, true, false]);
    maze.update_walls(3, 0, [true, true, false, false]);

    maze.update_walls(0, 1, [false, true, false, true]);
    maze.update_walls(1, 1, [false, false, true, true]);
    maze.update_walls(2, 1, [true, false, true, false]);
    maze.update_walls(3, 1, [false, true, true, false]);

    find(&mut maze, &mut path);

    assert_eq!(Vecu { x: 0, y: 0 }, path.segment(0).unwrap());
    assert_eq!(Vecu { x: 1, y: 0 }, path.segment(1).unwrap());
    assert_eq!(Vecu { x: 2, y: 0 }, path.segment(2).unwrap());
    assert_eq!(Vecu { x: 3, y: 0 }, path.segment(3).unwrap());
    assert_eq!(Vecu { x: 3, y: 1 }, path.segment(4).unwrap());
    assert_eq!(Vecu { x: 2, y: 1 }, path.segment(5).unwrap());
    assert_eq!(Vecu { x: 1, y: 1 }, path.segment(6).unwrap());
    assert_eq!(Vecu { x: 2, y: 1 }, path.segment(7).unwrap());
    assert_eq!(Vecu { x: 3, y: 1 }, path.segment(8).unwrap());
    assert_eq!(Vecu { x: 3, y: 0 }, path.segment(9).unwrap());
    assert_eq!(Vecu { x: 2, y: 0 }, path.segment(10).unwrap());
    assert_eq!(Vecu { x: 1, y: 0 }, path.segment(11).unwrap());
    assert_eq!(Vecu { x: 0, y: 0 }, path.segment(12).unwrap());
    assert_eq!(Vecu { x: 0, y: 1 }, path.segment(13).unwrap());
}

#[test]
fn open_maze_descends_by_one_each_step() {
    let mut maze = Maze::new();
    let mut path = Path::new();
    find(&mut maze, &mut path);

    assert_eq!(15, path.len());
    for i in 0..path.len() {
        let here = maze.segment_vec(path.segment(i).unwrap());
        assert_eq!(14 - i, here.distance as usize);
    }
    assert_eq!(0, maze.segment_vec(path.head().unwrap()).distance);
}

#[test]
fn next_takes_the_first_of_equal_candidates() {
    let maze = Maze::new();
    // east and south of the corner are equally near: east is looked at first
    let result = pathfinder::next(&maze, &path_of(&[(0, 0)]));
    assert!(result.is_found());
    assert!(!result.is_dead_end());
    let found = result.unwrap_found();
    assert_eq!(Vecu { x: 1, y: 0 }, found.pos());
    assert_eq!(13, found.distance);

    // of equal candidates along the path, the one next to the latest cell
    let result = pathfinder::next(&maze, &path_of(&[(15, 7), (15, 8)]));
    assert_eq!(Vecu { x: 14, y: 8 }, result.unwrap_found().pos());
}

#[test]
fn next_is_stuck_where_nothing_is_nearer() {
    let mut maze = Maze::new();
    maze.update_walls(0, 0, [true, false, true, true]);
    maze.update_walls(1, 0, [true, false, false, false]);
    maze.update_walls(2, 0, [true, true, true, false]);

    let path = path_of(&[(0, 0), (1, 0), (2, 0)]);
    let result = pathfinder::next(&maze, &path);
    assert!(result.is_dead_end());
    assert!(!result.is_found());
    assert_eq!(vec![(1, 0), (1, 1)], cells_of(result.unwrap_stuck()));
}

#[test]
fn next_without_any_candidate_hands_back_no_way() {
    // a cell walled in on all four sides
    let mut closed = Maze::new();
    closed.update_walls(5, 5, [true, true, true, true]);
    let result = pathfinder::next(&closed, &path_of(&[(5, 5)]));
    assert!(result.is_dead_end());
    assert!(!result.is_found());
    assert!(result.unwrap_stuck().is_empty());

    // two cells walled off from the rest, both driven
    let mut maze = Maze::new();
    maze.update_walls(3, 3, [true, false, true, true]);
    maze.update_walls(4, 3, [true, true, true, false]);
    let result = pathfinder::next(&maze, &path_of(&[(3, 3), (4, 3)]));
    assert!(result.is_dead_end());
    assert!(result.unwrap_stuck().is_empty());
}

#[test]
fn next_is_stuck_at_cells_of_unknown_distance() {
    // the four cells around (2, 2) have an unknown distance: the first of
    // them is the one to drive to, though it is not nearer
    let mut maze = Maze::new();
    maze.update_distance(2, 1, u8::MAX);
    maze.update_distance(3, 2, u8::MAX);
    maze.update_distance(2, 3, u8::MAX);
    maze.update_distance(1, 2, u8::MAX);
    let result = pathfinder::next(&maze, &path_of(&[(2, 2)]));
    assert!(result.is_dead_end());
    assert_eq!(vec![(2, 1)], cells_of(result.unwrap_stuck()));

    // one of them known: it is the best, and nearer than the head
    maze.update_distance(2, 3, 9);
    let result = pathfinder::next(&maze, &path_of(&[(2, 2)]));
    assert_eq!(Vecu { x: 2, y: 3 }, result.unwrap_found().pos());

    // the one way out of the corner leads to a cell of unknown distance
    let mut maze = Maze::new();
    maze.update_walls(0, 0, [true, false, true, true]);
    maze.update_distance(1, 0, u8::MAX);
    let result = pathfinder::next(&maze, &path_of(&[(0, 0)]));
    assert!(result.is_dead_end());
    assert_eq!(vec![(1, 0)], cells_of(result.unwrap_stuck()));

    // behind a driven cell: the way leads back over it
    let result = pathfinder::next(&maze, &path_of(&[(1, 1), (0, 1)]));
    assert!(result.is_found());
    let mut maze = Maze::new();
    maze.update_walls(0, 0, [true, true, false, true]);
    maze.update_walls(0, 1, [false, false, true, true]);
    maze.update_distance(1, 1, u8::MAX);
    let result = pathfinder::next(&maze, &path_of(&[(0, 1), (0, 0)]));
    assert!(result.is_dead_end());
    assert_eq!(vec![(0, 1), (1, 1)], cells_of(result.unwrap_stuck()));
}

#[test]
fn stuck_way_leaves_no_gap() {
    let mut maze = Maze::new();
    maze.update_walls(0, 0, [true, false, false, true]);
    maze.update_walls(1, 0, [true, false, false, false]);
    maze.update_walls(2, 0, [true, false, true, false]);
    maze.update_walls(3, 0, [true, true, false, false]);
    maze.update_walls(0, 1, [false, true, false, true]);
    maze.update_walls(1, 1, [false, false, true, true]);
    maze.update_walls(2, 1, [true, false, true, false]);
    maze.update_walls(3, 1, [false, true, true, false]);

    let mut path = path_of(&[(0, 0)]);
    for _ in 0..40 {
        let result = pathfinder::next(&maze, &path);
        if result.is_found() {
            path.append(result.unwrap_found().pos());
        } else {
            let way = result.unwrap_stuck();
            assert!(!way.is_empty());
            assert!(!path.contains(way[way.len() - 1]));
            for cell in &way[..way.len() - 1] {
                assert!(path.contains(*cell));
            }
            path.append_all(way);
            pathfinder::update_distances(&mut maze, &path);
        }
        for i in 1..path.len() {
            let a = path.segment(i - 1).unwrap();
            let b = path.segment(i).unwrap();
            let dx = (a.x as i16 - b.x as i16).abs();
            let dy = (a.y as i16 - b.y as i16).abs();
            assert_eq!(1, dx + dy);
        }
    }
}

#[test]
fn update_distances_repairs_the_pocket() {
    // a corridor east of (1, 0) that ends after three cells
    let mut maze = Maze::new();
    maze.update_walls(1, 0, [true, false, false, false]);
    maze.update_walls(2, 0, [true, false, true, false]);
    maze.update_walls(3, 0, [true, false, true, false]);
    maze.update_walls(4, 0, [true, true, true, false]);

    let path = path_of(&[(0, 0), (1, 0), (2, 0), (3, 0), (4, 0), (3, 0), (2, 0), (1, 0), (1, 1)]);
    pathfinder::update_distances(&mut maze, &path);

    // the entrance keeps its distance, the pocket counts up from it
    assert_eq!(13, maze.segment(1, 0).distance);
    assert_eq!(14, maze.segment(2, 0).distance);
    assert_eq!(15, maze.segment(3, 0).distance);
    assert_eq!(16, maze.segment(4, 0).distance);
    // nothing else changes
    assert_eq!(14, maze.segment(0, 0).distance);
    assert_eq!(12, maze.segment(1, 1).distance);
    assert_eq!(9, maze.segment(5, 0).distance);
    assert_eq!([true, true, true, false], maze.segment(4, 0).walls);

    // the pocket is not picked again
    let result = pathfinder::next(&maze, &path);
    assert!(result.is_found());
    let found = result.unwrap_found();
    assert!(found.pos() != Vecu { x: 2, y: 0 });
    assert_eq!(11, found.distance);
}

#[test]
fn update_distances_takes_the_shortest_way_through_the_detour() {
    // an open square that the path has walked around
    let mut maze = Maze::new();
    let path = path_of(&[(5, 5), (6, 5), (6, 6), (5, 6), (5, 5), (5, 4)]);
    pathfinder::update_distances(&mut maze, &path);
    assert_eq!(4, maze.segment(5, 5).distance);
    assert_eq!(5, maze.segment(6, 5).distance);
    assert_eq!(5, maze.segment(5, 6).distance);
    assert_eq!(6, maze.segment(6, 6).distance);
    assert_eq!(5, maze.segment(5, 4).distance);
    assert_eq!(5, maze.segment(4, 5).distance);
}

#[test]
fn update_distances_starts_at_the_first_visit_of_the_root() {
    let mut maze = Maze::new();
    // the root (2, 2) is visited three times; both detours are repaired
    let path = path_of(&[(2, 2), (3, 2), (2, 2), (2, 3), (2, 2), (1, 2)]);
    pathfinder::update_distances(&mut maze, &path);
    assert_eq!(10, maze.segment(2, 2).distance);
    assert_eq!(11, maze.segment(3, 2).distance);
    assert_eq!(11, maze.segment(2, 3).distance);
    assert_eq!(11, maze.segment(1, 2).distance);
}

#[test]
fn update_distances_respects_walls() {
    let mut maze = Maze::new();
    maze.update_walls(5, 5, [false, true, false, false]);
    // (6, 5) can only be reached around the wall, over (5, 6) and (6, 6)
    let path = path_of(&[(5, 5), (5, 6), (6, 6), (6, 5), (6, 6), (5, 6), (5, 5), (5, 4)]);
    pathfinder::update_distances(&mut maze, &path);
    assert_eq!(4, maze.segment(5, 5).distance);
    assert_eq!(5, maze.segment(5, 6).distance);
    assert_eq!(6, maze.segment(6, 6).distance);
    assert_eq!(7, maze.segment(6, 5).distance);
}

#[test]
fn update_distances_saturates() {
    let mut maze = Maze::new();
    maze.update_distance(5, 5, 254);
    let path = path_of(&[(5, 5), (6, 5), (7, 5), (6, 5), (5, 5), (5, 4)]);
    pathfinder::update_distances(&mut maze, &path);
    assert_eq!(254, maze.segment(5, 5).distance);
    assert_eq!(255, maze.segment(6, 5).distance);
    assert_eq!(255, maze.segment(7, 5).distance);
}

#[test]
fn update_distances_without_a_loop_changes_nothing() {
    let fresh = Maze::new();

    let mut maze = Maze::new();
    pathfinder::update_distances(&mut maze, &path_of(&[(0, 0), (1, 0), (2, 0)]));
    pathfinder::update_distances(&mut maze, &path_of(&[(0, 0)]));
    pathfinder::update_distances(&mut maze, &Path::new());
    // the loop does not end at the cell before the head
    pathfinder::update_distances(&mut maze, &path_of(&[(0, 0), (1, 0), (0, 0), (0, 1), (0, 2)]));
    // an optimized path is left alone
    let mut optimized = path_of(&[(1, 0), (2, 0), (1, 0), (1, 1)]);
    optimized.optimize();
    optimized.append_all(&[Vecu { x: 2, y: 1 }, Vecu { x: 1, y: 1 }, Vecu { x: 0, y: 1 }]);
    pathfinder::update_distances(&mut maze, &optimized);

    for x in 0..16u8 {
        for y in 0..16u8 {
            assert_eq!(fresh.segment(x, y), maze.segment(x, y));
        }
    }
}

#[test]
fn next_unvisited_finds_the_nearest_free_cell() {
    let mut maze = Maze::new();
    maze.update_walls(0, 0, [true, false, true, true]);
    maze.update_walls(1, 0, [true, false, false, false]);
    maze.update_walls(2, 0, [true, true, true, false]);

    // at the end of the pocket, the way out leads back over (1, 0)
    let path = path_of(&[(0, 0), (1, 0), (2, 0)]);
    let route = pathfinder::next_unvisited(&maze, &path).unwrap();
    assert_eq!(vec![(1, 0), (1, 1)], cells_of(&route));

    // right next to the head
    let open = Maze::new();
    let route = pathfinder::next_unvisited(&open, &path_of(&[(4, 4)])).unwrap();
    assert_eq!(vec![(4, 3)], cells_of(&route));
}

#[test]
fn next_unvisited_walks_back_through_a_long_pocket() {
    let mut maze = Maze::new();
    maze.update_walls(0, 0, [true, false, true, true]);
    maze.update_walls(1, 0, [true, false, true, false]);
    maze.update_walls(2, 0, [true, false, false, false]);
    maze.update_walls(3, 0, [true, false, true, false]);
    maze.update_walls(4, 0, [true, true, true, false]);

    let path = path_of(&[(0, 0), (1, 0), (2, 0), (3, 0), (4, 0)]);
    let route = pathfinder::next_unvisited(&maze, &path).unwrap();
    assert_eq!(vec![(3, 0), (2, 0), (2, 1)], cells_of(&route));

    // appended to the path, the route leaves no gap
    let mut driven = path_of(&[(0, 0), (1, 0), (2, 0), (3, 0), (4, 0)]);
    driven.append_all(&route);
    for i in 1..driven.len() {
        let a = driven.segment(i - 1).unwrap();
        let b = driven.segment(i).unwrap();
        let dx = (a.x as i16 - b.x as i16).abs();
        let dy = (a.y as i16 - b.y as i16).abs();
        assert_eq!(1, dx + dy);
    }
}

#[test]
fn next_unvisited_fails_where_nothing_is_left() {
    // two cells walled off from the rest, both driven
    let mut maze = Maze::new();
    maze.update_walls(0, 0, [true, false, true, true]);
    maze.update_walls(1, 0, [true, true, true, false]);
    let path = path_of(&[(0, 0), (1, 0)]);
    assert!(pathfinder::next_unvisited(&maze, &path).is_none());

    // the whole maze driven
    let open = Maze::new();
    let mut everywhere = Path::new();
    for y in 0..16u8 {
        for x in 0..16u8 {
            everywhere.append(Vecu { x, y });
        }
    }
    assert!(pathfinder::next_unvisited(&open, &everywhere).is_none());
}

#[test]
fn second_run_counts_down_to_the_origin() {
    let mut maze = Maze::new();
    maze.update_walls(0, 0, [true, false, true, true]);
    maze.update_walls(1, 0, [true, false, false, false]);
    let maze = Maze::with_walls(Target::Origin, maze);

    let result = pathfinder::next(&maze, &path_of(&[(1, 1)]));
    let found = result.unwrap_found();
    assert_eq!(Vecu { x: 1, y: 0 }, found.pos());
    assert_eq!(1, found.distance);

    let result = pathfinder::next(&maze, &path_of(&[(1, 1), (1, 0)]));
    let found = result.unwrap_found();
    assert_eq!(Vecu { x: 0, y: 0 }, found.pos());
    assert_eq!(0, found.distance);
}

#[test]
fn stuck_then_route_then_repair() {
    let mut maze = Maze::new();
    maze.update_walls(0, 0, [true, false, true, true]);
    maze.update_walls(1, 0, [true, false, false, false]);
    maze.update_walls(2, 0, [true, true, true, false]);

    let mut path = path_of(&[(0, 0), (1, 0), (2, 0)]);
    assert!(pathfinder::next(&maze, &path).is_dead_end());

    let route = pathfinder::next_unvisited(&maze, &path).unwrap();
    path.append_all(&route);
    pathfinder::update_distances(&mut maze, &path);

    // the pocket lies one step behind its entrance
    assert_eq!(13, maze.segment(1, 0).distance);
    assert_eq!(14, maze.segment(2, 0).distance);
    assert_eq!(14, maze.segment(0, 0).distance);
    assert_eq!(12, maze.segment(1, 1).distance);

    // from here on the search goes down again
    let result = pathfinder::next(&maze, &path);
    let found = result.unwrap_found();
    assert_eq!(11, found.distance);
    assert!(found.pos() != Vecu { x: 2, y: 0 });
}

#[test]
fn next_unvisited_takes_the_first_of_equal_ways() {
    // around the head all four cells are free: north comes first
    let open = Maze::new();
    let route = pathfinder::next_unvisited(&open, &path_of(&[(8, 8)])).unwrap();
    assert_eq!(vec![(8, 7)], cells_of(&route));

    // with the north walled off, east comes first
    let mut maze = Maze::new();
    maze.update_walls(8, 8, [true, false, false, false]);
    let route = pathfinder::next_unvisited(&maze, &path_of(&[(8, 8)])).unwrap();
    assert_eq!(vec![(9, 8)], cells_of(&route));

    // two steps away over driven cells: the way over the northern cell comes first
    let path = path_of(&[(8, 7), (9, 8), (8, 9), (7, 8), (8, 8)]);
    let route = pathfinder::next_unvisited(&open, &path).unwrap();
    assert_eq!(vec![(8, 7), (8, 6)], cells_of(&route));
}
