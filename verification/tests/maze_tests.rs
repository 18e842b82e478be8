use mazegen::shuffle::{random_orders, seeded_orders};
use mazegen::tile::{EAST, FULL, NORTH, SOUTH, VISITED, WEST};
use mazegen::{Direction, Maze, MazeError};

fn fresh(width: usize, height: usize) -> Maze {
    match Maze::new(width, height) {
        Ok(maze) => maze,
        Err(e) => panic!("no maze of {} by {}: {:?}", width, height, e),
    }
}

fn carved(width: usize, height: usize, seed: u64) -> Maze {
    let mut maze = fresh(width, height);
    maze.recursive_backtracker_seeded(seed);
    maze
}

/// The tiles that a walker reaches from `(0, 0)` through missing walls.
fn flood(maze: &Maze) -> Vec<bool> {
    let w = maze.get_width();
    let h = maze.get_height();
    let mut seen = vec![false; w * h];
    let mut todo = vec![(0usize, 0usize)];
    seen[0] = true;
    while let Some((x, y)) = todo.pop() {
        let mut next = Vec::new();
        if !maze.has_north(x, y) && y > 0 {
            next.push((x, y - 1));
        }
        if !maze.has_south(x, y) && y + 1 < h {
            next.push((x, y + 1));
        }
        if !maze.has_west(x, y) && x > 0 {
            next.push((x - 1, y));
        }
        if !maze.has_east(x, y) && x + 1 < w {
            next.push((x + 1, y));
        }
        for (a, b) in next {
            if !seen[w * b + a] {
                seen[w * b + a] = true;
                todo.push((a, b));
            }
        }
    }
    seen
}

/// The pairs of adjacent tiles with no wall between them, each counted once.
fn broken_edges(maze: &Maze) -> usize {
    let mut edges = 0;
    for y in 0..maze.get_height() {
        for x in 0..maze.get_width() {
            if x + 1 < maze.get_width() && !maze.has_east(x, y) {
                edges += 1;
            }
            if y + 1 < maze.get_height() && !maze.has_south(x, y) {
                edges += 1;
            }
        }
    }
    edges
}

fn assert_walls_agree(maze: &Maze) {
    let w = maze.get_width();
    let h = maze.get_height();
    for y in 0..h {
        for x in 0..w {
            if x + 1 < w {
                assert_eq!(maze.has_east(x, y), maze.has_west(x + 1, y));
            } else {
                assert!(maze.has_east(x, y));
            }
            if y + 1 < h {
                assert_eq!(maze.has_south(x, y), maze.has_north(x, y + 1));
            } else {
                assert!(maze.has_south(x, y));
            }
            if x == 0 {
                assert!(maze.has_west(x, y));
            }
            if y == 0 {
                assert!(maze.has_north(x, y));
            }
        }
    }
}

fn assert_perfect(maze: &Maze) {
    let tiles = maze.get_width() * maze.get_height();
    assert!(flood(maze).iter().all(|&s| s));
    assert_eq!(broken_edges(maze), tiles - 1);
    assert_walls_agree(maze);
    for y in 0..maze.get_height() {
        for x in 0..maze.get_width() {
            assert_ne!(maze.get_tile(x, y) & VISITED, 0);
        }
    }
}

fn tiles_of(maze: &Maze) -> Vec<u8> {
    let mut tiles = Vec::new();
    for y in 0..maze.get_height() {
        for x in 0..maze.get_width() {
            tiles.push(maze.get_tile(x, y));
        }
    }
    tiles
}

#[test]
fn new_maze_has_every_wall() {
    let maze = fresh(4, 3);
    assert_eq!(maze.get_width(), 4);
    assert_eq!(maze.get_height(), 3);
    for y in 0..3 {
        for x in 0..4 {
            assert_eq!(maze.get_tile(x, y), FULL);
            assert!(maze.has_north(x, y));
            assert!(maze.has_south(x, y));
            assert!(maze.has_west(x, y));
            assert!(maze.has_east(x, y));
        }
    }
}

#[test]
fn new_refuses_zero_width() {
    assert_eq!(Maze::new(0, 5).err(), Some(MazeError::InvalidDimensions));
}

#[test]
fn new_refuses_zero_height() {
    assert_eq!(Maze::new(5, 0).err(), Some(MazeError::InvalidDimensions));
}

#[test]
fn new_refuses_zero_by_zero() {
    assert_eq!(Maze::new(0, 0).err(), Some(MazeError::InvalidDimensions));
}

#[test]
fn wall_bits_have_their_places() {
    assert_eq!(NORTH, 0b01000);
    assert_eq!(SOUTH, 0b00100);
    assert_eq!(WEST, 0b00010);
    assert_eq!(EAST, 0b00001);
    assert_eq!(FULL, NORTH | SOUTH | WEST | EAST);
    assert_eq!(VISITED, 0b10000);
    assert_eq!(Direction::North.mask(), NORTH);
    assert_eq!(Direction::South.mask(), SOUTH);
    assert_eq!(Direction::West.mask(), WEST);
    assert_eq!(Direction::East.mask(), EAST);
}

#[test]
fn has_wall_reports_out_of_bounds() {
    let maze = fresh(3, 2);
    assert_eq!(maze.has_wall(3, 0, Direction::North), Err(MazeError::OutOfBounds));
    assert_eq!(maze.has_wall(0, 2, Direction::East), Err(MazeError::OutOfBounds));
    assert_eq!(maze.has_wall(usize::MAX, usize::MAX, Direction::West), Err(MazeError::OutOfBounds));
    assert_eq!(maze.has_wall(2, 1, Direction::South), Ok(true));
}

#[test]
fn has_wall_agrees_with_the_four_queries() {
    let maze = carved(6, 5, 11);
    for y in 0..5 {
        for x in 0..6 {
            assert_eq!(maze.has_wall(x, y, Direction::North), Ok(maze.has_north(x, y)));
            assert_eq!(maze.has_wall(x, y, Direction::South), Ok(maze.has_south(x, y)));
            assert_eq!(maze.has_wall(x, y, Direction::West), Ok(maze.has_west(x, y)));
            assert_eq!(maze.has_wall(x, y, Direction::East), Ok(maze.has_east(x, y)));
        }
    }
}

#[test]
fn queries_read_the_tile_bits() {
    let maze = carved(5, 4, 3);
    for y in 0..4 {
        for x in 0..5 {
            let tile = maze.get_tile(x, y);
            assert_eq!(maze.has_north(x, y), tile & NORTH != 0);
            assert_eq!(maze.has_south(x, y), tile & SOUTH != 0);
            assert_eq!(maze.has_west(x, y), tile & WEST != 0);
            assert_eq!(maze.has_east(x, y), tile & EAST != 0);
        }
    }
}

#[test]
fn carve_with_fixed_orders_two_by_two() {
    let mut maze = fresh(2, 2);
    let orders = vec![vec![NORTH, SOUTH, WEST, EAST]; 4];
    maze.carve_with(&orders);
    // (0,0) goes south, (0,1) goes east, (1,1) goes north.
    assert_eq!(tiles_of(&maze), vec![27, 27, 22, 21]);
    assert!(!maze.has_south(0, 0));
    assert!(!maze.has_north(0, 1));
    assert!(!maze.has_east(0, 1));
    assert!(!maze.has_west(1, 1));
    assert!(!maze.has_north(1, 1));
    assert!(!maze.has_south(1, 0));
    assert!(maze.has_east(0, 0));
    assert!(maze.has_west(1, 0));
    assert_perfect(&maze);
}

#[test]
fn carve_with_east_first_three_by_two() {
    let mut maze = fresh(3, 2);
    let orders = vec![vec![EAST, WEST, SOUTH, NORTH]; 6];
    maze.carve_with(&orders);
    // East along the top row, south at its end, then west along the bottom row.
    let v = VISITED;
    assert_eq!(
        tiles_of(&maze),
        vec![
            v | NORTH | SOUTH | WEST,
            v | NORTH | SOUTH,
            v | NORTH | EAST,
            v | NORTH | SOUTH | WEST,
            v | NORTH | SOUTH,
            v | SOUTH | EAST,
        ]
    );
    assert_perfect(&maze);
}

#[test]
fn carve_with_orders_that_differ_by_tile() {
    let mut maze = fresh(2, 2);
    let orders = vec![
        vec![EAST, SOUTH, NORTH, WEST],
        vec![WEST, NORTH, EAST, SOUTH],
        vec![NORTH, SOUTH, WEST, EAST],
        vec![WEST, NORTH, SOUTH, EAST],
    ];
    maze.carve_with(&orders);
    // (0,0) goes east, (1,0) goes south, (1,1) goes west.
    let v = VISITED;
    assert_eq!(
        tiles_of(&maze),
        vec![
            v | NORTH | SOUTH | WEST,
            v | NORTH | EAST,
            v | NORTH | SOUTH | WEST,
            v | SOUTH | EAST,
        ]
    );
}

#[test]
fn carve_with_twice_changes_nothing() {
    let mut maze = fresh(4, 4);
    let orders = vec![vec![SOUTH, EAST, NORTH, WEST]; 16];
    maze.carve_with(&orders);
    let first = maze.clone();
    let others = vec![vec![WEST, NORTH, EAST, SOUTH]; 16];
    maze.carve_with(&others);
    assert_eq!(maze, first);
}

#[test]
fn random_maze_spans_the_grid() {
    for (w, h) in [(1, 1), (2, 2), (3, 7), (8, 5), (16, 16)] {
        let mut maze = fresh(w, h);
        maze.recursive_backtracker();
        assert!(flood(&maze).iter().all(|&s| s));
    }
}

#[test]
fn random_maze_has_one_edge_less_than_tiles() {
    for (w, h) in [(1, 1), (2, 2), (3, 7), (8, 5), (16, 16)] {
        let mut maze = fresh(w, h);
        maze.recursive_backtracker();
        assert_eq!(broken_edges(&maze), w * h - 1);
    }
}

#[test]
fn random_maze_walls_agree() {
    for (w, h) in [(1, 1), (2, 2), (3, 7), (8, 5), (16, 16)] {
        let mut maze = fresh(w, h);
        maze.recursive_backtracker();
        assert_walls_agree(&maze);
    }
}

#[test]
fn walls_agree_before_carving() {
    assert_walls_agree(&fresh(5, 3));
}

#[test]
fn recursive_backtracker_twice_changes_nothing() {
    let mut maze = fresh(7, 6);
    maze.recursive_backtracker();
    let first = maze.clone();
    maze.recursive_backtracker();
    assert_eq!(maze, first);
    maze.recursive_backtracker_seeded(5);
    assert_eq!(maze, first);
}

#[test]
fn queries_do_not_change_the_maze() {
    let maze = carved(9, 4, 77);
    let before = maze.clone();
    for _ in 0..3 {
        for y in 0..4 {
            for x in 0..9 {
                let n = maze.has_north(x, y);
                let s = maze.has_south(x, y);
                let w = maze.has_west(x, y);
                let e = maze.has_east(x, y);
                let t = maze.get_tile(x, y);
                assert_eq!(maze.has_north(x, y), n);
                assert_eq!(maze.has_south(x, y), s);
                assert_eq!(maze.has_west(x, y), w);
                assert_eq!(maze.has_east(x, y), e);
                assert_eq!(maze.get_tile(x, y), t);
                assert_eq!(maze.has_wall(x, y, Direction::East), Ok(e));
                assert_eq!(maze.has_wall(x, y, Direction::East), Ok(e));
            }
        }
    }
    assert_eq!(maze, before);
}

#[test]
fn same_seed_same_maze() {
    for seed in [0u64, 1, 42, u64::MAX] {
        let a = carved(12, 9, seed);
        let b = carved(12, 9, seed);
        assert_eq!(tiles_of(&a), tiles_of(&b));
        assert_eq!(a, b);
        assert_perfect(&a);
    }
}

#[test]
fn seeds_give_more_than_one_maze() {
    let first = tiles_of(&carved(10, 10, 0));
    assert!((1..20u64).any(|seed| tiles_of(&carved(10, 10, seed)) != first));
}

#[test]
fn seeded_maze_is_what_its_orders_carve() {
    let mut by_seed = fresh(6, 6);
    by_seed.recursive_backtracker_seeded(9);
    let mut by_orders = fresh(6, 6);
    by_orders.carve_with(&seeded_orders(9, 36));
    assert_eq!(by_seed, by_orders);
}

#[test]
fn one_by_one_keeps_all_walls() {
    let mut maze = fresh(1, 1);
    maze.recursive_backtracker();
    assert!(maze.has_north(0, 0));
    assert!(maze.has_south(0, 0));
    assert!(maze.has_west(0, 0));
    assert!(maze.has_east(0, 0));
    assert_eq!(broken_edges(&maze), 0);
    assert_eq!(maze.get_tile(0, 0), FULL | VISITED);
    assert_eq!(flood(&maze), vec![true]);
}

#[test]
fn one_wide_maze_is_a_corridor() {
    let mut maze = fresh(1, 6);
    maze.recursive_backtracker();
    for y in 0..6 {
        assert!(maze.has_west(0, y));
        assert!(maze.has_east(0, y));
        assert_eq!(maze.has_north(0, y), y == 0);
        assert_eq!(maze.has_south(0, y), y == 5);
    }
    assert_perfect(&maze);
}

#[test]
fn one_high_maze_is_a_corridor() {
    let mut maze = fresh(6, 1);
    maze.recursive_backtracker();
    for x in 0..6 {
        assert!(maze.has_north(x, 0));
        assert!(maze.has_south(x, 0));
        assert_eq!(maze.has_west(x, 0), x == 0);
        assert_eq!(maze.has_east(x, 0), x == 5);
    }
    assert_perfect(&maze);
}

#[test]
fn two_by_two_with_a_seed_is_a_spanning_tree() {
    let mut maze = fresh(2, 2);
    maze.recursive_backtracker_seeded(2024);
    assert_eq!(broken_edges(&maze), 3);
    let seen = flood(&maze);
    assert!(seen[3], "(1,1) is reached from (0,0)");
    assert_eq!(seen, vec![true; 4]);
    assert_walls_agree(&maze);
}

#[test]
fn large_maze_does_not_exhaust_the_stack() {
    let maze = carved(300, 200, 1);
    assert_perfect(&maze);
}

#[test]
fn random_orders_are_permutations() {
    let orders = random_orders(500);
    assert_eq!(orders.len(), 500);
    for order in &orders {
        let mut sorted = order.clone();
        sorted.sort();
        assert_eq!(sorted, vec![EAST, WEST, SOUTH, NORTH]);
    }
}

#[test]
fn random_orders_are_shuffled() {
    let orders = random_orders(500);
    assert!(orders.iter().any(|o| *o != vec![NORTH, SOUTH, WEST, EAST]));
}

#[test]
fn random_orders_of_nothing() {
    assert!(random_orders(0).is_empty());
    assert!(seeded_orders(3, 0).is_empty());
}

#[test]
fn seeded_orders_are_permutations() {
    let orders = seeded_orders(123, 500);
    assert_eq!(orders.len(), 500);
    for order in &orders {
        let mut sorted = order.clone();
        sorted.sort();
        assert_eq!(sorted, vec![EAST, WEST, SOUTH, NORTH]);
    }
}

#[test]
fn seeded_orders_are_shuffled() {
    let orders = seeded_orders(123, 500);
    assert!(orders.iter().any(|o| *o != vec![NORTH, SOUTH, WEST, EAST]));
}

#[test]
fn seeded_orders_repeat() {
    assert_eq!(seeded_orders(7, 64), seeded_orders(7, 64));
}

#[test]
fn seeded_orders_take_one_seed_per_tile() {
    // The order of tile i under seed s is that of tile 0 under seed s + i.
    let from_five = seeded_orders(5, 10);
    let from_eight = seeded_orders(8, 7);
    assert_eq!(from_five[3..], from_eight[..7]);
    let wrapped = seeded_orders(u64::MAX, 3);
    assert_eq!(wrapped[1..], seeded_orders(0, 2)[..]);
}

#[test]
fn tile_visit_from_the_far_corner_two_by_two() {
    let mut maze = fresh(2, 2);
    let orders = vec![vec![NORTH, SOUTH, WEST, EAST]; 4];
    maze.tile_visit(1, 1, &orders);
    // (1,1) goes north, (1,0) goes west, (0,0) goes south.
    assert_eq!(tiles_of(&maze), vec![26, 25, 23, 23]);
    assert_perfect(&maze);
}

#[test]
fn tile_visit_from_the_middle_is_perfect() {
    for seed in 0..8u64 {
        let mut maze = fresh(5, 4);
        maze.tile_visit(2, 1, &seeded_orders(seed, 20));
        assert_perfect(&maze);
    }
}

#[test]
fn tile_visit_from_the_corner_is_carve_with() {
    let orders = seeded_orders(31, 42);
    let mut walked = fresh(7, 6);
    walked.tile_visit(0, 0, &orders);
    let mut carved = fresh(7, 6);
    carved.carve_with(&orders);
    assert_eq!(walked, carved);
}

#[test]
fn tile_visit_on_a_carved_maze_changes_nothing() {
    let mut maze = carved(6, 6, 4);
    let first = maze.clone();
    maze.tile_visit(3, 2, &random_orders(36));
    assert_eq!(maze, first);
    maze.tile_visit(0, 0, &seeded_orders(1, 36));
    assert_eq!(maze, first);
}

#[test]
fn tile_visit_keeps_walls_in_agreement() {
    let mut maze = fresh(9, 7);
    assert_walls_agree(&maze);
    maze.tile_visit(8, 6, &random_orders(63));
    assert_walls_agree(&maze);
    maze.tile_visit(4, 4, &random_orders(63));
    assert_walls_agree(&maze);
}

#[test]
fn carved_maze_has_no_cycle() {
    let maze = carved(8, 8, 17);
    assert_eq!(broken_edges(&maze), 63);
    assert!(flood(&maze).iter().all(|&s| s));
    let w = maze.get_width();
    let h = maze.get_height();
    // Walk from (0,0) without ever stepping back: no tile may be met twice.
    let mut seen = vec![false; w * h];
    let mut todo = vec![((0usize, 0usize), (usize::MAX, usize::MAX))];
    while let Some(((x, y), from)) = todo.pop() {
        assert!(!seen[w * y + x], "a second way leads to ({}, {})", x, y);
        seen[w * y + x] = true;
        let mut next = Vec::new();
        if !maze.has_north(x, y) {
            next.push((x, y - 1));
        }
        if !maze.has_south(x, y) {
            next.push((x, y + 1));
        }
        if !maze.has_west(x, y) {
            next.push((x - 1, y));
        }
        if !maze.has_east(x, y) {
            next.push((x + 1, y));
        }
        for n in next {
            if n != from {
                todo.push((n, (x, y)));
            }
        }
    }
    assert!(seen.iter().all(|&s| s));
}
