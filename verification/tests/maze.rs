use mazes::config::Config;
use mazes::error::Error;
use mazes::maze::{Coord, Direction, Maze, Point, Shade};
use mazes::passages::cells;
use rand::{SeedableRng, StdRng};

fn seeded(seed: usize) -> StdRng {
    let words = [seed, 2, 3, 4];
    StdRng::from_seed(&words[..])
}

fn grid(width: u32, height: u32, cell_size: u32) -> Config {
    Config {
        width,
        height,
        cell_size,
        start: Some(Coord { x: 0, y: 0 }),
        end: Some(Coord { x: width as i32 - 1, y: height as i32 - 1 }),
        ..Config::default()
    }
}

#[test]
fn new_maze_has_every_wall_and_no_mark() {
    let config = grid(3, 2, 40);
    let maze = Maze::new(&config, &mut seeded(1));
    for x in 0..3 {
        for y in 0..2 {
            let c = Coord { x, y };
            for wall in maze.walls(&c).iter() {
                assert!(maze.walls.contains(wall));
            }
            assert!(maze.connected_neighbours(&c).is_empty());
            assert!(!maze.explored.contains(&c));
            assert!(!maze.highlight_bright.contains(&c));
            assert!(!maze.highlight_medium.contains(&c));
            assert!(!maze.highlight_dark.contains(&c));
        }
    }
    assert!(maze.explored.is_empty());
    assert_eq!(maze.maze_width(), 3);
    assert_eq!(maze.maze_height(), 2);
}

#[test]
fn new_maze_takes_its_ends_from_the_configuration() {
    let config = grid(4, 4, 40);
    let maze = Maze::new(&config, &mut seeded(1));
    assert_eq!(maze.start, Coord { x: 0, y: 0 });
    assert_eq!(maze.end, Coord { x: 3, y: 3 });
}

#[test]
fn new_maze_draws_distinct_ends() {
    for seed in 0..50 {
        let config = Config { width: 2, height: 1, cell_size: 4, ..Config::default() };
        let maze = Maze::new(&config, &mut seeded(seed));
        assert!(maze.start.valid_coord(2, 1));
        assert!(maze.end.valid_coord(2, 1));
        assert_ne!(maze.start, maze.end);
    }
}

#[test]
fn new_maze_draws_ends_all_over_the_grid() {
    let config = Config { width: 5, height: 5, cell_size: 4, ..Config::default() };
    let mut starts = Vec::new();
    for seed in 0..40 {
        let maze = Maze::new(&config, &mut seeded(seed));
        assert!(maze.start.valid_coord(5, 5));
        assert!(maze.end.valid_coord(5, 5));
        assert_ne!(maze.start, maze.end);
        if !starts.contains(&maze.start) {
            starts.push(maze.start);
        }
    }
    assert!(starts.len() > 5);
}

#[test]
fn new_maze_moves_an_end_that_falls_on_the_start() {
    let config = Config {
        width: 3,
        height: 3,
        cell_size: 4,
        start: Some(Coord { x: 1, y: 1 }),
        end: Some(Coord { x: 1, y: 1 }),
        ..Config::default()
    };
    let maze = Maze::new(&config, &mut seeded(7));
    assert_eq!(maze.start, Coord { x: 1, y: 1 });
    assert_ne!(maze.end, maze.start);
    assert!(maze.end.valid_coord(3, 3));
}

#[test]
fn link_takes_down_the_wall_between_neighbours() {
    let config = grid(3, 3, 40);
    let mut maze = Maze::new(&config, &mut seeded(1));
    let a = Coord { x: 1, y: 1 };
    let b = Coord { x: 2, y: 1 };
    assert!(maze.walls.contains(&maze.east_wall(&a)));
    maze.link(&a, &b).unwrap();
    assert!(!maze.walls.contains(&maze.east_wall(&a)));
    assert!(!maze.walls.contains(&maze.west_wall(&b)));
    assert_eq!(maze.connected_neighbours(&a), vec![(b, Direction::East)]);
    assert_eq!(maze.connected_neighbours(&b), vec![(a, Direction::West)]);
    maze.link(&a, &Coord { x: 1, y: 0 }).unwrap();
    assert_eq!(
        maze.connected_neighbours(&a),
        vec![(Coord { x: 1, y: 0 }, Direction::North), (b, Direction::East)]
    );
    maze.link(&b, &a).unwrap();
    assert_eq!(maze.connected_neighbours(&b), vec![(a, Direction::West)]);
}

#[test]
fn link_refuses_cells_that_are_not_neighbours() {
    let config = grid(3, 3, 40);
    let mut maze = Maze::new(&config, &mut seeded(1));
    let a = Coord { x: 0, y: 0 };
    for b in [
        Coord { x: 1, y: 1 },
        Coord { x: 2, y: 0 },
        Coord { x: 0, y: 0 },
        Coord { x: -1, y: 0 },
        Coord { x: 0, y: -1 },
    ] {
        match maze.link(&a, &b) {
            Err(Error::NotNeighbours(c1, c2)) => {
                assert_eq!(c1, a);
                assert_eq!(c2, b);
            }
            other => panic!("unexpected: {:?}", other),
        }
    }
    assert!(matches!(
        maze.link(&Coord { x: 3, y: 0 }, &Coord { x: 2, y: 0 }),
        Err(Error::NotNeighbours(_, _))
    ));
    for x in 0..3 {
        for y in 0..3 {
            assert!(maze.connected_neighbours(&Coord { x, y }).is_empty());
        }
    }
}

#[test]
fn remove_wall_refuses_a_border_wall() {
    let config = grid(2, 2, 40);
    let mut maze = Maze::new(&config, &mut seeded(1));
    let corner = Coord { x: 0, y: 0 };
    let border = maze.north_wall(&corner);
    match maze.remove_wall(&border) {
        Err(Error::BorderWall(wall)) => assert_eq!(wall, border),
        other => panic!("unexpected: {:?}", other),
    }
    assert!(maze.walls.contains(&border));
    let inner = maze.east_wall(&corner);
    maze.remove_wall(&inner).unwrap();
    assert!(!maze.walls.contains(&inner));
}

#[test]
fn divided_coords_are_the_cells_on_either_side() {
    for size in [1u32, 2, 3, 5, 40, 41] {
        let config = grid(4, 3, size);
        let maze = Maze::new(&config, &mut seeded(1));
        for x in 0..4 {
            for y in 0..3 {
                let c = Coord { x, y };
                assert_eq!(
                    maze.divided_coords(&maze.north_wall(&c)),
                    (Coord { x, y: y - 1 }, c)
                );
                assert_eq!(
                    maze.divided_coords(&maze.south_wall(&c)),
                    (c, Coord { x, y: y + 1 })
                );
                assert_eq!(
                    maze.divided_coords(&maze.west_wall(&c)),
                    (Coord { x: x - 1, y }, c)
                );
                assert_eq!(
                    maze.divided_coords(&maze.east_wall(&c)),
                    (c, Coord { x: x + 1, y })
                );
            }
        }
    }
}

#[test]
fn maze_topology_follows_the_grid() {
    let config = grid(3, 2, 40);
    let maze = Maze::new(&config, &mut seeded(1));
    let c = Coord { x: 2, y: 1 };
    assert_eq!(maze.neighbour(&c, &Direction::North), Some(Coord { x: 2, y: 0 }));
    assert_eq!(maze.neighbour(&c, &Direction::East), None);
    assert_eq!(maze.neighbours(&c), c.neighbours(3, 2));
    assert_eq!(maze.wall(&c, &Direction::West), c.west_wall(&config));
    assert_eq!(maze.north_wall(&c), c.north_wall(&config));
    assert_eq!(maze.east_wall(&c), c.east_wall(&config));
    assert_eq!(maze.south_wall(&c), c.south_wall(&config));
    assert_eq!(maze.west_wall(&c), c.west_wall(&config));
    assert!(maze.connected_neighbours(&Coord { x: 5, y: 5 }).is_empty());
}

#[test]
fn random_coord_lies_inside_the_grid() {
    let mut random = seeded(3);
    let mut seen = Vec::new();
    for _ in 0..200 {
        let c = Coord::random(4, 3, &mut random);
        assert!(c.valid_coord(4, 3));
        if !seen.contains(&c) {
            seen.push(c);
        }
    }
    assert_eq!(seen.len(), 12);
}

#[test]
fn marks_are_sets() {
    let config = grid(2, 2, 40);
    let mut maze = Maze::new(&config, &mut seeded(1));
    let c = Coord { x: 1, y: 0 };
    assert!(maze.explored.insert(c));
    assert!(!maze.explored.insert(c));
    assert!(maze.explored.contains(&c));
    assert!(!maze.explored.contains(&Coord { x: 0, y: 1 }));
    assert!(!maze.explored.is_empty());
    assert!(maze.explored.remove(&c));
    assert!(!maze.explored.remove(&c));
    assert!(maze.explored.is_empty());
    maze.highlight_dark.insert(Coord { x: -3, y: 1 << 30 });
    assert!(maze.highlight_dark.contains(&Coord { x: -3, y: 1 << 30 }));
    assert!(!maze.highlight_dark.contains(&Coord { x: 1 << 30, y: -3 }));
    maze.highlight_dark.clear();
    assert!(maze.highlight_dark.is_empty());
}

#[test]
fn point_from_a_pair_of_numbers() {
    assert_eq!(Point::from([4, -5]), Point { x: 4, y: -5 });
}

#[test]
fn coord_from_a_pair_of_signed_numbers() {
    assert_eq!(Coord::from([3i32, -2i32]), Coord { x: 3, y: -2 });
}

#[test]
fn coord_from_a_pair_of_unsigned_numbers() {
    assert_eq!(Coord::from([3u32, 17u32]), Coord { x: 3, y: 17 });
    assert_eq!(Coord::from([u32::MAX, 0x8000_0000u32]), Coord { x: -1, y: i32::MIN });
}

#[test]
fn standing_walls_lists_each_wall_once() {
    let config = grid(3, 2, 5);
    let mut maze = Maze::new(&config, &mut seeded(2));
    let all = maze.standing_walls();
    assert_eq!(all.len(), 17);
    for (i, w) in all.iter().enumerate() {
        assert!(maze.walls.contains(w));
        assert!(!all[..i].contains(w));
    }
    maze.link(&Coord { x: 0, y: 0 }, &Coord { x: 1, y: 0 }).unwrap();
    maze.link(&Coord { x: 1, y: 0 }, &Coord { x: 1, y: 1 }).unwrap();
    let left = maze.standing_walls();
    assert_eq!(left.len(), 15);
    assert!(!left.contains(&maze.east_wall(&Coord { x: 0, y: 0 })));
    assert!(!left.contains(&maze.south_wall(&Coord { x: 1, y: 0 })));
    assert!(left.contains(&maze.east_wall(&Coord { x: 1, y: 0 })));
    assert!(left.contains(&maze.north_wall(&Coord { x: 0, y: 0 })));
    assert!(left.contains(&maze.south_wall(&Coord { x: 2, y: 1 })));
}

#[test]
fn cells_come_row_by_row() {
    let config = grid(3, 2, 5);
    assert_eq!(
        cells(&config),
        vec![
            Coord { x: 0, y: 0 },
            Coord { x: 1, y: 0 },
            Coord { x: 2, y: 0 },
            Coord { x: 0, y: 1 },
            Coord { x: 1, y: 1 },
            Coord { x: 2, y: 1 },
        ]
    );
    assert_eq!(cells(&grid(1, 1, 1)), vec![Coord { x: 0, y: 0 }]);
}

#[test]
fn shade_shows_the_strongest_mark() {
    let config = grid(3, 3, 5);
    let mut maze = Maze::new(&config, &mut seeded(2));
    let c = Coord { x: 1, y: 1 };
    assert_eq!(maze.shade(&c), Shade::Plain);
    maze.explored.insert(c);
    assert_eq!(maze.shade(&c), Shade::Explored);
    maze.highlight_dark.insert(c);
    assert_eq!(maze.shade(&c), Shade::Dark);
    maze.highlight_medium.insert(c);
    assert_eq!(maze.shade(&c), Shade::Medium);
    maze.highlight_bright.insert(c);
    assert_eq!(maze.shade(&c), Shade::Bright);
    maze.highlight_bright.insert(maze.start);
    maze.highlight_bright.insert(maze.end);
    assert_eq!(maze.shade(&maze.start), Shade::Start);
    assert_eq!(maze.shade(&maze.end), Shade::End);
}
