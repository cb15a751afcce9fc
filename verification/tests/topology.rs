use mazes::config::Config;
use mazes::maze::{Coord, Direction, Orientation, Point, Wall};

fn grid(width: u32, height: u32, cell_size: u32) -> Config {
    Config { width, height, cell_size, ..Config::default() }
}

#[test]
fn valid_coord_is_inside_the_grid() {
    assert!(Coord { x: 0, y: 0 }.valid_coord(3, 2));
    assert!(Coord { x: 2, y: 1 }.valid_coord(3, 2));
    assert!(!Coord { x: 3, y: 1 }.valid_coord(3, 2));
    assert!(!Coord { x: 2, y: 2 }.valid_coord(3, 2));
    assert!(!Coord { x: -1, y: 0 }.valid_coord(3, 2));
    assert!(!Coord { x: 0, y: -1 }.valid_coord(3, 2));
    assert!(!Coord { x: 0, y: 0 }.valid_coord(0, 0));
}

#[test]
fn neighbour_steps_one_cell() {
    let c = Coord { x: 1, y: 1 };
    assert_eq!(c.neighbour(&Direction::North, 3, 3), Some(Coord { x: 1, y: 0 }));
    assert_eq!(c.neighbour(&Direction::East, 3, 3), Some(Coord { x: 2, y: 1 }));
    assert_eq!(c.neighbour(&Direction::South, 3, 3), Some(Coord { x: 1, y: 2 }));
    assert_eq!(c.neighbour(&Direction::West, 3, 3), Some(Coord { x: 0, y: 1 }));
}

#[test]
fn neighbour_outside_the_grid_is_none() {
    let corner = Coord { x: 0, y: 0 };
    assert_eq!(corner.neighbour(&Direction::North, 3, 3), None);
    assert_eq!(corner.neighbour(&Direction::West, 3, 3), None);
    let far = Coord { x: 2, y: 2 };
    assert_eq!(far.neighbour(&Direction::East, 3, 3), None);
    assert_eq!(far.neighbour(&Direction::South, 3, 3), None);
}

#[test]
fn neighbour_at_the_limits_of_the_numbers_is_none() {
    let top = Coord { x: i32::MAX, y: i32::MAX };
    assert_eq!(top.neighbour(&Direction::East, u32::MAX, u32::MAX), None);
    assert_eq!(top.neighbour(&Direction::South, u32::MAX, u32::MAX), None);
    let bottom = Coord { x: i32::MIN, y: i32::MIN };
    assert_eq!(bottom.neighbour(&Direction::West, u32::MAX, u32::MAX), None);
    assert_eq!(bottom.neighbour(&Direction::North, u32::MAX, u32::MAX), None);
}

#[test]
fn neighbours_come_north_east_south_west() {
    let c = Coord { x: 1, y: 1 };
    assert_eq!(
        c.neighbours(3, 3),
        vec![
            (Coord { x: 1, y: 0 }, Direction::North),
            (Coord { x: 2, y: 1 }, Direction::East),
            (Coord { x: 1, y: 2 }, Direction::South),
            (Coord { x: 0, y: 1 }, Direction::West),
        ]
    );
}

#[test]
fn neighbours_of_a_corner() {
    assert_eq!(
        Coord { x: 0, y: 0 }.neighbours(2, 2),
        vec![(Coord { x: 1, y: 0 }, Direction::East), (Coord { x: 0, y: 1 }, Direction::South)]
    );
    assert_eq!(
        Coord { x: 1, y: 1 }.neighbours(2, 2),
        vec![(Coord { x: 1, y: 0 }, Direction::North), (Coord { x: 0, y: 1 }, Direction::West)]
    );
    assert_eq!(Coord { x: 0, y: 0 }.neighbours(1, 1), vec![]);
}

#[test]
fn manhattan_dist_adds_both_axes() {
    let a = Coord { x: 1, y: 5 };
    let b = Coord { x: 4, y: 1 };
    assert_eq!(a.manhattan_dist(&b), 7);
    assert_eq!(b.manhattan_dist(&a), 7);
    assert_eq!(a.manhattan_dist(&a), 0);
    assert_eq!(Coord { x: -2, y: 0 }.manhattan_dist(&Coord { x: 3, y: 0 }), 5);
}

#[test]
fn into_point_is_the_centre_of_the_cell() {
    assert_eq!(Coord { x: 0, y: 0 }.into_point(40, 40), Point { x: 20, y: 20 });
    assert_eq!(Coord { x: 2, y: 3 }.into_point(40, 40), Point { x: 100, y: 140 });
    assert_eq!(Coord { x: 2, y: 3 }.into_point(5, 7), Point { x: 12, y: 24 });
}

#[test]
fn into_coord_undoes_into_point() {
    for size in [1u32, 2, 3, 7, 40] {
        for x in 0..5 {
            for y in 0..5 {
                let c = Coord { x, y };
                assert_eq!(c.into_point(size, size).into_coord(size, size), c);
            }
        }
    }
}

#[test]
fn into_coord_rounds_towards_zero() {
    assert_eq!(Point { x: 0, y: 0 }.into_coord(40, 40), Coord { x: 0, y: 0 });
    assert_eq!(Point { x: -19, y: 59 }.into_coord(40, 40), Coord { x: 0, y: 0 });
    assert_eq!(Point { x: -20, y: 60 }.into_coord(40, 40), Coord { x: -1, y: 1 });
}

#[test]
fn walls_of_a_cell_with_even_size() {
    let config = grid(3, 3, 40);
    let c = Coord { x: 1, y: 1 };
    assert_eq!(
        c.north_wall(&config),
        Wall {
            center: Point { x: 60, y: 40 },
            orientation: Orientation::Horizontal,
            border: false,
            size: 40
        }
    );
    assert_eq!(
        c.east_wall(&config),
        Wall {
            center: Point { x: 80, y: 60 },
            orientation: Orientation::Vertical,
            border: false,
            size: 40
        }
    );
    assert_eq!(
        c.south_wall(&config),
        Wall {
            center: Point { x: 60, y: 80 },
            orientation: Orientation::Horizontal,
            border: false,
            size: 40
        }
    );
    assert_eq!(
        c.west_wall(&config),
        Wall {
            center: Point { x: 40, y: 60 },
            orientation: Orientation::Vertical,
            border: false,
            size: 40
        }
    );
}

#[test]
fn walls_of_a_cell_with_odd_size() {
    let config = grid(3, 3, 5);
    let c = Coord { x: 1, y: 1 };
    assert_eq!(c.north_wall(&config).center, Point { x: 7, y: 4 });
    assert_eq!(c.east_wall(&config).center, Point { x: 9, y: 7 });
    assert_eq!(c.south_wall(&config).center, Point { x: 7, y: 9 });
    assert_eq!(c.west_wall(&config).center, Point { x: 4, y: 7 });
}

#[test]
fn walls_lists_north_east_south_west() {
    let config = grid(3, 3, 40);
    let c = Coord { x: 2, y: 0 };
    let walls = c.walls(&config);
    assert_eq!(walls[0], c.north_wall(&config));
    assert_eq!(walls[1], c.east_wall(&config));
    assert_eq!(walls[2], c.south_wall(&config));
    assert_eq!(walls[3], c.west_wall(&config));
    assert_eq!(c.wall(&Direction::North, &config), walls[0]);
    assert_eq!(c.wall(&Direction::East, &config), walls[1]);
    assert_eq!(c.wall(&Direction::South, &config), walls[2]);
    assert_eq!(c.wall(&Direction::West, &config), walls[3]);
}

#[test]
fn neighbours_share_their_wall() {
    for size in [1u32, 2, 3, 8, 41] {
        let config = grid(4, 3, size);
        for x in 0..4 {
            for y in 0..3 {
                let c = Coord { x, y };
                if let Some(n) = c.neighbour(&Direction::East, 4, 3) {
                    assert_eq!(c.east_wall(&config), n.west_wall(&config));
                }
                if let Some(n) = c.neighbour(&Direction::South, 4, 3) {
                    assert_eq!(c.south_wall(&config), n.north_wall(&config));
                }
            }
        }
    }
}

#[test]
fn only_walls_on_the_boundary_are_border_walls() {
    let config = grid(3, 2, 10);
    for x in 0..3 {
        for y in 0..2 {
            let c = Coord { x, y };
            assert_eq!(c.north_wall(&config).border, y == 0);
            assert_eq!(c.south_wall(&config).border, y == 1);
            assert_eq!(c.west_wall(&config).border, x == 0);
            assert_eq!(c.east_wall(&config).border, x == 2);
            assert_eq!(c.north_wall(&config).removable(), y != 0);
            assert_eq!(c.east_wall(&config).removable(), x != 2);
        }
    }
}

#[test]
fn into_point_takes_cells_outside_the_grid() {
    assert_eq!(Coord { x: -1, y: -2 }.into_point(40, 40), Point { x: -20, y: -60 });
    assert_eq!(Coord { x: -3, y: 4 }.into_point(5, 7), Point { x: -13, y: 31 });
    assert_eq!(Coord { x: 0, y: 0 }.into_point(u32::MAX, 1), Point { x: i32::MAX, y: 0 });
    assert_eq!(
        Coord { x: i32::MIN, y: i32::MAX }.into_point(1, 1),
        Point { x: i32::MIN, y: i32::MAX }
    );
}

#[test]
fn into_coord_undoes_into_point_outside_the_grid() {
    for size in [1u32, 2, 5, 40] {
        for x in -4..4 {
            for y in -4..4 {
                let c = Coord { x, y };
                assert_eq!(c.into_point(size, size + 1).into_coord(size, size + 1), c);
            }
        }
    }
}
