use mazes::batch::run;
use mazes::config::Config;
use mazes::error::Error;
use mazes::generator::{Eller, Generator, GeneratorType, HuntKill, JoinResult, Kruskal, Prim};
use mazes::maze::{Coord, Direction, Maze, Orientation, Point, Wall};
use mazes::partition::Partition;
use mazes::sets::{CoordSet, WallSet};
use mazes::solver::{AStar, Dijkstra, Greedy, PathNode, Solver, SolverType, Trail, BFS};
use rand::{SeedableRng, StdRng};

fn seeded(seed: usize) -> StdRng {
    let words = [seed, 5, 6, 7];
    StdRng::from_seed(&words[..])
}

fn grid(width: u32, height: u32, cell_size: u32) -> Config {
    Config {
        width,
        height,
        cell_size,
        start: Some(Coord { x: 0, y: 0 }),
        end: Some(Coord { x: width as i32 - 1, y: height as i32 - 1 }),
        ..Config::default()
    }
}

fn at(x: i32, y: i32) -> Coord {
    Coord { x, y }
}

fn removed(maze: &Maze) -> usize {
    let mut count = 0;
    for y in 0..maze.maze_height() as i32 {
        for x in 0..maze.maze_width() as i32 {
            let c = at(x, y);
            if maze.neighbour(&c, &Direction::East).is_some()
                && !maze.walls.contains(&maze.east_wall(&c))
            {
                count += 1;
            }
            if maze.neighbour(&c, &Direction::South).is_some()
                && !maze.walls.contains(&maze.south_wall(&c))
            {
                count += 1;
            }
        }
    }
    count
}

#[test]
fn coord_set_holds_any_coordinate() {
    let mut set = CoordSet::new();
    assert!(set.is_empty());
    for c in [at(0, 0), at(-1, 5), at(i32::MAX, i32::MIN), at(i32::MIN, i32::MAX)] {
        assert!(!set.contains(&c));
        assert!(set.insert(c));
        assert!(set.contains(&c));
    }
    assert!(!set.contains(&at(5, -1)));
    assert!(!set.contains(&at(i32::MIN, i32::MIN)));
    assert!(set.remove(&at(-1, 5)));
    assert!(!set.contains(&at(-1, 5)));
    assert!(set.contains(&at(0, 0)));
    set.clear();
    assert!(set.is_empty());
}

#[test]
fn wall_set_keeps_one_wall_in_a_place() {
    let wall = Wall {
        center: Point { x: 3, y: -4 },
        orientation: Orientation::Horizontal,
        border: false,
        size: 2,
    };
    let upright = Wall { orientation: Orientation::Vertical, ..wall };
    let wider = Wall { size: 3, ..wall };
    let mut set = WallSet::new();
    assert!(!set.contains(&wall));
    set.insert(wall);
    assert!(set.contains(&wall));
    assert!(!set.contains(&upright));
    assert!(!set.contains(&wider));
    set.insert(upright);
    assert!(set.contains(&wall));
    assert!(set.contains(&upright));
    set.insert(wider);
    assert!(set.contains(&wider));
    assert!(!set.contains(&wall));
    assert!(!set.remove(&wall));
    assert!(set.contains(&wider));
    assert!(set.remove(&wider));
    assert!(!set.contains(&wider));
    assert!(set.contains(&upright));
}

#[test]
fn partition_moves_cells_between_sets() {
    let mut sets = Partition::new();
    assert_eq!(sets.len(), 0);
    assert_eq!(sets.find(&at(0, 0)), None);
    sets.place(at(0, 0), 4);
    sets.place(at(1, 0), 9);
    sets.place(at(2, 0), 4);
    assert_eq!(sets.len(), 3);
    assert_eq!(sets.find(&at(0, 0)), Some(4));
    assert_eq!(sets.find(&at(1, 0)), Some(9));
    assert!(sets.same_set(&at(0, 0), &at(2, 0)));
    assert!(!sets.same_set(&at(0, 0), &at(1, 0)));
    assert!(!sets.same_set(&at(0, 0), &at(7, 7)));
    assert!(!sets.same_set(&at(7, 7), &at(7, 7)));
    sets.rename(4, 9);
    assert_eq!(sets.find(&at(0, 0)), Some(9));
    assert_eq!(sets.find(&at(2, 0)), Some(9));
    assert!(sets.same_set(&at(0, 0), &at(1, 0)));
    sets.place(at(1, 0), 2);
    assert_eq!(sets.len(), 3);
    assert_eq!(sets.find(&at(1, 0)), Some(2));
    sets.rename(7, 1);
    assert_eq!(sets.find(&at(1, 0)), Some(2));
}

#[test]
fn trail_leads_back_to_the_root() {
    let mut trail = Trail::new(at(3, 3));
    assert_eq!(trail.len(), 1);
    assert_eq!(trail.node(0), PathNode { coord: at(3, 3), dist: 0, previous: None });
    let a = trail.extend(at(3, 2), 0);
    let b = trail.extend(at(4, 3), 0);
    let c = trail.extend(at(3, 1), a);
    assert_eq!((a, b, c), (1, 2, 3));
    assert_eq!(trail.node(c), PathNode { coord: at(3, 1), dist: 2, previous: Some(1) });
    assert_eq!(trail.path(c), vec![at(3, 1), at(3, 2), at(3, 3)]);
    assert_eq!(trail.path(b), vec![at(4, 3), at(3, 3)]);
    assert_eq!(trail.path(0), vec![at(3, 3)]);
    let mut marks = CoordSet::new();
    marks.insert(at(9, 9));
    trail.highlight_path(c, &mut marks);
    assert!(marks.contains(&at(3, 1)) && marks.contains(&at(3, 2)) && marks.contains(&at(3, 3)));
    assert!(!marks.contains(&at(4, 3)));
    assert!(!marks.contains(&at(9, 9)));
}

#[test]
fn kruskal_unites_sets_and_misses_cells_outside() {
    let config = grid(3, 2, 4);
    let mut random = seeded(1);
    let maze = Maze::new(&config, &mut random);
    let mut kruskal = Kruskal::new(&maze, &mut random);
    assert!(!kruskal.is_done());
    assert!(matches!(kruskal.join(at(0, 0), at(1, 0), &maze), Ok(JoinResult::Joined)));
    assert!(matches!(kruskal.join(at(1, 0), at(0, 0), &maze), Ok(JoinResult::Nop)));
    assert!(matches!(kruskal.join(at(1, 0), at(1, 1), &maze), Ok(JoinResult::Joined)));
    assert!(matches!(kruskal.join(at(1, 1), at(0, 0), &maze), Ok(JoinResult::Nop)));
    match kruskal.join(at(3, 0), at(0, 0), &maze) {
        Err(Error::MissingSet(c)) => assert_eq!(c, at(3, 0)),
        other => panic!("unexpected: {:?}", other),
    }
    match kruskal.join(at(0, 0), at(0, -1), &maze) {
        Err(Error::MissingSet(c)) => assert_eq!(c, at(0, -1)),
        other => panic!("unexpected: {:?}", other),
    }
}

#[test]
fn kruskal_tries_every_wall_at_most_once() {
    let config = grid(4, 4, 5);
    let mut random = seeded(2);
    let mut maze = Maze::new(&config, &mut random);
    let mut kruskal = Kruskal::new(&maze, &mut random);
    let mut ticks = 0;
    while !kruskal.is_done() {
        let before = removed(&maze);
        kruskal.advance(&mut maze).unwrap();
        let after = removed(&maze);
        assert!(after == before || after == before + 1);
        ticks += 1;
    }
    assert!(ticks <= 24);
    assert_eq!(removed(&maze), 15);
}

#[test]
fn prim_grows_through_the_wall_it_is_given() {
    let config = grid(3, 3, 4);
    let mut random = seeded(1);
    let mut maze = Maze::new(&config, &mut random);
    let mut prim = Prim::new(&maze);
    assert!(!prim.is_done());

    // a wall far from the start opens nothing
    let far = maze.east_wall(&at(1, 1));
    prim.advance(&mut maze, far).unwrap();
    assert_eq!(removed(&maze), 0);
    assert!(maze.explored.contains(&at(0, 0)));
    assert!(!maze.explored.contains(&at(1, 1)));

    let east = maze.east_wall(&at(0, 0));
    prim.advance(&mut maze, east).unwrap();
    assert!(!maze.walls.contains(&east));
    assert!(maze.explored.contains(&at(1, 0)));
    assert!(maze.highlight_bright.contains(&at(1, 0)));
    assert_eq!(removed(&maze), 1);

    // the same wall again opens nothing
    prim.advance(&mut maze, east).unwrap();
    assert_eq!(removed(&maze), 1);
    assert!(maze.highlight_bright.is_empty());

    let south = maze.south_wall(&at(0, 0));
    prim.advance(&mut maze, south).unwrap();
    assert!(maze.explored.contains(&at(0, 1)));
    // a wall between two explored cells stays
    maze.explored.insert(at(1, 1));
    let between = maze.south_wall(&at(1, 0));
    prim.advance(&mut maze, between).unwrap();
    assert!(maze.walls.contains(&between));

    let border = maze.north_wall(&at(0, 0));
    match prim.advance(&mut maze, border) {
        Err(Error::BorderWall(wall)) => assert_eq!(wall, border),
        other => panic!("unexpected: {:?}", other),
    }
    assert!(maze.walls.contains(&border));
}

#[test]
fn prim_ends_with_an_empty_frontier() {
    let config = grid(2, 1, 4);
    let mut random = seeded(1);
    let mut maze = Maze::new(&config, &mut random);
    let mut prim = Prim::new(&maze);
    let wall = maze.east_wall(&at(0, 0));
    prim.advance(&mut maze, wall).unwrap();
    assert!(prim.is_done());
    assert_eq!(removed(&maze), 1);
}

#[test]
fn eller_keeps_cells_in_numbered_sets() {
    let config = grid(3, 3, 4);
    let mut random = seeded(1);
    let maze = Maze::new(&config, &mut random);
    let mut eller = Eller::new(&maze);
    assert!(eller.same_set(&at(0, 0), &at(0, 0)));
    assert!(!eller.same_set(&at(0, 0), &at(1, 0)));
    eller.new_set(at(1, 0));
    eller.new_set(at(2, 0));
    assert!(!eller.same_set(&at(0, 0), &at(1, 0)));
    assert!(!eller.same_set(&at(1, 0), &at(2, 0)));
    eller.join(&at(0, 0), at(1, 0));
    assert!(eller.same_set(&at(0, 0), &at(1, 0)));
    assert!(!eller.same_set(&at(0, 0), &at(2, 0)));
    eller.join(&at(2, 0), at(2, 1));
    assert!(eller.same_set(&at(2, 0), &at(2, 1)));
    eller.join(&at(1, 0), at(2, 1));
    assert!(eller.same_set(&at(0, 0), &at(2, 0)));
    eller.add(at(2, 0), 77);
    assert!(!eller.same_set(&at(0, 0), &at(2, 0)));
    assert!(eller.same_set(&at(0, 0), &at(2, 1)));
    eller.add(at(0, 2), 77);
    assert!(eller.same_set(&at(0, 2), &at(2, 0)));
}

#[test]
fn eller_follows_the_coin() {
    let config = grid(2, 2, 4);
    let mut random = seeded(1);
    let mut maze = Maze::new(&config, &mut random);
    let mut eller = Eller::new(&maze);
    assert!(eller.wants_coin(&maze));

    eller.advance(&mut maze, false).unwrap();
    assert!(maze.walls.contains(&maze.east_wall(&at(0, 0))));
    assert!(!eller.same_set(&at(0, 0), &at(1, 0)));
    assert!(maze.explored.contains(&at(0, 0)));
    assert!(maze.highlight_bright.contains(&at(0, 0)));
    assert!(maze.highlight_dark.contains(&at(1, 0)));
    assert!(!maze.highlight_dark.contains(&at(0, 1)));

    // at the end of the row the sweep turns
    assert!(!eller.wants_coin(&maze));
    eller.advance(&mut maze, true).unwrap();
    assert_eq!(removed(&maze), 0);
    assert!(!eller.is_done());

    // each cell is alone in its set and must be carried down
    assert!(!eller.wants_coin(&maze));
    eller.advance(&mut maze, false).unwrap();
    assert!(!maze.walls.contains(&maze.south_wall(&at(1, 0))));
    assert!(eller.same_set(&at(1, 0), &at(1, 1)));
    assert!(maze.explored.contains(&at(1, 1)));
    assert!(maze.highlight_medium.contains(&at(1, 1)));
    eller.advance(&mut maze, false).unwrap();
    assert!(!maze.walls.contains(&maze.south_wall(&at(0, 0))));

    // in the last row neighbours in different sets are united whatever the coin
    assert!(!eller.wants_coin(&maze));
    eller.advance(&mut maze, false).unwrap();
    assert!(!maze.walls.contains(&maze.east_wall(&at(0, 1))));
    assert!(eller.same_set(&at(0, 0), &at(1, 0)));
    eller.advance(&mut maze, false).unwrap();
    assert!(eller.is_done());
    assert_eq!(removed(&maze), 3);
}

#[test]
fn eller_unites_on_heads() {
    let config = grid(3, 2, 4);
    let mut random = seeded(1);
    let mut maze = Maze::new(&config, &mut random);
    let mut eller = Eller::new(&maze);
    eller.advance(&mut maze, true).unwrap();
    assert!(!maze.walls.contains(&maze.east_wall(&at(0, 0))));
    assert!(eller.same_set(&at(0, 0), &at(1, 0)));
    assert!(maze.highlight_medium.contains(&at(1, 0)));
    eller.advance(&mut maze, false).unwrap();
    assert!(maze.walls.contains(&maze.east_wall(&at(1, 0))));
    eller.advance(&mut maze, false).unwrap();
    // the cell at the end of the row is alone in its set
    eller.advance(&mut maze, false).unwrap();
    assert!(!maze.walls.contains(&maze.south_wall(&at(2, 0))));
    // the next cell is the last of its set only at the first column
    assert!(eller.wants_coin(&maze));
    eller.advance(&mut maze, false).unwrap();
    assert!(maze.walls.contains(&maze.south_wall(&at(1, 0))));
    assert!(!eller.wants_coin(&maze));
    eller.advance(&mut maze, false).unwrap();
    assert!(!maze.walls.contains(&maze.south_wall(&at(0, 0))));
}

#[test]
fn hunt_and_kill_walks_then_hunts() {
    let config = grid(2, 2, 4);
    let mut random = seeded(1);
    let mut maze = Maze::new(&config, &mut random);
    let mut walk = HuntKill::new(&maze);

    let order = vec![(at(1, 0), Direction::East), (at(0, 1), Direction::South)];
    walk.advance(&mut maze, &order).unwrap();
    assert!(!maze.walls.contains(&maze.east_wall(&at(0, 0))));
    let order = vec![(at(0, 0), Direction::West), (at(1, 1), Direction::South)];
    walk.advance(&mut maze, &order).unwrap();
    assert!(!maze.walls.contains(&maze.south_wall(&at(1, 0))));
    // the walk is stuck at (1, 1) once (0, 1) is explored
    maze.explored.insert(at(0, 1));
    let order = vec![(at(1, 0), Direction::North), (at(0, 1), Direction::West)];
    walk.advance(&mut maze, &order).unwrap();
    assert_eq!(removed(&maze), 2);
    maze.explored.remove(&at(0, 1));

    // the hunt passes the explored cells of the first row
    walk.advance(&mut maze, &vec![]).unwrap();
    walk.advance(&mut maze, &vec![]).unwrap();
    assert!(maze.highlight_medium.contains(&at(0, 0)));
    assert!(maze.highlight_medium.contains(&at(1, 0)));
    assert!(!walk.is_done());
    // and finds (0, 1) next to explored cells
    let order = vec![(at(1, 1), Direction::East), (at(0, 0), Direction::North)];
    walk.advance(&mut maze, &order).unwrap();
    assert!(!maze.walls.contains(&maze.east_wall(&at(0, 1))));
    assert!(maze.walls.contains(&maze.south_wall(&at(0, 0))));
    assert!(maze.highlight_bright.contains(&at(0, 1)));
    assert!(maze.highlight_bright.contains(&at(1, 1)));
    assert!(maze.highlight_medium.is_empty());
    assert_eq!(removed(&maze), 3);

    let mut ticks = 0;
    while !walk.is_done() {
        walk.advance(&mut maze, &vec![]).unwrap();
        ticks += 1;
        assert!(ticks < 20);
    }
    assert_eq!(removed(&maze), 3);
}

#[test]
fn heuristic_is_the_manhattan_distance_to_the_goal() {
    let config = Config {
        width: 6,
        height: 5,
        cell_size: 4,
        start: Some(at(0, 0)),
        end: Some(at(4, 3)),
        ..Config::default()
    };
    let maze = Maze::new(&config, &mut seeded(1));
    let greedy = Greedy::new(&maze);
    assert_eq!(greedy.heuristic(&at(0, 0)), 7);
    assert_eq!(greedy.heuristic(&at(4, 3)), 0);
    assert_eq!(greedy.heuristic(&at(5, 4)), 2);
    let astar = AStar::new(&maze);
    assert_eq!(astar.heuristic(&at(1, 4)), 4);
    assert_eq!(astar.heuristic(&at(5, 0)), 4);
}

#[test]
fn searches_find_the_neighbours_behind_gaps() {
    let config = grid(3, 3, 4);
    let mut maze = Maze::new(&config, &mut seeded(1));
    maze.link(&at(0, 0), &at(1, 0)).unwrap();
    maze.link(&at(0, 0), &at(0, 1)).unwrap();
    let bfs = BFS::new(&maze);
    assert_eq!(
        bfs.available_neighbours(&maze),
        vec![(at(1, 0), Direction::East), (at(0, 1), Direction::South)]
    );
    maze.explored.insert(at(1, 0));
    let dijkstra = Dijkstra::new(&maze);
    assert_eq!(dijkstra.available_neighbours(&maze), vec![(at(0, 1), Direction::South)]);
    assert_eq!(dijkstra.path(), vec![at(0, 0)]);
    assert!(!dijkstra.is_done());
}

#[test]
fn dijkstra_visits_cells_of_equal_distance_in_the_order_found() {
    let config = Config {
        width: 3,
        height: 3,
        cell_size: 4,
        start: Some(at(1, 1)),
        end: Some(at(0, 0)),
        ..Config::default()
    };
    let mut maze = Maze::new(&config, &mut seeded(1));
    for n in [at(1, 0), at(2, 1), at(1, 2), at(0, 1)] {
        maze.link(&at(1, 1), &n).unwrap();
    }
    maze.link(&at(1, 0), &at(2, 0)).unwrap();
    maze.link(&at(0, 1), &at(0, 0)).unwrap();
    let mut solver = SolverType::Dijkstra.init(&maze);
    let mut visited = Vec::new();
    while !solver.is_done() {
        solver.tick(&mut maze).unwrap();
        visited.push(solver.path()[0]);
    }
    assert_eq!(
        visited,
        vec![at(1, 0), at(2, 1), at(1, 2), at(0, 1), at(2, 0), at(0, 0)]
    );
    assert_eq!(solver.path(), vec![at(0, 0), at(0, 1), at(1, 1)]);
}

#[test]
fn run_builds_and_solves() {
    for generator in [
        GeneratorType::DFS,
        GeneratorType::Kruskal,
        GeneratorType::Prim,
        GeneratorType::Eller,
        GeneratorType::HuntKill,
    ] {
        for solver in [
            SolverType::DFS,
            SolverType::BFS,
            SolverType::Dijkstra,
            SolverType::Greedy,
            SolverType::AStar,
        ] {
            let config =
                Config { width: 5, height: 4, cell_size: 3, generator, solver, ..Config::default() };
            let (maze, found) = run(&config, &mut seeded(3));
            assert_eq!(removed(&maze), 19);
            assert!(found.is_done());
            let path = found.path();
            assert_eq!(path[0], maze.end);
            assert_eq!(path[path.len() - 1], maze.start);
            for pair in path.windows(2) {
                assert!(maze.connected_neighbours(&pair[0]).iter().any(|(n, _)| *n == pair[1]));
            }
            for c in &path {
                assert!(maze.highlight_medium.contains(c));
                assert!(maze.explored.contains(c) || *c == maze.start || *c == maze.end);
            }
        }
    }
}

#[test]
fn session_builds_then_solves_step_by_step() {
    let config = Config { width: 4, height: 3, cell_size: 5, ..Config::default() };
    let mut random = seeded(8);
    let mut session = mazes::session::Session::new(&config, &mut random);
    assert!(!session.is_done());
    let mut steps = 0;
    while matches!(session.phase, mazes::session::Phase::Generating(_)) {
        session.step(&mut random).unwrap();
        steps += 1;
        assert!(steps < 1000);
    }
    assert!(steps > 11);
    assert_eq!(removed(&session.maze), 11);
    assert!(session.maze.explored.is_empty());
    assert!(session.maze.highlight_bright.is_empty());
    assert!(session.maze.highlight_medium.is_empty());
    assert!(session.maze.highlight_dark.is_empty());
    assert!(!session.is_done());
    let mut steps = 0;
    while !session.is_done() {
        session.step(&mut random).unwrap();
        steps += 1;
        assert!(steps < 1000);
    }
    assert!(steps >= 1);
    assert_eq!(removed(&session.maze), 11);
    assert!(session.maze.highlight_bright.contains(&session.maze.end));
    session.step(&mut random).unwrap();
    assert!(session.is_done());
}

#[test]
fn session_builds_and_solves_in_two_steps_when_nothing_is_shown() {
    let config = Config {
        width: 6,
        height: 6,
        cell_size: 5,
        generator: GeneratorType::HuntKill,
        solver: SolverType::BFS,
        no_interactive_gen: true,
        no_interactive_solve: true,
        ..Config::default()
    };
    let mut random = seeded(9);
    let mut session = mazes::session::Session::new(&config, &mut random);
    session.step(&mut random).unwrap();
    assert!(matches!(session.phase, mazes::session::Phase::Solving(_)));
    assert_eq!(removed(&session.maze), 35);
    assert!(!session.is_done());
    session.step(&mut random).unwrap();
    assert!(session.is_done());
    assert!(session.maze.highlight_medium.contains(&session.maze.start));
    assert!(session.maze.highlight_medium.contains(&session.maze.end));
}

#[test]
fn hunt_and_kill_steps_take_a_walk_without_a_cell() {
    let config = grid(2, 2, 4);
    let mut random = seeded(1);
    let mut maze = Maze::new(&config, &mut random);
    let mut walk = HuntKill::new(&maze);
    let mut ticks = 0;
    while !walk.is_done() {
        walk.tick(&mut maze, &mut random).unwrap();
        ticks += 1;
        assert!(ticks < 100);
    }
    assert_eq!(removed(&maze), 3);
    maze.highlight_bright.insert(at(1, 1));
    maze.highlight_medium.insert(at(0, 1));
    walk.tick_kill(&mut maze, &vec![]).unwrap();
    assert!(walk.is_done());
    assert!(maze.highlight_bright.contains(&at(1, 1)));
    assert!(maze.highlight_medium.contains(&at(0, 1)));
    walk.tick_hunt(&mut maze, &vec![]).unwrap();
    assert!(walk.is_done());
    assert!(maze.highlight_bright.contains(&at(1, 1)));
    assert!(maze.highlight_medium.is_empty());
    assert_eq!(removed(&maze), 3);
}

#[test]
fn hunt_and_kill_steps_leave_bright_marks_where_they_are() {
    let config = grid(2, 2, 4);
    let mut random = seeded(1);
    let mut maze = Maze::new(&config, &mut random);
    let mut walk = HuntKill::new(&maze);
    maze.highlight_bright.insert(at(1, 1));
    let order = vec![(at(1, 0), Direction::East), (at(0, 1), Direction::South)];
    walk.tick_kill(&mut maze, &order).unwrap();
    assert!(maze.highlight_bright.contains(&at(1, 1)));
    assert!(maze.highlight_bright.contains(&at(0, 0)));
    assert!(!maze.highlight_bright.contains(&at(1, 0)));
    assert!(!maze.walls.contains(&maze.east_wall(&at(0, 0))));
    walk.tick_hunt(&mut maze, &vec![]).unwrap();
    assert!(maze.highlight_bright.contains(&at(1, 1)));
    assert!(maze.highlight_bright.contains(&at(1, 0)));
    assert!(maze.highlight_medium.contains(&at(0, 0)));
    assert!(maze.highlight_medium.contains(&at(1, 0)));
}

#[test]
fn eller_moves_a_cell_into_a_set_of_its_own() {
    let config = grid(3, 3, 4);
    let mut random = seeded(1);
    let maze = Maze::new(&config, &mut random);
    let mut eller = Eller::new(&maze);
    eller.new_set(at(1, 0));
    eller.join(&at(0, 0), at(1, 0));
    assert!(eller.same_set(&at(0, 0), &at(1, 0)));
    eller.new_set(at(1, 0));
    assert!(!eller.same_set(&at(0, 0), &at(1, 0)));
    assert!(eller.same_set(&at(1, 0), &at(1, 0)));
}
