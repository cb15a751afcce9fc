use mazes::config::Config;
use mazes::error::Error;
use mazes::generator::{
    build, generate, ActiveGenerator, Generator, GeneratorType, DFS as Backtracker,
};
use mazes::maze::{Coord, Direction, Maze, Wall};
use mazes::solver::{solve as solve_in_one_go, ActiveSolver, Solver, SolverType};
use rand::{SeedableRng, StdRng};

const GENERATORS: [GeneratorType; 5] = [
    GeneratorType::DFS,
    GeneratorType::Kruskal,
    GeneratorType::Prim,
    GeneratorType::Eller,
    GeneratorType::HuntKill,
];

const SOLVERS: [SolverType; 5] = [
    SolverType::DFS,
    SolverType::BFS,
    SolverType::Dijkstra,
    SolverType::Greedy,
    SolverType::AStar,
];

fn seeded(seed: usize) -> StdRng {
    let words = [seed, 11, 22, 33];
    StdRng::from_seed(&words[..])
}

fn grid(width: u32, height: u32, cell_size: u32) -> Config {
    Config {
        width,
        height,
        cell_size,
        start: Some(Coord { x: 0, y: 0 }),
        end: Some(Coord { x: width as i32 - 1, y: height as i32 - 1 }),
        ..Config::default()
    }
}

fn cells(maze: &Maze) -> Vec<Coord> {
    let mut all = Vec::new();
    for y in 0..maze.maze_height() as i32 {
        for x in 0..maze.maze_width() as i32 {
            all.push(Coord { x, y });
        }
    }
    all
}

fn inner_walls(maze: &Maze) -> Vec<Wall> {
    let mut all = Vec::new();
    for c in cells(maze) {
        if maze.neighbour(&c, &Direction::East).is_some() {
            all.push(maze.east_wall(&c));
        }
        if maze.neighbour(&c, &Direction::South).is_some() {
            all.push(maze.south_wall(&c));
        }
    }
    all
}

fn removed_walls(maze: &Maze) -> Vec<Wall> {
    inner_walls(maze).into_iter().filter(|w| !maze.walls.contains(w)).collect()
}

fn border_stands(maze: &Maze) -> bool {
    cells(maze).iter().all(|c| {
        maze.walls(c).iter().all(|w| w.removable() || maze.walls.contains(w))
    })
}

/// The number of steps from `from` to every cell that can be reached.
fn distances(maze: &Maze, from: Coord) -> Vec<(Coord, usize)> {
    let mut found = vec![(from, 0)];
    let mut next = 0;
    while next < found.len() {
        let (c, d) = found[next];
        next += 1;
        for (n, _) in maze.connected_neighbours(&c) {
            if !found.iter().any(|(seen, _)| *seen == n) {
                found.push((n, d + 1));
            }
        }
    }
    found
}

fn is_spanning_tree(maze: &Maze) -> bool {
    let count = cells(maze).len();
    removed_walls(maze).len() == count - 1 && distances(maze, Coord { x: 0, y: 0 }).len() == count
}

fn run(kind: GeneratorType, maze: &mut Maze, random: &mut StdRng) -> ActiveGenerator {
    let mut generator = kind.init(maze, random);
    let limit = 100 * cells(maze).len() + 100;
    let mut ticks = 0;
    while !generator.is_done() {
        generator.tick(maze, random).unwrap();
        ticks += 1;
        assert!(ticks <= limit, "{:?} does not end", kind);
    }
    generator
}

fn clear_marks(maze: &mut Maze) {
    maze.explored.clear();
    maze.highlight_bright.clear();
    maze.highlight_medium.clear();
    maze.highlight_dark.clear();
}

fn solve(kind: SolverType, maze: &mut Maze) -> Result<ActiveSolver, Error> {
    let mut solver = kind.init(maze);
    let limit = 100 * cells(maze).len() + 100;
    let mut ticks = 0;
    while !solver.is_done() {
        solver.tick(maze)?;
        ticks += 1;
        assert!(ticks <= limit, "{:?} does not end", kind);
    }
    Ok(solver)
}

fn marks(maze: &Maze) -> Vec<(bool, bool, bool, bool)> {
    cells(maze)
        .iter()
        .map(|c| {
            (
                maze.explored.contains(c),
                maze.highlight_bright.contains(c),
                maze.highlight_medium.contains(c),
                maze.highlight_dark.contains(c),
            )
        })
        .collect()
}

#[test]
fn every_generator_builds_a_spanning_tree() {
    for kind in GENERATORS {
        for (width, height, size) in
            [(2, 1, 40), (1, 2, 40), (2, 2, 3), (3, 3, 40), (5, 4, 7), (1, 6, 2), (7, 1, 1), (6, 9, 5)]
        {
            for seed in 0..6 {
                let config = grid(width, height, size);
                let mut random = seeded(seed);
                let mut maze = Maze::new(&config, &mut random);
                run(kind, &mut maze, &mut random);
                assert!(
                    is_spanning_tree(&maze),
                    "{:?} on {}x{} with seed {}",
                    kind,
                    width,
                    height,
                    seed
                );
            }
        }
    }
}

#[test]
fn every_generator_builds_a_spanning_tree_between_random_ends() {
    for kind in GENERATORS {
        for seed in 0..10 {
            let config = Config { width: 6, height: 5, cell_size: 9, ..Config::default() };
            let mut random = seeded(seed);
            let mut maze = Maze::new(&config, &mut random);
            run(kind, &mut maze, &mut random);
            assert!(is_spanning_tree(&maze), "{:?} with seed {}", kind, seed);
        }
    }
}

#[test]
fn a_line_of_cells_with_the_end_in_the_middle_is_built_in_full() {
    for kind in GENERATORS {
        let config = Config {
            width: 5,
            height: 1,
            cell_size: 10,
            start: Some(Coord { x: 0, y: 0 }),
            end: Some(Coord { x: 2, y: 0 }),
            ..Config::default()
        };
        let mut random = seeded(4);
        let mut maze = Maze::new(&config, &mut random);
        run(kind, &mut maze, &mut random);
        assert!(is_spanning_tree(&maze), "{:?}", kind);
    }
}

#[test]
fn no_generator_touches_the_border() {
    for kind in GENERATORS {
        let config = grid(5, 5, 40);
        let mut random = seeded(9);
        let mut maze = Maze::new(&config, &mut random);
        let mut generator = kind.init(&maze, &mut random);
        let mut standing = inner_walls(&maze).len();
        while !generator.is_done() {
            generator.tick(&mut maze, &mut random).unwrap();
            assert!(border_stands(&maze), "{:?}", kind);
            let now = inner_walls(&maze).len() - removed_walls(&maze).len();
            assert!(now == standing || now + 1 == standing, "{:?}", kind);
            standing = now;
        }
    }
}

#[test]
fn generators_repeat_themselves_on_the_same_seed() {
    for kind in GENERATORS {
        for seed in [0, 5, 77] {
            let config = grid(6, 6, 40);
            let mut first_random = seeded(seed);
            let mut first = Maze::new(&config, &mut first_random);
            let mut second_random = seeded(seed);
            let mut second = Maze::new(&config, &mut second_random);
            let mut a = kind.init(&first, &mut first_random);
            let mut b = kind.init(&second, &mut second_random);
            while !a.is_done() {
                assert!(!b.is_done());
                a.tick(&mut first, &mut first_random).unwrap();
                b.tick(&mut second, &mut second_random).unwrap();
                assert_eq!(removed_walls(&first), removed_walls(&second), "{:?}", kind);
                assert_eq!(marks(&first), marks(&second), "{:?}", kind);
            }
            assert!(b.is_done());
        }
    }
}

#[test]
fn generators_depend_on_the_seed() {
    for kind in GENERATORS {
        let config = grid(6, 6, 40);
        let mut mazes = Vec::new();
        for seed in 0..8 {
            let mut random = seeded(seed);
            let mut maze = Maze::new(&config, &mut random);
            run(kind, &mut maze, &mut random);
            let removed = removed_walls(&maze);
            if !mazes.contains(&removed) {
                mazes.push(removed);
            }
        }
        assert!(mazes.len() > 1, "{:?}", kind);
    }
}

#[test]
fn a_tick_of_a_finished_generator_changes_nothing() {
    for kind in GENERATORS {
        let config = grid(4, 4, 40);
        let mut random = seeded(2);
        let mut maze = Maze::new(&config, &mut random);
        let mut generator = run(kind, &mut maze, &mut random);
        maze.highlight_bright.clear();
        let walls = removed_walls(&maze);
        let before = marks(&maze);
        for _ in 0..3 {
            generator.tick(&mut maze, &mut random).unwrap();
            assert!(generator.is_done());
            assert_eq!(removed_walls(&maze), walls);
            assert_eq!(marks(&maze), before);
        }
    }
}

#[test]
fn a_tick_of_a_finished_generator_clears_the_bright_marks() {
    for kind in GENERATORS {
        let config = grid(3, 3, 40);
        let mut random = seeded(2);
        let mut maze = Maze::new(&config, &mut random);
        let mut generator = run(kind, &mut maze, &mut random);
        maze.highlight_bright.insert(Coord { x: 1, y: 1 });
        generator.tick(&mut maze, &mut random).unwrap();
        assert!(maze.highlight_bright.is_empty());
    }
}

#[test]
fn backtracker_follows_the_order_it_is_given() {
    let config = grid(2, 2, 40);
    let mut random = seeded(1);
    let mut maze = Maze::new(&config, &mut random);
    let mut walk = Backtracker::new(&maze);
    assert_eq!(walk.current, Some(Coord { x: 0, y: 0 }));

    let order = vec![
        (Coord { x: 0, y: 1 }, Direction::South),
        (Coord { x: 1, y: 0 }, Direction::East),
    ];
    walk.advance(&mut maze, &order).unwrap();
    assert_eq!(walk.current, Some(Coord { x: 0, y: 1 }));
    assert_eq!(walk.stack, vec![Coord { x: 0, y: 0 }]);
    assert!(!maze.walls.contains(&maze.south_wall(&Coord { x: 0, y: 0 })));
    assert!(maze.explored.contains(&Coord { x: 0, y: 0 }));
    assert!(maze.explored.contains(&Coord { x: 0, y: 1 }));
    assert!(maze.highlight_bright.contains(&Coord { x: 0, y: 0 }));
    assert!(!maze.highlight_bright.contains(&Coord { x: 0, y: 1 }));

    let order = vec![
        (Coord { x: 0, y: 0 }, Direction::North),
        (Coord { x: 1, y: 1 }, Direction::East),
    ];
    walk.advance(&mut maze, &order).unwrap();
    assert_eq!(walk.current, Some(Coord { x: 1, y: 1 }));
    walk.advance(&mut maze, &vec![(Coord { x: 1, y: 0 }, Direction::North)]).unwrap();
    assert_eq!(walk.current, Some(Coord { x: 1, y: 0 }));
    assert_eq!(removed_walls(&maze).len(), 3);

    let back = vec![
        (Coord { x: 1, y: 1 }, Direction::South),
        (Coord { x: 0, y: 0 }, Direction::West),
    ];
    walk.advance(&mut maze, &back).unwrap();
    assert_eq!(walk.current, Some(Coord { x: 1, y: 1 }));
    walk.advance(&mut maze, &vec![]).unwrap();
    walk.advance(&mut maze, &vec![]).unwrap();
    assert_eq!(walk.current, Some(Coord { x: 0, y: 0 }));
    assert!(!walk.is_done());
    walk.advance(&mut maze, &vec![]).unwrap();
    assert_eq!(walk.current, None);
    assert!(walk.is_done());
    assert_eq!(removed_walls(&maze).len(), 3);
    assert!(is_spanning_tree(&maze));
}

#[test]
fn backtracker_refuses_a_step_to_a_cell_that_is_no_neighbour() {
    let config = grid(3, 3, 40);
    let mut random = seeded(1);
    let mut maze = Maze::new(&config, &mut random);
    let mut walk = Backtracker::new(&maze);
    let order = vec![(Coord { x: 2, y: 2 }, Direction::South)];
    match walk.advance(&mut maze, &order) {
        Err(Error::NotNeighbours(a, b)) => {
            assert_eq!(a, Coord { x: 0, y: 0 });
            assert_eq!(b, Coord { x: 2, y: 2 });
        }
        other => panic!("unexpected: {:?}", other),
    }
    assert_eq!(walk.current, Some(Coord { x: 0, y: 0 }));
    assert!(removed_walls(&maze).is_empty());
}

#[test]
fn shuffled_walks_differ_from_the_walk_in_grid_order() {
    let config = grid(6, 6, 40);
    let mut random = seeded(1);
    let mut plain = Maze::new(&config, &mut random);
    let mut walk = Backtracker::new(&plain);
    while let Some(current) = walk.current {
        let order = plain.neighbours(&current);
        walk.advance(&mut plain, &order).unwrap();
    }
    assert!(is_spanning_tree(&plain));
    let mut differing = 0;
    for seed in 0..10 {
        let mut random = seeded(seed);
        let mut maze = Maze::new(&config, &mut random);
        run(GeneratorType::DFS, &mut maze, &mut random);
        if removed_walls(&maze) != removed_walls(&plain) {
            differing += 1;
        }
    }
    assert!(differing >= 9);
}

#[test]
fn every_solver_finds_the_goal() {
    for generator in GENERATORS {
        for kind in SOLVERS {
            for seed in 0..4 {
                let config = Config { width: 7, height: 6, cell_size: 8, ..Config::default() };
                let mut random = seeded(seed);
                let mut maze = Maze::new(&config, &mut random);
                run(generator, &mut maze, &mut random);
                clear_marks(&mut maze);
                let solver = solve(kind, &mut maze).unwrap();
                assert!(solver.is_done());
                let path = solver.path();
                assert_eq!(path[0], maze.end);
                assert_eq!(path[path.len() - 1], maze.start);
                for pair in path.windows(2) {
                    assert!(maze
                        .connected_neighbours(&pair[0])
                        .iter()
                        .any(|(n, _)| *n == pair[1]));
                }
                let shortest = distances(&maze, maze.start)
                    .into_iter()
                    .find(|(c, _)| *c == maze.end)
                    .unwrap()
                    .1;
                assert_eq!(path.len() - 1, shortest, "{:?} after {:?}", kind, generator);
                assert!(maze.highlight_bright.contains(&maze.end));
                for c in cells(&maze) {
                    assert_eq!(maze.highlight_medium.contains(&c), path.contains(&c));
                    assert_eq!(maze.highlight_bright.contains(&c), c == maze.end);
                }
            }
        }
    }
}

#[test]
fn breadth_first_and_dijkstra_find_a_shortest_way_through_a_maze_with_loops() {
    for kind in [SolverType::BFS, SolverType::Dijkstra] {
        let config = grid(6, 6, 40);
        let mut random = seeded(3);
        let mut maze = Maze::new(&config, &mut random);
        run(GeneratorType::Kruskal, &mut maze, &mut random);
        for wall in inner_walls(&maze).into_iter().step_by(3) {
            maze.remove_wall(&wall).unwrap();
        }
        clear_marks(&mut maze);
        let shortest =
            distances(&maze, maze.start).into_iter().find(|(c, _)| *c == maze.end).unwrap().1;
        let solver = solve(kind, &mut maze).unwrap();
        assert_eq!(solver.path().len() - 1, shortest, "{:?}", kind);
    }
}

#[test]
fn solvers_only_step_through_gaps() {
    for kind in SOLVERS {
        let config = grid(6, 5, 40);
        let mut random = seeded(8);
        let mut maze = Maze::new(&config, &mut random);
        run(GeneratorType::Prim, &mut maze, &mut random);
        clear_marks(&mut maze);
        let walls = removed_walls(&maze);
        let mut solver = kind.init(&maze);
        let mut explored: Vec<Coord> = vec![maze.start];
        while !solver.is_done() {
            solver.tick(&mut maze).unwrap();
            for c in cells(&maze) {
                if maze.explored.contains(&c) && !explored.contains(&c) {
                    assert!(maze
                        .connected_neighbours(&c)
                        .iter()
                        .any(|(n, _)| explored.contains(n)));
                    explored.push(c);
                }
            }
            assert_eq!(removed_walls(&maze), walls);
        }
    }
}

#[test]
fn a_tick_of_a_solver_at_its_goal_changes_nothing() {
    for kind in SOLVERS {
        let config = grid(5, 5, 40);
        let mut random = seeded(6);
        let mut maze = Maze::new(&config, &mut random);
        run(GeneratorType::HuntKill, &mut maze, &mut random);
        clear_marks(&mut maze);
        let mut solver = solve(kind, &mut maze).unwrap();
        let before = marks(&maze);
        let path = solver.path();
        for _ in 0..3 {
            solver.tick(&mut maze).unwrap();
            assert!(solver.is_done());
            assert_eq!(marks(&maze), before);
            assert_eq!(solver.path(), path);
        }
    }
}

#[test]
fn no_solver_gets_through_a_maze_with_every_wall_standing() {
    for kind in SOLVERS {
        let config = grid(4, 4, 40);
        let mut random = seeded(1);
        let mut maze = Maze::new(&config, &mut random);
        let mut solver = kind.init(&maze);
        assert!(!solver.is_done());
        assert!(matches!(solver.tick(&mut maze), Err(Error::ImpossibleMaze)), "{:?}", kind);
    }
}

#[test]
fn no_solver_gets_to_a_goal_that_is_walled_off() {
    for kind in SOLVERS {
        let config = grid(4, 1, 40);
        let mut random = seeded(1);
        let mut maze = Maze::new(&config, &mut random);
        maze.link(&Coord { x: 0, y: 0 }, &Coord { x: 1, y: 0 }).unwrap();
        maze.link(&Coord { x: 1, y: 0 }, &Coord { x: 2, y: 0 }).unwrap();
        let mut solver = kind.init(&maze);
        let mut failed = false;
        for _ in 0..20 {
            match solver.tick(&mut maze) {
                Ok(()) => assert!(!solver.is_done()),
                Err(Error::ImpossibleMaze) => {
                    failed = true;
                    break;
                }
                Err(other) => panic!("unexpected: {:?}", other),
            }
        }
        assert!(failed, "{:?}", kind);
    }
}

#[test]
fn two_by_two_backtracker_and_breadth_first() {
    let config = Config {
        width: 2,
        height: 2,
        cell_size: 40,
        start: Some(Coord { x: 0, y: 0 }),
        end: Some(Coord { x: 1, y: 1 }),
        ..Config::default()
    };
    let mut random = seeded(42);
    let mut maze = Maze::new(&config, &mut random);
    run(GeneratorType::DFS, &mut maze, &mut random);
    assert_eq!(removed_walls(&maze).len(), 3);
    assert_eq!(distances(&maze, Coord { x: 0, y: 0 }).len(), 4);
    clear_marks(&mut maze);
    let solver = solve(SolverType::BFS, &mut maze).unwrap();
    let path = solver.path();
    assert_eq!(path.len() - 1, 2);
    assert_eq!(path[0], Coord { x: 1, y: 1 });
    assert_eq!(path[2], Coord { x: 0, y: 0 });
}

#[test]
fn breadth_first_visits_cells_in_the_order_found() {
    let config = grid(3, 1, 40);
    let mut random = seeded(1);
    let mut maze = Maze::new(&config, &mut random);
    maze.link(&Coord { x: 0, y: 0 }, &Coord { x: 1, y: 0 }).unwrap();
    maze.link(&Coord { x: 1, y: 0 }, &Coord { x: 2, y: 0 }).unwrap();
    let mut solver = SolverType::BFS.init(&maze);
    solver.tick(&mut maze).unwrap();
    assert_eq!(solver.path(), vec![Coord { x: 1, y: 0 }, Coord { x: 0, y: 0 }]);
    assert!(!maze.explored.contains(&Coord { x: 0, y: 0 }));
    assert!(maze.explored.contains(&Coord { x: 1, y: 0 }));
    assert!(!maze.explored.contains(&Coord { x: 2, y: 0 }));
    assert!(maze.highlight_bright.contains(&Coord { x: 1, y: 0 }));
    assert!(maze.highlight_medium.contains(&Coord { x: 0, y: 0 }));
    assert!(maze.highlight_medium.contains(&Coord { x: 1, y: 0 }));
    assert!(!maze.highlight_dark.contains(&Coord { x: 1, y: 0 }));
    solver.tick(&mut maze).unwrap();
    assert!(solver.is_done());
    assert_eq!(
        solver.path(),
        vec![Coord { x: 2, y: 0 }, Coord { x: 1, y: 0 }, Coord { x: 0, y: 0 }]
    );
}

#[test]
fn greedy_goes_for_the_cell_nearest_to_the_goal() {
    let config = Config {
        width: 3,
        height: 3,
        cell_size: 40,
        start: Some(Coord { x: 1, y: 1 }),
        end: Some(Coord { x: 2, y: 2 }),
        ..Config::default()
    };
    let mut random = seeded(1);
    let mut maze = Maze::new(&config, &mut random);
    let centre = Coord { x: 1, y: 1 };
    for n in [Coord { x: 1, y: 0 }, Coord { x: 2, y: 1 }, Coord { x: 1, y: 2 }, Coord { x: 0, y: 1 }]
    {
        maze.link(&centre, &n).unwrap();
    }
    maze.link(&Coord { x: 1, y: 2 }, &Coord { x: 2, y: 2 }).unwrap();
    let mut greedy = SolverType::Greedy.init(&maze);
    greedy.tick(&mut maze).unwrap();
    assert_eq!(greedy.path()[0], Coord { x: 2, y: 1 });
    greedy.tick(&mut maze).unwrap();
    assert_eq!(greedy.path()[0], Coord { x: 1, y: 2 });
    assert!(maze.highlight_dark.contains(&Coord { x: 1, y: 0 }));
    assert!(maze.highlight_dark.contains(&Coord { x: 0, y: 1 }));
    greedy.tick(&mut maze).unwrap();
    assert!(greedy.is_done());

    clear_marks(&mut maze);
    let mut dijkstra = SolverType::Dijkstra.init(&maze);
    dijkstra.tick(&mut maze).unwrap();
    assert_eq!(dijkstra.path()[0], Coord { x: 1, y: 0 });
    dijkstra.tick(&mut maze).unwrap();
    assert_eq!(dijkstra.path()[0], Coord { x: 2, y: 1 });

    clear_marks(&mut maze);
    let mut astar = SolverType::AStar.init(&maze);
    astar.tick(&mut maze).unwrap();
    assert_eq!(astar.path()[0], Coord { x: 2, y: 1 });
    astar.tick(&mut maze).unwrap();
    assert_eq!(astar.path()[0], Coord { x: 1, y: 2 });
    astar.tick(&mut maze).unwrap();
    assert!(astar.is_done());
    assert_eq!(astar.path().len(), 3);
}

#[test]
fn depth_first_steps_back_from_a_dead_end() {
    let config = Config {
        width: 3,
        height: 2,
        cell_size: 40,
        start: Some(Coord { x: 1, y: 0 }),
        end: Some(Coord { x: 0, y: 1 }),
        ..Config::default()
    };
    let mut random = seeded(1);
    let mut maze = Maze::new(&config, &mut random);
    maze.link(&Coord { x: 1, y: 0 }, &Coord { x: 2, y: 0 }).unwrap();
    maze.link(&Coord { x: 1, y: 0 }, &Coord { x: 0, y: 0 }).unwrap();
    maze.link(&Coord { x: 0, y: 0 }, &Coord { x: 0, y: 1 }).unwrap();
    let mut solver = SolverType::DFS.init(&maze);
    solver.tick(&mut maze).unwrap();
    assert_eq!(solver.path(), vec![Coord { x: 2, y: 0 }, Coord { x: 1, y: 0 }]);
    assert!(maze.explored.contains(&Coord { x: 2, y: 0 }));
    assert!(!maze.explored.contains(&Coord { x: 1, y: 0 }));
    solver.tick(&mut maze).unwrap();
    assert_eq!(solver.path(), vec![Coord { x: 1, y: 0 }]);
    assert!(!maze.highlight_medium.contains(&Coord { x: 2, y: 0 }));
    assert!(maze.explored.contains(&Coord { x: 2, y: 0 }));
    assert!(!maze.explored.contains(&Coord { x: 1, y: 0 }));
    solver.tick(&mut maze).unwrap();
    solver.tick(&mut maze).unwrap();
    assert!(solver.is_done());
    assert_eq!(
        solver.path(),
        vec![Coord { x: 0, y: 1 }, Coord { x: 0, y: 0 }, Coord { x: 1, y: 0 }]
    );
}

#[test]
fn generate_runs_a_generator_to_its_end() {
    for kind in GENERATORS {
        let config = grid(5, 7, 6);
        let mut random = seeded(12);
        let mut maze = Maze::new(&config, &mut random);
        let mut generator = kind.init(&maze, &mut random);
        generate(&mut generator, &mut maze, &mut random).unwrap();
        assert!(generator.is_done());
        assert!(is_spanning_tree(&maze), "{:?}", kind);
        assert!(border_stands(&maze));
    }
}

#[test]
fn build_makes_a_perfect_maze() {
    for kind in GENERATORS {
        for seed in 0..5 {
            let config = Config { width: 4, height: 6, cell_size: 3, ..Config::default() };
            let maze = build(&config, kind, &mut seeded(seed));
            assert_ne!(maze.start, maze.end);
            assert!(is_spanning_tree(&maze), "{:?}", kind);
            assert!(border_stands(&maze));
        }
    }
}

#[test]
fn solve_runs_a_solver_to_the_goal() {
    for kind in SOLVERS {
        let config = Config { width: 8, height: 5, cell_size: 3, ..Config::default() };
        let mut maze = build(&config, GeneratorType::Eller, &mut seeded(21));
        clear_marks(&mut maze);
        let mut solver = kind.init(&maze);
        solve_in_one_go(&mut solver, &mut maze).unwrap();
        assert!(solver.is_done());
        let path = solver.path();
        let shortest =
            distances(&maze, maze.start).into_iter().find(|(c, _)| *c == maze.end).unwrap().1;
        assert_eq!(path.len() - 1, shortest, "{:?}", kind);
    }
}

#[test]
fn solvers_repeat_themselves() {
    for kind in SOLVERS {
        let config = Config { width: 6, height: 6, cell_size: 3, ..Config::default() };
        let mut first = build(&config, GeneratorType::Kruskal, &mut seeded(5));
        let mut second = build(&config, GeneratorType::Kruskal, &mut seeded(5));
        clear_marks(&mut first);
        clear_marks(&mut second);
        let mut a = kind.init(&first);
        let mut b = kind.init(&second);
        while !a.is_done() {
            a.tick(&mut first).unwrap();
            b.tick(&mut second).unwrap();
            assert_eq!(a.path(), b.path(), "{:?}", kind);
            assert_eq!(marks(&first), marks(&second), "{:?}", kind);
        }
        assert!(b.is_done());
    }
}

fn corridor<'a>(config: &'a Config) -> Maze<'a> {
    let mut maze = Maze::new(config, &mut seeded(1));
    for x in 0..config.width as i32 - 1 {
        maze.link(&Coord { x, y: 0 }, &Coord { x: x + 1, y: 0 }).unwrap();
    }
    maze
}

fn explored_cells(maze: &Maze) -> Vec<Coord> {
    cells(maze).into_iter().filter(|c| maze.explored.contains(c)).collect()
}

fn dark_cells(maze: &Maze) -> Vec<Coord> {
    cells(maze).into_iter().filter(|c| maze.highlight_dark.contains(c)).collect()
}

#[test]
fn breadth_first_marks_the_cell_it_moves_to_and_finds_the_start_again() {
    let config = Config {
        width: 4,
        height: 1,
        cell_size: 10,
        start: Some(Coord { x: 1, y: 0 }),
        end: Some(Coord { x: 3, y: 0 }),
        ..Config::default()
    };
    let mut maze = corridor(&config);
    let mut solver = SolverType::BFS.init(&maze);

    solver.tick(&mut maze).unwrap();
    assert_eq!(solver.path()[0], Coord { x: 2, y: 0 });
    assert_eq!(explored_cells(&maze), vec![Coord { x: 2, y: 0 }]);
    assert_eq!(dark_cells(&maze), vec![Coord { x: 0, y: 0 }]);

    solver.tick(&mut maze).unwrap();
    assert_eq!(solver.path()[0], Coord { x: 0, y: 0 });
    assert_eq!(explored_cells(&maze), vec![Coord { x: 0, y: 0 }, Coord { x: 2, y: 0 }]);
    assert_eq!(dark_cells(&maze), vec![Coord { x: 1, y: 0 }, Coord { x: 3, y: 0 }]);

    solver.tick(&mut maze).unwrap();
    assert!(solver.is_done());
    assert_eq!(
        solver.path(),
        vec![Coord { x: 3, y: 0 }, Coord { x: 2, y: 0 }, Coord { x: 1, y: 0 }]
    );
    assert_eq!(
        explored_cells(&maze),
        vec![Coord { x: 0, y: 0 }, Coord { x: 2, y: 0 }, Coord { x: 3, y: 0 }]
    );
    assert_eq!(dark_cells(&maze), vec![Coord { x: 1, y: 0 }]);
}

#[test]
fn breadth_first_comes_back_to_the_start_it_found_again() {
    let config = Config {
        width: 5,
        height: 1,
        cell_size: 10,
        start: Some(Coord { x: 1, y: 0 }),
        end: Some(Coord { x: 4, y: 0 }),
        ..Config::default()
    };
    let mut maze = corridor(&config);
    let mut solver = SolverType::BFS.init(&maze);
    let mut visited = Vec::new();
    while !solver.is_done() {
        solver.tick(&mut maze).unwrap();
        visited.push(solver.path()[0]);
    }
    assert_eq!(
        visited,
        vec![
            Coord { x: 2, y: 0 },
            Coord { x: 0, y: 0 },
            Coord { x: 3, y: 0 },
            Coord { x: 1, y: 0 },
            Coord { x: 4, y: 0 },
        ]
    );
    assert_eq!(explored_cells(&maze).len(), 5);
    assert_eq!(solver.path().len(), 4);
}

#[test]
fn the_priority_searches_mark_the_cell_they_leave() {
    for kind in [SolverType::Dijkstra, SolverType::Greedy, SolverType::AStar] {
        let config = Config {
            width: 4,
            height: 1,
            cell_size: 10,
            start: Some(Coord { x: 1, y: 0 }),
            end: Some(Coord { x: 3, y: 0 }),
            ..Config::default()
        };
        let mut maze = corridor(&config);
        let mut solver = kind.init(&maze);
        solver.tick(&mut maze).unwrap();
        assert_eq!(solver.path()[0], Coord { x: 2, y: 0 });
        assert_eq!(explored_cells(&maze), vec![Coord { x: 1, y: 0 }]);
        solver.tick(&mut maze).unwrap();
        assert!(maze.explored.contains(&Coord { x: 2, y: 0 }));
        while !solver.is_done() {
            solver.tick(&mut maze).unwrap();
        }
        assert!(!maze.explored.contains(&Coord { x: 3, y: 0 }));
        assert_eq!(
            solver.path(),
            vec![Coord { x: 3, y: 0 }, Coord { x: 2, y: 0 }, Coord { x: 1, y: 0 }]
        );
    }
}

#[test]
fn depth_first_never_marks_the_start() {
    let mut random = seeded(11);
    let config = grid(5, 4, 6);
    let mut maze = Maze::new(&config, &mut random);
    run(GeneratorType::Kruskal, &mut maze, &mut random);
    clear_marks(&mut maze);
    let mut solver = SolverType::DFS.init(&maze);
    let mut before = explored_cells(&maze);
    while !solver.is_done() {
        solver.tick(&mut maze).unwrap();
        let after = explored_cells(&maze);
        assert!(after.len() <= before.len() + 1);
        if after.len() > before.len() {
            assert!(after.contains(&solver.path()[0]));
        }
        before = after;
    }
    assert!(!maze.explored.contains(&maze.start));
    assert!(maze.explored.contains(&maze.end));
}

#[test]
fn a_newly_explored_cell_lies_beside_the_start_or_an_explored_cell() {
    for kind in SOLVERS {
        let mut random = seeded(12);
        let config = grid(6, 5, 6);
        let mut maze = Maze::new(&config, &mut random);
        run(GeneratorType::Prim, &mut maze, &mut random);
        clear_marks(&mut maze);
        let mut solver = kind.init(&maze);
        let mut before = explored_cells(&maze);
        while !solver.is_done() {
            solver.tick(&mut maze).unwrap();
            let after = explored_cells(&maze);
            for c in &after {
                if !before.contains(c) && *c != maze.start {
                    assert!(maze
                        .connected_neighbours(c)
                        .iter()
                        .any(|(p, _)| *p == maze.start || before.contains(p)));
                }
            }
            before = after;
        }
    }
}

#[test]
fn prim_explores_every_cell() {
    for seed in 0..5 {
        let mut random = seeded(seed);
        let config = grid(5, 4, 6);
        let mut maze = Maze::new(&config, &mut random);
        run(GeneratorType::Prim, &mut maze, &mut random);
        assert_eq!(explored_cells(&maze).len(), 20);
    }
}

#[test]
fn kruskal_takes_a_wall_down_only_between_two_sets() {
    let mut random = seeded(13);
    let config = grid(4, 4, 6);
    let mut maze = Maze::new(&config, &mut random);
    let mut generator = GeneratorType::Kruskal.init(&maze, &mut random);
    while !generator.is_done() {
        let joined_before = distances(&maze, Coord { x: 0, y: 0 }).len();
        let standing = removed_walls(&maze).len();
        generator.tick(&mut maze, &mut random).unwrap();
        assert!(removed_walls(&maze).len() <= standing + 1);
        assert!(distances(&maze, Coord { x: 0, y: 0 }).len() >= joined_before);
        assert_eq!(removed_walls(&maze).len(), 16 - components(&maze));
    }
    assert!(is_spanning_tree(&maze));
}

fn components(maze: &Maze) -> usize {
    let mut seen: Vec<Coord> = Vec::new();
    let mut count = 0;
    for c in cells(maze) {
        if !seen.contains(&c) {
            count += 1;
            for (d, _) in distances(maze, c) {
                seen.push(d);
            }
        }
    }
    count
}
