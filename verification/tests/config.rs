use mazes::config::Config;
use mazes::error::Error;
use mazes::generator::GeneratorType;
use mazes::maze::{Coord, Orientation, Point, Wall};
use mazes::parse::ParseCoordError;
use mazes::solver::SolverType;

#[test]
fn default_configuration() {
    let config = Config::default();
    assert_eq!(config.generator(), GeneratorType::DFS);
    assert_eq!(config.solver(), SolverType::AStar);
    assert_eq!(config.ups(), 60);
    assert_eq!(config.cell_width(), 40);
    assert_eq!(config.cell_height(), 40);
    assert_eq!(config.maze_width(), 32);
    assert_eq!(config.maze_height(), 18);
    assert_eq!(config.window_width(), 1280);
    assert_eq!(config.window_height(), 720);
    assert_eq!(config.start(), None);
    assert_eq!(config.end(), None);
    assert!(config.interactive_gen());
    assert!(config.interactive_solve());
    assert!(config.print_fps());
    assert_eq!(config.seed(), None);
    assert!(config.is_valid());
}

#[test]
fn flags_switch_the_steps_off() {
    let config = Config {
        no_interactive_gen: true,
        no_interactive_solve: true,
        print_fps: true,
        ..Config::default()
    };
    assert!(!config.interactive_gen());
    assert!(!config.interactive_solve());
    assert!(!config.print_fps());
}

#[test]
fn seed_is_split_into_its_bytes() {
    let config = Config { seed: Some(0x0102_0304), ..Config::default() };
    assert_eq!(config.seed(), Some([1, 2, 3, 4]));
    let config = Config { seed: Some(0xffab_00cd), ..Config::default() };
    assert_eq!(config.seed(), Some([0xff, 0xab, 0x00, 0xcd]));
    let config = Config { seed: Some(0), ..Config::default() };
    assert_eq!(config.seed(), Some([0, 0, 0, 0]));
    let config = Config { seed: Some(u32::MAX), ..Config::default() };
    assert_eq!(config.seed(), Some([255, 255, 255, 255]));
}

#[test]
fn window_is_cells_times_pixels() {
    let config = Config { width: 7, height: 3, cell_size: 11, ..Config::default() };
    assert_eq!(config.window_width(), 77);
    assert_eq!(config.window_height(), 33);
}

#[test]
fn configurations_no_maze_can_be_built_from() {
    assert!(!Config { width: 0, ..Config::default() }.is_valid());
    assert!(!Config { height: 0, ..Config::default() }.is_valid());
    assert!(!Config { cell_size: 0, ..Config::default() }.is_valid());
    assert!(!Config { width: 1 << 30, cell_size: 2, ..Config::default() }.is_valid());
    assert!(Config { width: (1 << 30) - 1, height: 1, cell_size: 2, ..Config::default() }.is_valid());
    assert!(!Config { start: Some(Coord { x: 32, y: 0 }), ..Config::default() }.is_valid());
    assert!(!Config { end: Some(Coord { x: 0, y: -1 }), ..Config::default() }.is_valid());
    assert!(Config { start: Some(Coord { x: 31, y: 17 }), ..Config::default() }.is_valid());
}

#[test]
fn generator_names() {
    assert_eq!(GeneratorType::variants(), ["dfs", "kruskal", "prim", "eller", "hunt-kill"]);
    assert_eq!(GeneratorType::from_name("dfs").unwrap(), GeneratorType::DFS);
    assert_eq!(GeneratorType::from_name("kruskal").unwrap(), GeneratorType::Kruskal);
    assert_eq!(GeneratorType::from_name("prim").unwrap(), GeneratorType::Prim);
    assert_eq!(GeneratorType::from_name("eller").unwrap(), GeneratorType::Eller);
    assert_eq!(GeneratorType::from_name("hunt-kill").unwrap(), GeneratorType::HuntKill);
    assert_eq!("prim".parse::<GeneratorType>().unwrap(), GeneratorType::Prim);
}

#[test]
fn generator_names_in_any_case() {
    assert_eq!(GeneratorType::from_name("DFS").unwrap(), GeneratorType::DFS);
    assert_eq!(GeneratorType::from_name("Kruskal").unwrap(), GeneratorType::Kruskal);
    assert_eq!(GeneratorType::from_name("Hunt-Kill").unwrap(), GeneratorType::HuntKill);
    assert_eq!(GeneratorType::from_lowercase("DFS"), None);
    assert_eq!(GeneratorType::from_lowercase("dfs"), Some(GeneratorType::DFS));
}

#[test]
fn unknown_generator_is_refused() {
    match GeneratorType::from_name("Wilson") {
        Err(Error::UnsupportedGenerator(name)) => assert_eq!(name, "Wilson"),
        other => panic!("unexpected: {:?}", other),
    }
    assert!(matches!(GeneratorType::from_name(""), Err(Error::UnsupportedGenerator(_))));
    assert!(matches!(GeneratorType::from_name("bfs"), Err(Error::UnsupportedGenerator(_))));
    assert!(matches!("astar".parse::<GeneratorType>(), Err(Error::UnsupportedGenerator(_))));
}

#[test]
fn solver_names() {
    assert_eq!(SolverType::variants(), ["dfs", "bfs", "dijkstra", "greedy", "astar"]);
    assert_eq!(SolverType::from_name("dfs").unwrap(), SolverType::DFS);
    assert_eq!(SolverType::from_name("bfs").unwrap(), SolverType::BFS);
    assert_eq!(SolverType::from_name("dijkstra").unwrap(), SolverType::Dijkstra);
    assert_eq!(SolverType::from_name("greedy").unwrap(), SolverType::Greedy);
    assert_eq!(SolverType::from_name("AStar").unwrap(), SolverType::AStar);
    assert_eq!("BFS".parse::<SolverType>().unwrap(), SolverType::BFS);
    assert_eq!(SolverType::from_lowercase("Greedy"), None);
}

#[test]
fn unknown_solver_is_refused() {
    match SolverType::from_name("Kruskal") {
        Err(Error::UnsupportedSolver(name)) => assert_eq!(name, "Kruskal"),
        other => panic!("unexpected: {:?}", other),
    }
    assert!(matches!("a*".parse::<SolverType>(), Err(Error::UnsupportedSolver(_))));
}

#[test]
fn error_descriptions() {
    let c = Coord { x: 0, y: 0 };
    let wall = Wall {
        center: Point { x: 0, y: 0 },
        orientation: Orientation::Vertical,
        border: true,
        size: 1,
    };
    assert_eq!(
        Error::NotNeighbours(c, c).description(),
        "Two provided coordinates are not neighbours"
    );
    assert_eq!(Error::BorderWall(wall).description(), "Tried to remove border wall");
    assert_eq!(Error::MissingSet(c).description(), "Missing set for a given coord");
    assert_eq!(
        Error::UnsupportedGenerator(String::new()).description(),
        "Unsupported generator"
    );
    assert_eq!(Error::UnsupportedSolver(String::new()).description(), "Unsupported solver");
    assert_eq!(Error::ImpossibleMaze.description(), "Impossible maze");
}

#[test]
fn a_cell_is_read_from_two_numbers() {
    assert_eq!(Coord::parse("(1,2)"), Ok(Coord { x: 1, y: 2 }));
    assert_eq!(Coord::parse("1,2"), Ok(Coord { x: 1, y: 2 }));
    assert_eq!(Coord::parse("((30,4))"), Ok(Coord { x: 30, y: 4 }));
    assert_eq!(Coord::parse(")7,8("), Ok(Coord { x: 7, y: 8 }));
    assert_eq!(Coord::parse("+3,-4"), Ok(Coord { x: 3, y: -4 }));
    assert_eq!(Coord::parse("-0,007"), Ok(Coord { x: 0, y: 7 }));
    assert_eq!(
        Coord::parse("(2147483647,-2147483648)"),
        Ok(Coord { x: i32::MAX, y: i32::MIN })
    );
    assert_eq!(Coord::parse("1,2,3"), Ok(Coord { x: 1, y: 2 }));
    assert_eq!(Coord::parse("1,2,"), Ok(Coord { x: 1, y: 2 }));
    assert_eq!("(5,6)".parse::<Coord>(), Ok(Coord { x: 5, y: 6 }));
}

#[test]
fn a_text_that_names_no_cell_is_refused() {
    assert_eq!(Coord::parse(""), Err(ParseCoordError::Empty));
    assert_eq!(Coord::parse("()"), Err(ParseCoordError::Empty));
    assert_eq!(Coord::parse(",5"), Err(ParseCoordError::Empty));
    assert_eq!(Coord::parse("5,"), Err(ParseCoordError::Empty));
    assert_eq!(Coord::parse("5,,6"), Err(ParseCoordError::Empty));
    assert_eq!(Coord::parse("5"), Err(ParseCoordError::MissingField));
    assert_eq!(Coord::parse("(12)"), Err(ParseCoordError::MissingField));
    assert_eq!(Coord::parse("a,b"), Err(ParseCoordError::InvalidDigit));
    assert_eq!(Coord::parse("abc"), Err(ParseCoordError::InvalidDigit));
    assert_eq!(Coord::parse("(1, 2)"), Err(ParseCoordError::InvalidDigit));
    assert_eq!(Coord::parse(" 1,2"), Err(ParseCoordError::InvalidDigit));
    assert_eq!(Coord::parse("1;2"), Err(ParseCoordError::InvalidDigit));
    assert_eq!(Coord::parse("1,(2"), Err(ParseCoordError::InvalidDigit));
    assert_eq!(Coord::parse("-,2"), Err(ParseCoordError::InvalidDigit));
    assert_eq!(Coord::parse("2,+"), Err(ParseCoordError::InvalidDigit));
    assert_eq!(Coord::parse("--1,2"), Err(ParseCoordError::InvalidDigit));
    assert_eq!(Coord::parse("2147483648,0"), Err(ParseCoordError::PosOverflow));
    assert_eq!(Coord::parse("0,99999999999999999999"), Err(ParseCoordError::PosOverflow));
    assert_eq!(Coord::parse("-2147483649,0"), Err(ParseCoordError::NegOverflow));
    assert_eq!(Coord::parse("99999999999x,0"), Err(ParseCoordError::PosOverflow));
    assert_eq!(Coord::parse("9x9999999999,0"), Err(ParseCoordError::InvalidDigit));
    assert_eq!("x".parse::<Coord>(), Err(ParseCoordError::InvalidDigit));
}

#[test]
fn cells_are_read_as_whole_numbers_are() {
    for text in ["0", "7", "-7", "+7", "0012", "2147483647", "-2147483648", "x", "", "-", "1 "] {
        let pair = format!("{},{}", text, text);
        match (text.parse::<i32>(), Coord::parse(&pair)) {
            (Ok(n), Ok(c)) => assert_eq!(c, Coord { x: n, y: n }),
            (Err(_), Err(_)) => {}
            other => panic!("unexpected: {:?}", other),
        }
    }
}

#[test]
fn values_as_text() {
    assert_eq!(Coord { x: 0, y: 0 }.to_text(), "(0, 0)");
    assert_eq!(Coord { x: 12, y: -305 }.to_text(), "(12, -305)");
    assert_eq!(Coord { x: i32::MAX, y: i32::MIN }.to_text(), "(2147483647, -2147483648)");
    assert_eq!(Point { x: -1, y: 40 }.to_text(), "(-1, 40)");
    assert_eq!(Orientation::Horizontal.to_text(), "Horizontal");
    assert_eq!(Orientation::Vertical.to_text(), "Vertical");
    let wall = Wall {
        center: Point { x: 80, y: 60 },
        orientation: Orientation::Vertical,
        border: false,
        size: 40,
    };
    assert_eq!(wall.to_text(), "[Wall Vertical @ (80, 60)]");
    for n in [0, 1, 9, 10, 11, 99, 100, 1009, -1, -10, -99, 65536, -65537] {
        assert_eq!(Coord { x: n, y: n }.to_text(), format!("({}, {})", n, n));
    }
}

#[test]
fn errors_as_text() {
    let a = Coord { x: 1, y: 2 };
    let b = Coord { x: 3, y: 4 };
    let wall = Wall {
        center: Point { x: 20, y: -1 },
        orientation: Orientation::Horizontal,
        border: true,
        size: 3,
    };
    assert_eq!(Error::NotNeighbours(a, b).to_text(), "(1, 2) and (3, 4) are not neighbours");
    assert_eq!(
        Error::BorderWall(wall).to_text(),
        "Tried to remove non border wall [Wall Horizontal @ (20, -1)]"
    );
    assert_eq!(Error::MissingSet(b).to_text(), "Missing set for coord (3, 4)");
    assert_eq!(
        Error::UnsupportedGenerator("Wilson".to_string()).to_text(),
        "Unsupported generator Wilson"
    );
    assert_eq!(Error::UnsupportedSolver("a*".to_string()).to_text(), "Unsupported solver a*");
    assert_eq!(Error::ImpossibleMaze.to_text(), "Impossible maze");
    assert_eq!(GeneratorType::from_name("Nope").unwrap_err().to_text(), "Unsupported generator Nope");
}
