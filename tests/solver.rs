use rustdoku::generator::try_generate;
use rustdoku::grid::Grid;
use rustdoku::solver::alx_solve;

const PUZZLE_B: &str =
    "060000300400700000000000080000008012500600000000000050082000700000500600000010000";
const SOLUTION_B: &str =
    "961845327458723169237169584796358412524691873813274956182436795379582641645917238";
const PUZZLE_C: &str =
    "060000000400700000000000080000008012500600000000000050082000700000500600000010000";

#[test]
fn solver_alx_solver_test() {
    let grid = Grid::parse(PUZZLE_B).unwrap();
    let complete_grid = Grid::parse(SOLUTION_B).unwrap();
    let grids = &alx_solve(&grid, 0);
    assert_eq!(grids.len(), 1);
    assert!(
        grids[0] == complete_grid,
        "grid = {}, complete_grid = {}",
        grid.to_string(),
        complete_grid.to_string()
    )
}

#[test]
fn solver_alx_solver_multiple_solutions_test() {
    let grid = Grid::parse(PUZZLE_C).unwrap();
    let grid = &alx_solve(&grid, 0);
    assert!(grid.len() > 1);
}

#[test]
fn generate_test() {
    let givens = 25;
    let grid = loop {
        if let Some(grid) = try_generate(givens) {
            break grid;
        }
    };
    assert_eq!(grid.givens(), givens);
}

#[test]
fn generated_puzzle_has_one_solution() {
    for givens in [30, 81] {
        let grid = loop {
            if let Some(grid) = try_generate(givens) {
                break grid;
            }
        };
        assert_eq!(grid.givens(), givens);
        assert!(grid.is_valid());
        for i in 0..81 {
            assert_eq!(grid.frozen(i), grid.get(i) != 0);
        }
        let solutions = alx_solve(&grid, 2);
        assert_eq!(solutions.len(), 1);
        assert!(solutions[0].is_complete());
        assert!(solutions[0].is_valid());
    }
}

#[test]
fn scenario_near_complete_puzzle() {
    let grid = Grid::parse(
        "530070000600195000098000060800060003400803001700020006060000280000419005000080079",
    )
    .unwrap();
    let solutions = alx_solve(&grid, 0);
    assert_eq!(solutions.len(), 1);
    assert!(solutions[0].is_valid());
    assert!(solutions[0].is_complete());
    assert_eq!(
        solutions[0].to_string(),
        "534678912672195348198342567859761423426853791713924856961537284287419635345286179"
    );
    for i in 0..81 {
        if grid.get(i) != 0 {
            assert_eq!(solutions[0].get(i), grid.get(i));
        }
    }
}

#[test]
fn scenario_unique_solution_text() {
    let grid = Grid::parse(PUZZLE_B).unwrap();
    let solutions = alx_solve(&grid, 0);
    assert_eq!(solutions.len(), 1);
    assert_eq!(solutions[0].to_string(), SOLUTION_B);
}

#[test]
fn solve_keeps_frozen_flags() {
    let grid = Grid::parse(PUZZLE_B).unwrap();
    let solutions = alx_solve(&grid, 1);
    assert_eq!(solutions.len(), 1);
    assert_eq!(solutions[0].givens(), 17);
    assert!(solutions[0].frozen(1));
    assert!(!solutions[0].frozen(0));
}

#[test]
fn limit_bounds_the_results() {
    let grid = Grid::parse(PUZZLE_C).unwrap();
    assert_eq!(alx_solve(&grid, 1).len(), 1);
    let two = alx_solve(&grid, 2);
    assert_eq!(two.len(), 2);
    assert!(two[0] != two[1]);
    for solution in &two {
        assert!(solution.is_valid());
        assert!(solution.is_complete());
    }
}

#[test]
fn empty_grid_has_many_solutions() {
    let grid = Grid::new();
    let three = alx_solve(&grid, 3);
    assert_eq!(three.len(), 3);
    assert!(three[0] != three[1] && three[1] != three[2] && three[0] != three[2]);
    assert!(three.iter().all(|g| g.is_valid() && g.is_complete()));
}

#[test]
fn solving_twice_gives_the_same_grids() {
    let grid = Grid::parse(PUZZLE_C).unwrap();
    let mut first: Vec<String> = alx_solve(&grid, 0).iter().map(|g| g.to_string()).collect();
    let mut second: Vec<String> = alx_solve(&grid, 0).iter().map(|g| g.to_string()).collect();
    first.sort();
    second.sort();
    assert_eq!(first, second);
    let mut dedup = first.clone();
    dedup.dedup();
    assert_eq!(dedup.len(), first.len());
}

#[test]
fn conflicting_givens_have_no_solution() {
    let mut grid = Grid::new();
    grid.set(0, 4, false);
    grid.set(80, 4, false);
    grid.set(1, 4, false);
    assert!(!grid.is_valid());
    assert_eq!(alx_solve(&grid, 0).len(), 0);
}

#[test]
fn complete_grid_solves_to_itself() {
    let grid = Grid::parse(SOLUTION_B).unwrap();
    let solutions = alx_solve(&grid, 0);
    assert_eq!(solutions.len(), 1);
    assert!(solutions[0] == grid);
}

#[test]
fn frozen_empty_cell_is_still_filled() {
    let mut grid = Grid::parse(PUZZLE_B).unwrap();
    grid.freeze(0);
    let solutions = alx_solve(&grid, 0);
    assert_eq!(solutions.len(), 1);
    assert_eq!(solutions[0].get(0), 9);
}

#[test]
fn generating_with_every_given_always_succeeds() {
    for _ in 0..3 {
        let grid = try_generate(81).unwrap();
        assert_eq!(grid.givens(), 81);
        assert!(grid.is_complete());
        assert!(grid.is_valid());
    }
}
