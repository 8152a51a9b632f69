use nono::camel;
use nono::solve_col;
use nono::solve_row;
use nono::eagle;
use nono::solve_line;
use nono::Cell;
use nono::Clues;
use nono::Grid;
use nono::GridSolver;
use nono::GridSolverEvent;
use nono::Line;

fn line(s: &str) -> Line {
    Line::from_str(s).unwrap()
}

#[test]
fn grid_new_is_unknown() {
    let grid = Grid::new(3, 4);
    assert_eq!(grid.num_rows(), 3);
    assert_eq!(grid.num_cols(), 4);
    assert!(!grid.is_solved());
    for r in 0..3 {
        for c in 0..4 {
            assert_eq!(grid.get(r, c), Cell::Unknown);
        }
    }
}

#[test]
fn grid_set_reaches_both_views() {
    let mut grid = Grid::new(2, 3);
    grid.set(1, 2, Cell::Filled);
    assert_eq!(grid.row(1), line("--#"));
    assert_eq!(grid.col(2), line("-#"));
    assert_eq!(grid.get(1, 2), Cell::Filled);
    assert_eq!(grid.get(0, 2), Cell::Unknown);
}

#[test]
fn grid_set_row_and_col() {
    let mut grid = Grid::new(2, 3);
    grid.set_row(0, &line("# #"));
    grid.set_col(1, &line("##"));
    assert_eq!(grid.row(0), line("###"));
    assert_eq!(grid.row(1), line("-#-"));
    assert_eq!(grid.col(0), line("#-"));
}

#[test]
fn clues_accessors() {
    let clues = Clues::new(vec![vec![1], vec![2]], vec![vec![2], vec![1], vec![0]]);
    assert_eq!(clues.num_rows(), 2);
    assert_eq!(clues.num_cols(), 3);
    assert_eq!(clues.row(1), &vec![2]);
    assert_eq!(clues.col(0), &vec![2]);
    assert_eq!(clues.rows().len(), 2);
    assert_eq!(clues.cols().len(), 3);
    assert_eq!(clues.rows_sum(), 3);
    assert_eq!(clues.cols_sum(), 3);
    assert!(clues.is_consistent());
}

#[test]
fn clues_inconsistent_sums() {
    let clues = Clues::new(vec![vec![2]], vec![vec![1]]);
    assert_eq!(clues.rows_sum(), 2);
    assert_eq!(clues.cols_sum(), 1);
    assert!(!clues.is_consistent());
}

#[test]
fn sample_clues_are_consistent() {
    let camel = camel();
    assert_eq!(camel.num_rows(), 10);
    assert_eq!(camel.num_cols(), 10);
    assert!(camel.is_consistent());
    let eagle = eagle();
    assert_eq!(eagle.num_rows(), 25);
    assert_eq!(eagle.num_cols(), 25);
    assert!(eagle.is_consistent());
}

#[test]
fn grid_solver_solves_the_camel() {
    let clues = camel();
    let grid = Grid::new(clues.num_rows(), clues.num_cols());
    let mut solver = GridSolver::new(grid, clues);
    let mut saw_solved_grid = false;
    let mut cells_reported = 0u32;
    while let Some(event) = solver.next() {
        match event {
            GridSolverEvent::SolvedCell(r, c, v) => {
                assert!(r < 10 && c < 10);
                assert!(v.is_solved());
                cells_reported += 1;
            },
            GridSolverEvent::SolvedGrid => {
                saw_solved_grid = true;
            },
            GridSolverEvent::Failed => {
                panic!("the camel puzzle has a solution");
            },
            GridSolverEvent::StartRow(r) => assert!(r < 10),
            GridSolverEvent::StartCol(c) => assert!(c < 10),
        }
    }
    assert!(saw_solved_grid);
    assert_eq!(cells_reported, 100);
    let (clues, grid) = solver.release();
    assert!(grid.is_solved());
    // every line of the solved grid satisfies its clues exactly: the
    // line solver finds it both consistent and unimprovable
    for r in 0..grid.num_rows() {
        let row = grid.row(r);
        assert_eq!(solve_line(&row, clues.row(r)), Some(grid.row(r)));
    }
    for c in 0..grid.num_cols() {
        let col = grid.col(c);
        assert_eq!(solve_line(&col, clues.col(c)), Some(grid.col(c)));
    }
}

#[test]
fn grid_solver_stops_where_deduction_ends() {
    // two mirrored solutions: no cell is forced, the solver must stop
    // without claiming success, and stay stopped
    let clues = Clues::new(vec![vec![1], vec![1]], vec![vec![1], vec![1]]);
    let grid = Grid::new(2, 2);
    let mut solver = GridSolver::new(grid, clues);
    let mut steps = 0u32;
    while let Some(event) = solver.next() {
        assert!(!matches!(event, GridSolverEvent::SolvedGrid));
        assert!(!matches!(event, GridSolverEvent::SolvedCell(_, _, _)));
        assert!(!matches!(event, GridSolverEvent::Failed));
        steps += 1;
        assert!(steps < 100);
    }
    assert_eq!(solver.next(), None);
    let (_, grid) = solver.release();
    for r in 0..2 {
        for c in 0..2 {
            assert_eq!(grid.get(r, c), Cell::Unknown);
        }
    }
}

#[test]
fn grid_solver_reports_contradiction() {
    // the row asks for two filled cells but one is already empty
    let clues = Clues::new(vec![vec![2]], vec![vec![1], vec![1]]);
    let mut grid = Grid::new(1, 2);
    grid.set(0, 0, Cell::Empty);
    let mut solver = GridSolver::new(grid, clues);
    let mut saw_failed = false;
    let mut steps = 0u32;
    while let Some(event) = solver.next() {
        if matches!(event, GridSolverEvent::Failed) {
            saw_failed = true;
        }
        assert!(!matches!(event, GridSolverEvent::SolvedGrid));
        steps += 1;
        assert!(steps < 100);
    }
    assert!(saw_failed);
    assert_eq!(solver.next(), None);
}

#[test]
fn grid_solver_event_order_row_then_cells() {
    // a one-row puzzle: the row is announced, its forced cells follow
    // left to right, and the solved grid event closes the stream
    let clues = Clues::new(vec![vec![3]], vec![vec![1], vec![1], vec![1]]);
    let grid = Grid::new(1, 3);
    let mut solver = GridSolver::new(grid, clues);
    let mut events: Vec<GridSolverEvent> = Vec::new();
    while let Some(event) = solver.next() {
        events.push(event);
    }
    assert_eq!(events[0], GridSolverEvent::StartRow(0));
    assert_eq!(events[1], GridSolverEvent::SolvedCell(0, 0, Cell::Filled));
    assert_eq!(events[2], GridSolverEvent::SolvedCell(0, 1, Cell::Filled));
    assert_eq!(events[3], GridSolverEvent::SolvedCell(0, 2, Cell::Filled));
    assert!(events.contains(&GridSolverEvent::SolvedGrid));
    let (_, grid) = solver.release();
    assert_eq!(grid.row(0), line("###"));
}

#[test]
fn grid_solver_stats_count_work() {
    let clues = Clues::new(vec![vec![1]], vec![vec![1]]);
    let grid = Grid::new(1, 1);
    let mut solver = GridSolver::new(grid, clues);
    assert_eq!(solver.stats().grid_iterations, 0);
    assert_eq!(solver.stats().line_iterations, 0);
    while let Some(_) = solver.next() {}
    let stats = solver.stats();
    assert!(stats.line_iterations >= 1);
    let (grid, stats) = solver.end();
    assert!(grid.is_solved());
    assert!(stats.grid_iterations >= 1);
}

#[test]
fn grid_solver_eagle_converges() {
    let clues = eagle();
    let grid = Grid::new(clues.num_rows(), clues.num_cols());
    let mut solver = GridSolver::new(grid, clues);
    while let Some(event) = solver.next() {
        assert!(!matches!(event, GridSolverEvent::Failed));
    }
    let (clues, grid) = solver.release();
    assert!(grid.is_solved());
    for r in 0..grid.num_rows() {
        assert_eq!(solve_line(&grid.row(r), clues.row(r)), Some(grid.row(r)));
    }
}

#[test]
fn solve_row_and_col_write_back() {
    let clues = Clues::new(vec![vec![3], vec![1]], vec![vec![1], vec![2], vec![1]]);
    let mut grid = Grid::new(2, 3);
    assert!(solve_row(&mut grid, &clues, 0));
    assert_eq!(grid.row(0), line("###"));
    assert_eq!(grid.row(1), line("---"));
    assert!(!solve_row(&mut grid, &clues, 1));
    assert!(solve_col(&mut grid, &clues, 1));
    assert_eq!(grid.col(1), line("##"));
    assert_eq!(grid.row(1), line("-#-"));
}
