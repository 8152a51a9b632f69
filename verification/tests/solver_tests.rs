use nono::render_placed_clues;
use nono::solve_line;
use nono::Line;
use nono::LineSize;
use nono::LineSolver;

fn line(s: &str) -> Line {
    Line::from_str(s).unwrap()
}

fn solved(source: &str, clues: Vec<LineSize>) -> Option<Line> {
    solve_line(&line(source), &clues)
}

#[test]
fn test_solve_line_1() {
    assert_eq!(solved("----------", vec![3, 2, 3]), Some(line("### ## ###")));
}

#[test]
fn test_solve_line_2() {
    assert_eq!(solved("----------", vec![3, 4]), Some(line("--#---##--")));
}

#[test]
fn test_solve_line_3() {
    assert_eq!(solved("----- ----", vec![3, 4]), Some(line("--#-- ####")));
}

#[test]
fn test_solve_line_4() {
    assert_eq!(solved("----# ----", vec![3, 4]), Some(line("  ### ####")));
}

#[test]
fn test_solve_line_5() {
    assert_eq!(solved("-#---#----", vec![3, 4]), Some(line("-##--###- ")));
}

#[test]
fn test_solve_line_6() {
    assert_eq!(solved("--- #-----", vec![2, 3]), Some(line("--- ##----")));
}

#[test]
fn line_solver_test_solve_line_1() {
    assert_eq!(solved("----------", vec![3, 2, 3]), Some(line("### ## ###")));
}

#[test]
fn line_solver_test_solve_line_2() {
    assert_eq!(solved("----------", vec![3, 4]), Some(line("--#---##--")));
}

#[test]
fn line_solver_test_solve_line_3() {
    assert_eq!(solved("----- ----", vec![3, 4]), Some(line("--#-- ####")));
}

#[test]
fn line_solver_test_solve_line_4() {
    assert_eq!(solved("----# ----", vec![3, 4]), Some(line("  ### ####")));
}

#[test]
fn line_solver_test_solve_line_5() {
    assert_eq!(solved("-#---#----", vec![3, 4]), Some(line("-##--###- ")));
}

#[test]
fn line_solver_test_solve_line_6() {
    assert_eq!(solved("--- #-----", vec![2, 3]), Some(line("--- ##----")));
}

#[test]
fn solve_line_test_solve_line_1() {
    assert_eq!(solved("----------", vec![3, 2, 3]), Some(line("### ## ###")));
}

#[test]
fn solve_line_test_solve_line_2() {
    assert_eq!(solved("----------", vec![3, 4]), Some(line("--#---##--")));
}

#[test]
fn solve_line_test_solve_line_3() {
    assert_eq!(solved("----- ----", vec![3, 4]), Some(line("--#-- ####")));
}

#[test]
fn solve_line_test_solve_line_4() {
    assert_eq!(solved("----# ----", vec![3, 4]), Some(line("  ### ####")));
}

#[test]
fn solve_line_test_solve_line_5() {
    assert_eq!(solved("-#---#----", vec![3, 4]), Some(line("-##--###- ")));
}

#[test]
fn solve_line_test_solve_line_6() {
    assert_eq!(solved("--- #-----", vec![2, 3]), Some(line("--- ##----")));
}

#[test]
fn solve_line_fails_on_contradiction() {
    assert_eq!(solved("-#- -#-", vec![3]), None);
    assert_eq!(solved("--#--", vec![]), None);
}

#[test]
fn solve_line_empty_clues_empties_the_line() {
    assert_eq!(solved("-----", vec![]), Some(line("     ")));
}

#[test]
fn solve_line_empty_line() {
    assert_eq!(solved("", vec![]), Some(line("")));
}

#[test]
fn solve_line_full_line() {
    assert_eq!(solved("-----", vec![5]), Some(line("#####")));
}

#[test]
fn solve_line_is_deterministic() {
    let a = solved("----- ----", vec![3, 4]);
    let b = solved("----- ----", vec![3, 4]);
    assert_eq!(a, b);
}

#[test]
fn solve_line_is_monotone() {
    // every cell known on entry keeps its value
    let source = "-#---#----";
    let input = line(source);
    let output = solved(source, vec![3, 4]).unwrap();
    for i in 0..input.len() {
        let before = input.get(i);
        if before.is_solved() {
            assert_eq!(output.get(i), before);
        }
    }
}

#[test]
fn solve_line_is_idempotent() {
    let once = solved("----------", vec![3, 4]).unwrap();
    let twice = solve_line(&once, &vec![3, 4]).unwrap();
    assert_eq!(twice, once);
}

#[test]
fn solve_line_sound_against_all_placements() {
    // every decided output cell agrees with each of the three placements
    // of [3, 4] on the gap line
    let output = solved("----- ----", vec![3, 4]).unwrap();
    let placements: Vec<Vec<LineSize>> = vec![vec![0, 6], vec![1, 6], vec![2, 6]];
    for starts in &placements {
        let picture = render_placed_clues(&vec![3, 4], starts, output.len());
        for i in 0..output.len() {
            if output.get(i).is_solved() {
                assert_eq!(picture.get(i), output.get(i));
            }
        }
    }
}

#[test]
fn solve_line_complete_cell_by_cell() {
    // a cell on which all three placements of [3, 4] agree is decided
    let output = solved("----- ----", vec![3, 4]).unwrap();
    let placements: Vec<Vec<LineSize>> = vec![vec![0, 6], vec![1, 6], vec![2, 6]];
    for i in 0..output.len() {
        let first = render_placed_clues(&vec![3, 4], &placements[0], output.len()).get(i);
        let all_agree = placements.iter().all(|starts| {
            render_placed_clues(&vec![3, 4], starts, output.len()).get(i) == first
        });
        if all_agree {
            assert_eq!(output.get(i), first);
        }
    }
}

#[test]
fn line_solver_yields_cells_in_order() {
    let clues: Vec<LineSize> = vec![3, 2, 3];
    let mut solver = LineSolver::new(&line("----------"), &clues).unwrap();
    let expected = line("### ## ###");
    for i in 0..expected.len() {
        assert_eq!(solver.next(), Some(expected.get(i)));
    }
    assert_eq!(solver.next(), None);
}

#[test]
fn line_solver_rejects_contradiction() {
    let clues: Vec<LineSize> = vec![3, 3];
    assert!(LineSolver::new(&line(" ###      #--  #--       "), &clues).is_none());
}

#[test]
fn render_placed_clues_pictures_runs() {
    let picture = render_placed_clues(&vec![3, 4], &vec![0, 6], 10);
    assert_eq!(picture, line("###   ####"));
    let empty = render_placed_clues(&vec![], &vec![], 4);
    assert_eq!(empty, line("    "));
}
