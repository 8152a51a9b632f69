use nono::place_clue;
use nono::place_clues;
use nono::Line;
use nono::LineSize;

fn line(s: &str) -> Line {
    Line::from_str(s).unwrap()
}

fn starts_of(source: &str, size: LineSize) -> Vec<LineSize> {
    let mut placer = place_clue(&line(source), size);
    let mut found: Vec<LineSize> = Vec::new();
    while let Some(s) = placer.next() {
        found.push(s);
    }
    found
}

fn placements_of(source: &str, clues: &Vec<LineSize>) -> Vec<Vec<LineSize>> {
    let mut placer = place_clues(&line(source), clues);
    let mut found: Vec<Vec<LineSize>> = Vec::new();
    while placer.advance() {
        found.push(placer.current().clone());
    }
    found
}

#[test]
fn test_place_clue_1() {
    assert_eq!(starts_of(" -#---", 3), vec![1, 2]);
}

#[test]
fn test_place_clue_2() {
    assert_eq!(starts_of("--- -#----", 2), vec![0, 1, 4, 5]);
}

#[test]
fn place_clue_test_place_clue_1() {
    assert_eq!(starts_of(" -#---", 3), vec![1, 2]);
}

#[test]
fn place_clue_test_place_clue_2() {
    assert_eq!(starts_of("--- -#----", 2), vec![0, 1, 4, 5]);
}

#[test]
fn test_place_clues_1() {
    assert_eq!(placements_of(" ----", &vec![3]), vec![vec![1], vec![2]]);
}

#[test]
fn test_place_clues_2() {
    assert_eq!(
        placements_of("----- ----", &vec![3, 4]),
        vec![vec![0, 6], vec![1, 6], vec![2, 6]],
    );
}

#[test]
fn test_place_clues_3() {
    assert_eq!(
        placements_of("--- #-----", &vec![2, 3]),
        vec![vec![0, 4], vec![1, 4], vec![4, 7]],
    );
}

#[test]
fn test_place_clues_4() {
    assert_eq!(placements_of("----# ----", &vec![3, 4]), vec![vec![2, 6]]);
}

#[test]
fn test_place_clues_5() {
    assert_eq!(placements_of("-#- -#-", &vec![3]), vec![] as Vec<Vec<LineSize>>);
}

#[test]
fn test_place_clues_6() {
    assert_eq!(
        placements_of(" ###      #--  #--       ", &vec![3, 3]),
        vec![] as Vec<Vec<LineSize>>,
    );
}

#[test]
fn test_place_clues_7() {
    assert_eq!(placements_of(" ###      ---  #--       ", &vec![3, 3]), vec![vec![1, 15]]);
}

#[test]
fn test_place_clues_8() {
    assert_eq!(placements_of("-----", &vec![]), vec![vec![]] as Vec<Vec<LineSize>>);
}

#[test]
fn test_place_clues_9() {
    assert_eq!(placements_of("--#--", &vec![]), vec![] as Vec<Vec<LineSize>>);
}

#[test]
fn clues_placer_test_place_clues_1() {
    assert_eq!(placements_of(" ----", &vec![3]), vec![vec![1], vec![2]]);
}

#[test]
fn clues_placer_test_place_clues_2() {
    assert_eq!(
        placements_of("----- ----", &vec![3, 4]),
        vec![vec![0, 6], vec![1, 6], vec![2, 6]],
    );
}

#[test]
fn clues_placer_test_place_clues_3() {
    assert_eq!(
        placements_of("--- #-----", &vec![2, 3]),
        vec![vec![0, 4], vec![1, 4], vec![4, 7]],
    );
}

#[test]
fn clues_placer_test_place_clues_4() {
    assert_eq!(placements_of("----# ----", &vec![3, 4]), vec![vec![2, 6]]);
}

#[test]
fn clues_placer_test_place_clues_5() {
    assert_eq!(placements_of("-#- -#-", &vec![3]), vec![] as Vec<Vec<LineSize>>);
}

#[test]
fn clues_placer_test_place_clues_6() {
    assert_eq!(
        placements_of(" ###      #--  #--       ", &vec![3, 3]),
        vec![] as Vec<Vec<LineSize>>,
    );
}

#[test]
fn clues_placer_test_place_clues_7() {
    assert_eq!(placements_of(" ###      ---  #--       ", &vec![3, 3]), vec![vec![1, 15]]);
}

#[test]
fn clues_placer_test_place_clues_8() {
    assert_eq!(placements_of("-----", &vec![]), vec![vec![]] as Vec<Vec<LineSize>>);
}

#[test]
fn clues_placer_test_place_clues_9() {
    assert_eq!(placements_of("--#--", &vec![]), vec![] as Vec<Vec<LineSize>>);
}

#[test]
fn test_place_clues_start_1() {
    let clues: Vec<LineSize> = vec![3];
    let mut placer = place_clues(&line(" ----"), &clues);
    assert_eq!(placer.advance(), true);
    let pairs: Vec<(LineSize, LineSize)> = placer
        .current()
        .iter()
        .zip(clues.iter())
        .map(|(&s, &c)| (s, s + c))
        .collect();
    assert_eq!(pairs, vec![(1, 4)]);
}

#[test]
fn test_place_clues_start_2() {
    let clues: Vec<LineSize> = vec![3, 4];
    let mut placer = place_clues(&line("----- ----"), &clues);
    assert_eq!(placer.advance(), true);
    let pairs: Vec<(LineSize, LineSize)> = placer
        .current()
        .iter()
        .zip(clues.iter())
        .map(|(&s, &c)| (s, s + c))
        .collect();
    assert_eq!(pairs, vec![(0, 3), (6, 10)]);
}

#[test]
fn place_clue_stops_behind_a_filled_cell() {
    // a run may never jump over a cell that must stay filled
    assert_eq!(starts_of("--#-------", 2), vec![1, 2]);
}

#[test]
fn place_clues_on_empty_line() {
    assert_eq!(placements_of("", &vec![]), vec![vec![]] as Vec<Vec<LineSize>>);
    assert_eq!(placements_of("", &vec![1]), vec![] as Vec<Vec<LineSize>>);
}
