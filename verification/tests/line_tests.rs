use nono::Cell;
use nono::Line;

#[test]
fn test_line_debug() {
    let line = Line::new(vec![Cell::Unknown, Cell::Empty, Cell::Filled, Cell::Error]);
    assert_eq!(line.render(), "[- #!]");
}

#[test]
fn test_line_buf_debug() {
    let line = Line::new(vec![Cell::Unknown, Cell::Empty, Cell::Filled, Cell::Error]);
    assert_eq!(line.render(), "[- #!]");
}

#[test]
fn line_test_line_debug() {
    let line = Line::new(vec![Cell::Unknown, Cell::Empty, Cell::Filled, Cell::Error]);
    assert_eq!(format!("Line {}", line.render()), "Line [- #!]");
}

#[test]
fn cell_predicates() {
    assert!(Cell::Unknown.is_unknown());
    assert!(Cell::Empty.is_empty());
    assert!(Cell::Filled.is_filled());
    assert!(Cell::Error.is_error());
    assert!(Cell::Empty.is_solved());
    assert!(Cell::Filled.is_solved());
    assert!(!Cell::Unknown.is_solved());
    assert!(!Cell::Error.is_solved());
    assert!(Cell::Unknown.can_empty() && Cell::Unknown.can_fill());
    assert!(Cell::Empty.can_empty() && !Cell::Empty.can_fill());
    assert!(!Cell::Filled.can_empty() && Cell::Filled.can_fill());
    assert!(!Cell::Error.can_empty() && !Cell::Error.can_fill());
}

#[test]
fn line_from_str_reads_every_cell() {
    let line = Line::from_str("- #!").unwrap();
    assert_eq!(
        line.cells(),
        &vec![Cell::Unknown, Cell::Empty, Cell::Filled, Cell::Empty],
    );
    assert!(Line::from_str("-x-").is_none());
}

#[test]
fn line_with_size_is_unknown() {
    let line = Line::with_size(6);
    assert_eq!(line.len(), 6);
    assert!(line.is_unknown());
    assert!(!line.is_solved());
}

#[test]
fn line_solved_and_unknown() {
    assert!(Line::from_str("## #").unwrap().is_solved());
    assert!(!Line::from_str("##-#").unwrap().is_solved());
    assert!(Line::from_str("---").unwrap().is_unknown());
    assert!(!Line::from_str("--#").unwrap().is_unknown());
    assert!(Line::from_str("").unwrap().is_solved());
    assert!(Line::from_str("").unwrap().is_unknown());
}

#[test]
fn line_get_and_set() {
    let mut line = Line::with_size(3);
    line.set(1, Cell::Filled);
    assert_eq!(line.get(0), Cell::Unknown);
    assert_eq!(line.get(1), Cell::Filled);
    assert_eq!(line.render(), "[-#-]");
}
