use sudoku::Board;

const SOLVED: &str = "5,3,4,6,7,8,9,1,2\n6,7,2,1,9,5,3,4,8\n1,9,8,3,4,2,5,6,7\n8,5,9,7,6,1,4,2,3\n4,2,6,8,5,3,7,9,1\n7,1,3,9,2,4,8,5,6\n9,6,1,5,3,7,2,8,4\n2,8,7,4,1,9,6,3,5\n3,4,5,2,8,6,1,7,9\n";

#[test]
fn solved_grid_has_no_violations() {
    let board = Board::parse(SOLVED).unwrap();
    assert!(board.check_solution().is_ok());
}

#[test]
fn check_solution_is_idempotent() {
    let board = Board::parse(SOLVED).unwrap();
    assert_eq!(board.check_solution(), board.check_solution());

    let broken = SOLVED.replacen("5,3,4", "5,3,5", 1);
    let board = Board::parse(&broken).unwrap();
    let first = board.check_solution();
    let second = board.check_solution();
    assert!(first.is_err());
    assert_eq!(first, second);
}

#[test]
fn empty_board_reports_all_digits_missing_in_all_groups() {
    let empty_rows = vec![",,,,,,,,"; 9].join("\n");
    let board = Board::parse(&empty_rows).unwrap();
    let violations = board.check_solution().unwrap_err();
    assert_eq!(violations.len(), 27);
    let mut expected = Vec::new();
    for kind in ["Column", "Region", "Row"] {
        for idx in 1..=9 {
            expected.push(format!(
                "{} {}: no 1s, no 2s, no 3s, no 4s, no 5s, no 6s, no 7s, no 8s, no 9s",
                kind, idx
            ));
        }
    }
    assert_eq!(violations, expected);
}

#[test]
fn duplicate_in_first_row_reports_multiple_and_missing() {
    // The solved grid with the 4 at (row 1, column 3) overwritten by a
    // second 5: row 1, column 3 and region 1 each gain a duplicate 5 and
    // lose their 4.
    let broken = SOLVED.replacen("5,3,4", "5,3,5", 1);
    let board = Board::parse(&broken).unwrap();
    let violations = board.check_solution().unwrap_err();
    assert_eq!(
        violations,
        vec![
            "Column 3: multiple 5s, no 4s".to_string(),
            "Region 1: multiple 5s, no 4s".to_string(),
            "Row 1: multiple 5s, no 4s".to_string(),
        ]
    );
}

#[test]
fn report_is_ordered_lexicographically_by_descriptor() {
    let empty_rows = vec![",,,,,,,,"; 9].join("\n");
    let board = Board::parse(&empty_rows).unwrap();
    let violations = board.check_solution().unwrap_err();
    let descriptors: Vec<String> = violations
        .iter()
        .map(|line| line.split(':').next().unwrap().to_string())
        .collect();
    let mut sorted = descriptors.clone();
    sorted.sort();
    assert_eq!(descriptors, sorted);
}

#[test]
fn duplicates_are_reported_once_per_extra_occurrence() {
    // A row of nine 1s: eight duplicates beyond the first, then the eight
    // missing digits.
    let mut rows = vec!["1,1,1,1,1,1,1,1,1".to_string()];
    for _ in 0..8 {
        rows.push(",,,,,,,,".to_string());
    }
    let text = rows.join("\n");
    let board = Board::parse(&text).unwrap();
    let violations = board.check_solution().unwrap_err();
    let row1 = violations
        .iter()
        .find(|line| line.starts_with("Row 1:"))
        .unwrap();
    assert_eq!(
        row1,
        "Row 1: multiple 1s, multiple 1s, multiple 1s, multiple 1s, multiple 1s, \
         multiple 1s, multiple 1s, multiple 1s, no 2s, no 3s, no 4s, no 5s, no 6s, \
         no 7s, no 8s, no 9s"
    );
}

#[test]
fn partially_filled_valid_board_is_not_solved() {
    // A single filled cell: no duplicates anywhere, but plenty missing.
    let mut rows = vec!["5,,,,,,,,".to_string()];
    for _ in 0..8 {
        rows.push(",,,,,,,,".to_string());
    }
    let text = rows.join("\n");
    let board = Board::parse(&text).unwrap();
    let violations = board.check_solution().unwrap_err();
    assert_eq!(violations.len(), 27);
    let row1 = violations
        .iter()
        .find(|line| line.starts_with("Row 1:"))
        .unwrap();
    assert_eq!(
        row1,
        "Row 1: no 1s, no 2s, no 3s, no 4s, no 6s, no 7s, no 8s, no 9s"
    );
}
