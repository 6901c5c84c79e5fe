use sudoku::Board;
use sudoku::SectionViolations;

const SOLVED: &str = "5,3,4,6,7,8,9,1,2\n6,7,2,1,9,5,3,4,8\n1,9,8,3,4,2,5,6,7\n8,5,9,7,6,1,4,2,3\n4,2,6,8,5,3,7,9,1\n7,1,3,9,2,4,8,5,6\n9,6,1,5,3,7,2,8,4\n2,8,7,4,1,9,6,3,5\n3,4,5,2,8,6,1,7,9\n";

#[test]
fn rendering_reproduces_parsed_values_at_fixed_positions() {
    let board = Board::parse(SOLVED).unwrap();
    let picture = board.render();
    let chars: Vec<char> = picture.chars().collect();
    assert_eq!(chars.len(), 38 * 19);
    let expected: Vec<Vec<char>> = SOLVED
        .trim_end()
        .split('\n')
        .map(|row| row.split(',').map(|c| c.chars().next().unwrap()).collect())
        .collect();
    for r in 0..9 {
        for c in 0..9 {
            assert_eq!(chars[38 * (2 * r + 1) + 4 * c + 2], expected[r][c]);
        }
    }
}

#[test]
fn empty_cells_render_as_spaces() {
    let empty_rows = vec![",,,,,,,,"; 9].join("\n");
    let board = Board::parse(&empty_rows).unwrap();
    let picture = board.render();
    let chars: Vec<char> = picture.chars().collect();
    for r in 0..9 {
        for c in 0..9 {
            assert_eq!(chars[38 * (2 * r + 1) + 4 * c + 2], ' ');
        }
    }
}

#[test]
fn rendered_picture_has_the_expected_borders() {
    let board = Board::parse(SOLVED).unwrap();
    let picture = board.render();
    let lines: Vec<&str> = picture.lines().collect();
    assert_eq!(lines.len(), 19);
    assert_eq!(lines[0], "┏━━━┯━━━┯━━━┳━━━┯━━━┯━━━┳━━━┯━━━┯━━━┓");
    assert_eq!(lines[6], "┣━━━┿━━━┿━━━╋━━━┿━━━┿━━━╋━━━┿━━━┿━━━┫");
    assert_eq!(lines[12], "┣━━━┿━━━┿━━━╋━━━┿━━━┿━━━╋━━━┿━━━┿━━━┫");
    assert_eq!(lines[18], "┗━━━┷━━━┷━━━┻━━━┷━━━┷━━━┻━━━┷━━━┷━━━┛");
    assert_eq!(lines[2], "┠───┼───┼───╂───┼───┼───╂───┼───┼───┨");
    assert_eq!(lines[1], "┃ 5 │ 3 │ 4 ┃ 6 │ 7 │ 8 ┃ 9 │ 1 │ 2 ┃");
}

#[test]
fn collector_appends_under_existing_descriptors() {
    let mut sv = SectionViolations::new();
    assert!(sv.is_empty());
    sv.upsert("Row 1", "multiple 5s");
    sv.upsert("Row 2", "no 3s");
    sv.upsert("Row 1", "no 4s");
    assert!(!sv.is_empty());
    assert_eq!(
        sv.result(),
        vec![
            "Row 1: multiple 5s, no 4s".to_string(),
            "Row 2: no 3s".to_string(),
        ]
    );
}

#[test]
fn collector_orders_descriptors_lexicographically() {
    let mut sv = SectionViolations::new();
    sv.upsert("Row 1", "no 1s");
    sv.upsert("Column 2", "no 1s");
    sv.upsert("Column 1", "no 2s");
    sv.upsert("Row 1", "no 3s");
    assert_eq!(
        sv.result(),
        vec![
            "Column 1: no 2s".to_string(),
            "Column 2: no 1s".to_string(),
            "Row 1: no 1s, no 3s".to_string(),
        ]
    );
}
