use sudoku::Board;
use sudoku::Cell;
use sudoku::Number;

const SOLVED: &str = "5,3,4,6,7,8,9,1,2\n6,7,2,1,9,5,3,4,8\n1,9,8,3,4,2,5,6,7\n8,5,9,7,6,1,4,2,3\n4,2,6,8,5,3,7,9,1\n7,1,3,9,2,4,8,5,6\n9,6,1,5,3,7,2,8,4\n2,8,7,4,1,9,6,3,5\n3,4,5,2,8,6,1,7,9\n";

#[test]
fn number_new_accepts_exactly_one_through_nine() {
    assert!(Number::new(0).is_none());
    for v in 1..=9u8 {
        let n = Number::new(v).unwrap();
        assert_eq!(n.value(), v);
    }
    assert!(Number::new(10).is_none());
}

#[test]
fn cell_parse_blank_text_gives_empty_cell() {
    assert_eq!(Cell::parse("").unwrap().value(), None);
    assert_eq!(Cell::parse("   ").unwrap().value(), None);
    assert_eq!(Cell::parse("\t").unwrap().value(), None);
    assert_eq!(Cell::parse("\u{A0}").unwrap().value(), None);
    assert_eq!(Cell::parse("\u{2003}\u{3000}").unwrap().value(), None);
}

#[test]
fn cell_parse_trims_and_reads_a_digit() {
    assert_eq!(Cell::parse("7").unwrap().value(), Some(7));
    assert_eq!(Cell::parse(" 5 ").unwrap().value(), Some(5));
    assert_eq!(Cell::parse("+3").unwrap().value(), Some(3));
    assert_eq!(Cell::parse("\u{A0}8\u{2009}").unwrap().value(), Some(8));
}

#[test]
fn cell_parse_rejects_out_of_range_values() {
    assert_eq!(
        Cell::parse("0").unwrap_err(),
        "Value '0' must be between 1 and 9."
    );
    assert_eq!(
        Cell::parse("10").unwrap_err(),
        "Value '10' must be between 1 and 9."
    );
}

#[test]
fn cell_parse_rejects_text_that_is_not_a_number() {
    assert_eq!(
        Cell::parse("x").unwrap_err(),
        "Could not parse 'x' as a number: invalid digit found in string"
    );
    assert_eq!(
        Cell::parse("-4").unwrap_err(),
        "Could not parse '-4' as a number: invalid digit found in string"
    );
    assert_eq!(
        Cell::parse("300").unwrap_err(),
        "Could not parse '300' as a number: number too large to fit in target type"
    );
}

#[test]
fn number_parse_does_not_trim() {
    assert_eq!(
        Number::parse(" 5").unwrap_err(),
        "Could not parse ' 5' as a number: invalid digit found in string"
    );
    assert_eq!(
        Number::parse("").unwrap_err(),
        "Could not parse '' as a number: cannot parse integer from empty string"
    );
    assert_eq!(Number::parse("007").unwrap().value(), 7);
}

#[test]
fn parse_rejects_wrong_row_count() {
    let eight_rows = vec![",,,,,,,,"; 8].join("\n");
    assert_eq!(
        Board::parse(&eight_rows).unwrap_err(),
        "Input contains 8 rows, expected 9."
    );
    let ten_rows = vec![",,,,,,,,"; 10].join("\n");
    assert_eq!(
        Board::parse(&ten_rows).unwrap_err(),
        "Input contains 10 rows, expected 9."
    );
}

#[test]
fn parse_rejects_wrong_cell_count() {
    let mut rows = vec![",,,,,,,,,"; 1];
    rows.extend(vec![",,,,,,,,"; 8]);
    let ten_cells = rows.join("\n");
    assert_eq!(
        Board::parse(&ten_cells).unwrap_err(),
        "Row 1: contained 10 cells, expected 9."
    );
    let mut rows = vec![",,,,,,,,"; 8];
    rows.push(",,,");
    let short_last = rows.join("\n");
    assert_eq!(
        Board::parse(&short_last).unwrap_err(),
        "Row 9: contained 4 cells, expected 9."
    );
}

#[test]
fn parse_reports_the_first_bad_cell() {
    let mut rows = vec![",,,,,,,,"; 9];
    rows[4] = ",,abc,,,,,,";
    let text = rows.join("\n");
    assert_eq!(
        Board::parse(&text).unwrap_err(),
        "Could not parse 'abc' as a number: invalid digit found in string"
    );
}

#[test]
fn parse_tolerates_one_trailing_blank_line() {
    assert!(Board::parse(SOLVED).is_ok());
    let no_newline = SOLVED.trim_end();
    assert!(Board::parse(no_newline).is_ok());
    let extra_blank = format!("{}\n", SOLVED);
    assert_eq!(
        Board::parse(&extra_blank).unwrap_err(),
        "Input contains 10 rows, expected 9."
    );
}

#[test]
fn parsed_cells_land_at_their_positions() {
    let board = Board::parse(SOLVED).unwrap();
    let expected: Vec<Vec<u8>> = SOLVED
        .trim_end()
        .split('\n')
        .map(|row| row.split(',').map(|c| c.parse().unwrap()).collect())
        .collect();
    for (r, row) in expected.iter().enumerate() {
        let cells = board.row(r);
        for (c, want) in row.iter().enumerate() {
            assert_eq!(cells[c].value(), Some(*want));
        }
    }
}

#[test]
fn set_overwrites_a_single_position() {
    let mut board = Board::parse(SOLVED).unwrap();
    board.set(Cell::parse("9").unwrap(), 0, 0);
    assert_eq!(board.row(0)[0].value(), Some(9));
    assert_eq!(board.row(0)[1].value(), Some(3));
    assert_eq!(board.row(1)[0].value(), Some(6));
}

#[test]
fn groups_partition_the_grid() {
    // Row r holds the digit r+1 in every cell, so every position's value
    // names its row; region 0 covers rows 0-2 x columns 0-2, region 4
    // rows 3-5 x columns 3-5, region 8 rows 6-8 x columns 6-8.
    let rows: Vec<String> = (1..=9)
        .map(|v| vec![v.to_string(); 9].join(","))
        .collect();
    let text = rows.join("\n");
    let board = Board::parse(&text).unwrap();
    for idx in 0..9 {
        let row = board.row(idx);
        let col = board.column(idx);
        for k in 0..9 {
            assert_eq!(row[k].value(), Some(idx as u8 + 1));
            assert_eq!(col[k].value(), Some(k as u8 + 1));
        }
    }
    for (idx, rows_covered) in [(0, [1u8, 2, 3]), (4, [4, 5, 6]), (8, [7, 8, 9])] {
        let region = board.region(idx);
        let values: Vec<u8> = region.iter().map(|c| c.value().unwrap()).collect();
        let expected: Vec<u8> = rows_covered.iter().flat_map(|v| [*v; 3]).collect();
        assert_eq!(values, expected);
    }
    // All 81 positions are covered exactly once over the 9 regions.
    let mut seen = [[false; 9]; 9];
    for idx in 0..9 {
        for k in 0..9 {
            let r = (idx / 3) * 3 + k / 3;
            let c = (idx % 3) * 3 + k % 3;
            assert!(!seen[r][c]);
            seen[r][c] = true;
            assert_eq!(
                board.region(idx)[k].value(),
                board.row(r)[c].value()
            );
        }
    }
    assert!(seen.iter().all(|row| row.iter().all(|&s| s)));
}

#[test]
fn group_families_agree_with_single_group_access() {
    let board = Board::parse(SOLVED).unwrap();
    let rows = board.rows();
    let cols = board.columns();
    let regions = board.regions();
    for idx in 0..9 {
        for k in 0..9 {
            assert_eq!(rows[idx][k].value(), board.row(idx)[k].value());
            assert_eq!(cols[idx][k].value(), board.column(idx)[k].value());
            assert_eq!(regions[idx][k].value(), board.region(idx)[k].value());
        }
    }
}
