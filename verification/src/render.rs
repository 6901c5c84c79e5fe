//! Rendering a board as a fixed-width bordered text grid, with
//! box-drawing characters delineating the 3x3 blocks.  A pure consumer of
//! the board's read-only cell access; the exact output is pinned by
//! `rendered`.

use vstd::prelude::*;
use vstd::string::StringExecFns;
use crate::board::Board;
use crate::board::Grid;
use crate::cell::Cell;
use crate::cell::cell_value_ok;
use crate::parse::board_outcome;
use crate::parse::lines_of;
use crate::parse::row_outcome;
use crate::parse::rows_outcome;
use crate::parse::cells_outcome;
use crate::cell::parse_cell_outcome;
use crate::text::digit_char;
use crate::text::digit_text;
use crate::text::split_char;

verus! {

/// The character shown for a cell: its digit, or a space when empty.
pub open spec fn cell_char(c: Option<u8>) -> char {
    match c {
        None => ' ',
        Some(v) => digit_char(v as int),
    }
}

/// The separator printed after cell column `c` of a row line.
pub open spec fn sep_after(c: int) -> Seq<char> {
    if c == 2 || c == 5 || c == 8 {
        "┃"@
    } else {
        "│"@
    }
}

/// The top border line.
pub open spec fn top_border() -> Seq<char> {
    "┏━━━┯━━━┯━━━┳━━━┯━━━┯━━━┳━━━┯━━━┯━━━┓\n"@
}

/// The bottom border line.
pub open spec fn bottom_border() -> Seq<char> {
    "┗━━━┷━━━┷━━━┻━━━┷━━━┷━━━┻━━━┷━━━┷━━━┛\n"@
}

/// The thin border between rows within a block.
pub open spec fn thin_border() -> Seq<char> {
    "┠───┼───┼───╂───┼───┼───╂───┼───┼───┨\n"@
}

/// The thick border between blocks.
pub open spec fn thick_border() -> Seq<char> {
    "┣━━━┿━━━┿━━━╋━━━┿━━━┿━━━╋━━━┿━━━┿━━━┫\n"@
}

/// The border printed below row `r`.
pub open spec fn border_after(r: int) -> Seq<char> {
    if r == 2 || r == 5 {
        thick_border()
    } else if r == 8 {
        bottom_border()
    } else {
        thin_border()
    }
}

/// The first `n` cells of one row's line: `" {cell} {sep}"` for each.
pub open spec fn cells_part(row: Seq<Option<u8>>, n: int) -> Seq<char>
    decreases n,
{
    if n <= 0 {
        Seq::<char>::empty()
    } else {
        cells_part(row, n - 1) + " "@ + seq![cell_char(row[n - 1])] + " "@ + sep_after(n - 1)
    }
}

/// One row's full line.
pub open spec fn row_line(row: Seq<Option<u8>>) -> Seq<char> {
    "┃"@ + cells_part(row, 9) + "\n"@
}

/// The first `n` rows of the picture, each line followed by its border.
pub open spec fn render_rows(b: Grid, n: int) -> Seq<char>
    decreases n,
{
    if n <= 0 {
        Seq::<char>::empty()
    } else {
        render_rows(b, n - 1) + row_line(b[n - 1]) + border_after(n - 1)
    }
}

/// The full picture of a board.
pub open spec fn rendered(b: Grid) -> Seq<char> {
    top_border() + render_rows(b, 9)
}

/// The string shown for one cell.
fn cell_text(c: &Cell) -> (r: &'static str)
    requires
        c.wf(),
    ensures
        r@ == seq![cell_char(c@)],
{
    match c.value() {
        None => {
            let r: &'static str = " ";
            proof {
                reveal_strlit(" ");
                assert(r@ =~= seq![cell_char(c@)]);
            }
            r
        },
        Some(v) => digit_text(v as usize),
    }
}

impl Board {
    /// The bordered text picture of the board, exactly as `rendered`
    /// describes it.
    pub fn render(&self) -> (r: String)
        requires
            self.wf(),
        ensures
            r@ == rendered(self@),
    {
        let mut s = String::from_str("┏━━━┯━━━┯━━━┳━━━┯━━━┯━━━┳━━━┯━━━┯━━━┓\n");
        let mut ri: usize = 0;
        while ri < 9
            invariant
                self.wf(),
                ri <= 9,
                s@ == top_border() + render_rows(self@, ri as int),
            decreases 9 - ri,
        {
            let rowcells = self.row(ri);
            s.append("┃");
            let ghost rv = self@[ri as int];
            proof {
                assert(cells_part(rv, 0) =~= Seq::<char>::empty());
                assert(s@ =~= top_border() + render_rows(self@, ri as int) + "┃"@ + cells_part(
                    rv,
                    0,
                ));
            }
            let mut ci: usize = 0;
            while ci < 9
                invariant
                    self.wf(),
                    ri < 9,
                    ci <= 9,
                    rv == self@[ri as int],
                    rowcells@.len() == 9,
                    forall|c: int| 0 <= c < 9 ==> (#[trigger] rowcells@[c])@ == rv[c],
                    s@ == top_border() + render_rows(self@, ri as int) + "┃"@ + cells_part(
                        rv,
                        ci as int,
                    ),
                decreases 9 - ci,
            {
                s.append(" ");
                proof {
                    assert(cell_value_ok(rv[ci as int]));
                }
                s.append(cell_text(&rowcells[ci]));
                s.append(" ");
                if ci == 2 || ci == 5 || ci == 8 {
                    s.append("┃");
                } else {
                    s.append("│");
                }
                proof {
                    assert(s@ =~= top_border() + render_rows(self@, ri as int) + "┃"@ + cells_part(
                        rv,
                        ci as int + 1,
                    ));
                }
                ci = ci + 1;
            }
            s.append("\n");
            if ri == 2 || ri == 5 {
                s.append("┣━━━┿━━━┿━━━╋━━━┿━━━┿━━━╋━━━┿━━━┿━━━┫\n");
            } else if ri == 8 {
                s.append("┗━━━┷━━━┷━━━┻━━━┷━━━┷━━━┻━━━┷━━━┷━━━┛\n");
            } else {
                s.append("┠───┼───┼───╂───┼───┼───╂───┼───┼───┨\n");
            }
            proof {
                assert(s@ =~= top_border() + render_rows(self@, ri as int + 1));
            }
            ri = ri + 1;
        }
        s
    }
}

/// `cells_part` lays each cell's character at offset `4*c + 1`.
proof fn lemma_cells_part_index(row: Seq<Option<u8>>, n: int, c: int)
    requires
        0 <= c < n,
    ensures
        cells_part(row, n).len() == 4 * n,
        cells_part(row, n)[4 * c + 1] == cell_char(row[c]),
    decreases n,
{
    reveal_strlit(" ");
    reveal_strlit("│");
    reveal_strlit("┃");
    if c < n - 1 {
        lemma_cells_part_index(row, n - 1, c);
    } else {
        if n > 1 {
            lemma_cells_part_index(row, n - 1, n - 2);
        } else {
            assert(cells_part(row, 0).len() == 0);
        }
        assert(cells_part(row, n - 1).len() == 4 * (n - 1));
        assert(cells_part(row, n)[4 * c + 1] == cell_char(row[c]));
    }
}

/// A row's line is 38 characters; cell `c` sits at offset `4*c + 2`.
pub proof fn lemma_row_line_cells(row: Seq<Option<u8>>, c: int)
    requires
        0 <= c < 9,
    ensures
        row_line(row).len() == 38,
        row_line(row)[4 * c + 2] == cell_char(row[c]),
{
    reveal_strlit("┃");
    reveal_strlit("\n");
    lemma_cells_part_index(row, 9, c);
}

/// Each border line is 38 characters.
proof fn lemma_border_len(r: int)
    ensures
        border_after(r).len() == 38,
{
    reveal_strlit("┏━━━┯━━━┯━━━┳━━━┯━━━┯━━━┳━━━┯━━━┯━━━┓\n");
    reveal_strlit("┗━━━┷━━━┷━━━┻━━━┷━━━┷━━━┻━━━┷━━━┷━━━┛\n");
    reveal_strlit("┣━━━┿━━━┿━━━╋━━━┿━━━┿━━━╋━━━┿━━━┿━━━┫\n");
    reveal_strlit("┠───┼───┼───╂───┼───┼───╂───┼───┼───┨\n");
}

/// The first `n` rendered rows take `76*n` characters; within them, cell
/// `(r, c)` sits at offset `76*r + 4*c + 2`.
proof fn lemma_render_rows_cell(b: Grid, n: int, r: int, c: int)
    requires
        0 <= r < n,
        0 <= c < 9,
    ensures
        render_rows(b, n).len() == 76 * n,
        render_rows(b, n)[76 * r + 4 * c + 2] == cell_char(b[r][c]),
    decreases n,
{
    lemma_row_line_cells(b[n - 1], c);
    lemma_border_len(n - 1);
    if r < n - 1 {
        lemma_render_rows_cell(b, n - 1, r, c);
    } else {
        if n > 1 {
            lemma_render_rows_cell(b, n - 1, n - 2, c);
        } else {
            assert(render_rows(b, 0).len() == 0);
        }
        assert(render_rows(b, n - 1).len() == 76 * (n - 1));
        assert(render_rows(b, n)[76 * r + 4 * c + 2] == row_line(b[n - 1])[4 * c + 2]);
    }
}

/// The picture shows every cell's value at a fixed position: the
/// character for cell `(r, c)` stands at offset `38*(2*r + 1) + 4*c + 2`
/// of the rendered text.
pub proof fn lemma_rendered_positions(b: Grid, r: int, c: int)
    requires
        0 <= r < 9,
        0 <= c < 9,
    ensures
        rendered(b).len() == 38 * 19,
        rendered(b)[38 * (2 * r + 1) + 4 * c + 2] == cell_char(b[r][c]),
{
    reveal_strlit("┏━━━┯━━━┯━━━┳━━━┯━━━┯━━━┳━━━┯━━━┯━━━┓\n");
    lemma_render_rows_cell(b, 9, r, c);
}

/// From a successfully parsed grid, each row's cells are what the
/// record's fields parsed to.
proof fn lemma_rows_outcome_ok_inv(ls: Seq<Seq<char>>, n: int, q: int)
    requires
        rows_outcome(ls, n) is Ok,
        0 <= q < n,
    ensures
        row_outcome(ls[q], (q + 1) as nat) is Ok,
        rows_outcome(ls, n)->Ok_0[q] == row_outcome(ls[q], (q + 1) as nat)->Ok_0,
    decreases n,
{
    if q < n - 1 {
        lemma_rows_outcome_ok_inv(ls, n - 1, q);
        lemma_rows_outcome_len(ls, n - 1);
    } else {
        lemma_rows_outcome_len(ls, n - 1);
        assert(((n - 1) + 1) as nat == n as nat);
        assert(row_outcome(ls[q], (q + 1) as nat) == row_outcome(ls[n - 1], n as nat));
    }
}

proof fn lemma_rows_outcome_len(ls: Seq<Seq<char>>, n: int)
    requires
        rows_outcome(ls, n) is Ok,
    ensures
        rows_outcome(ls, n)->Ok_0.len() == (if n <= 0 { 0int } else { n }),
    decreases n,
{
    if n > 0 {
        lemma_rows_outcome_len(ls, n - 1);
    }
}

proof fn lemma_cells_outcome_len(fs: Seq<Seq<char>>, n: int)
    requires
        cells_outcome(fs, n) is Ok,
    ensures
        cells_outcome(fs, n)->Ok_0.len() == (if n <= 0 { 0int } else { n }),
    decreases n,
{
    if n > 0 {
        lemma_cells_outcome_len(fs, n - 1);
    }
}

/// From a successfully parsed record, each cell is what its field parsed
/// to.
proof fn lemma_cells_outcome_ok_inv(fs: Seq<Seq<char>>, n: int, d: int)
    requires
        cells_outcome(fs, n) is Ok,
        0 <= d < n,
    ensures
        parse_cell_outcome(fs[d]) is Ok,
        cells_outcome(fs, n)->Ok_0[d] == parse_cell_outcome(fs[d])->Ok_0,
    decreases n,
{
    if d < n - 1 {
        lemma_cells_outcome_ok_inv(fs, n - 1, d);
        lemma_cells_outcome_len(fs, n - 1);
    } else {
        lemma_cells_outcome_len(fs, n - 1);
    }
}

/// Round trip: when parsing succeeds, rendering the parsed board shows,
/// at the fixed position of cell `(r, c)`, exactly the value parsed from
/// field `c` of record `r` of the input.
pub proof fn lemma_parse_render_round_trip(s: Seq<char>, b: Grid, r: int, c: int)
    requires
        board_outcome(s) == Ok::<Grid, Seq<char>>(b),
        0 <= r < 9,
        0 <= c < 9,
    ensures
        parse_cell_outcome(split_char(lines_of(s)[r], ',')[c]) is Ok,
        rendered(b)[38 * (2 * r + 1) + 4 * c + 2] == cell_char(
            parse_cell_outcome(split_char(lines_of(s)[r], ',')[c])->Ok_0,
        ),
{
    let ls = lines_of(s);
    lemma_rows_outcome_ok_inv(ls, 9, r);
    let fs = split_char(ls[r], ',');
    lemma_cells_outcome_ok_inv(fs, 9, c);
    lemma_rendered_positions(b, r, c);
}

} // verus!
