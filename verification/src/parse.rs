//! Parsing a 9x9 board from text: 9 newline-separated records of 9
//! comma-separated cells, a trailing blank line tolerated; the first
//! failure aborts with its exact message.

use vstd::prelude::*;
use vstd::string::StrSliceExecFns;
use vstd::string::StringExecFns;
use crate::board::Board;
use crate::board::Grid;
use crate::cell::Cell;
use crate::cell::parse_cell_outcome;
use crate::text::dec_of;
use crate::text::format_usize;
use crate::text::is_blank;
use crate::text::is_space;
use crate::text::is_space_char;
use crate::text::lemma_split_char_nonempty;
use crate::text::split_char;

verus! {

/// The text pieces that a sequence of index ranges cuts out of `s`.
pub open spec fn piece_seqs(ps: Seq<(usize, usize)>, s: Seq<char>) -> Seq<Seq<char>> {
    ps.map(|i: int, p: (usize, usize)| s.subrange(p.0 as int, p.1 as int))
}

/// The records of the input: the newline-separated pieces, a final
/// whitespace-only piece dropped.
pub open spec fn lines_of(s: Seq<char>) -> Seq<Seq<char>> {
    let ls = split_char(s, '\n');
    if ls.len() > 0 && is_blank(ls.last()) {
        ls.drop_last()
    } else {
        ls
    }
}

/// The error for an input with other than 9 records.
pub open spec fn rows_msg(n: nat) -> Seq<char> {
    "Input contains "@ + dec_of(n) + " rows, expected 9."@
}

/// The error for a record (1-based `rno`) with other than 9 cells.
pub open spec fn cells_msg(rno: nat, n: nat) -> Seq<char> {
    "Row "@ + dec_of(rno) + ": contained "@ + dec_of(n) + " cells, expected 9."@
}

/// Parsing the first `n` cell texts of a record, left to right, first
/// error wins.
pub open spec fn cells_outcome(fs: Seq<Seq<char>>, n: int) -> Result<Seq<Option<u8>>, Seq<char>>
    decreases n,
{
    if n <= 0 {
        Ok(Seq::<Option<u8>>::empty())
    } else {
        match cells_outcome(fs, n - 1) {
            Err(m) => Err(m),
            Ok(pre) => match parse_cell_outcome(fs[n - 1]) {
                Ok(v) => Ok(pre.push(v)),
                Err(m) => Err(m),
            },
        }
    }
}

/// Parsing one record: it must hold exactly 9 comma-separated cells,
/// each of which must parse.
pub open spec fn row_outcome(line: Seq<char>, rno: nat) -> Result<Seq<Option<u8>>, Seq<char>> {
    let fs = split_char(line, ',');
    if fs.len() != 9 {
        Err(cells_msg(rno, fs.len()))
    } else {
        cells_outcome(fs, 9)
    }
}

/// Parsing the first `n` records, top to bottom, first error wins.
pub open spec fn rows_outcome(ls: Seq<Seq<char>>, n: int) -> Result<Grid, Seq<char>>
    decreases n,
{
    if n <= 0 {
        Ok(Seq::<Seq<Option<u8>>>::empty())
    } else {
        match rows_outcome(ls, n - 1) {
            Err(m) => Err(m),
            Ok(pre) => match row_outcome(ls[n - 1], n as nat) {
                Ok(cells) => Ok(pre.push(cells)),
                Err(m) => Err(m),
            },
        }
    }
}

/// What parsing a whole input yields: the grid, or the first error's
/// exact message.
pub open spec fn board_outcome(s: Seq<char>) -> Result<Grid, Seq<char>> {
    let ls = lines_of(s);
    if ls.len() != 9 {
        Err(rows_msg(ls.len()))
    } else {
        rows_outcome(ls, 9)
    }
}

proof fn lemma_cells_outcome_ok(fs: Seq<Seq<char>>, n: int)
    requires
        0 <= n,
        forall|d: int| 0 <= d < n ==> (#[trigger] parse_cell_outcome(fs[d])) is Ok,
    ensures
        cells_outcome(fs, n) is Ok,
        cells_outcome(fs, n)->Ok_0.len() == n,
        forall|d: int|
            0 <= d < n ==> #[trigger] cells_outcome(fs, n)->Ok_0[d] == parse_cell_outcome(
                fs[d],
            )->Ok_0,
    decreases n,
{
    if n > 0 {
        lemma_cells_outcome_ok(fs, n - 1);
    }
}

proof fn lemma_cells_outcome_err(fs: Seq<Seq<char>>, d: int, n: int)
    requires
        0 <= d < n,
        forall|q: int| 0 <= q < d ==> (#[trigger] parse_cell_outcome(fs[q])) is Ok,
        parse_cell_outcome(fs[d]) is Err,
    ensures
        cells_outcome(fs, n) == Err::<Seq<Option<u8>>, Seq<char>>(parse_cell_outcome(fs[d])->Err_0),
    decreases n,
{
    if n - 1 > d {
        lemma_cells_outcome_err(fs, d, n - 1);
    } else {
        lemma_cells_outcome_ok(fs, d);
    }
}

proof fn lemma_rows_outcome_ok(ls: Seq<Seq<char>>, n: int)
    requires
        0 <= n,
        forall|q: int| 0 <= q < n ==> (#[trigger] row_outcome(ls[q], (q + 1) as nat)) is Ok,
    ensures
        rows_outcome(ls, n) is Ok,
        rows_outcome(ls, n)->Ok_0.len() == n,
        forall|q: int|
            0 <= q < n ==> #[trigger] rows_outcome(ls, n)->Ok_0[q] == row_outcome(
                ls[q],
                (q + 1) as nat,
            )->Ok_0,
    decreases n,
{
    if n > 0 {
        lemma_rows_outcome_ok(ls, n - 1);
        assert(row_outcome(ls[n - 1], ((n - 1) + 1) as nat) is Ok);
        assert(((n - 1) + 1) as nat == n as nat);
        assert forall|q: int| 0 <= q < n implies #[trigger] rows_outcome(ls, n)->Ok_0[q]
            == row_outcome(ls[q], (q + 1) as nat)->Ok_0 by {
            if q < n - 1 {
                assert(rows_outcome(ls, n)->Ok_0[q] == rows_outcome(ls, n - 1)->Ok_0[q]);
            }
        }
    }
}

proof fn lemma_rows_outcome_err(ls: Seq<Seq<char>>, r: int, n: int)
    requires
        0 <= r < n,
        forall|q: int| 0 <= q < r ==> (#[trigger] row_outcome(ls[q], (q + 1) as nat)) is Ok,
        row_outcome(ls[r], (r + 1) as nat) is Err,
    ensures
        rows_outcome(ls, n) == Err::<Grid, Seq<char>>(row_outcome(ls[r], (r + 1) as nat)->Err_0),
    decreases n,
{
    if n - 1 > r {
        lemma_rows_outcome_err(ls, r, n - 1);
    } else {
        lemma_rows_outcome_ok(ls, r);
        assert(row_outcome(ls[n - 1], ((n - 1) + 1) as nat) is Err);
        assert(((n - 1) + 1) as nat == n as nat);
    }
}

/// Cuts `s[from..to]` at every occurrence of `sep`, returning the pieces
/// as index ranges into `s`.
fn split_ranges(s: &str, from: usize, to: usize, sep: char) -> (ps: Vec<(usize, usize)>)
    requires
        from <= to <= s@.len(),
    ensures
        piece_seqs(ps@, s@) =~= split_char(s@.subrange(from as int, to as int), sep),
        forall|p: int| 0 <= p < ps@.len() ==> from <= (#[trigger] ps@[p]).0 <= ps@[p].1 <= to,
{
    let ghost u = s@.subrange(from as int, to as int);
    let mut ps: Vec<(usize, usize)> = Vec::new();
    let mut start: usize = from;
    let mut i: usize = from;
    proof {
        assert(s@.subrange(from as int, from as int) =~= Seq::<char>::empty());
        assert(u.take(0) =~= Seq::<char>::empty());
    }
    while i < to
        invariant
            from <= start <= i <= to <= s@.len(),
            u == s@.subrange(from as int, to as int),
            piece_seqs(ps@, s@).push(s@.subrange(start as int, i as int)) =~= split_char(
                u.take(i - from),
                sep,
            ),
            forall|p: int| 0 <= p < ps@.len() ==> from <= (#[trigger] ps@[p]).0 <= ps@[p].1 <= to,
        decreases to - i,
    {
        let c = s.get_char(i);
        proof {
            assert(u.take(i - from + 1).drop_last() =~= u.take(i - from));
            assert(u.take(i - from + 1).last() == s@[i as int]);
        }
        let ghost prev = piece_seqs(ps@, s@);
        let ghost cur = s@.subrange(start as int, i as int);
        if c == sep {
            ps.push((start, i));
            proof {
                assert(piece_seqs(ps@, s@) =~= prev.push(cur));
                assert(split_char(u.take(i - from + 1), sep) =~= split_char(
                    u.take(i - from),
                    sep,
                ).push(Seq::<char>::empty()));
                assert(s@.subrange(i as int + 1, i as int + 1) =~= Seq::<char>::empty());
                assert(piece_seqs(ps@, s@).push(s@.subrange(i as int + 1, i as int + 1))
                    =~= split_char(u.take(i - from + 1), sep));
            }
            start = i + 1;
        } else {
            proof {
                let old_split = split_char(u.take(i - from), sep);
                assert(old_split.len() == prev.len() + 1);
                assert(old_split.last() == cur);
                assert(split_char(u.take(i - from + 1), sep) =~= old_split.update(
                    old_split.len() - 1,
                    cur.push(s@[i as int]),
                ));
                assert(s@.subrange(start as int, i as int + 1) =~= cur.push(s@[i as int]));
                assert(prev.push(s@.subrange(start as int, i as int + 1)) =~= split_char(
                    u.take(i - from + 1),
                    sep,
                ));
            }
        }
        i = i + 1;
    }
    ps.push((start, to));
    proof {
        assert(u.take(to - from) =~= u);
        assert(piece_seqs(ps@, s@) =~= piece_seqs(ps@.drop_last(), s@).push(
            s@.subrange(start as int, to as int),
        ));
    }
    ps
}

impl Board {
    /// Parses a board from text with exactly 9 newline-separated records
    /// of exactly 9 comma-separated cells (a trailing blank line is
    /// tolerated), failing with the first error's message as
    /// `board_outcome` describes.
    pub fn parse(input: &str) -> (r: Result<Board, String>)
        ensures
            match board_outcome(input@) {
                Ok(m) => r matches Ok(b) && b.wf() && b@ == m,
                Err(msg) => r matches Err(e) && e@ == msg,
            },
    {
        let n = input.unicode_len();
        let mut pieces = split_ranges(input, 0, n, '\n');
        proof {
            assert(input@.subrange(0, n as int) =~= input@);
            lemma_split_char_nonempty(input@, '\n');
        }
        let li = pieces.len() - 1;
        let (b0, b1) = pieces[li];
        let ghost lastpiece = input@.subrange(b0 as int, b1 as int);
        let mut blank = true;
        let mut j: usize = b0;
        while j < b1
            invariant
                b0 <= j <= b1 <= input@.len(),
                lastpiece == input@.subrange(b0 as int, b1 as int),
                blank ==> forall|q: int| b0 <= q < j ==> is_space(#[trigger] input@[q]),
                !blank ==> !is_blank(lastpiece),
            decreases b1 - j,
        {
            if !is_space_char(input.get_char(j)) {
                proof {
                    assert(lastpiece[j - b0] == input@[j as int]);
                }
                blank = false;
            }
            j = j + 1;
        }
        proof {
            if blank {
                assert forall|q: int| 0 <= q < lastpiece.len() implies is_space(
                    #[trigger] lastpiece[q],
                ) by {
                    assert(lastpiece[q] == input@[b0 + q]);
                }
                assert(is_blank(lastpiece));
            }
            assert(split_char(input@, '\n').last() == lastpiece);
        }
        if blank {
            pieces.pop();
            proof {
                assert(piece_seqs(pieces@, input@) =~= piece_seqs(
                    pieces@.push((b0, b1)),
                    input@,
                ).drop_last());
                assert(piece_seqs(pieces@, input@) =~= lines_of(input@));
            }
        } else {
            proof {
                assert(piece_seqs(pieces@, input@) =~= lines_of(input@));
            }
        }
        let ghost ls = lines_of(input@);
        let m = pieces.len();
        if m != 9 {
            let mut e = String::from_str("Input contains ");
            let digits = format_usize(m);
            e.append(digits.as_str());
            e.append(" rows, expected 9.");
            proof {
                assert(e@ =~= rows_msg(m as nat));
                assert(ls.len() == m);
            }
            return Err(e);
        }
        let mut board = Board::empty();
        let mut ri: usize = 0;
        while ri < 9
            invariant
                ls == lines_of(input@),
                ls.len() == 9,
                pieces@.len() == 9,
                piece_seqs(pieces@, input@) =~= ls,
                forall|p: int|
                    0 <= p < 9 ==> (#[trigger] pieces@[p]).0 <= pieces@[p].1 <= input@.len(),
                ri <= 9,
                board.wf(),
                forall|q: int| 0 <= q < ri ==> (#[trigger] row_outcome(ls[q], (q + 1) as nat)) is Ok,
                forall|q: int|
                    0 <= q < ri ==> #[trigger] board@[q] == row_outcome(ls[q], (q + 1) as nat)->Ok_0,
            decreases 9 - ri,
        {
            let (r0, r1) = pieces[ri];
            let fields = split_ranges(input, r0, r1, ',');
            let ghost fs = split_char(ls[ri as int], ',');
            proof {
                assert(input@.subrange(r0 as int, r1 as int) == ls[ri as int]);
                assert(piece_seqs(fields@, input@) =~= fs);
            }
            let fm = fields.len();
            if fm != 9 {
                let mut e = String::from_str("Row ");
                let rd = format_usize(ri + 1);
                e.append(rd.as_str());
                e.append(": contained ");
                let cd = format_usize(fm);
                e.append(cd.as_str());
                e.append(" cells, expected 9.");
                proof {
                    assert(fs.len() == fm);
                    assert(e@ =~= cells_msg((ri + 1) as nat, fm as nat));
                    assert(row_outcome(ls[ri as int], (ri + 1) as nat) is Err);
                    assert(row_outcome(ls[ri as int], (ri + 1) as nat)->Err_0 == cells_msg(
                        (ri + 1) as nat,
                        fm as nat,
                    ));
                    lemma_rows_outcome_err(ls, ri as int, 9);
                }
                return Err(e);
            }
            let mut ci: usize = 0;
            while ci < 9
                invariant
                    ls == lines_of(input@),
                    ls.len() == 9,
                    ri < 9,
                    ci <= 9,
                    fs == split_char(ls[ri as int], ','),
                    fs.len() == 9,
                    fields@.len() == 9,
                    piece_seqs(fields@, input@) =~= fs,
                    forall|p: int|
                        0 <= p < 9 ==> (#[trigger] fields@[p]).0 <= fields@[p].1 <= input@.len(),
                    board.wf(),
                    forall|q: int|
                        0 <= q < ri ==> (#[trigger] row_outcome(ls[q], (q + 1) as nat)) is Ok,
                    forall|q: int|
                        0 <= q < ri ==> #[trigger] board@[q] == row_outcome(
                            ls[q],
                            (q + 1) as nat,
                        )->Ok_0,
                    forall|d: int| 0 <= d < ci ==> (#[trigger] parse_cell_outcome(fs[d])) is Ok,
                    forall|d: int|
                        0 <= d < ci ==> #[trigger] board@[ri as int][d] == parse_cell_outcome(
                            fs[d],
                        )->Ok_0,
                decreases 9 - ci,
            {
                let (f0, f1) = fields[ci];
                let field = input.substring_char(f0, f1);
                proof {
                    assert(field@ == fs[ci as int]);
                }
                match Cell::parse(field) {
                    Ok(cellv) => {
                        let ghost pre = board@;
                        board.set(cellv, ri, ci);
                        proof {
                            assert(board@[ri as int][ci as int] == cellv@);
                            assert(forall|q: int| 0 <= q < ri ==> board@[q] == pre[q]);
                            assert(forall|d: int|
                                0 <= d < ci ==> board@[ri as int][d] == pre[ri as int][d]);
                        }
                    },
                    Err(e) => {
                        proof {
                            lemma_cells_outcome_err(fs, ci as int, 9);
                            assert(row_outcome(ls[ri as int], (ri + 1) as nat) is Err);
                            lemma_rows_outcome_err(ls, ri as int, 9);
                        }
                        return Err(e);
                    },
                }
                ci = ci + 1;
            }
            proof {
                lemma_cells_outcome_ok(fs, 9);
                assert(row_outcome(ls[ri as int], (ri + 1) as nat) is Ok);
                assert(board@[ri as int] =~= row_outcome(ls[ri as int], (ri + 1) as nat)->Ok_0);
            }
            ri = ri + 1;
        }
        proof {
            lemma_rows_outcome_ok(ls, 9);
            assert(board@ =~= rows_outcome(ls, 9)->Ok_0);
        }
        Ok(board)
    }
}

} // verus!
