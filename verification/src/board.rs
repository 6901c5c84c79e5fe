//! The 9x9 grid, its partition into rows, columns and 3x3 regions, and the
//! constraint check that reports every duplicated and missing digit per
//! group.

use vstd::prelude::*;
use vstd::pervasive::VecAdditionalExecFns;
use vstd::string::StringExecFns;
use crate::cell::Cell;
use crate::cell::cell_value_ok;
use crate::row::Row;
use crate::text::digit_char;
use crate::text::digit_text;
use crate::violations::SectionViolations;
use crate::text::lex_lt;
use crate::text::lemma_lex_lt_asym;
use crate::text::lemma_lex_lt_ne;
use crate::text::lemma_lex_lt_prefix;
use crate::violations::entry_line;
use crate::violations::lemma_upsert_append;
use crate::violations::lemma_upsert_found;
use crate::violations::upsert_entries;

verus! {

/// The abstract value of a board: 9 rows of 9 optional digits.
pub type Grid = Seq<Seq<Option<u8>>>;

/// Well-formedness of an abstract grid: 9 rows of 9 cells, every filled
/// cell holding a digit 1..=9.
pub open spec fn grid_wf(b: Grid) -> bool {
    &&& b.len() == 9
    &&& forall|r: int| 0 <= r < 9 ==> (#[trigger] b[r]).len() == 9
    &&& forall|r: int, c: int| 0 <= r < 9 && 0 <= c < 9 ==> cell_value_ok(#[trigger] b[r][c])
}

/// Row `i` of the grid, as a group of 9 cells.
pub open spec fn row_group(b: Grid, i: int) -> Seq<Option<u8>> {
    b[i]
}

/// Column `i` of the grid, top to bottom.
pub open spec fn col_group(b: Grid, i: int) -> Seq<Option<u8>> {
    Seq::new(9, |r: int| b[r][i])
}

/// The grid row holding position `k` (0..=8, row-major) of region `i`.
pub open spec fn region_row(i: int, k: int) -> int {
    (i / 3) * 3 + k / 3
}

/// The grid column holding position `k` of region `i`.
pub open spec fn region_col(i: int, k: int) -> int {
    (i % 3) * 3 + k % 3
}

/// Region `i` of the grid: the 3x3 block in row-major order, region 0 at
/// the top left, region 8 at the bottom right.
pub open spec fn region_group(b: Grid, i: int) -> Seq<Option<u8>> {
    Seq::new(9, |k: int| b[region_row(i, k)][region_col(i, k)])
}

/// The region containing grid position `(r, c)`.
pub open spec fn region_of(r: int, c: int) -> int {
    (r / 3) * 3 + c / 3
}

/// The position within its region of grid position `(r, c)`.
pub open spec fn region_pos(r: int, c: int) -> int {
    (r % 3) * 3 + c % 3
}

/// The 27 constraint groups in report order: the 9 columns, then the 9
/// regions, then the 9 rows.  This is ascending lexicographic order of the
/// groups' descriptors, which fixes the order of the final report.
pub open spec fn group_at(b: Grid, t: int) -> Seq<Option<u8>> {
    if t < 9 {
        col_group(b, t)
    } else if t < 18 {
        region_group(b, t - 9)
    } else {
        row_group(b, t - 18)
    }
}

/// The descriptor of group `t`, e.g. `"Column 3"`: the group kind and the
/// 1-based group index.
pub open spec fn descriptor_at(t: int) -> Seq<char> {
    (if t < 9 {
        "Column "@
    } else if t < 18 {
        "Region "@
    } else {
        "Row "@
    }) + seq![digit_char(t % 9 + 1)]
}

/// How many cells of the group hold the digit `v`.
pub open spec fn count_in(g: Seq<Option<u8>>, v: u8) -> nat
    decreases g.len(),
{
    if g.len() == 0 {
        0
    } else {
        count_in(g.drop_last(), v) + (if g.last() == Some(v) {
            1nat
        } else {
            0nat
        })
    }
}

/// The diagnostic for a duplicated digit, e.g. `"multiple 4s"`.
pub open spec fn multiple_msg(v: u8) -> Seq<char> {
    "multiple "@ + seq![digit_char(v as int)] + "s"@
}

/// The diagnostic for a digit absent from a group, e.g. `"no 9s"`.
pub open spec fn no_msg(v: u8) -> Seq<char> {
    "no "@ + seq![digit_char(v as int)] + "s"@
}

/// The duplicate diagnostics of a group, in scan order: each filled cell
/// whose digit already occurred earlier in the group contributes one
/// `"multiple {v}s"` entry.
pub open spec fn dup_violations(g: Seq<Option<u8>>) -> Seq<Seq<char>>
    decreases g.len(),
{
    if g.len() == 0 {
        Seq::<Seq<char>>::empty()
    } else {
        let pre = dup_violations(g.drop_last());
        match g.last() {
            Some(v) => if count_in(g.drop_last(), v) >= 1 {
                pre.push(multiple_msg(v))
            } else {
                pre
            },
            None => pre,
        }
    }
}

/// The digits in 1..m (ascending) that occur nowhere in the group.
pub open spec fn missing_vals(g: Seq<Option<u8>>, m: int) -> Seq<u8>
    decreases m,
{
    if m <= 1 {
        Seq::<u8>::empty()
    } else {
        missing_vals(g, m - 1) + (if count_in(g, (m - 1) as u8) == 0 {
            seq![(m - 1) as u8]
        } else {
            Seq::<u8>::empty()
        })
    }
}

/// The `"no {v}s"` diagnostics for a sequence of missing digits.
pub open spec fn no_msgs(vs: Seq<u8>) -> Seq<Seq<char>> {
    vs.map(|i: int, v: u8| no_msg(v))
}

/// All diagnostics of one group: duplicates in scan order, then missing
/// digits in ascending order.
pub open spec fn group_violations(g: Seq<Option<u8>>) -> Seq<Seq<char>> {
    dup_violations(g) + no_msgs(missing_vals(g, 10))
}

/// The collector entries after scanning the first `n` of the 27 groups:
/// one `(descriptor, diagnostics)` pair per group with at least one
/// diagnostic, in report order.
pub open spec fn entries_upto(b: Grid, n: int) -> Seq<(Seq<char>, Seq<Seq<char>>)>
    decreases n,
{
    if n <= 0 {
        Seq::<(Seq<char>, Seq<Seq<char>>)>::empty()
    } else {
        entries_upto(b, n - 1) + (if group_violations(group_at(b, n - 1)).len() == 0 {
            Seq::<(Seq<char>, Seq<Seq<char>>)>::empty()
        } else {
            seq![(descriptor_at(n - 1), group_violations(group_at(b, n - 1)))]
        })
    }
}

/// The full report of a grid: one line per group with at least one
/// diagnostic, ordered lexicographically by descriptor.
pub open spec fn report(b: Grid) -> Seq<Seq<char>> {
    entries_upto(b, 27).map(|i: int, e: (Seq<char>, Seq<Seq<char>>)| entry_line(e))
}

/// A group satisfying the Sudoku constraint: each digit 1..=9 exactly once.
pub open spec fn group_complete(g: Seq<Option<u8>>) -> bool {
    forall|v: u8| 1 <= v <= 9 ==> #[trigger] count_in(g, v) == 1
}

/// A solved grid: all 27 groups are complete.
pub open spec fn solved(b: Grid) -> bool {
    forall|t: int| 0 <= t < 27 ==> group_complete(#[trigger] group_at(b, t))
}

/// The 9x9 grid of cells.  Its view is the abstract [`Grid`].
#[derive(Debug)]
pub struct Board {
    inner: Vec<Row>,
}

impl View for Board {
    type V = Grid;

    closed spec fn view(&self) -> Grid {
        Seq::new(self.inner@.len() as nat, |i: int| self.inner@[i]@)
    }
}

impl Board {
    /// Well-formedness of the board; established by every constructor and
    /// preserved by `set`.
    pub open spec fn wf(&self) -> bool {
        grid_wf(self@)
    }

    /// A board of 81 empty cells.
    pub fn empty() -> (b: Board)
        ensures
            b.wf(),
            forall|r: int, c: int| 0 <= r < 9 && 0 <= c < 9 ==> b@[r][c] is None,
    {
        let mut inner: Vec<Row> = Vec::new();
        let mut k: usize = 0;
        while k < 9
            invariant
                k <= 9,
                inner@.len() == k,
                forall|i: int| 0 <= i < k ==> (#[trigger] inner@[i]).wf(),
                forall|i: int, c: int| 0 <= i < k && 0 <= c < 9 ==> #[trigger] inner@[i]@[c] is None,
            decreases 9 - k,
        {
            inner.push(Row::empty());
            k = k + 1;
        }
        let b = Board { inner };
        proof {
            assert forall|r: int| 0 <= r < 9 implies (#[trigger] b@[r]).len() == 9 by {
                assert(b.inner@[r].wf());
            }
            assert forall|r: int, c: int| 0 <= r < 9 && 0 <= c < 9 implies #[trigger] b@[r][c]
                is None by {
                assert(b.inner@[r]@[c] is None);
            }
        }
        b
    }

    /// Places a cell at an absolute grid position; the caller supplies
    /// indices in 0..=8.
    pub fn set(&mut self, cell: Cell, row_idx: usize, col_idx: usize)
        requires
            old(self).wf(),
            cell.wf(),
            row_idx < 9,
            col_idx < 9,
        ensures
            final(self).wf(),
            final(self)@ =~= old(self)@.update(
                row_idx as int,
                old(self)@[row_idx as int].update(col_idx as int, cell@),
            ),
    {
        proof {
            assert(self@[row_idx as int] == self.inner@[row_idx as int]@);
            assert(self@[row_idx as int].len() == 9);
            assert forall|c: int| 0 <= c < 9 implies cell_value_ok(
                #[trigger] self.inner@[row_idx as int]@[c],
            ) by {
                assert(cell_value_ok(self@[row_idx as int][c]));
            }
            assert(self.inner@[row_idx as int].wf());
        }
        self.inner[row_idx].set(cell, col_idx);
        proof {
            assert(self@ =~= old(self)@.update(
                row_idx as int,
                old(self)@[row_idx as int].update(col_idx as int, cell@),
            ));
            let nb = self@;
            let ob = old(self)@;
            assert forall|r: int| 0 <= r < 9 implies (#[trigger] nb[r]).len() == 9 by {
                assert(ob[r].len() == 9);
            }
            assert forall|r: int, c: int| 0 <= r < 9 && 0 <= c < 9 implies cell_value_ok(
                #[trigger] nb[r][c],
            ) by {
                assert(cell_value_ok(ob[r][c]));
            }
        }
    }

    /// Row `idx`, as the ordered collection of its 9 cells.
    pub fn row(&self, idx: usize) -> (g: Vec<Cell>)
        requires
            self.wf(),
            idx < 9,
        ensures
            g@.len() == 9,
            forall|c: int| 0 <= c < 9 ==> (#[trigger] g@[c])@ == row_group(self@, idx as int)[c],
    {
        let mut g: Vec<Cell> = Vec::new();
        let mut c: usize = 0;
        while c < 9
            invariant
                self.wf(),
                idx < 9,
                c <= 9,
                g@.len() == c,
                forall|j: int| 0 <= j < c ==> (#[trigger] g@[j])@ == row_group(self@, idx as int)[j],
            decreases 9 - c,
        {
            proof {
                assert(self.inner@.len() == self@.len());
                assert(self@[idx as int] == self.inner@[idx as int]@);
                assert(self@[idx as int].len() == 9);
            }
            g.push(*self.inner[idx].cell(c));
            c = c + 1;
        }
        g
    }

    /// Column `idx`, top to bottom.
    pub fn column(&self, idx: usize) -> (g: Vec<Cell>)
        requires
            self.wf(),
            idx < 9,
        ensures
            g@.len() == 9,
            forall|c: int| 0 <= c < 9 ==> (#[trigger] g@[c])@ == col_group(self@, idx as int)[c],
    {
        let mut g: Vec<Cell> = Vec::new();
        let mut r: usize = 0;
        while r < 9
            invariant
                self.wf(),
                idx < 9,
                r <= 9,
                g@.len() == r,
                forall|j: int| 0 <= j < r ==> (#[trigger] g@[j])@ == col_group(self@, idx as int)[j],
            decreases 9 - r,
        {
            proof {
                assert(self.inner@.len() == self@.len());
                assert(self@[r as int] == self.inner@[r as int]@);
                assert(self@[r as int].len() == 9);
            }
            g.push(*self.inner[r].cell(idx));
            r = r + 1;
        }
        g
    }

    /// Region `idx`: the 3x3 block in row-major order.
    pub fn region(&self, idx: usize) -> (g: Vec<Cell>)
        requires
            self.wf(),
            idx < 9,
        ensures
            g@.len() == 9,
            forall|c: int| 0 <= c < 9 ==> (#[trigger] g@[c])@ == region_group(self@, idx as int)[c],
    {
        let row_start = (idx / 3) * 3;
        let col_start = (idx % 3) * 3;
        let mut g: Vec<Cell> = Vec::new();
        let mut k: usize = 0;
        while k < 9
            invariant
                self.wf(),
                idx < 9,
                row_start == (idx / 3) * 3,
                col_start == (idx % 3) * 3,
                k <= 9,
                g@.len() == k,
                forall|j: int| 0 <= j < k ==> (#[trigger] g@[j])@ == region_group(self@, idx as int)[j],
            decreases 9 - k,
        {
            let rr = row_start + k / 3;
            let cc = col_start + k % 3;
            proof {
                assert(rr < 9);
                assert(cc < 9);
                assert(self.inner@.len() == self@.len());
                assert(self@[rr as int] == self.inner@[rr as int]@);
                assert(self@[rr as int].len() == 9);
                assert(rr as int == region_row(idx as int, k as int));
                assert(cc as int == region_col(idx as int, k as int));
            }
            g.push(*self.inner[rr].cell(cc));
            k = k + 1;
        }
        g
    }

    /// The 9 row groups, in index order.
    pub fn rows(&self) -> (gs: Vec<Vec<Cell>>)
        requires
            self.wf(),
        ensures
            gs@.len() == 9,
            forall|i: int, c: int| 0 <= i < 9 && 0 <= c < 9 ==> (#[trigger] gs@[i]@[c])@ == row_group(
                self@,
                i,
            )[c],
            forall|i: int| 0 <= i < 9 ==> (#[trigger] gs@[i])@.len() == 9,
    {
        let mut gs: Vec<Vec<Cell>> = Vec::new();
        let mut i: usize = 0;
        while i < 9
            invariant
                self.wf(),
                i <= 9,
                gs@.len() == i,
                forall|j: int, c: int| 0 <= j < i && 0 <= c < 9 ==> (#[trigger] gs@[j]@[c])@
                    == row_group(self@, j)[c],
                forall|j: int| 0 <= j < i ==> (#[trigger] gs@[j])@.len() == 9,
            decreases 9 - i,
        {
            gs.push(self.row(i));
            i = i + 1;
        }
        gs
    }

    /// The 9 column groups, in index order.
    pub fn columns(&self) -> (gs: Vec<Vec<Cell>>)
        requires
            self.wf(),
        ensures
            gs@.len() == 9,
            forall|i: int, c: int| 0 <= i < 9 && 0 <= c < 9 ==> (#[trigger] gs@[i]@[c])@ == col_group(
                self@,
                i,
            )[c],
            forall|i: int| 0 <= i < 9 ==> (#[trigger] gs@[i])@.len() == 9,
    {
        let mut gs: Vec<Vec<Cell>> = Vec::new();
        let mut i: usize = 0;
        while i < 9
            invariant
                self.wf(),
                i <= 9,
                gs@.len() == i,
                forall|j: int, c: int| 0 <= j < i && 0 <= c < 9 ==> (#[trigger] gs@[j]@[c])@
                    == col_group(self@, j)[c],
                forall|j: int| 0 <= j < i ==> (#[trigger] gs@[j])@.len() == 9,
            decreases 9 - i,
        {
            gs.push(self.column(i));
            i = i + 1;
        }
        gs
    }

    /// The 9 region groups, in index order.
    pub fn regions(&self) -> (gs: Vec<Vec<Cell>>)
        requires
            self.wf(),
        ensures
            gs@.len() == 9,
            forall|i: int, c: int| 0 <= i < 9 && 0 <= c < 9 ==> (#[trigger] gs@[i]@[c])@
                == region_group(self@, i)[c],
            forall|i: int| 0 <= i < 9 ==> (#[trigger] gs@[i])@.len() == 9,
    {
        let mut gs: Vec<Vec<Cell>> = Vec::new();
        let mut i: usize = 0;
        while i < 9
            invariant
                self.wf(),
                i <= 9,
                gs@.len() == i,
                forall|j: int, c: int| 0 <= j < i && 0 <= c < 9 ==> (#[trigger] gs@[j]@[c])@
                    == region_group(self@, j)[c],
                forall|j: int| 0 <= j < i ==> (#[trigger] gs@[j])@.len() == 9,
            decreases 9 - i,
        {
            gs.push(self.region(i));
            i = i + 1;
        }
        gs
    }

    /// Checks the board against the three classic constraint families.
    /// Returns `Ok(())` exactly when no group has a violation; otherwise
    /// returns the report: one line per violating group, ordered
    /// lexicographically by descriptor, each line listing the group's
    /// duplicate diagnostics in scan order and then its missing digits in
    /// ascending order.
    pub fn check_solution(&self) -> (res: Result<(), Vec<String>>)
        requires
            self.wf(),
        ensures
            ({
                let rep = report(self@);
                match res {
                    Ok(_) => rep.len() == 0,
                    Err(lines) => {
                        &&& rep.len() > 0
                        &&& lines@.len() == rep.len()
                        &&& forall|i: int|
                            0 <= i < rep.len() ==> (#[trigger] lines@[i])@ == rep[i]
                    },
                }
            }),
    {
        let mut sv = SectionViolations::new();
        let mut t: usize = 0;
        while t < 27
            invariant
                self.wf(),
                t <= 27,
                sv@ =~= entries_upto(self@, t as int),
            decreases 27 - t,
        {
            let group: Vec<Cell> = if t < 9 {
                self.column(t)
            } else if t < 18 {
                self.region(t - 9)
            } else {
                self.row(t - 18)
            };
            let desc = descriptor_text(t);
            let ghost g = group_at(self@, t as int);
            proof {
                assert(forall|c: int| 0 <= c < 9 ==> (#[trigger] group@[c])@ == g[c]);
                lemma_entries_keys(self@, t as int);
                assert forall|j: int| 0 <= j < sv@.len() implies lex_lt(
                    (#[trigger] sv@[j]).0,
                    desc@,
                ) by {
                    let u = choose|u: int|
                        0 <= u < t && entries_upto(self@, t as int)[j].0 == descriptor_at(u);
                    lemma_descriptor_lt(u, t as int);
                }
            }
            let mut seen: Vec<bool> = vec![false; 10];
            let mut i: usize = 0;
            while i < 9
                invariant
                    self.wf(),
                    t < 27,
                    i <= 9,
                    g == group_at(self@, t as int),
                    group@.len() == 9,
                    forall|c: int| 0 <= c < 9 ==> (#[trigger] group@[c])@ == g[c],
                    desc@ == descriptor_at(t as int),
                    forall|j: int|
                        0 <= j < entries_upto(self@, t as int).len() ==> lex_lt(
                            (#[trigger] entries_upto(self@, t as int)[j]).0,
                            desc@,
                        ),
                    seen@.len() == 10,
                    forall|v: int|
                        1 <= v <= 9 ==> (seen@[v] <==> count_in(g.take(i as int), v as u8) >= 1),
                    sv@ =~= with_group(
                        entries_upto(self@, t as int),
                        desc@,
                        dup_violations(g.take(i as int)),
                    ),
                decreases 9 - i,
            {
                proof {
                    assert(g.take(i as int + 1).drop_last() =~= g.take(i as int));
                    assert(g.take(i as int + 1).last() == g[i as int]);
                    assert(cell_value_ok(g[i as int])) by {
                        lemma_group_cells_ok(self@, t as int, i as int);
                    }
                }
                match group[i].value() {
                    None => {
                        proof {
                            assert(dup_violations(g.take(i as int + 1)) =~= dup_violations(
                                g.take(i as int),
                            ));
                            assert forall|v: int| 1 <= v <= 9 implies (seen@[v] <==> count_in(
                                g.take(i as int + 1),
                                v as u8,
                            ) >= 1) by {
                                assert(count_in(g.take(i as int + 1), v as u8) == count_in(
                                    g.take(i as int),
                                    v as u8,
                                ));
                            }
                        }
                    },
                    Some(v) => {
                        if seen[v as usize] {
                            let msg = multiple_text(v);
                            let ghost pre = sv@;
                            sv.upsert(desc.as_str(), msg.as_str());
                            proof {
                                lemma_record_step(
                                    pre,
                                    entries_upto(self@, t as int),
                                    desc@,
                                    dup_violations(g.take(i as int)),
                                    multiple_msg(v),
                                );
                                assert(count_in(g.take(i as int), v) >= 1);
                                assert(dup_violations(g.take(i as int + 1)) =~= dup_violations(
                                    g.take(i as int),
                                ).push(multiple_msg(v)));
                            }
                        } else {
                            seen.set(v as usize, true);
                            proof {
                                assert(count_in(g.take(i as int), v) == 0);
                                assert(dup_violations(g.take(i as int + 1)) =~= dup_violations(
                                    g.take(i as int),
                                ));
                            }
                        }
                        proof {
                            assert forall|w: int| 1 <= w <= 9 implies (seen@[w] <==> count_in(
                                g.take(i as int + 1),
                                w as u8,
                            ) >= 1) by {
                                assert(count_in(g.take(i as int + 1), w as u8) == count_in(
                                    g.take(i as int),
                                    w as u8,
                                ) + (if w == v as int {
                                    1nat
                                } else {
                                    0nat
                                }));
                            }
                        }
                    },
                }
                i = i + 1;
            }
            proof {
                assert(g.take(9) =~= g);
            }
            let mut w: usize = 1;
            while w <= 9
                invariant
                    self.wf(),
                    t < 27,
                    1 <= w <= 10,
                    g == group_at(self@, t as int),
                    desc@ == descriptor_at(t as int),
                    forall|j: int|
                        0 <= j < entries_upto(self@, t as int).len() ==> lex_lt(
                            (#[trigger] entries_upto(self@, t as int)[j]).0,
                            desc@,
                        ),
                    seen@.len() == 10,
                    forall|v: int| 1 <= v <= 9 ==> (seen@[v] <==> count_in(g, v as u8) >= 1),
                    sv@ =~= with_group(
                        entries_upto(self@, t as int),
                        desc@,
                        dup_violations(g) + no_msgs(missing_vals(g, w as int)),
                    ),
                decreases 10 - w,
            {
                proof {
                    assert(missing_vals(g, w as int + 1) == missing_vals(g, w as int) + (
                    if count_in(g, w as u8) == 0 {
                        seq![w as u8]
                    } else {
                        Seq::<u8>::empty()
                    }));
                }
                if !seen[w] {
                    let msg = no_text(w as u8);
                    let ghost pre = sv@;
                    sv.upsert(desc.as_str(), msg.as_str());
                    proof {
                        lemma_record_step(
                            pre,
                            entries_upto(self@, t as int),
                            desc@,
                            dup_violations(g) + no_msgs(missing_vals(g, w as int)),
                            no_msg(w as u8),
                        );
                        assert(missing_vals(g, w as int + 1) =~= missing_vals(g, w as int).push(
                            w as u8,
                        ));
                        lemma_no_msgs_push(missing_vals(g, w as int), w as u8);
                        assert(dup_violations(g) + no_msgs(missing_vals(g, w as int + 1)) =~= (
                        dup_violations(g) + no_msgs(missing_vals(g, w as int))).push(
                            no_msg(w as u8),
                        ));
                    }
                } else {
                    proof {
                        assert(missing_vals(g, w as int + 1) =~= missing_vals(g, w as int));
                        assert(no_msgs(missing_vals(g, w as int + 1)) =~= no_msgs(
                            missing_vals(g, w as int),
                        ));
                    }
                }
                w = w + 1;
            }
            proof {
                assert(sv@ =~= with_group(
                    entries_upto(self@, t as int),
                    desc@,
                    group_violations(g),
                ));
                assert(entries_upto(self@, t as int + 1) =~= with_group(
                    entries_upto(self@, t as int),
                    descriptor_at(t as int),
                    group_violations(g),
                ));
            }
            t = t + 1;
        }
        if sv.is_empty() {
            proof {
                assert(report(self@).len() == entries_upto(self@, 27).len());
            }
            Ok(())
        } else {
            let lines = sv.result();
            proof {
                let rep = report(self@);
                assert(rep.len() == entries_upto(self@, 27).len());
                assert forall|i: int| 0 <= i < rep.len() implies (#[trigger] lines@[i])@
                    == rep[i] by {
                    assert(lines@[i]@ == entry_line(sv@[i]));
                    assert(rep[i] == entry_line(entries_upto(self@, 27)[i]));
                }
            }
            Err(lines)
        }
    }
}

/// The collector's contents while one group with descriptor `d` is being
/// scanned: the entries of the finished groups, then the entry for the
/// current group if it already has violations.
pub open spec fn with_group(
    base: Seq<(Seq<char>, Seq<Seq<char>>)>,
    d: Seq<char>,
    cur: Seq<Seq<char>>,
) -> Seq<(Seq<char>, Seq<Seq<char>>)> {
    if cur.len() == 0 {
        base
    } else {
        base.push((d, cur))
    }
}

/// Every cell of every group of a well-formed grid is empty or a digit
/// 1..=9.
proof fn lemma_group_cells_ok(b: Grid, t: int, i: int)
    requires
        grid_wf(b),
        0 <= t < 27,
        0 <= i < 9,
    ensures
        cell_value_ok(group_at(b, t)[i]),
{
    if t < 9 {
        assert(group_at(b, t)[i] == b[i][t]);
    } else if t < 18 {
        assert(group_at(b, t)[i] == b[region_row(t - 9, i)][region_col(t - 9, i)]);
        assert(0 <= region_row(t - 9, i) < 9);
        assert(0 <= region_col(t - 9, i) < 9);
    } else {
        assert(group_at(b, t)[i] == b[t - 18][i]);
    }
}

/// Every entry recorded after scanning the first `n` groups is keyed by
/// the descriptor of one of those groups.
proof fn lemma_entries_keys(b: Grid, n: int)
    ensures
        forall|j: int|
            0 <= j < entries_upto(b, n).len() ==> exists|u: int|
                0 <= u < n && (#[trigger] entries_upto(b, n)[j]).0 == descriptor_at(u),
    decreases n,
{
    if n > 0 {
        lemma_entries_keys(b, n - 1);
        assert forall|j: int| 0 <= j < entries_upto(b, n).len() implies exists|u: int|
            0 <= u < n && (#[trigger] entries_upto(b, n)[j]).0 == descriptor_at(u) by {
            if j < entries_upto(b, n - 1).len() {
                assert(entries_upto(b, n)[j] == entries_upto(b, n - 1)[j]);
                let u = choose|u: int|
                    0 <= u < n - 1 && entries_upto(b, n - 1)[j].0 == descriptor_at(u);
                assert(0 <= u < n && entries_upto(b, n)[j].0 == descriptor_at(u));
            } else {
                assert(entries_upto(b, n)[j].0 == descriptor_at(n - 1));
            }
        }
    }
}

/// Descriptors ascend lexicographically with the group index.
proof fn lemma_descriptor_lt(t1: int, t2: int)
    requires
        0 <= t1 < t2 < 27,
    ensures
        lex_lt(descriptor_at(t1), descriptor_at(t2)),
{
    reveal_strlit("Column ");
    reveal_strlit("Region ");
    reveal_strlit("Row ");
    let d1 = descriptor_at(t1);
    let d2 = descriptor_at(t2);
    if t1 / 9 == t2 / 9 {
        let kind = if t1 < 9 {
            "Column "@
        } else if t1 < 18 {
            "Region "@
        } else {
            "Row "@
        };
        let g1 = seq![digit_char(t1 % 9 + 1)];
        let g2 = seq![digit_char(t2 % 9 + 1)];
        lemma_lex_lt_prefix(kind, g1, g2);
        assert(t1 % 9 < t2 % 9);
        assert(digit_char(t1 % 9 + 1) < digit_char(t2 % 9 + 1));
        assert(lex_lt(g1, g2));
    } else if t1 < 9 {
        assert(d1[0] == 'C');
        assert(d2[0] == 'R');
        assert(lex_lt(d1, d2));
    } else {
        assert(d1[0] == 'R' && d2[0] == 'R');
        assert(d1.skip(1)[0] == 'e');
        assert(d2.skip(1)[0] == 'o');
        assert(lex_lt(d1.skip(1), d2.skip(1)));
        assert(lex_lt(d1, d2));
    }
}

/// One `upsert` while scanning a group appends the new diagnostic to the
/// current group's entry, creating the entry on the first diagnostic: the
/// descriptors of the finished groups all precede the current one.
proof fn lemma_record_step(
    pre: Seq<(Seq<char>, Seq<Seq<char>>)>,
    base: Seq<(Seq<char>, Seq<Seq<char>>)>,
    d: Seq<char>,
    cur: Seq<Seq<char>>,
    m: Seq<char>,
)
    requires
        forall|j: int| 0 <= j < base.len() ==> lex_lt((#[trigger] base[j]).0, d),
        pre =~= with_group(base, d, cur),
    ensures
        upsert_entries(pre, d, m) =~= with_group(base, d, cur.push(m)),
{
    assert forall|j: int|
        0 <= j < base.len() implies (#[trigger] base[j]).0 != d && !lex_lt(d, base[j].0) by {
        lemma_lex_lt_ne(base[j].0, d);
        lemma_lex_lt_asym(base[j].0, d);
    }
    if cur.len() == 0 {
        assert(forall|j: int|
            0 <= j < pre.len() ==> (#[trigger] pre[j]).0 != d && !lex_lt(d, pre[j].0));
        lemma_upsert_append(pre, d, m);
        assert(cur.push(m) =~= seq![m]);
        assert(upsert_entries(pre, d, m) =~= base.push((d, cur.push(m))));
    } else {
        assert(pre[pre.len() - 1].0 == d);
        assert(forall|j: int|
            0 <= j < pre.len() - 1 ==> (#[trigger] pre[j]).0 != d && !lex_lt(d, pre[j].0));
        lemma_upsert_found(pre, d, m, pre.len() - 1);
        assert(upsert_entries(pre, d, m) =~= base.push((d, cur.push(m))));
    }
}

/// Mapping the missing-digit diagnostic over one more digit.
proof fn lemma_no_msgs_push(vs: Seq<u8>, x: u8)
    ensures
        no_msgs(vs.push(x)) =~= no_msgs(vs).push(no_msg(x)),
{
}

/// A group has no missing-digit diagnostics up to `m` exactly when every
/// digit below `m` occurs at least once.
proof fn lemma_missing_empty_iff(g: Seq<Option<u8>>, m: int)
    ensures
        missing_vals(g, m).len() == 0 <==> (forall|v: int|
            1 <= v < m ==> #[trigger] count_in(g, v as u8) >= 1),
    decreases m,
{
    if m > 1 {
        lemma_missing_empty_iff(g, m - 1);
    }
}

/// A digit that occurs nowhere in the group is listed among its missing
/// digits.
proof fn lemma_missing_contains(g: Seq<Option<u8>>, v: u8, m: int)
    requires
        1 <= v < m,
        count_in(g, v) == 0,
    ensures
        missing_vals(g, m).contains(v),
    decreases m,
{
    if v == m - 1 {
        assert(missing_vals(g, m).last() == v);
    } else {
        lemma_missing_contains(g, v, m - 1);
        let k = choose|k: int|
            0 <= k < missing_vals(g, m - 1).len() && #[trigger] missing_vals(g, m - 1)[k] == v;
        assert(missing_vals(g, m)[k] == v);
    }
}

/// A cell holding `v` witnesses a positive count for `v`.
proof fn lemma_count_witness(g: Seq<Option<u8>>, v: u8, i: int)
    requires
        0 <= i < g.len(),
        g[i] == Some(v),
    ensures
        count_in(g, v) >= 1,
    decreases g.len(),
{
    if i < g.len() - 1 {
        assert(g.drop_last()[i] == Some(v));
        lemma_count_witness(g.drop_last(), v, i);
    }
}

/// Without duplicate diagnostics, no digit occurs twice.
proof fn lemma_dup_empty_counts(g: Seq<Option<u8>>, v: u8)
    requires
        dup_violations(g).len() == 0,
    ensures
        count_in(g, v) <= 1,
    decreases g.len(),
{
    if g.len() > 0 {
        lemma_dup_empty_counts(g.drop_last(), v);
        match g.last() {
            Some(x) => {
                assert(count_in(g.drop_last(), x) == 0);
            },
            None => {},
        }
    }
}

/// With every digit's count at most one, no duplicate diagnostic arises.
proof fn lemma_counts_dup_empty(g: Seq<Option<u8>>)
    requires
        forall|i: int| 0 <= i < g.len() ==> cell_value_ok(#[trigger] g[i]),
        forall|v: u8| 1 <= v <= 9 ==> #[trigger] count_in(g, v) <= 1,
    ensures
        dup_violations(g).len() == 0,
    decreases g.len(),
{
    if g.len() > 0 {
        assert forall|v: u8| 1 <= v <= 9 implies #[trigger] count_in(g.drop_last(), v) <= 1 by {
            assert(count_in(g, v) <= 1);
        }
        assert(forall|i: int|
            0 <= i < g.len() - 1 ==> cell_value_ok(#[trigger] g.drop_last()[i]));
        lemma_counts_dup_empty(g.drop_last());
        match g.last() {
            Some(x) => {
                assert(cell_value_ok(g[g.len() - 1]));
                assert(1 <= x <= 9);
                assert(count_in(g, x) <= 1);
            },
            None => {},
        }
    }
}

/// A group yields no diagnostics exactly when it is complete: each digit
/// 1..=9 occurs exactly once.
pub proof fn lemma_group_ok_iff_complete(g: Seq<Option<u8>>)
    requires
        g.len() == 9,
        forall|i: int| 0 <= i < g.len() ==> cell_value_ok(#[trigger] g[i]),
    ensures
        group_violations(g).len() == 0 <==> group_complete(g),
{
    lemma_missing_empty_iff(g, 10);
    if group_violations(g).len() == 0 {
        assert forall|v: u8| 1 <= v <= 9 implies #[trigger] count_in(g, v) == 1 by {
            lemma_dup_empty_counts(g, v);
            assert(count_in(g, v as int as u8) >= 1);
        }
    }
    if group_complete(g) {
        lemma_counts_dup_empty(g);
        assert(forall|v: int| 1 <= v < 10 ==> #[trigger] count_in(g, v as u8) >= 1);
    }
}

/// The entries are empty exactly when every scanned group is clean.
proof fn lemma_entries_empty_iff(b: Grid, n: int)
    ensures
        entries_upto(b, n).len() == 0 <==> (forall|t: int|
            0 <= t < n ==> group_violations(#[trigger] group_at(b, t)).len() == 0),
    decreases n,
{
    if n > 0 {
        lemma_entries_empty_iff(b, n - 1);
    }
}

/// Every group of a well-formed grid has 9 cells, each admissible.
proof fn lemma_group_shape(b: Grid, t: int)
    requires
        grid_wf(b),
        0 <= t < 27,
    ensures
        group_at(b, t).len() == 9,
        forall|i: int| 0 <= i < 9 ==> cell_value_ok(#[trigger] group_at(b, t)[i]),
{
    assert forall|i: int| 0 <= i < 9 implies cell_value_ok(#[trigger] group_at(b, t)[i]) by {
        lemma_group_cells_ok(b, t, i);
    }
}

/// A well-formed grid is solved exactly when its report is empty: the
/// board passes the check if and only if all 27 groups are complete.
pub proof fn lemma_solved_iff_no_report(b: Grid)
    requires
        grid_wf(b),
    ensures
        solved(b) <==> report(b).len() == 0,
{
    lemma_entries_empty_iff(b, 27);
    assert forall|t: int| 0 <= t < 27 implies (group_violations(#[trigger] group_at(b, t)).len()
        == 0 <==> group_complete(group_at(b, t))) by {
        lemma_group_shape(b, t);
        lemma_group_ok_iff_complete(group_at(b, t));
    }
}

/// Duplicate diagnostics of a prefix persist in the whole group's
/// diagnostics.
proof fn lemma_dup_take_contains(g: Seq<Option<u8>>, k: int, m: Seq<char>)
    requires
        0 <= k <= g.len(),
        dup_violations(g.take(k)).contains(m),
    ensures
        dup_violations(g).contains(m),
    decreases g.len() - k,
{
    if k < g.len() {
        assert(g.take(k + 1).drop_last() =~= g.take(k));
        let j = choose|j: int|
            0 <= j < dup_violations(g.take(k)).len() && #[trigger] dup_violations(g.take(k))[j] == m;
        assert(dup_violations(g.take(k + 1))[j] == m);
        lemma_dup_take_contains(g, k + 1, m);
    } else {
        assert(g.take(k) =~= g);
    }
}

/// Two cells of one group filled with the same digit produce a
/// `"multiple {v}s"` diagnostic for that group; the group's missing
/// digits are still reported separately (see `lemma_missing_reported`).
pub proof fn lemma_duplicate_reported(g: Seq<Option<u8>>, v: u8, i: int, j: int)
    requires
        0 <= i < j < g.len(),
        g[i] == Some(v),
        g[j] == Some(v),
    ensures
        group_violations(g).contains(multiple_msg(v)),
{
    assert(g.take(j)[i] == Some(v));
    lemma_count_witness(g.take(j), v, i);
    assert(g.take(j + 1).drop_last() =~= g.take(j));
    assert(g.take(j + 1).last() == Some(v));
    let d = dup_violations(g.take(j + 1));
    assert(d.last() == multiple_msg(v));
    assert(d.contains(multiple_msg(v)));
    lemma_dup_take_contains(g, j + 1, multiple_msg(v));
    let p = choose|p: int|
        0 <= p < dup_violations(g).len() && #[trigger] dup_violations(g)[p] == multiple_msg(v);
    assert(group_violations(g)[p] == multiple_msg(v));
}

/// A digit 1..=9 that no cell of the group holds is reported missing:
/// the group's diagnostics contain `"no {v}s"`.
pub proof fn lemma_missing_reported(g: Seq<Option<u8>>, v: u8)
    requires
        1 <= v <= 9,
        count_in(g, v) == 0,
    ensures
        group_violations(g).contains(no_msg(v)),
{
    lemma_missing_contains(g, v, 10);
    let k = choose|k: int|
        0 <= k < missing_vals(g, 10).len() && #[trigger] missing_vals(g, 10)[k] == v;
    assert(no_msgs(missing_vals(g, 10))[k] == no_msg(v));
    assert(group_violations(g)[dup_violations(g).len() + k] == no_msg(v));
}

/// A group with diagnostics owns an entry among the first `n` groups'
/// entries.
proof fn lemma_entries_has(b: Grid, t: int, n: int)
    requires
        0 <= t < n,
        group_violations(group_at(b, t)).len() > 0,
    ensures
        exists|i: int|
            0 <= i < entries_upto(b, n).len() && #[trigger] entries_upto(b, n)[i] == (
            descriptor_at(t),
            group_violations(group_at(b, t)),
            ),
    decreases n,
{
    if t == n - 1 {
        assert(entries_upto(b, n).last() == (descriptor_at(t), group_violations(group_at(b, t))));
    } else {
        lemma_entries_has(b, t, n - 1);
        let i = choose|i: int|
            0 <= i < entries_upto(b, n - 1).len() && #[trigger] entries_upto(b, n - 1)[i] == (
            descriptor_at(t),
            group_violations(group_at(b, t)),
            );
        assert(entries_upto(b, n)[i] == entries_upto(b, n - 1)[i]);
    }
}

/// Every group with at least one diagnostic gets its own line in the
/// report, under its descriptor, listing exactly its diagnostics.
pub proof fn lemma_report_has_group(b: Grid, t: int)
    requires
        0 <= t < 27,
        group_violations(group_at(b, t)).len() > 0,
    ensures
        exists|i: int|
            0 <= i < report(b).len() && #[trigger] report(b)[i] == entry_line(
                (descriptor_at(t), group_violations(group_at(b, t))),
            ),
{
    lemma_entries_has(b, t, 27);
    let i = choose|i: int|
        0 <= i < entries_upto(b, 27).len() && #[trigger] entries_upto(b, 27)[i] == (
        descriptor_at(t),
        group_violations(group_at(b, t)),
        );
    assert(report(b)[i] == entry_line((descriptor_at(t), group_violations(group_at(b, t)))));
}

/// Region indexing partitions the grid: every position `(r, c)` lies in
/// exactly one region, at exactly one position within it, and that region
/// is `region_of(r, c)`.
pub proof fn lemma_regions_partition(r: int, c: int)
    requires
        0 <= r < 9,
        0 <= c < 9,
    ensures
        0 <= region_of(r, c) < 9,
        0 <= region_pos(r, c) < 9,
        region_row(region_of(r, c), region_pos(r, c)) == r,
        region_col(region_of(r, c), region_pos(r, c)) == c,
        forall|t: int, k: int|
            0 <= t < 9 && 0 <= k < 9 && region_row(t, k) == r && region_col(t, k) == c ==> t
                == region_of(r, c) && k == region_pos(r, c),
{
    assert forall|t: int, k: int|
        0 <= t < 9 && 0 <= k < 9 && region_row(t, k) == r && region_col(t, k) == c implies t
        == region_of(r, c) && k == region_pos(r, c) by {
        assert(r / 3 == t / 3);
        assert(r % 3 == k / 3);
        assert(c / 3 == t % 3);
        assert(c % 3 == k % 3);
    }
}

/// The descriptor of group `t`, as a string.
fn descriptor_text(t: usize) -> (r: String)
    requires
        t < 27,
    ensures
        r@ == descriptor_at(t as int),
{
    let mut s = if t < 9 {
        String::from_str("Column ")
    } else if t < 18 {
        String::from_str("Region ")
    } else {
        String::from_str("Row ")
    };
    s.append(digit_text(t % 9 + 1));
    proof {
        assert(s@ =~= descriptor_at(t as int));
    }
    s
}

/// The duplicate diagnostic for digit `v`, as a string.
fn multiple_text(v: u8) -> (r: String)
    requires
        1 <= v <= 9,
    ensures
        r@ == multiple_msg(v),
{
    let mut s = String::from_str("multiple ");
    s.append(digit_text(v as usize));
    s.append("s");
    proof {
        assert(s@ =~= multiple_msg(v));
    }
    s
}

/// The missing-digit diagnostic for digit `v`, as a string.
fn no_text(v: u8) -> (r: String)
    requires
        1 <= v <= 9,
    ensures
        r@ == no_msg(v),
{
    let mut s = String::from_str("no ");
    s.append(digit_text(v as usize));
    s.append("s");
    proof {
        assert(s@ =~= no_msg(v));
    }
    s
}

} // verus!
