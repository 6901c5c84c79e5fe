//! One grid position: empty, or filled with a validated digit.

use vstd::prelude::*;
use vstd::string::StrSliceExecFns;
use crate::number::Number;
use crate::number::parse_number_outcome;
use crate::text::is_space;
use crate::text::is_space_char;
use crate::text::lemma_trim_back_is_take;
use crate::text::lemma_trim_front_is_skip;
use crate::text::trimmed;

verus! {

/// What parsing a cell's text yields: empty or whitespace-only text is
/// the empty cell; anything else is parsed as a number after trimming,
/// its errors propagated unchanged.
pub open spec fn parse_cell_outcome(f: Seq<char>) -> Result<Option<u8>, Seq<char>> {
    let t = trimmed(f);
    if t.len() == 0 {
        Ok(None)
    } else {
        match parse_number_outcome(t) {
            Ok(v) => Ok(Some(v)),
            Err(m) => Err(m),
        }
    }
}

/// A cell of the grid.  Its view is the optional digit it holds.
#[derive(Clone, Copy, Debug, PartialEq, Eq, PartialOrd, Ord)]
pub struct Cell(Option<Number>);

impl View for Cell {
    type V = Option<u8>;

    closed spec fn view(&self) -> Option<u8> {
        match self.0 {
            Some(n) => Some(n@),
            None => None,
        }
    }
}

/// Whether an abstract cell value is admissible: empty, or a digit 1..=9.
pub open spec fn cell_value_ok(v: Option<u8>) -> bool {
    match v {
        Some(d) => 1 <= d <= 9,
        None => true,
    }
}

impl Cell {
    /// Well-formedness: a filled cell holds a digit in 1..=9.
    pub open spec fn wf(&self) -> bool {
        cell_value_ok(self@)
    }

    /// The empty cell.
    pub fn empty() -> (c: Cell)
        ensures
            c@ is None,
            c.wf(),
    {
        Cell(None)
    }

    /// A cell filled with a validated digit.
    pub fn filled(number: Number) -> (c: Cell)
        requires
            number.wf(),
        ensures
            c@ == Some(number@),
            c.wf(),
    {
        Cell(Some(number))
    }

    /// The digit held, or nothing for an empty cell.
    pub fn value(&self) -> (v: Option<u8>)
        ensures
            v == self@,
    {
        match &self.0 {
            Some(n) => Some(n.value()),
            None => None,
        }
    }

    /// Parses one cell's text: whitespace-only text gives the empty
    /// cell, anything else is a digit after trimming, with the number
    /// parser's errors propagated unchanged.
    pub fn parse(s: &str) -> (r: Result<Cell, String>)
        ensures
            match parse_cell_outcome(s@) {
                Ok(v) => r matches Ok(c) && c@ == v && c.wf(),
                Err(m) => r matches Err(e) && e@ == m,
            },
    {
        let n = s.unicode_len();
        let mut ts: usize = 0;
        while ts < n && is_space_char(s.get_char(ts))
            invariant
                n == s@.len(),
                ts <= n,
                forall|j: int| 0 <= j < ts ==> is_space(#[trigger] s@[j]),
            decreases n - ts,
        {
            ts = ts + 1;
        }
        if ts == n {
            proof {
                lemma_trim_front_is_skip(s@, n as int);
                lemma_trim_back_is_take(s@.skip(n as int), 0);
                assert(trimmed(s@).len() == 0);
            }
            return Ok(Cell::empty());
        }
        let mut te: usize = n;
        while te > ts && is_space_char(s.get_char(te - 1))
            invariant
                n == s@.len(),
                ts < n,
                !is_space(s@[ts as int]),
                ts < te <= n,
                forall|j: int| te <= j < n ==> is_space(#[trigger] s@[j]),
            decreases te,
        {
            te = te - 1;
        }
        proof {
            lemma_trim_front_is_skip(s@, ts as int);
            let u = s@.skip(ts as int);
            assert(!is_space(u[te - ts - 1]));
            assert forall|j: int| te - ts <= j < u.len() implies is_space(#[trigger] u[j]) by {
                assert(is_space(s@[j + ts]));
            }
            lemma_trim_back_is_take(u, te - ts);
            assert(trimmed(s@) =~= s@.subrange(ts as int, te as int));
        }
        let t = s.substring_char(ts, te);
        match Number::parse(t) {
            Ok(num) => Ok(Cell::filled(num)),
            Err(e) => Err(e),
        }
    }
}

} // verus!
