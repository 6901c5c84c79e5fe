//! A digit allowed in a filled Sudoku cell: an integer in 1..=9, not
//! constructible outside that range.

use vstd::prelude::*;
use vstd::string::StrSliceExecFns;
use vstd::string::StringExecFns;
use crate::text::digit_value;
use crate::text::digits_val;
use crate::text::is_digit;

verus! {

/// The digits of a number's text, a leading `'+'` sign stripped.
pub open spec fn num_body(t: Seq<char>) -> Seq<char> {
    if t.len() > 0 && t[0] == '+' {
        t.skip(1)
    } else {
        t
    }
}

/// Whether the text has the shape of an unsigned decimal number: an
/// optional `'+'` sign, then one or more digits.
pub open spec fn num_shape_ok(t: Seq<char>) -> bool {
    num_body(t).len() > 0 && forall|i: int|
        0 <= i < num_body(t).len() ==> is_digit(#[trigger] num_body(t)[i])
}

/// The error for text that is not a number at all.
pub open spec fn invalid_num_msg(t: Seq<char>) -> Seq<char> {
    "Could not parse '"@ + t + "' as a number: invalid digit found in string"@
}

/// The error for empty number text.
pub open spec fn empty_num_msg(t: Seq<char>) -> Seq<char> {
    "Could not parse '"@ + t + "' as a number: cannot parse integer from empty string"@
}

/// The error for a number too large for a byte.
pub open spec fn overflow_num_msg(t: Seq<char>) -> Seq<char> {
    "Could not parse '"@ + t + "' as a number: number too large to fit in target type"@
}

/// The error for a number outside 1..=9.
pub open spec fn range_num_msg(t: Seq<char>) -> Seq<char> {
    "Value '"@ + t + "' must be between 1 and 9."@
}

/// What parsing number text yields: the digit, or the exact error text.
/// Empty text, text that is not a decimal number, a value over 255, and a
/// value outside 1..=9 each fail with their own message.
pub open spec fn parse_number_outcome(t: Seq<char>) -> Result<u8, Seq<char>> {
    if t.len() == 0 {
        Err(empty_num_msg(t))
    } else if !num_shape_ok(t) {
        Err(invalid_num_msg(t))
    } else if digits_val(num_body(t)) > 255 {
        Err(overflow_num_msg(t))
    } else if 1 <= digits_val(num_body(t)) <= 9 {
        Ok(digits_val(num_body(t)) as u8)
    } else {
        Err(range_num_msg(t))
    }
}

/// A validated Sudoku digit.  The wrapped value is always in 1..=9.
#[derive(Clone, Copy, Debug, PartialEq, Eq, PartialOrd, Ord, Structural)]
pub struct Number(u8);

impl View for Number {
    type V = u8;

    closed spec fn view(&self) -> u8 {
        self.0
    }
}

impl Number {
    /// Well-formedness: the digit lies in 1..=9.  Every constructor
    /// establishes this.
    pub open spec fn wf(&self) -> bool {
        1 <= self@ <= 9
    }

    /// Builds a digit, succeeding exactly on values 1..=9.
    pub fn new(value: u8) -> (r: Option<Number>)
        ensures
            match r {
                Some(n) => 1 <= value <= 9 && n@ == value && n.wf(),
                None => !(1 <= value <= 9),
            },
    {
        if 1 <= value && value <= 9 {
            Some(Number(value))
        } else {
            None
        }
    }

    /// The digit's numeric value.
    pub fn value(&self) -> (v: u8)
        ensures
            v == self@,
    {
        self.0
    }

    /// Parses a digit from text, without trimming: an optional `'+'`
    /// sign, then digits, with a value in 1..=9.  Fails with the exact
    /// message that `parse_number_outcome` gives.
    pub fn parse(s: &str) -> (r: Result<Number, String>)
        ensures
            match parse_number_outcome(s@) {
                Ok(v) => r matches Ok(n) && n@ == v && n.wf(),
                Err(m) => r matches Err(e) && e@ == m,
            },
    {
        let n = s.unicode_len();
        if n == 0 {
            return Err(message_text(s, "' as a number: cannot parse integer from empty string"));
        }
        let start: usize = if s.get_char(0) == '+' {
            1
        } else {
            0
        };
        proof {
            assert(num_body(s@) =~= s@.skip(start as int));
        }
        if start == n {
            return Err(message_text(s, "' as a number: invalid digit found in string"));
        }
        let ghost body = num_body(s@);
        let mut val: u16 = 0;
        let mut over: bool = false;
        let mut j: usize = start;
        while j < n
            invariant
                n == s@.len(),
                start <= j <= n,
                start < n,
                body == num_body(s@),
                body == s@.skip(start as int),
                forall|q: int| start <= q < j ==> is_digit(#[trigger] s@[q]),
                !over ==> val == digits_val(body.take(j - start)) && val <= 255,
                over ==> digits_val(body.take(j - start)) > 255,
            decreases n - j,
        {
            proof {
                assert(body.take(j - start + 1).drop_last() =~= body.take(j - start));
                assert(body.take(j - start + 1).last() == s@[j as int]);
            }
            match digit_value(s.get_char(j)) {
                None => {
                    proof {
                        assert(!is_digit(num_body(s@)[j - start]));
                    }
                    return Err(message_text(s, "' as a number: invalid digit found in string"));
                },
                Some(d) => {
                    if !over {
                        let nv: u16 = val * 10 + d as u16;
                        if nv > 255 {
                            over = true;
                        } else {
                            val = nv;
                        }
                    }
                },
            }
            j = j + 1;
        }
        proof {
            assert(body.take(n - start) =~= body);
            assert(num_shape_ok(s@));
        }
        if over {
            return Err(message_text(s, "' as a number: number too large to fit in target type"));
        }
        if 1 <= val && val <= 9 {
            match Number::new(val as u8) {
                Some(num) => Ok(num),
                None => {
                    proof {
                        assert(false);
                    }
                    Err(String::new())
                },
            }
        } else {
            let mut e = String::from_str("Value '");
            e.append(s);
            e.append("' must be between 1 and 9.");
            proof {
                assert(e@ =~= range_num_msg(s@));
            }
            Err(e)
        }
    }
}

/// Builds `"Could not parse '{s}{suffix}"`, the shared shape of the
/// number-parse errors.
fn message_text(s: &str, suffix: &str) -> (r: String)
    ensures
        r@ == "Could not parse '"@ + s@ + suffix@,
{
    let mut e = String::from_str("Could not parse '");
    e.append(s);
    e.append(suffix);
    e
}

} // verus!
