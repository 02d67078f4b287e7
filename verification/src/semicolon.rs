//! The semicolon rule: every internal line must end each sentence with a
//! semicolon. A line is scanned left to right for non-overlapping matches
//! of two patterns — (a) a word byte, a period, then whitespace (a mid-line
//! sentence break), or (b) a run of period-free bytes reaching the end of a
//! line whose last byte is not a semicolon. The leftmost match wins, with
//! pattern (a) preferred at equal positions, and each match is reported two
//! bytes before its end. This intentionally also flags constructs such as
//! numbered lists; that is an accepted limitation of the rule.

use crate::words::is_word_byte;
use crate::words::is_word_byte_ex;
use vstd::prelude::*;

verus! {

/// An ASCII whitespace byte.
pub open spec fn is_space_byte(b: u8) -> bool {
    b == 32 || b == 9 || b == 10 || b == 11 || b == 12 || b == 13
}

/// Whether `b` is an ASCII whitespace byte.
pub fn is_space_byte_ex(b: u8) -> (r: bool)
    ensures
        r == is_space_byte(b),
{
    b == 32 || b == 9 || b == 10 || b == 11 || b == 12 || b == 13
}

/// Pattern (a) at `i`: a word byte, a period, then whitespace.
pub open spec fn period_break_at(line: Seq<u8>, i: int) -> bool {
    &&& 0 <= i
    &&& i + 3 <= line.len()
    &&& is_word_byte(line[i])
    &&& line[i + 1] == 46
    &&& is_space_byte(line[i + 2])
}

/// Pattern (b) at `i`: at least one byte before the final one, none of
/// them a period, and the final byte of the line not a semicolon.
pub open spec fn eol_run_at(line: Seq<u8>, i: int) -> bool {
    &&& 0 <= i
    &&& i + 2 <= line.len()
    &&& (forall|j: int| i <= j < line.len() - 1 ==> line[j] != 46)
    &&& line[line.len() - 1] != 59
}

/// A semicolon-rule match starts at `i`.
pub open spec fn semi_match_at(line: Seq<u8>, i: int) -> bool {
    period_break_at(line, i) || eol_run_at(line, i)
}

/// End of the match starting at `i`; pattern (a) is preferred.
pub open spec fn semi_match_end(line: Seq<u8>, i: int) -> int {
    if period_break_at(line, i) {
        i + 3
    } else {
        line.len() as int
    }
}

/// The flagged columns from scan position `p` on: the leftmost match is
/// taken, scanning resumes at its end, and the match is reported two
/// bytes before its end.
pub open spec fn semi_cols_from(line: Seq<u8>, p: int) -> Seq<int>
    decreases line.len() - p
        when 0 <= p
{
    if p + 2 > line.len() {
        Seq::empty()
    } else if semi_match_at(line, p) {
        seq![semi_match_end(line, p) - 2] + semi_cols_from(line, semi_match_end(line, p))
    } else {
        semi_cols_from(line, p + 1)
    }
}

/// All columns the semicolon rule flags on one line.
pub open spec fn semi_cols(line: Seq<u8>) -> Seq<int> {
    semi_cols_from(line, 0)
}

/// The sequence of positions carried by a vector of columns.
pub open spec fn cols_view(cs: Seq<usize>) -> Seq<int> {
    cs.map_values(|c: usize| c as int)
}

/// Whether `line` has no period from `from` up to (excluding) its final byte.
fn no_period_before_last(line: &[u8], from: usize) -> (r: bool)
    requires
        from <= line@.len(),
    ensures
        r == (forall|j: int| from <= j < line@.len() - 1 ==> line@[j] != 46),
{
    let n: usize = line.len();
    let mut j: usize = from;
    while n - j > 1
        invariant
            from <= j <= n == line@.len(),
            forall|m: int| from <= m < j ==> line@[m] != 46,
        decreases n - j,
    {
        if line[j] == 46 {
            return false;
        }
        j += 1;
    }
    true
}

/// The byte columns the semicolon rule flags on one line, left to right.
pub fn semicolon_cols(line: &[u8]) -> (cols: Vec<usize>)
    ensures
        cols_view(cols@) == semi_cols(line@),
{
    let n: usize = line.len();
    let mut cols: Vec<usize> = Vec::new();
    let mut p: usize = 0;
    proof {
        assert(cols_view(cols@) + semi_cols_from(line@, 0) =~~= semi_cols_from(line@, 0));
    }
    while n - p >= 2
        invariant
            p <= n == line@.len(),
            cols_view(cols@) + semi_cols_from(line@, p as int) == semi_cols(line@),
        decreases n - p,
    {
        let ghost prev = cols_view(cols@);
        let period = n - p >= 3 && is_word_byte_ex(line[p]) && line[p + 1] == 46
            && is_space_byte_ex(line[p + 2]);
        if period {
            proof {
                assert(period_break_at(line@, p as int));
                assert(semi_cols_from(line@, p as int) == seq![p + 1 as int] + semi_cols_from(
                    line@,
                    p as int + 3,
                ));
                assert(cols_view(cols@.push((p + 1) as usize)) =~= prev.push(p as int + 1));
                assert(prev.push(p as int + 1) + semi_cols_from(line@, p as int + 3) =~~= prev
                    + semi_cols_from(line@, p as int));
            }
            cols.push(p + 1);
            p = p + 3;
        } else {
            let eol = line[n - 1] != 59 && no_period_before_last(line, p);
            if eol {
                proof {
                    assert(!period_break_at(line@, p as int));
                    assert(eol_run_at(line@, p as int));
                    assert(semi_match_end(line@, p as int) == n as int);
                    assert(semi_cols_from(line@, p as int) == seq![n as int - 2]
                        + semi_cols_from(line@, n as int));
                    assert(semi_cols_from(line@, n as int) == Seq::<int>::empty());
                    assert(cols_view(cols@.push((n - 2) as usize)) =~= prev.push(n as int - 2));
                    assert(prev.push(n as int - 2) + semi_cols_from(line@, n as int) =~~= prev
                        + semi_cols_from(line@, p as int));
                }
                cols.push(n - 2);
                p = n;
            } else {
                proof {
                    assert(!semi_match_at(line@, p as int));
                    assert(semi_cols_from(line@, p as int) == semi_cols_from(line@, p as int + 1));
                }
                p = p + 1;
            }
        }
    }
    proof {
        assert(semi_cols_from(line@, p as int) == Seq::<int>::empty());
        assert(cols_view(cols@) + semi_cols_from(line@, p as int) =~~= cols_view(cols@));
    }
    cols
}

} // verus!
