//! Line scanner: splits the document's bytes into an ordered sequence of
//! lines, the way `str::lines` does — split at `'\n'`, with a `'\r'`
//! immediately before the `'\n'` removed, and no empty final line after a
//! trailing `'\n'`.

use vstd::prelude::*;

verus! {

/// Index of the first occurrence of byte `b` in `s` at or after `p`,
/// or `s.len()` if there is none.
pub open spec fn first_byte_from(s: Seq<u8>, b: u8, p: int) -> int
    decreases s.len() - p
        when 0 <= p <= s.len()
{
    if p >= s.len() {
        s.len() as int
    } else if s[p] == b {
        p
    } else {
        first_byte_from(s, b, p + 1)
    }
}

/// `first_byte_from` is in range, lands on `b`, and nothing before it is `b`.
pub proof fn lemma_first_byte_from(s: Seq<u8>, b: u8, p: int)
    requires
        0 <= p <= s.len(),
    ensures
        p <= first_byte_from(s, b, p) <= s.len(),
        first_byte_from(s, b, p) < s.len() ==> s[first_byte_from(s, b, p)] == b,
        forall|m: int| p <= m < first_byte_from(s, b, p) ==> s[m] != b,
    decreases s.len() - p,
{
    if p < s.len() && s[p] != b {
        lemma_first_byte_from(s, b, p + 1);
    }
}

/// Any position that lands on `b` with nothing equal to `b` before it
/// is exactly `first_byte_from`.
pub proof fn lemma_first_byte_from_is(s: Seq<u8>, b: u8, p: int, i: int)
    requires
        0 <= p <= i <= s.len(),
        i < s.len() ==> s[i] == b,
        forall|m: int| p <= m < i ==> s[m] != b,
    ensures
        first_byte_from(s, b, p) == i,
{
    lemma_first_byte_from(s, b, p);
}

/// Strip one trailing carriage return, as `str::lines` does for `"\r\n"`.
pub open spec fn strip_cr(s: Seq<u8>) -> Seq<u8> {
    if s.len() > 0 && s[s.len() - 1] == 13 {
        s.drop_last()
    } else {
        s
    }
}

/// The document's lines, in order.
pub open spec fn split_lines(text: Seq<u8>) -> Seq<Seq<u8>>
    decreases text.len()
        via split_lines_decreases
{
    if text.len() == 0 {
        Seq::empty()
    } else if first_byte_from(text, 10, 0) == text.len() {
        seq![text]
    } else {
        seq![strip_cr(text.take(first_byte_from(text, 10, 0)))]
            + split_lines(text.skip(first_byte_from(text, 10, 0) + 1))
    }
}

#[via_fn]
proof fn split_lines_decreases(text: Seq<u8>) {
    if text.len() != 0 {
        lemma_first_byte_from(text, 10, 0);
    }
}

/// The sequence of byte sequences carried by a vector of lines.
pub open spec fn lines_view(ls: Seq<Vec<u8>>) -> Seq<Seq<u8>> {
    ls.map_values(|l: Vec<u8>| l@)
}

/// Copy of the byte range `[from, to)` of `s`.
pub fn copy_range(s: &[u8], from: usize, to: usize) -> (r: Vec<u8>)
    requires
        from <= to <= s@.len(),
    ensures
        r@ == s@.subrange(from as int, to as int),
{
    let mut r: Vec<u8> = Vec::new();
    let mut i: usize = from;
    while i < to
        invariant
            from <= i <= to <= s@.len(),
            r@ == s@.subrange(from as int, i as int),
        decreases to - i,
    {
        r.push(s[i]);
        assert(s@.subrange(from as int, (i + 1) as int) =~= s@.subrange(
            from as int,
            i as int,
        ).push(s@[i as int]));
        i += 1;
    }
    r
}

/// Split the document into its lines.
pub fn split_into_lines(text: &[u8]) -> (lines: Vec<Vec<u8>>)
    ensures
        lines_view(lines@) == split_lines(text@),
{
    let n: usize = text.len();
    let mut lines: Vec<Vec<u8>> = Vec::new();
    let mut start: usize = 0;
    proof {
        assert(text@.skip(0) =~= text@);
        assert(lines_view(lines@) + split_lines(text@) =~~= split_lines(text@));
    }
    while start < n
        invariant
            start <= n == text@.len(),
            lines_view(lines@) + split_lines(text@.skip(start as int))
                == split_lines(text@),
        decreases n - start,
    {
        let ghost prev = lines_view(lines@);
        let ghost rem = text@.skip(start as int);
        // find the next newline at or after start
        let mut i: usize = start;
        while i < n && text[i] != 10
            invariant
                start <= i <= n == text@.len(),
                forall|m: int| start <= m < i ==> text@[m] != 10,
            decreases n - i,
        {
            i += 1;
        }
        proof {
            assert forall|m: int| 0 <= m < i - start implies rem[m] != 10 by {
                assert(rem[m] == text@[start + m]);
            }
            lemma_first_byte_from_is(rem, 10, 0, i - start);
        }
        if i < n {
            // a newline at i: the line is text[start..i] with a '\r' stripped
            let end: usize = if i > start && text[i - 1] == 13 {
                i - 1
            } else {
                i
            };
            let line = copy_range(text, start, end);
            proof {
                assert(rem.take(i - start) =~= text@.subrange(start as int, i as int));
                assert(strip_cr(rem.take(i - start)) =~= line@);
                assert(rem.skip(i - start + 1) =~= text@.skip(i as int + 1));
                assert(split_lines(rem) == seq![line@] + split_lines(text@.skip(i as int + 1)));
                assert(prev.push(line@) + split_lines(text@.skip(i as int + 1)) =~~= prev
                    + split_lines(rem));
                assert(lines_view(lines@.push(line)) =~= prev.push(line@));
            }
            lines.push(line);
            start = i + 1;
        } else {
            // no further newline: the final line is text[start..n], kept as is
            let line = copy_range(text, start, n);
            proof {
                assert(rem.take(i - start) =~= rem);
                assert(line@ =~= rem);
                assert(split_lines(rem) == seq![line@]);
                assert(prev.push(line@) + split_lines(text@.skip(n as int)) =~~= prev
                    + split_lines(rem));
                assert(lines_view(lines@.push(line)) =~= prev.push(line@));
            }
            lines.push(line);
            start = n;
        }
    }
    proof {
        assert(text@.skip(start as int) =~= Seq::<u8>::empty());
        assert(lines_view(lines@) + split_lines(text@.skip(start as int))
            =~~= lines_view(lines@));
    }
    lines
}

} // verus!
