//! The rick-roll link rule: every markdown link `[anchor](url)` in the
//! document must have, among the occurrences sharing its anchor text, at
//! least one whose target is the canonical decoy URL. Every occurrence of
//! an anchor whose group has no such target is flagged. Violating groups
//! are reported in first-occurrence order of their anchor, and each
//! group's occurrences in scan order (line by line, left to right).

use crate::diag::Diag;
use crate::diag::Diagnostic;
use crate::diag::diags_view;
use crate::diag::make_link_rick_roll_diagnostic;
use crate::scanner::copy_range;
use crate::scanner::first_byte_from;
use crate::scanner::lemma_first_byte_from_is;
use vstd::prelude::*;

verus! {

/// One link occurrence: (anchor, target URL, line index, start column).
pub type Occ = (Seq<u8>, Seq<u8>, int, int);

/// The bytes of the canonical rick-roll URL,
/// "https://www.youtube.com/watch?v=dQw4w9WgXcQ".
pub open spec fn canonical_url() -> Seq<u8> {
    seq![
        104u8, 116u8, 116u8, 112u8, 115u8, 58u8, 47u8, 47u8, 119u8, 119u8, 119u8, 46u8, 121u8,
        111u8, 117u8, 116u8, 117u8, 98u8, 101u8, 46u8, 99u8, 111u8, 109u8, 47u8, 119u8, 97u8,
        116u8, 99u8, 104u8, 63u8, 118u8, 61u8, 100u8, 81u8, 119u8, 52u8, 119u8, 57u8, 87u8, 103u8,
        88u8, 99u8, 81u8,
    ]
}

/// A markdown link starts at `i`: `[` at `i`, the first `]` after it at
/// `j >= i + 2` (so the anchor is nonempty and `]`-free), `(` directly
/// after the `]`, and the first `)` after that at `k >= j + 3` (so the
/// URL is nonempty and `)`-free).
pub open spec fn link_at(line: Seq<u8>, i: int) -> bool {
    let j = first_byte_from(line, 93, i + 1);
    let k = first_byte_from(line, 41, j + 2);
    &&& 0 <= i
    &&& i < line.len()
    &&& line[i] == 91
    &&& i + 2 <= j
    &&& j + 1 < line.len()
    &&& line[j + 1] == 40
    &&& j + 3 <= k
    &&& k < line.len()
}

/// The anchor text of the link starting at `i`.
pub open spec fn link_anchor(line: Seq<u8>, i: int) -> Seq<u8> {
    line.subrange(i + 1, first_byte_from(line, 93, i + 1))
}

/// The target URL of the link starting at `i`.
pub open spec fn link_url(line: Seq<u8>, i: int) -> Seq<u8> {
    let j = first_byte_from(line, 93, i + 1);
    line.subrange(j + 2, first_byte_from(line, 41, j + 2))
}

/// The position directly after the link starting at `i`.
pub open spec fn link_end(line: Seq<u8>, i: int) -> int {
    let j = first_byte_from(line, 93, i + 1);
    first_byte_from(line, 41, j + 2) + 1
}

/// The links on one line from position `p` on, leftmost first, each as
/// (anchor, url, start column), the scan resuming after each match.
pub open spec fn line_links_from(line: Seq<u8>, p: int) -> Seq<(Seq<u8>, Seq<u8>, int)>
    decreases line.len() - p
        when 0 <= p
{
    if p >= line.len() {
        Seq::empty()
    } else if link_at(line, p) {
        seq![(link_anchor(line, p), link_url(line, p), p)]
            + line_links_from(line, link_end(line, p))
    } else {
        line_links_from(line, p + 1)
    }
}

/// All links on one line.
pub open spec fn line_links(line: Seq<u8>) -> Seq<(Seq<u8>, Seq<u8>, int)> {
    line_links_from(line, 0)
}

/// The links of one line as occurrences at line index `ln`.
pub open spec fn line_occs(line: Seq<u8>, ln: int) -> Seq<Occ> {
    line_links(line).map_values(|t: (Seq<u8>, Seq<u8>, int)| (t.0, t.1, ln, t.2))
}

/// All link occurrences of the lines from index `ln` on, in scan order.
pub open spec fn doc_links_from(ls: Seq<Seq<u8>>, ln: int) -> Seq<Occ>
    decreases ls.len() - ln
        when 0 <= ln
{
    if ln >= ls.len() {
        Seq::empty()
    } else {
        line_occs(ls[ln], ln) + doc_links_from(ls, ln + 1)
    }
}

/// All link occurrences of the document, in scan order.
pub open spec fn doc_links(ls: Seq<Seq<u8>>) -> Seq<Occ> {
    doc_links_from(ls, 0)
}

/// The distinct anchors of `s`, in order of first occurrence.
pub open spec fn anchors_in_order(s: Seq<Occ>) -> Seq<Seq<u8>>
    decreases s.len(),
{
    if s.len() == 0 {
        Seq::empty()
    } else {
        let rest = anchors_in_order(s.drop_last());
        if rest.contains(s.last().0) {
            rest
        } else {
            rest.push(s.last().0)
        }
    }
}

/// Extending the occurrences extends the anchor list only by a new anchor.
pub proof fn lemma_anchors_push(s: Seq<Occ>, o: Occ)
    ensures
        anchors_in_order(s.push(o)) == (if anchors_in_order(s).contains(o.0) {
            anchors_in_order(s)
        } else {
            anchors_in_order(s).push(o.0)
        }),
{
    assert(s.push(o).drop_last() =~= s);
    assert(s.push(o).last() == o);
}

/// Index of the first occurrence at or after `t` whose anchor is `a`,
/// or `s.len()` if there is none.
pub open spec fn first_occ_from(s: Seq<Occ>, a: Seq<u8>, t: int) -> int
    decreases s.len() - t
        when 0 <= t <= s.len()
{
    if t >= s.len() {
        s.len() as int
    } else if s[t].0 == a {
        t
    } else {
        first_occ_from(s, a, t + 1)
    }
}

/// Index of the first occurrence of anchor `a`, or `s.len()` if none.
pub open spec fn first_occ(s: Seq<Occ>, a: Seq<u8>) -> int {
    first_occ_from(s, a, 0)
}

/// `first_occ_from` is in range, lands on `a`, and nothing before it has
/// anchor `a`.
pub proof fn lemma_first_occ_from(s: Seq<Occ>, a: Seq<u8>, t: int)
    requires
        0 <= t <= s.len(),
    ensures
        t <= first_occ_from(s, a, t) <= s.len(),
        first_occ_from(s, a, t) < s.len() ==> s[first_occ_from(s, a, t)].0 == a,
        forall|m: int| t <= m < first_occ_from(s, a, t) ==> s[m].0 != a,
    decreases s.len() - t,
{
    if t < s.len() && s[t].0 != a {
        lemma_first_occ_from(s, a, t + 1);
    }
}

/// Any position landing on `a` with nothing of anchor `a` before it is
/// exactly `first_occ_from`.
pub proof fn lemma_first_occ_from_is(s: Seq<Occ>, a: Seq<u8>, t: int, i: int)
    requires
        0 <= t <= i <= s.len(),
        i < s.len() ==> s[i].0 == a,
        forall|m: int| t <= m < i ==> s[m].0 != a,
    ensures
        first_occ_from(s, a, t) == i,
{
    lemma_first_occ_from(s, a, t);
}

/// How the first occurrence of an anchor moves when one occurrence is
/// appended: an anchor already present keeps its index, the appended
/// anchor lands at the old length, any other anchor stays absent.
pub proof fn lemma_first_occ_push(s: Seq<Occ>, o: Occ, a: Seq<u8>)
    ensures
        first_occ(s.push(o), a) == (if first_occ(s, a) < s.len() {
            first_occ(s, a)
        } else if o.0 == a {
            s.len() as int
        } else {
            s.len() as int + 1
        }),
{
    let e = s.push(o);
    lemma_first_occ_from(s, a, 0);
    let f = first_occ(s, a);
    if f < s.len() {
        assert forall|m: int| 0 <= m < f implies e[m].0 != a by {
            assert(e[m] == s[m]);
        }
        lemma_first_occ_from_is(e, a, 0, f);
    } else {
        assert(forall|m: int| 0 <= m < s.len() ==> e[m] == s[m]);
        if o.0 == a {
            lemma_first_occ_from_is(e, a, 0, s.len() as int);
        } else {
            lemma_first_occ_from_is(e, a, 0, e.len() as int);
        }
    }
}

/// The occurrences of `s` whose anchor is `a`, in order.
pub open spec fn group_of(s: Seq<Occ>, a: Seq<u8>) -> Seq<Occ>
    decreases s.len(),
{
    if s.len() == 0 {
        Seq::empty()
    } else {
        let rest = group_of(s.drop_last(), a);
        if s.last().0 == a {
            rest.push(s.last())
        } else {
            rest
        }
    }
}

/// Extending the occurrences extends at most the group of the new anchor.
pub proof fn lemma_group_of_push(s: Seq<Occ>, o: Occ, a: Seq<u8>)
    ensures
        group_of(s.push(o), a) == (if o.0 == a {
            group_of(s, a).push(o)
        } else {
            group_of(s, a)
        }),
{
    assert(s.push(o).drop_last() =~= s);
    assert(s.push(o).last() == o);
}

/// Every occurrence whose anchor is `a` is in `a`'s group.
pub proof fn lemma_group_of_contains(s: Seq<Occ>, a: Seq<u8>, t: int)
    requires
        0 <= t < s.len(),
        s[t].0 == a,
    ensures
        group_of(s, a).contains(s[t]),
    decreases s.len(),
{
    if t == s.len() - 1 {
        assert(group_of(s, a)[group_of(s, a).len() - 1] == s[t]);
    } else {
        lemma_group_of_contains(s.drop_last(), a, t);
        let g0 = group_of(s.drop_last(), a);
        let j = choose|j: int| 0 <= j < g0.len() && g0[j] == s.drop_last()[t];
        assert(group_of(s, a)[j] == s[t]);
    }
}

/// Some occurrence with anchor `a` targets the canonical URL.
pub open spec fn anchor_satisfied(s: Seq<Occ>, a: Seq<u8>) -> bool {
    exists|t: int| 0 <= t < s.len() && s[t].0 == a && s[t].1 == canonical_url()
}

/// One rick-roll diagnostic per occurrence of `a`, in scan order.
pub open spec fn group_diags(s: Seq<Occ>, a: Seq<u8>) -> Seq<Diag> {
    group_of(s, a).map_values(|o: Occ| Diag { code: 5, line: o.2, col: o.3 })
}

/// The rick-roll diagnostics for the anchors of `anchors` from index `g`
/// on: nothing for a satisfied anchor, the whole group otherwise.
pub open spec fn rick_diags_from(s: Seq<Occ>, anchors: Seq<Seq<u8>>, g: int) -> Seq<Diag>
    decreases anchors.len() - g
        when 0 <= g
{
    if g >= anchors.len() {
        Seq::empty()
    } else {
        (if anchor_satisfied(s, anchors[g]) {
            Seq::empty()
        } else {
            group_diags(s, anchors[g])
        }) + rick_diags_from(s, anchors, g + 1)
    }
}

/// All rick-roll diagnostics of the occurrences `s`: violating groups in
/// first-occurrence order, each group's occurrences in scan order.
pub open spec fn rick_diags(s: Seq<Occ>) -> Seq<Diag> {
    rick_diags_from(s, anchors_in_order(s), 0)
}

/// One markdown link found in the document.
pub struct LinkOccurrence {
    /// The text between the square brackets.
    pub anchor: Vec<u8>,
    /// The target between the parentheses.
    pub url: Vec<u8>,
    /// 0-based line index.
    pub line: usize,
    /// Byte column of the opening bracket.
    pub col: usize,
}

impl View for LinkOccurrence {
    type V = Occ;

    open spec fn view(&self) -> Occ {
        (self.anchor@, self.url@, self.line as int, self.col as int)
    }
}

/// The occurrences carried by a vector of them.
pub open spec fn occs_view(os: Seq<LinkOccurrence>) -> Seq<Occ> {
    os.map_values(|o: LinkOccurrence| o@)
}

/// The anchors carried by a vector of anchor texts.
pub open spec fn anchors_view(vs: Seq<Vec<u8>>) -> Seq<Seq<u8>> {
    vs.map_values(|v: Vec<u8>| v@)
}

/// The bytes of the canonical rick-roll URL, for comparisons.
pub fn canonical_url_bytes() -> (w: Vec<u8>)
    ensures
        w@ == canonical_url(),
{
    let mut w: Vec<u8> = Vec::new();
    w.push(104);
    w.push(116);
    w.push(116);
    w.push(112);
    w.push(115);
    w.push(58);
    w.push(47);
    w.push(47);
    w.push(119);
    w.push(119);
    w.push(119);
    w.push(46);
    w.push(121);
    w.push(111);
    w.push(117);
    w.push(116);
    w.push(117);
    w.push(98);
    w.push(101);
    w.push(46);
    w.push(99);
    w.push(111);
    w.push(109);
    w.push(47);
    w.push(119);
    w.push(97);
    w.push(116);
    w.push(99);
    w.push(104);
    w.push(63);
    w.push(118);
    w.push(61);
    w.push(100);
    w.push(81);
    w.push(119);
    w.push(52);
    w.push(119);
    w.push(57);
    w.push(87);
    w.push(103);
    w.push(88);
    w.push(99);
    w.push(81);
    proof {
        assert(w@ =~= canonical_url());
    }
    w
}

/// Whether two byte strings hold the same bytes.
pub fn bytes_eq(a: &[u8], b: &[u8]) -> (r: bool)
    ensures
        r == (a@ == b@),
{
    if a.len() != b.len() {
        return false;
    }
    let n: usize = a.len();
    let mut i: usize = 0;
    while i < n
        invariant
            i <= n == a@.len() == b@.len(),
            forall|m: int| 0 <= m < i ==> a@[m] == b@[m],
        decreases n - i,
    {
        if a[i] != b[i] {
            return false;
        }
        i += 1;
    }
    proof {
        assert(a@ =~= b@);
    }
    true
}

/// First index of byte `b` in `s` at or after `p`, or `s.len()`.
pub fn find_byte_from(s: &[u8], b: u8, p: usize) -> (r: usize)
    requires
        p <= s@.len(),
    ensures
        r as int == first_byte_from(s@, b, p as int),
        p <= r <= s@.len(),
        r < s@.len() ==> s@[r as int] == b,
        forall|m: int| p <= m < r ==> s@[m] != b,
{
    let n: usize = s.len();
    let mut i: usize = p;
    while i < n
        invariant
            p <= i <= n == s@.len(),
            forall|m: int| p <= m < i ==> s@[m] != b,
        decreases n - i,
    {
        if s[i] == b {
            proof {
                lemma_first_byte_from_is(s@, b, p as int, i as int);
            }
            return i;
        }
        i += 1;
    }
    proof {
        lemma_first_byte_from_is(s@, b, p as int, n as int);
    }
    n
}

/// The `]` and `)` positions of the link starting at `p`, if one does.
fn try_link_at(line: &[u8], p: usize) -> (r: Option<(usize, usize)>)
    requires
        p < line@.len(),
    ensures
        match r {
            Some(jk) => {
                &&& link_at(line@, p as int)
                &&& jk.0 as int == first_byte_from(line@, 93, p as int + 1)
                &&& jk.1 as int == first_byte_from(line@, 41, jk.0 as int + 2)
            },
            None => !link_at(line@, p as int),
        },
{
    let n: usize = line.len();
    if line[p] != 91 {
        return None;
    }
    let j = find_byte_from(line, 93, p + 1);
    if j - p < 2 || n - j < 2 {
        return None;
    }
    if line[j + 1] != 40 {
        return None;
    }
    let k = find_byte_from(line, 41, j + 2);
    if k - j < 3 || k >= n {
        return None;
    }
    Some((j, k))
}

/// Append all links of `line` (at line index `line_no`) to `occs`,
/// left to right.
pub fn scan_line_links(line: &[u8], line_no: usize, occs: &mut Vec<LinkOccurrence>)
    ensures
        occs_view(final(occs)@) == occs_view(old(occs)@) + line_occs(line@, line_no as int),
{
    let n: usize = line.len();
    let mut p: usize = 0;
    proof {
        assert(occs_view(occs@) + with_line(line_links_from(line@, 0), line_no as int)
            =~~= occs_view(occs@) + line_occs(line@, line_no as int));
    }
    while p < n
        invariant
            p <= n == line@.len(),
            occs_view(occs@) + with_line(line_links_from(line@, p as int), line_no as int)
                == occs_view(old(occs)@) + line_occs(line@, line_no as int),
        decreases n - p,
    {
        let ghost prev = occs_view(occs@);
        match try_link_at(line, p) {
            Some((j, k)) => {
                let anchor = copy_range(line, p + 1, j);
                let url = copy_range(line, j + 2, k);
                let o = LinkOccurrence { anchor, url, line: line_no, col: p };
                proof {
                    assert(link_end(line@, p as int) == k as int + 1);
                    assert(o@ == (link_anchor(line@, p as int), link_url(line@, p as int),
                        line_no as int, p as int));
                    assert(line_links_from(line@, p as int) == seq![
                        (link_anchor(line@, p as int), link_url(line@, p as int), p as int),
                    ] + line_links_from(line@, k as int + 1));
                    assert(with_line(line_links_from(line@, p as int), line_no as int)
                        =~= seq![o@] + with_line(line_links_from(line@, k as int + 1),
                        line_no as int));
                    assert(occs_view(occs@.push(o)) =~= prev.push(o@));
                    assert(prev.push(o@) + with_line(line_links_from(line@, k as int + 1),
                        line_no as int) =~~= prev + with_line(
                        line_links_from(line@, p as int),
                        line_no as int,
                    ));
                }
                occs.push(o);
                p = k + 1;
            },
            None => {
                proof {
                    assert(line_links_from(line@, p as int) == line_links_from(
                        line@,
                        p as int + 1,
                    ));
                }
                p = p + 1;
            },
        }
    }
    proof {
        assert(line_links_from(line@, p as int) == Seq::<(Seq<u8>, Seq<u8>, int)>::empty());
        assert(with_line(line_links_from(line@, p as int), line_no as int)
            =~= Seq::<Occ>::empty());
        assert(occs_view(occs@) + Seq::<Occ>::empty() =~= occs_view(occs@));
    }
}

/// The links of one line, as occurrences at line index `ln`.
pub open spec fn with_line(ts: Seq<(Seq<u8>, Seq<u8>, int)>, ln: int) -> Seq<Occ> {
    ts.map_values(|t: (Seq<u8>, Seq<u8>, int)| (t.0, t.1, ln, t.2))
}

/// All link occurrences of the document, line by line, left to right.
pub fn collect_links(lines: &Vec<Vec<u8>>) -> (occs: Vec<LinkOccurrence>)
    ensures
        occs_view(occs@) == doc_links(crate::scanner::lines_view(lines@)),
{
    let ghost ls = crate::scanner::lines_view(lines@);
    let mut occs: Vec<LinkOccurrence> = Vec::new();
    let mut ln: usize = 0;
    proof {
        assert(occs_view(occs@) + doc_links_from(ls, 0) =~~= doc_links(ls));
    }
    while ln < lines.len()
        invariant
            ln <= lines@.len(),
            ls == crate::scanner::lines_view(lines@),
            occs_view(occs@) + doc_links_from(ls, ln as int) == doc_links(ls),
        decreases lines@.len() - ln,
    {
        let ghost prev = occs_view(occs@);
        scan_line_links(lines[ln].as_slice(), ln, &mut occs);
        proof {
            assert(lines@[ln as int]@ == ls[ln as int]);
            assert(doc_links_from(ls, ln as int) == line_occs(ls[ln as int], ln as int)
                + doc_links_from(ls, ln as int + 1));
            assert(occs_view(occs@) + doc_links_from(ls, ln as int + 1) =~~= prev + doc_links_from(
                ls,
                ln as int,
            ));
        }
        ln += 1;
    }
    proof {
        assert(doc_links_from(ls, ln as int) == Seq::<Occ>::empty());
        assert(occs_view(occs@) + Seq::<Occ>::empty() =~= occs_view(occs@));
    }
    occs
}

/// The distinct anchors among the occurrences, in first-occurrence order.
fn distinct_anchors(occs: &Vec<LinkOccurrence>) -> (anchors: Vec<Vec<u8>>)
    ensures
        anchors_view(anchors@) == anchors_in_order(occs_view(occs@)),
{
    let ghost s = occs_view(occs@);
    let mut anchors: Vec<Vec<u8>> = Vec::new();
    let mut t: usize = 0;
    proof {
        assert(s.take(0) =~= Seq::<Occ>::empty());
        assert(anchors_view(anchors@) =~= anchors_in_order(s.take(0)));
    }
    while t < occs.len()
        invariant
            t <= occs@.len(),
            s == occs_view(occs@),
            anchors_view(anchors@) == anchors_in_order(s.take(t as int)),
        decreases occs@.len() - t,
    {
        let ghost prev = anchors_view(anchors@);
        let present = contains_anchor(&anchors, &occs[t].anchor);
        proof {
            assert(s[t as int] == occs@[t as int]@);
            assert(s.take(t as int + 1) =~= s.take(t as int).push(s[t as int]));
            lemma_anchors_push(s.take(t as int), s[t as int]);
        }
        if !present {
            let a = copy_range(occs[t].anchor.as_slice(), 0, occs[t].anchor.len());
            proof {
                assert(a@ =~= s[t as int].0);
                assert(anchors_view(anchors@.push(a)) =~= prev.push(a@));
            }
            anchors.push(a);
        }
        t += 1;
    }
    proof {
        assert(s.take(occs@.len() as int) =~= s);
    }
    anchors
}

/// Whether `a` already occurs in `anchors`.
fn contains_anchor(anchors: &Vec<Vec<u8>>, a: &Vec<u8>) -> (r: bool)
    ensures
        r == anchors_view(anchors@).contains(a@),
{
    let mut i: usize = 0;
    while i < anchors.len()
        invariant
            i <= anchors@.len(),
            forall|m: int| 0 <= m < i ==> anchors_view(anchors@)[m] != a@,
        decreases anchors@.len() - i,
    {
        if bytes_eq(anchors[i].as_slice(), a.as_slice()) {
            proof {
                assert(anchors_view(anchors@)[i as int] == a@);
            }
            return true;
        }
        i += 1;
    }
    false
}

/// Whether some occurrence with anchor `a` targets the canonical URL.
fn anchor_satisfied_ex(occs: &Vec<LinkOccurrence>, a: &Vec<u8>, canon: &Vec<u8>) -> (r: bool)
    requires
        canon@ == canonical_url(),
    ensures
        r == anchor_satisfied(occs_view(occs@), a@),
{
    let ghost s = occs_view(occs@);
    let mut t: usize = 0;
    while t < occs.len()
        invariant
            t <= occs@.len(),
            s == occs_view(occs@),
            canon@ == canonical_url(),
            forall|m: int| 0 <= m < t ==> !(s[m].0 == a@ && s[m].1 == canonical_url()),
        decreases occs@.len() - t,
    {
        if bytes_eq(occs[t].anchor.as_slice(), a.as_slice()) && bytes_eq(
            occs[t].url.as_slice(),
            canon.as_slice(),
        ) {
            proof {
                assert(s[t as int].0 == a@ && s[t as int].1 == canonical_url());
            }
            return true;
        }
        proof {
            assert(s[t as int] == occs@[t as int]@);
        }
        t += 1;
    }
    false
}

/// Append the rick-roll diagnostics of the occurrences to `diags`:
/// violating groups in first-occurrence order of their anchor, each
/// group's occurrences in scan order.
pub fn rick_roll_diagnostics(occs: &Vec<LinkOccurrence>, diags: &mut Vec<Diagnostic>)
    ensures
        diags_view(final(diags)@) == diags_view(old(diags)@) + rick_diags(occs_view(occs@)),
{
    let ghost s = occs_view(occs@);
    let canon = canonical_url_bytes();
    let anchors = distinct_anchors(occs);
    let ghost alist = anchors_view(anchors@);
    let mut g: usize = 0;
    proof {
        assert(diags_view(diags@) + rick_diags_from(s, alist, 0) =~~= diags_view(diags@)
            + rick_diags(s));
    }
    while g < anchors.len()
        invariant
            g <= anchors@.len(),
            s == occs_view(occs@),
            alist == anchors_view(anchors@),
            canon@ == canonical_url(),
            diags_view(diags@) + rick_diags_from(s, alist, g as int) == diags_view(old(diags)@)
                + rick_diags(s),
        decreases anchors@.len() - g,
    {
        let ghost dprev = diags_view(diags@);
        let sat = anchor_satisfied_ex(occs, &anchors[g], &canon);
        proof {
            assert(anchors@[g as int]@ == alist[g as int]);
        }
        if !sat {
            // every occurrence of this anchor is a violation
            let mut t: usize = 0;
            proof {
                assert(group_of(s.take(0), alist[g as int]) =~= Seq::<Occ>::empty());
                assert(diags_view(diags@) =~~= dprev + group_diags(s.take(0), alist[g as int]));
            }
            while t < occs.len()
                invariant
                    t <= occs@.len(),
                    s == occs_view(occs@),
                    alist == anchors_view(anchors@),
                    g < anchors@.len(),
                    diags_view(diags@) == dprev + group_diags(s.take(t as int), alist[g as int]),
                decreases occs@.len() - t,
            {
                let ghost dcur = diags_view(diags@);
                let is_member = bytes_eq(occs[t].anchor.as_slice(), anchors[g].as_slice());
                proof {
                    assert(s[t as int] == occs@[t as int]@);
                    assert(s.take(t as int + 1) =~= s.take(t as int).push(s[t as int]));
                    lemma_group_of_push(s.take(t as int), s[t as int], alist[g as int]);
                }
                if is_member {
                    let d = make_link_rick_roll_diagnostic(occs[t].line, occs[t].col);
                    proof {
                        assert(diags_view(diags@.push(d)) =~= dcur.push(d@));
                        assert(group_diags(s.take(t as int + 1), alist[g as int]) =~= group_diags(
                            s.take(t as int),
                            alist[g as int],
                        ).push(d@));
                    }
                    diags.push(d);
                }
                t += 1;
            }
            proof {
                assert(s.take(occs@.len() as int) =~= s);
            }
        }
        proof {
            assert(rick_diags_from(s, alist, g as int) == (if anchor_satisfied(s, alist[g as int]) {
                Seq::<Diag>::empty()
            } else {
                group_diags(s, alist[g as int])
            }) + rick_diags_from(s, alist, g as int + 1));
            assert(diags_view(diags@) + rick_diags_from(s, alist, g as int + 1) =~~= dprev
                + rick_diags_from(s, alist, g as int));
        }
        g += 1;
    }
    proof {
        assert(rick_diags_from(s, alist, g as int) == Seq::<Diag>::empty());
        assert(diags_view(diags@) + Seq::<Diag>::empty() =~= diags_view(diags@));
    }
}

} // verus!
