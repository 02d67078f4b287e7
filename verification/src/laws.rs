//! The engine's laws: properties of the diagnostic list that hold for
//! every document, proved once and for all against `spec_diagnostics`.

use crate::diag::Diag;
use crate::engine::import_diags;
use crate::engine::single_line_diags;
use crate::engine::spec_diagnostics;
use crate::engine::tail_diags_from;
use crate::links::Occ;
use crate::links::anchor_satisfied;
use crate::links::anchors_in_order;
use crate::links::first_occ;
use crate::links::group_of;
use crate::links::lemma_group_of_contains;
use crate::links::lemma_first_occ_from;
use crate::links::lemma_first_occ_push;
use crate::links::doc_links;
use crate::links::group_diags;
use crate::links::rick_diags;
use crate::links::rick_diags_from;
use crate::scanner::split_lines;
use crate::words::contains_word;
use crate::words::import_word;
use crate::words::return_word;
use vstd::prelude::*;

verus! {

/// Every rick-roll diagnostic carries code 5.
proof fn lemma_rick_codes(s: Seq<Occ>, anchors: Seq<Seq<u8>>, g: int)
    requires
        0 <= g,
    ensures
        forall|i: int|
            0 <= i < rick_diags_from(s, anchors, g).len() ==> (#[trigger] rick_diags_from(
                s,
                anchors,
                g,
            )[i]).code == 5,
    decreases anchors.len() - g,
{
    if g < anchors.len() {
        lemma_rick_codes(s, anchors, g + 1);
        let head = if anchor_satisfied(s, anchors[g]) {
            Seq::<Diag>::empty()
        } else {
            group_diags(s, anchors[g])
        };
        let rest = rick_diags_from(s, anchors, g + 1);
        assert forall|i: int|
            0 <= i < rick_diags_from(s, anchors, g).len() implies (#[trigger] rick_diags_from(
            s,
            anchors,
            g,
        )[i]).code == 5 by {
            if i < head.len() {
                assert(rick_diags_from(s, anchors, g)[i] == group_diags(s, anchors[g])[i]);
            } else {
                assert(rick_diags_from(s, anchors, g)[i] == rest[i - head.len()]);
            }
        }
    }
}

/// Every per-line diagnostic carries code 3 or 4.
proof fn lemma_tail_codes(lines: Seq<Seq<u8>>, ln: int)
    requires
        1 <= ln,
    ensures
        forall|i: int|
            0 <= i < tail_diags_from(lines, ln).len() ==> {
                let d = #[trigger] tail_diags_from(lines, ln)[i];
                d.code == 3 || d.code == 4
            },
    decreases lines.len() - ln,
{
    if ln >= lines.len() {
    } else if ln < lines.len() - 1 {
        lemma_tail_codes(lines, ln + 1);
        let head = crate::engine::semi_diags(lines[ln], ln);
        let rest = tail_diags_from(lines, ln + 1);
        assert forall|i: int|
            0 <= i < tail_diags_from(lines, ln).len() implies {
            let d = #[trigger] tail_diags_from(lines, ln)[i];
            d.code == 3 || d.code == 4
        } by {
            if i < head.len() {
                assert(tail_diags_from(lines, ln)[i] == head[i]);
            } else {
                assert(tail_diags_from(lines, ln)[i] == rest[i - head.len()]);
            }
        }
    }
}

/// The last line's missing-return diagnostic is among the per-line
/// diagnostics whenever the last line lacks "return".
proof fn lemma_tail_contains_return(lines: Seq<Seq<u8>>, ln: int)
    requires
        1 <= ln <= lines.len() - 1,
        !contains_word(lines[lines.len() - 1], return_word()),
    ensures
        tail_diags_from(lines, ln).contains(
            Diag { code: 3, line: lines.len() - 1, col: 0 },
        ),
    decreases lines.len() - ln,
{
    let d = Diag { code: 3, line: lines.len() - 1, col: 0 };
    if ln == lines.len() - 1 {
        assert(tail_diags_from(lines, ln)[0] == d);
    } else {
        lemma_tail_contains_return(lines, ln + 1);
        let head = crate::engine::semi_diags(lines[ln], ln);
        let rest = tail_diags_from(lines, ln + 1);
        let j = choose|j: int| 0 <= j < rest.len() && rest[j] == d;
        assert(tail_diags_from(lines, ln)[head.len() + j] == d);
    }
}

/// Import rule law: when the document has at least one line and its
/// first line lacks "import" as a case-insensitive whole word, the
/// output holds exactly one missing-import diagnostic, it sits at line
/// 0 column 0, and it is the first diagnostic emitted.
pub proof fn lemma_import_rule(text: Seq<u8>)
    requires
        split_lines(text).len() > 0,
        !contains_word(split_lines(text)[0], import_word()),
    ensures
        spec_diagnostics(text).len() > 0,
        spec_diagnostics(text)[0] == (Diag { code: 2, line: 0, col: 0 }),
        forall|i: int|
            1 <= i < spec_diagnostics(text).len() ==> (#[trigger] spec_diagnostics(text)[i]).code
                != 2,
{
    let lines = split_lines(text);
    let ds = spec_diagnostics(text);
    let imp = import_diags(lines);
    let single = single_line_diags(lines);
    let tail = tail_diags_from(lines, 1);
    let rick = rick_diags(doc_links(lines));
    lemma_tail_codes(lines, 1);
    lemma_rick_codes(doc_links(lines), crate::links::anchors_in_order(doc_links(lines)), 0);
    assert(ds == imp + single + tail + rick);
    assert(ds[0] == imp[0]);
    assert forall|i: int| 1 <= i < ds.len() implies (#[trigger] ds[i]).code != 2 by {
        if i < 1 + single.len() {
            assert(ds[i] == single[i - 1]);
        } else if i < 1 + single.len() + tail.len() {
            assert(ds[i] == tail[i - 1 - single.len()]);
        } else {
            assert(ds[i] == rick[i - 1 - single.len() - tail.len()]);
        }
    }
}

/// Import rule law, satisfied side: when the first line holds "import"
/// as a case-insensitive whole word, no missing-import diagnostic is
/// emitted at all.
pub proof fn lemma_import_satisfied(text: Seq<u8>)
    requires
        split_lines(text).len() > 0,
        contains_word(split_lines(text)[0], import_word()),
    ensures
        forall|i: int|
            0 <= i < spec_diagnostics(text).len() ==> (#[trigger] spec_diagnostics(text)[i]).code
                != 2,
{
    let lines = split_lines(text);
    let ds = spec_diagnostics(text);
    let single = single_line_diags(lines);
    let tail = tail_diags_from(lines, 1);
    let rick = rick_diags(doc_links(lines));
    lemma_tail_codes(lines, 1);
    lemma_rick_codes(doc_links(lines), crate::links::anchors_in_order(doc_links(lines)), 0);
    assert(ds == import_diags(lines) + single + tail + rick);
    assert forall|i: int| 0 <= i < ds.len() implies (#[trigger] ds[i]).code != 2 by {
        if i < single.len() {
            assert(ds[i] == single[i]);
        } else if i < single.len() + tail.len() {
            assert(ds[i] == tail[i - single.len()]);
        } else {
            assert(ds[i] == rick[i - single.len() - tail.len()]);
        }
    }
}

/// Single-line law: a document of exactly one line yields exactly one
/// missing-return diagnostic, at line 0 column 0, whatever the line
/// holds — and no semicolon diagnostic at all.
pub proof fn lemma_single_line(text: Seq<u8>)
    requires
        split_lines(text).len() == 1,
    ensures
        exists|i: int|
            0 <= i < spec_diagnostics(text).len() && #[trigger] spec_diagnostics(text)[i] == (Diag {
                code: 3,
                line: 0,
                col: 0,
            }) && (forall|j: int|
                0 <= j < spec_diagnostics(text).len() && j != i ==> (#[trigger] spec_diagnostics(
                    text,
                )[j]).code != 3),
        forall|i: int|
            0 <= i < spec_diagnostics(text).len() ==> (#[trigger] spec_diagnostics(text)[i]).code
                != 4,
{
    let lines = split_lines(text);
    let ds = spec_diagnostics(text);
    let imp = import_diags(lines);
    let single = single_line_diags(lines);
    let tail = tail_diags_from(lines, 1);
    let rick = rick_diags(doc_links(lines));
    lemma_rick_codes(doc_links(lines), crate::links::anchors_in_order(doc_links(lines)), 0);
    assert(ds == imp + single + tail + rick);
    assert(tail == Seq::<Diag>::empty());
    let k = imp.len() as int;
    assert(ds[k] == single[0]);
    assert forall|j: int| 0 <= j < ds.len() && j != k implies (#[trigger] ds[j]).code != 3 by {
        if j < k {
            assert(ds[j] == imp[j]);
        } else {
            assert(ds[j] == rick[j - k - 1]);
        }
    }
    assert forall|i: int| 0 <= i < ds.len() implies (#[trigger] ds[i]).code != 4 by {
        if i < k {
            assert(ds[i] == imp[i]);
        } else if i == k {
        } else {
            assert(ds[i] == rick[i - k - 1]);
        }
    }
}

/// Return rule law: in a document of at least two lines whose last line
/// lacks "return" as a case-insensitive whole word, the output holds a
/// missing-return diagnostic at the last line, column 0.
pub proof fn lemma_return_rule(text: Seq<u8>)
    requires
        split_lines(text).len() >= 2,
        !contains_word(split_lines(text)[split_lines(text).len() - 1], return_word()),
    ensures
        spec_diagnostics(text).contains(
            Diag { code: 3, line: split_lines(text).len() - 1, col: 0 },
        ),
{
    let lines = split_lines(text);
    let ds = spec_diagnostics(text);
    let d = Diag { code: 3, line: lines.len() - 1, col: 0 };
    let imp = import_diags(lines);
    let single = single_line_diags(lines);
    let tail = tail_diags_from(lines, 1);
    lemma_tail_contains_return(lines, 1);
    let j = choose|j: int| 0 <= j < tail.len() && tail[j] == d;
    assert(ds == imp + single + tail + rick_diags(doc_links(lines)));
    assert(ds[imp.len() + single.len() + j] == d);
}

/// Link ordering law: the anchor list that drives the rick-roll output
/// lists exactly the anchors that occur in the document, each exactly
/// once, ordered by the position of their first occurrence — so the
/// output order is deterministic, never an artifact of a mapping's
/// iteration order.
pub proof fn lemma_anchor_order(s: Seq<Occ>)
    ensures
        forall|i: int|
            0 <= i < anchors_in_order(s).len() ==> first_occ(
                s,
                #[trigger] anchors_in_order(s)[i],
            ) < s.len(),
        forall|t: int| 0 <= t < s.len() ==> anchors_in_order(s).contains(#[trigger] s[t].0),
        forall|i: int, j: int|
            0 <= i < j < anchors_in_order(s).len() ==> first_occ(s, anchors_in_order(s)[i])
                < first_occ(s, anchors_in_order(s)[j]),
        forall|i: int, j: int|
            0 <= i < j < anchors_in_order(s).len() ==> anchors_in_order(s)[i]
                != anchors_in_order(s)[j],
    decreases s.len(),
{
    if s.len() == 0 {
    } else {
        let s0 = s.drop_last();
        let o = s.last();
        lemma_anchor_order(s0);
        assert(s0.push(o) =~= s);
        let a0 = anchors_in_order(s0);
        let al = anchors_in_order(s);
        assert forall|i: int| 0 <= i < a0.len() implies first_occ(s, #[trigger] a0[i]) == first_occ(
            s0,
            a0[i],
        ) && first_occ(s, a0[i]) < s0.len() by {
            lemma_first_occ_push(s0, o, a0[i]);
        }
        if a0.contains(o.0) {
            assert(al == a0);
            assert forall|t: int| 0 <= t < s.len() implies al.contains(#[trigger] s[t].0) by {
                if t < s0.len() {
                    assert(s[t] == s0[t]);
                } else {
                    assert(s[t].0 == o.0);
                }
            }
        } else {
            assert(al == a0.push(o.0));
            // the appended anchor is new: it cannot occur in the front part
            lemma_first_occ_from(s0, o.0, 0);
            if first_occ(s0, o.0) < s0.len() {
                assert(a0.contains(s0[first_occ(s0, o.0)].0));
                assert(false);
            }
            lemma_first_occ_push(s0, o, o.0);
            assert(first_occ(s, o.0) == s0.len());
            assert forall|t: int| 0 <= t < s.len() implies al.contains(#[trigger] s[t].0) by {
                if t < s0.len() {
                    assert(s[t] == s0[t]);
                    assert(a0.contains(s0[t].0));
                    let w = choose|w: int| 0 <= w < a0.len() && a0[w] == s0[t].0;
                    assert(al[w] == s[t].0);
                } else {
                    assert(al[a0.len() as int] == s[t].0);
                }
            }
            assert forall|i: int, j: int|
                0 <= i < j < al.len() implies first_occ(s, al[i]) < first_occ(s, al[j]) by {
                if j < a0.len() {
                    assert(al[i] == a0[i] && al[j] == a0[j]);
                } else {
                    assert(al[j] == o.0);
                    assert(al[i] == a0[i]);
                    assert(first_occ(s, a0[i]) < s0.len());
                }
            }
        }
        assert forall|i: int, j: int| 0 <= i < j < al.len() implies al[i] != al[j] by {
            assert(first_occ(s, al[i]) < first_occ(s, al[j]));
        }
    }
}

/// A violating group's diagnostics are all in the output from `g0` on,
/// wherever in the anchor list the group's anchor sits.
proof fn lemma_rick_from_contains(
    s: Seq<Occ>,
    anchors: Seq<Seq<u8>>,
    g0: int,
    g: int,
    d: Diag,
)
    requires
        0 <= g0 <= g < anchors.len(),
        !anchor_satisfied(s, anchors[g]),
        group_diags(s, anchors[g]).contains(d),
    ensures
        rick_diags_from(s, anchors, g0).contains(d),
    decreases g - g0,
{
    let rest = rick_diags_from(s, anchors, g0 + 1);
    if g0 == g {
        let j = choose|j: int|
            0 <= j < group_diags(s, anchors[g]).len() && group_diags(s, anchors[g])[j] == d;
        assert(rick_diags_from(s, anchors, g0)[j] == d);
    } else {
        lemma_rick_from_contains(s, anchors, g0 + 1, g, d);
        let j = choose|j: int| 0 <= j < rest.len() && rest[j] == d;
        let head = if anchor_satisfied(s, anchors[g0]) {
            Seq::<Diag>::empty()
        } else {
            group_diags(s, anchors[g0])
        };
        assert(rick_diags_from(s, anchors, g0)[head.len() + j] == d);
    }
}

/// Rick-roll rule law, violating side: every link occurrence whose
/// anchor group nowhere targets the canonical URL is flagged — the
/// output holds a code-5 diagnostic at that occurrence's position.
pub proof fn lemma_rickroll_violation_flagged(text: Seq<u8>, t: int)
    requires
        split_lines(text).len() > 0,
        0 <= t < doc_links(split_lines(text)).len(),
        !anchor_satisfied(doc_links(split_lines(text)), doc_links(split_lines(text))[t].0),
    ensures
        spec_diagnostics(text).contains(
            Diag {
                code: 5,
                line: doc_links(split_lines(text))[t].2,
                col: doc_links(split_lines(text))[t].3,
            },
        ),
{
    let lines = split_lines(text);
    let s = doc_links(lines);
    let o = s[t];
    let a = o.0;
    let anchors = anchors_in_order(s);
    let d = Diag { code: 5, line: o.2, col: o.3 };
    lemma_anchor_order(s);
    assert(anchors.contains(a));
    let g = choose|g: int| 0 <= g < anchors.len() && anchors[g] == a;
    lemma_group_of_contains(s, a, t);
    let j = choose|j: int| 0 <= j < group_of(s, a).len() && group_of(s, a)[j] == o;
    assert(group_diags(s, a)[j] == d);
    lemma_rick_from_contains(s, anchors, 0, g, d);
    let ds = spec_diagnostics(text);
    let front = import_diags(lines) + single_line_diags(lines) + tail_diags_from(lines, 1);
    assert(ds == front + rick_diags(s));
    let k = choose|k: int| 0 <= k < rick_diags(s).len() && rick_diags(s)[k] == d;
    assert(ds[front.len() + k] == d);
}

/// Rick-roll rule law, satisfied side: when every anchor that occurs is
/// satisfied — some occurrence with the same anchor targets the
/// canonical URL — no code-5 diagnostic is emitted at all. A document
/// with no links at all satisfies this vacuously.
pub proof fn lemma_rickroll_satisfied(text: Seq<u8>)
    requires
        forall|t: int|
            0 <= t < doc_links(split_lines(text)).len() ==> anchor_satisfied(
                doc_links(split_lines(text)),
                #[trigger] doc_links(split_lines(text))[t].0,
            ),
    ensures
        forall|i: int|
            0 <= i < spec_diagnostics(text).len() ==> (#[trigger] spec_diagnostics(text)[i]).code
                != 5,
{
    let lines = split_lines(text);
    let s = doc_links(lines);
    let anchors = anchors_in_order(s);
    lemma_anchor_order(s);
    lemma_rick_sat_empty(s, anchors, 0);
    if lines.len() == 0 {
    } else {
        let ds = spec_diagnostics(text);
        let imp = import_diags(lines);
        let single = single_line_diags(lines);
        let tail = tail_diags_from(lines, 1);
        lemma_tail_codes(lines, 1);
        assert(ds == imp + single + tail + rick_diags(s));
        assert forall|i: int| 0 <= i < ds.len() implies (#[trigger] ds[i]).code != 5 by {
            if i < imp.len() {
                assert(ds[i] == imp[i]);
            } else if i < imp.len() + single.len() {
                assert(ds[i] == single[i - imp.len()]);
            } else if i < imp.len() + single.len() + tail.len() {
                assert(ds[i] == tail[i - imp.len() - single.len()]);
            }
        }
    }
}

/// With every listed anchor satisfied, the rick-roll output is empty.
proof fn lemma_rick_sat_empty(s: Seq<Occ>, anchors: Seq<Seq<u8>>, g: int)
    requires
        0 <= g,
        forall|i: int|
            0 <= i < anchors.len() ==> first_occ(s, #[trigger] anchors[i]) < s.len(),
        forall|t: int|
            0 <= t < s.len() ==> anchor_satisfied(s, #[trigger] s[t].0),
    ensures
        rick_diags_from(s, anchors, g).len() == 0,
    decreases anchors.len() - g,
{
    if g < anchors.len() {
        lemma_rick_sat_empty(s, anchors, g + 1);
        lemma_first_occ_from(s, anchors[g], 0);
        let f = first_occ(s, anchors[g]);
        assert(s[f].0 == anchors[g]);
        assert(anchor_satisfied(s, anchors[g]));
    }
}

/// Determinism and idempotence: the diagnostic list is a function of
/// the document's bytes alone, so re-evaluating unchanged text yields
/// an identical list.
pub proof fn lemma_deterministic(a: Seq<u8>, b: Seq<u8>)
    requires
        a == b,
    ensures
        spec_diagnostics(a) == spec_diagnostics(b),
{
}

} // verus!
