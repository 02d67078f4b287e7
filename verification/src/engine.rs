//! The diagnostic engine: evaluates every rule on one document snapshot
//! and assembles the results in the fixed output order — the import rule,
//! then the single-line return rule, then line by line the semicolon rule
//! (internal lines) and the return rule (last line), then the rick-roll
//! link rule.

use crate::diag::Diag;
use crate::diag::Diagnostic;
use crate::diag::diags_view;
use crate::diag::make_import_diagnostic;
use crate::diag::make_return_diagnostic;
use crate::diag::make_semicolon_diagnostic;
use crate::links::collect_links;
use crate::links::doc_links;
use crate::links::rick_diags;
use crate::links::rick_roll_diagnostics;
use crate::scanner::lines_view;
use crate::scanner::split_into_lines;
use crate::scanner::split_lines;
use crate::semicolon::cols_view;
use crate::semicolon::semi_cols;
use crate::semicolon::semicolon_cols;
use crate::words::contains_word;
use crate::words::import_word;
use crate::words::import_word_bytes;
use crate::words::line_contains_word;
use crate::words::return_word;
use crate::words::return_word_bytes;
use vstd::prelude::*;

verus! {

/// The missing-semicolon diagnostics of one internal line.
pub open spec fn semi_diags(line: Seq<u8>, ln: int) -> Seq<Diag> {
    semi_cols(line).map_values(|c: int| Diag { code: 4, line: ln, col: c })
}

/// The missing-import diagnostic of the first line, if owed.
pub open spec fn import_diags(lines: Seq<Seq<u8>>) -> Seq<Diag> {
    if contains_word(lines[0], import_word()) {
        Seq::empty()
    } else {
        seq![Diag { code: 2, line: 0, col: 0 }]
    }
}

/// The single-line missing-return diagnostic, if owed: a document of
/// exactly one line is always flagged, whatever that line holds.
pub open spec fn single_line_diags(lines: Seq<Seq<u8>>) -> Seq<Diag> {
    if lines.len() == 1 {
        seq![Diag { code: 3, line: 0, col: 0 }]
    } else {
        Seq::empty()
    }
}

/// The per-line diagnostics of the lines from `ln` on: the semicolon
/// rule on each internal line, the return rule on the last line.
pub open spec fn tail_diags_from(lines: Seq<Seq<u8>>, ln: int) -> Seq<Diag>
    decreases lines.len() - ln
        when 1 <= ln
{
    if ln >= lines.len() {
        Seq::empty()
    } else if ln < lines.len() - 1 {
        semi_diags(lines[ln], ln) + tail_diags_from(lines, ln + 1)
    } else {
        if contains_word(lines[ln], return_word()) {
            Seq::empty()
        } else {
            seq![Diag { code: 3, line: ln, col: 0 }]
        }
    }
}

/// Every diagnostic the engine owes for `text`, in output order.
pub open spec fn spec_diagnostics(text: Seq<u8>) -> Seq<Diag> {
    let lines = split_lines(text);
    if lines.len() == 0 {
        Seq::empty()
    } else {
        import_diags(lines) + single_line_diags(lines) + tail_diags_from(lines, 1) + rick_diags(
            doc_links(lines),
        )
    }
}

/// Evaluate every rule on one document snapshot and return the ordered
/// diagnostic list. Evaluation is pure: equal bytes give equal lists.
pub fn compute_diagnostics(text: &[u8]) -> (diags: Vec<Diagnostic>)
    ensures
        diags_view(diags@) == spec_diagnostics(text@),
{
    let ghost ls = split_lines(text@);
    let lines = split_into_lines(text);
    let mut diags: Vec<Diagnostic> = Vec::new();
    if lines.len() == 0 {
        proof {
            assert(diags_view(diags@) =~= spec_diagnostics(text@));
        }
        return diags;
    }
    // the import rule, on the first line
    let import_w = import_word_bytes();
    if !line_contains_word(lines[0].as_slice(), &import_w) {
        diags.push(make_import_diagnostic());
    }
    // a single-line document always lacks its return value
    if lines.len() == 1 {
        diags.push(make_return_diagnostic(0));
    }
    proof {
        assert(lines@[0]@ == ls[0]);
        assert(diags_view(diags@) =~= import_diags(ls) + single_line_diags(ls));
    }
    // the lines after the first: semicolon rule inside, return rule last
    let return_w = return_word_bytes();
    let ghost dhead = diags_view(diags@);
    let mut ln: usize = 1;
    while ln < lines.len()
        invariant
            1 <= ln <= lines@.len(),
            ls == lines_view(lines@),
            return_w@ == return_word(),
            diags_view(diags@) + tail_diags_from(ls, ln as int) == dhead + tail_diags_from(ls, 1),
        decreases lines@.len() - ln,
    {
        let ghost dprev = diags_view(diags@);
        proof {
            assert(lines@[ln as int]@ == ls[ln as int]);
        }
        if ln + 1 < lines.len() {
            // an internal line: the semicolon rule
            let cols = semicolon_cols(lines[ln].as_slice());
            let mut ci: usize = 0;
            proof {
                assert(semi_diags(ls[ln as int], ln as int).take(0) =~= Seq::<Diag>::empty());
                assert(diags_view(diags@) =~~= dprev + semi_diags(ls[ln as int], ln as int).take(
                    0,
                ));
            }
            while ci < cols.len()
                invariant
                    ci <= cols@.len(),
                    (ln as int) < ls.len(),
                    cols_view(cols@) == semi_cols(ls[ln as int]),
                    diags_view(diags@) == dprev + semi_diags(ls[ln as int], ln as int).take(
                        ci as int,
                    ),
                decreases cols@.len() - ci,
            {
                let d = make_semicolon_diagnostic(ln, cols[ci]);
                proof {
                    assert(semi_diags(ls[ln as int], ln as int)[ci as int] == d@);
                    assert(semi_diags(ls[ln as int], ln as int).take(ci as int + 1) =~= semi_diags(
                        ls[ln as int],
                        ln as int,
                    ).take(ci as int).push(d@));
                    assert(diags_view(diags@.push(d)) =~= diags_view(diags@).push(d@));
                }
                diags.push(d);
                ci += 1;
            }
            proof {
                assert(semi_diags(ls[ln as int], ln as int).take(cols@.len() as int) =~= semi_diags(
                    ls[ln as int],
                    ln as int,
                ));
                assert(tail_diags_from(ls, ln as int) == semi_diags(ls[ln as int], ln as int)
                    + tail_diags_from(ls, ln as int + 1));
                assert(diags_view(diags@) + tail_diags_from(ls, ln as int + 1) =~~= dprev
                    + tail_diags_from(ls, ln as int));
            }
        } else {
            // the last line: the return rule
            if !line_contains_word(lines[ln].as_slice(), &return_w) {
                let d = make_return_diagnostic(ln);
                proof {
                    assert(tail_diags_from(ls, ln as int) == seq![d@]);
                    assert(tail_diags_from(ls, ln as int + 1) == Seq::<Diag>::empty());
                    assert(diags_view(diags@.push(d)) =~= diags_view(diags@).push(d@));
                    assert(diags_view(diags@).push(d@) + tail_diags_from(ls, ln as int + 1) =~~=
                        dprev + tail_diags_from(ls, ln as int));
                }
                diags.push(d);
            } else {
                proof {
                    assert(tail_diags_from(ls, ln as int) == Seq::<Diag>::empty());
                    assert(tail_diags_from(ls, ln as int + 1) == Seq::<Diag>::empty());
                }
            }
        }
        ln += 1;
    }
    proof {
        assert(tail_diags_from(ls, ln as int) == Seq::<Diag>::empty());
        assert(diags_view(diags@) =~~= dhead + tail_diags_from(ls, 1));
    }
    // the rick-roll link rule, over the whole document
    let occs = collect_links(&lines);
    rick_roll_diagnostics(&occs, &mut diags);
    proof {
        assert(diags_view(diags@) =~~= import_diags(ls) + single_line_diags(ls) + tail_diags_from(
            ls,
            1,
        ) + rick_diags(doc_links(ls)));
    }
    diags
}

} // verus!
