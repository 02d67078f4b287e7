//! Diagnostic values: the rule codes, positions and fixed messages.

use vstd::prelude::*;

verus! {

/// The mathematical content of a diagnostic: which rule fired, and the
/// 0-based point position (start == end) it fired at.
pub struct Diag {
    pub code: int,
    pub line: int,
    pub col: int,
}

/// A rule violation at a 0-based point position. The severity of every
/// diagnostic this engine produces is Error; the message is a fixed
/// string determined by `code` (see [`Diagnostic::message`]).
#[derive(Clone, Copy, Debug, PartialEq, Eq, Structural)]
pub struct Diagnostic {
    /// Rule code, one of 2, 3, 4, 5.
    pub code: u32,
    /// 0-based line index.
    pub line: usize,
    /// 0-based column (byte offset within the line).
    pub character: usize,
}

impl View for Diagnostic {
    type V = Diag;

    open spec fn view(&self) -> Diag {
        Diag { code: self.code as int, line: self.line as int, col: self.character as int }
    }
}

/// The sequence of positions-and-codes carried by a diagnostic list.
pub open spec fn diags_view(ds: Seq<Diagnostic>) -> Seq<Diag> {
    ds.map_values(|d: Diagnostic| d@)
}

/// The fixed message attached to each rule code.
pub open spec fn spec_message(code: int) -> Seq<char> {
    if code == 2 {
        "All posts and comments should start with an \"import\" declaration."@
    } else if code == 3 {
        "All comments must return a value"@
    } else if code == 4 {
        "For comments, every sentence must end with a semicolon"@
    } else {
        "Every post linking to something must contain a second, identical-looking link to a rick-roll"@
    }
}

impl Diagnostic {
    /// The fixed message for this diagnostic's rule.
    pub fn message(&self) -> (m: &'static str)
        ensures
            m@ == spec_message(self.code as int),
    {
        if self.code == 2 {
            "All posts and comments should start with an \"import\" declaration."
        } else if self.code == 3 {
            "All comments must return a value"
        } else if self.code == 4 {
            "For comments, every sentence must end with a semicolon"
        } else {
            "Every post linking to something must contain a second, identical-looking link to a rick-roll"
        }
    }
}

/// Missing-import violation: always at the very start of the document.
pub fn make_import_diagnostic() -> (d: Diagnostic)
    ensures
        d@ == (Diag { code: 2, line: 0, col: 0 }),
{
    Diagnostic { code: 2, line: 0, character: 0 }
}

/// Missing-return violation at the start of the given line.
pub fn make_return_diagnostic(line_no: usize) -> (d: Diagnostic)
    ensures
        d@ == (Diag { code: 3, line: line_no as int, col: 0 }),
{
    Diagnostic { code: 3, line: line_no, character: 0 }
}

/// Missing-semicolon violation at the given position.
pub fn make_semicolon_diagnostic(line_no: usize, char_no: usize) -> (d: Diagnostic)
    ensures
        d@ == (Diag { code: 4, line: line_no as int, col: char_no as int }),
{
    Diagnostic { code: 4, line: line_no, character: char_no }
}

/// Missing-rick-roll violation at the given position.
pub fn make_link_rick_roll_diagnostic(line_no: usize, char_pos: usize) -> (d: Diagnostic)
    ensures
        d@ == (Diag { code: 5, line: line_no as int, col: char_pos as int }),
{
    Diagnostic { code: 5, line: line_no, character: char_pos }
}

} // verus!
