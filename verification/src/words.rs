//! Whole-word, case-insensitive matching over line bytes, used by the
//! import rule (first line must contain "import") and the return rule
//! (last line must contain "return").

use vstd::prelude::*;

verus! {

/// A word byte: ASCII letter, digit, or underscore.
pub open spec fn is_word_byte(b: u8) -> bool {
    (97 <= b && b <= 122)  // 'a'..='z'
    || (65 <= b && b <= 90)  // 'A'..='Z'
    || (48 <= b && b <= 57)  // '0'..='9'
    || b == 95  // '_'
}

/// ASCII lower-casing of one byte.
pub open spec fn lower(b: u8) -> u8 {
    if 65 <= b && b <= 90 {
        (b + 32) as u8
    } else {
        b
    }
}

/// `word` occurs in `line` starting at `i`, matched case-insensitively,
/// with a word boundary on both sides.
pub open spec fn word_at(line: Seq<u8>, word: Seq<u8>, i: int) -> bool {
    &&& 0 <= i
    &&& i + word.len() <= line.len()
    &&& (forall|j: int| 0 <= j < word.len() ==> lower(line[i + j]) == word[j])
    &&& (i == 0 || !is_word_byte(line[i - 1]))
    &&& (i + word.len() == line.len() || !is_word_byte(line[i + word.len()]))
}

/// `line` contains `word` as a whole word, case-insensitively.
pub open spec fn contains_word(line: Seq<u8>, word: Seq<u8>) -> bool {
    exists|i: int| word_at(line, word, i)
}

/// The bytes of "import".
pub open spec fn import_word() -> Seq<u8> {
    seq![105u8, 109u8, 112u8, 111u8, 114u8, 116u8]
}

/// The bytes of "return".
pub open spec fn return_word() -> Seq<u8> {
    seq![114u8, 101u8, 116u8, 117u8, 114u8, 110u8]
}

/// The bytes of "import", for the scan.
pub fn import_word_bytes() -> (w: Vec<u8>)
    ensures
        w@ == import_word(),
{
    let mut w: Vec<u8> = Vec::new();
    w.push(105);
    w.push(109);
    w.push(112);
    w.push(111);
    w.push(114);
    w.push(116);
    proof {
        assert(w@ =~= import_word());
    }
    w
}

/// The bytes of "return", for the scan.
pub fn return_word_bytes() -> (w: Vec<u8>)
    ensures
        w@ == return_word(),
{
    let mut w: Vec<u8> = Vec::new();
    w.push(114);
    w.push(101);
    w.push(116);
    w.push(117);
    w.push(114);
    w.push(110);
    proof {
        assert(w@ =~= return_word());
    }
    w
}

/// Whether `b` is a word byte.
pub fn is_word_byte_ex(b: u8) -> (r: bool)
    ensures
        r == is_word_byte(b),
{
    (97 <= b && b <= 122) || (65 <= b && b <= 90) || (48 <= b && b <= 57) || b == 95
}

/// ASCII lower-casing of one byte.
pub fn lower_ex(b: u8) -> (r: u8)
    ensures
        r == lower(b),
{
    if 65 <= b && b <= 90 {
        b + 32
    } else {
        b
    }
}

/// `word` occurs at position `i` of `line`, whole-word and case-insensitive.
fn word_at_ex(line: &[u8], word: &Vec<u8>, i: usize) -> (r: bool)
    requires
        i + word@.len() <= line@.len(),
    ensures
        r == word_at(line@, word@, i as int),
{
    if i > 0 && is_word_byte_ex(line[i - 1]) {
        return false;
    }
    let stop: usize = i + word.len();
    if stop < line.len() && is_word_byte_ex(line[stop]) {
        return false;
    }
    let mut j: usize = 0;
    while j < word.len()
        invariant
            i + word@.len() <= line@.len(),
            line@.len() <= usize::MAX,
            j <= word@.len(),
            forall|m: int| 0 <= m < j ==> lower(line@[i + m]) == word@[m],
            i == 0 || !is_word_byte(line@[i as int - 1]),
            i + word@.len() == line@.len() || !is_word_byte(line@[i + word@.len()]),
        decreases word@.len() - j,
    {
        if lower_ex(line[i + j]) != word[j] {
            return false;
        }
        j += 1;
    }
    true
}

/// Scan `line` for `word` as a case-insensitive whole word.
pub fn line_contains_word(line: &[u8], word: &Vec<u8>) -> (r: bool)
    requires
        word@.len() >= 1,
    ensures
        r == contains_word(line@, word@),
{
    if word.len() > line.len() {
        proof {
            assert(forall|i: int| !word_at(line@, word@, i));
        }
        return false;
    }
    let mut i: usize = 0;
    while i <= line.len() - word.len()
        invariant
            1 <= word@.len() <= line@.len(),
            line@.len() <= usize::MAX,
            i <= line@.len() - word@.len() + 1,
            forall|m: int| 0 <= m < i ==> !word_at(line@, word@, m),
        decreases line@.len() - i,
    {
        if word_at_ex(line, word, i) {
            return true;
        }
        i += 1;
    }
    proof {
        assert forall|m: int| !word_at(line@, word@, m) by {
            if 0 <= m < i {
            } else {
                assert(!word_at(line@, word@, m));
            }
        }
    }
    false
}

} // verus!
