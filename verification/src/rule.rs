//! Production rules written as text: `"<symbol> -> <replacement>"`.
//!
//! A rule text is cut at its first separator `->`. The first character of
//! the trimmed left side is the symbol that the rule matches. The replacement
//! is the trimmed text between the first separator and the next one, or the
//! end of the text. A text without a separator, or whose left side is blank,
//! is no rule at all.
use crate::text::{chars_of, string_of, trim, trim_range};
use vstd::prelude::*;

verus! {

/// A production rule: every occurrence of `from` becomes `to`.
pub struct Rule {
    pub from: char,
    pub to: String,
}

impl View for Rule {
    type V = (char, Seq<char>);

    open spec fn view(&self) -> (char, Seq<char>) {
        (self.from, self.to@)
    }
}

/// Whether a separator `->` starts at position `i` of `t`.
pub open spec fn separator_at(t: Seq<char>, i: int) -> bool {
    0 <= i && i + 1 < t.len() && t[i] == '-' && t[i + 1] == '>'
}

/// Whether `t` holds a separator anywhere.
pub open spec fn has_separator(t: Seq<char>) -> bool {
    exists|i: int| separator_at(t, i)
}

/// The position of the first separator of `t` at or after `i`, or `t.len()`
/// where there is none.
pub open spec fn separator_from(t: Seq<char>, i: int) -> int
    decreases t.len() - i,
{
    if i < 0 || i + 1 >= t.len() {
        t.len() as int
    } else if separator_at(t, i) {
        i
    } else {
        separator_from(t, i + 1)
    }
}

/// The left side of a rule text: what stands before its first separator.
pub open spec fn left_side(t: Seq<char>) -> Seq<char> {
    t.subrange(0, separator_from(t, 0))
}

/// The right side of a rule text with a separator: what stands between its
/// first separator and the next one, or the end of the text.
pub open spec fn right_side(t: Seq<char>) -> Seq<char> {
    let rest = t.subrange(separator_from(t, 0) + 2, t.len() as int);
    rest.subrange(0, separator_from(rest, 0))
}

/// The rule that the text `t` stands for, if it stands for one.
pub open spec fn parse_rule(t: Seq<char>) -> Option<(char, Seq<char>)> {
    if separator_from(t, 0) >= t.len() || trim(left_side(t)).len() == 0 {
        None
    } else {
        Some((trim(left_side(t))[0], trim(right_side(t))))
    }
}

/// `separator_from` finds a separator, and the first one, or reports that
/// `t` has none from `i` on.
pub proof fn lemma_separator_from(t: Seq<char>, i: int)
    requires
        0 <= i,
    ensures
        i <= separator_from(t, i) || separator_from(t, i) == t.len(),
        separator_from(t, i) <= t.len(),
        separator_from(t, i) < t.len() ==> separator_at(t, separator_from(t, i)),
        forall|j: int| i <= j < separator_from(t, i) ==> !separator_at(t, j),
    decreases t.len() - i,
{
    if i + 1 < t.len() && !separator_at(t, i) {
        lemma_separator_from(t, i + 1);
    }
}

/// Finds the first separator of `t[lo..]`: its position in `t`, or `t.len()`.
fn find_separator(t: &Vec<char>, lo: usize) -> (i: usize)
    requires
        lo <= t.len(),
    ensures
        lo <= i <= t.len(),
        i - lo == separator_from(t@.subrange(lo as int, t.len() as int), 0),
{
    let ghost rest = t@.subrange(lo as int, t.len() as int);
    let mut i: usize = lo;
    while i < t.len() && i + 1 < t.len()
        invariant
            lo <= i <= t.len(),
            rest == t@.subrange(lo as int, t.len() as int),
            separator_from(rest, 0) == separator_from(rest, i - lo),
        decreases t.len() - i,
    {
        if t[i] == '-' && t[i + 1] == '>' {
            return i;
        }
        i = i + 1;
    }
    t.len()
}

/// Reads a rule text. The result is `None` for a text that is no rule.
pub fn read_rule(text: &str) -> (r: Option<Rule>)
    ensures
        match r {
            Some(rule) => parse_rule(text@) == Some(rule@),
            None => parse_rule(text@) is None,
        },
{
    let t = chars_of(text);
    let n = t.len();
    let i = find_separator(&t, 0);
    assert(t@.subrange(0, n as int) == t@);
    if i >= n {
        return None;
    }
    proof {
        lemma_separator_from(t@, 0);
    }
    let (a, b) = trim_range(&t, 0, i);
    if a == b {
        return None;
    }
    let j = find_separator(&t, i + 2);
    let ghost rest = t@.subrange(i + 2, n as int);
    proof {
        lemma_separator_from(rest, 0);
        assert(rest.subrange(0, j - (i + 2)) == t@.subrange(i + 2, j as int));
    }
    let (c, d) = trim_range(&t, i + 2, j);
    let to = string_of(&t, c, d);
    Some(Rule { from: t[a], to })
}

/// A text without a separator, or with a blank left side, is no rule.
pub proof fn lemma_malformed_text_is_no_rule(t: Seq<char>)
    requires
        !has_separator(t) || trim(left_side(t)).len() == 0,
    ensures
        parse_rule(t) is None,
{
    lemma_separator_from(t, 0);
}

} // verus!
