//! The check that decides whether a page is worth saving: a save is due only
//! where the new text differs from the old one.
use vstd::prelude::*;
use similar::TextDiff;
use crate::text::{blank, is_blank};

verus! {

/// The unified line diff that similar writes from `old` to `new`.
pub uninterp spec fn unified_diff_of(old: Seq<char>, new: Seq<char>) -> Seq<char>;

/// Relies on similar's `TextDiff::from_lines` and its unified diff, written
/// out as text: equal texts have no hunks, and so an empty diff; differing
/// texts have at least one hunk, which begins with its `@@` header line.
#[verifier::external_body]
fn unified_diff(old: &str, new: &str) -> (r: String)
    ensures
        r@ == unified_diff_of(old@, new@),
        old@ == new@ ==> r@.len() == 0,
        old@ != new@ ==> !blank(r@),
{
    TextDiff::from_lines(old, new).unified_diff().to_string()
}

/// The unified line diff from `old` to `new`.
pub fn diff_text(old: &str, new: &str) -> (r: String)
    ensures
        r@ == unified_diff_of(old@, new@),
        old@ == new@ ==> r@.len() == 0,
        old@ != new@ ==> !blank(r@),
{
    unified_diff(old, new)
}

/// Whether a diff records any change: it holds more than whitespace.
pub fn has_changes(diff: &str) -> (r: bool)
    ensures
        r == !blank(diff@),
{
    !is_blank(diff)
}

/// Whether replacing `old` with `new` changes the page, by their diff: a
/// save is due exactly where the texts differ.
pub fn should_write(old: &str, new: &str) -> (r: bool)
    ensures
        r == !blank(unified_diff_of(old@, new@)),
        r == (old@ != new@),
{
    let diff = unified_diff(old, new);
    has_changes(diff.as_str())
}

} // verus!
