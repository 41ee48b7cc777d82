//! Canonical form of distribution names: every maximal run of `-`, `_` and `.`
//! becomes a single `-`, and the result is lowercased.

use crate::scan::fold_case;
use regex::Regex;
use vstd::prelude::*;
use vstd::utf8::is_ascii_chars;

verus! {

/// The characters that separate the words of a distribution name.
pub open spec fn is_separator(c: char) -> bool {
    c == '-' || c == '_' || c == '.'
}

/// `s` with every maximal run of separators replaced by one `-`.
///
/// A `-` is emitted at the last character of each run; the other characters of
/// a run are dropped.
pub open spec fn collapse_separators(s: Seq<char>) -> Seq<char>
    decreases s.len(),
{
    if s.len() == 0 {
        Seq::empty()
    } else if !is_separator(s[0]) {
        seq![s[0]] + collapse_separators(s.drop_first())
    } else if s.len() > 1 && is_separator(s[1]) {
        collapse_separators(s.drop_first())
    } else {
        seq!['-'] + collapse_separators(s.drop_first())
    }
}

/// What `str::to_lowercase` makes of a string that holds characters outside
/// ASCII, where the Unicode case mappings decide.
pub uninterp spec fn unicode_lowercase(s: Seq<char>) -> Seq<char>;

/// The lowercase form of a string: character by character on ASCII text, the
/// Unicode mapping otherwise.
pub open spec fn lowercase_of(s: Seq<char>) -> Seq<char> {
    if is_ascii_chars(s) {
        s.map_values(|c: char| fold_case(c))
    } else {
        unicode_lowercase(s)
    }
}

/// The canonical form of a raw distribution name.
pub open spec fn normalized(name: Seq<char>) -> Seq<char> {
    lowercase_of(collapse_separators(name))
}

/// `regex::Regex::new(pattern)` followed by `Regex::replace_all(text, replacement)`.
///
/// Not proved: that for the character class `[-_.]+` and the replacement `-`
/// (which holds no `$`, so nothing is expanded) the leftmost, greedy,
/// non-overlapping matches are the maximal runs of separators, each of which is
/// replaced by one `-`. No other pattern is accepted, so compiling it
/// does not fail.
#[verifier::external_body]
fn replace_all(pattern: &str, text: &str, replacement: &str) -> (result: String)
    requires
        pattern@ == "[-_.]+"@,
        replacement@ == "-"@,
    ensures
        result@ == collapse_separators(text@),
{
    Regex::new(pattern).unwrap().replace_all(text, replacement).into_owned()
}

/// `str::to_lowercase`.
///
/// Not proved: that the result is a function of the text alone, and that on
/// ASCII text it lowercases `A` to `Z` and keeps every other character.
#[verifier::external_body]
fn to_lowercase(text: &str) -> (result: String)
    ensures
        is_ascii_chars(text@) ==> result@ == text@.map_values(|c: char| fold_case(c)),
        !is_ascii_chars(text@) ==> result@ == unicode_lowercase(text@),
{
    text.to_lowercase()
}

/// Canonicalizes a raw distribution name.
pub fn normalize_name(name: &str) -> (result: String)
    ensures
        result@ == normalized(name@),
{
    let collapsed = replace_all("[-_.]+", name, "-");
    to_lowercase(collapsed.as_str())
}

/// Every separator in `s` is a `-`, and no separator follows another.
pub open spec fn separators_collapsed(s: Seq<char>) -> bool {
    forall|i: int|
        0 <= i < s.len() && is_separator(#[trigger] s[i]) ==> s[i] == '-' && (i + 1 < s.len()
            ==> !is_separator(s[i + 1]))
}

/// Collapsing leaves only single `-` as separators, begins with the first
/// character of the text where that is no separator, and keeps ASCII text
/// ASCII.
pub proof fn lemma_collapse_collapses(s: Seq<char>)
    ensures
        separators_collapsed(collapse_separators(s)),
        s.len() == 0 ==> collapse_separators(s).len() == 0,
        s.len() > 0 && !is_separator(s[0]) ==> collapse_separators(s).len() > 0
            && collapse_separators(s)[0] == s[0],
        is_ascii_chars(s) ==> is_ascii_chars(collapse_separators(s)),
    decreases s.len(),
{
    if s.len() > 0 {
        lemma_collapse_collapses(s.drop_first());
    }
}

/// Collapsing changes nothing in a text whose separators are single `-`.
pub proof fn lemma_collapse_fixed(s: Seq<char>)
    requires
        separators_collapsed(s),
    ensures
        collapse_separators(s) == s,
    decreases s.len(),
{
    if s.len() > 0 {
        lemma_collapse_fixed(s.drop_first());
    }
}

/// Collapsing the separators is idempotent, whatever the text holds.
pub proof fn lemma_collapse_idempotent(s: Seq<char>)
    ensures
        collapse_separators(collapse_separators(s)) == collapse_separators(s),
{
    lemma_collapse_collapses(s);
    lemma_collapse_fixed(collapse_separators(s));
}

/// The canonical form of an ASCII name is ASCII, holds no uppercase letter,
/// and has single `-` as its only separators.
pub proof fn lemma_normalized_ascii(name: Seq<char>)
    requires
        is_ascii_chars(name),
    ensures
        is_ascii_chars(normalized(name)),
        separators_collapsed(normalized(name)),
        forall|i: int|
            0 <= i < normalized(name).len() ==> fold_case(#[trigger] normalized(name)[i])
                == normalized(name)[i],
{
    lemma_collapse_collapses(name);
}

/// On a name of ASCII characters normalization is idempotent: the canonical
/// form of a canonical form is that form.
pub proof fn lemma_normalize_idempotent_on_ascii(name: Seq<char>)
    requires
        is_ascii_chars(name),
    ensures
        normalized(normalized(name)) == normalized(name),
{
    lemma_normalized_ascii(name);
    lemma_collapse_fixed(normalized(name));
}

} // verus!
