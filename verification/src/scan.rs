//! Character classes and the greedy scans over a line that the grammar is
//! built from.

use vstd::prelude::*;
use vstd::std_specs::iter::IteratorSpec;
use vstd::string::*;

verus! {

/// The sets of characters that the grammar scans runs of.
#[derive(Clone, Copy, Debug)]
pub enum CharClass {
    /// A space or a tab.
    Blank,
    /// `0` to `9`.
    Digit,
    /// An ASCII letter or digit.
    Alnum,
    /// A character of a distribution name: an ASCII letter or digit, `.`, `_` or `-`.
    NameChar,
    /// Every character but the given one.
    Except(char),
}

pub open spec fn is_digit(c: char) -> bool {
    '0' <= c && c <= '9'
}

pub open spec fn is_alnum(c: char) -> bool {
    is_digit(c) || ('a' <= c && c <= 'z') || ('A' <= c && c <= 'Z')
}

impl CharClass {
    /// Whether `c` belongs to the class.
    pub open spec fn holds(self, c: char) -> bool {
        match self {
            CharClass::Blank => c == ' ' || c == '\t',
            CharClass::Digit => is_digit(c),
            CharClass::Alnum => is_alnum(c),
            CharClass::NameChar => is_alnum(c) || c == '.' || c == '_' || c == '-',
            CharClass::Except(x) => c != x,
        }
    }

    /// Decides `holds`.
    pub fn contains(self, c: char) -> (result: bool)
        ensures
            result == self.holds(c),
    {
        match self {
            CharClass::Blank => c == ' ' || c == '\t',
            CharClass::Digit => '0' <= c && c <= '9',
            CharClass::Alnum => ('0' <= c && c <= '9') || ('a' <= c && c <= 'z') || ('A' <= c
                && c <= 'Z'),
            CharClass::NameChar => ('0' <= c && c <= '9') || ('a' <= c && c <= 'z') || ('A' <= c
                && c <= 'Z') || c == '.' || c == '_' || c == '-',
            CharClass::Except(x) => c != x,
        }
    }
}

/// The end of the longest run of characters of `class` that starts at `i`;
/// `i` itself where there is none.
pub open spec fn run_end(s: Seq<char>, i: int, class: CharClass) -> int
    decreases s.len() - i,
{
    if 0 <= i < s.len() && class.holds(s[i]) {
        run_end(s, i + 1, class)
    } else {
        i
    }
}

/// A run ends inside the line, at or after its start, and covers only
/// characters of its class; the character behind it, if any, is outside.
pub proof fn lemma_run_end(s: Seq<char>, i: int, class: CharClass)
    requires
        0 <= i <= s.len(),
    ensures
        i <= run_end(s, i, class) <= s.len(),
        forall|j: int| i <= j < run_end(s, i, class) ==> class.holds(#[trigger] s[j]),
        run_end(s, i, class) < s.len() ==> !class.holds(s[run_end(s, i, class)]),
    decreases s.len() - i,
{
    if i < s.len() && class.holds(s[i]) {
        lemma_run_end(s, i + 1, class);
    }
}

/// A run ends at `e` if every character from `i` up to `e` is of the class and
/// the character at `e`, if there is one, is not.
pub proof fn lemma_run_ends_at(s: Seq<char>, i: int, e: int, class: CharClass)
    requires
        0 <= i <= e <= s.len(),
        forall|j: int| i <= j < e ==> class.holds(#[trigger] s[j]),
        e < s.len() ==> !class.holds(s[e]),
    ensures
        run_end(s, i, class) == e,
    decreases e - i,
{
    if i < e {
        lemma_run_ends_at(s, i + 1, e, class);
    }
}

/// Whether every character of `s` is of the class.
pub open spec fn all_of(s: Seq<char>, class: CharClass) -> bool {
    forall|j: int| 0 <= j < s.len() ==> class.holds(#[trigger] s[j])
}

/// Whether `word` stands in `s` at position `i`.
pub open spec fn has_at(s: Seq<char>, i: int, word: Seq<char>) -> bool {
    0 <= i && i + word.len() <= s.len() && s.subrange(i, i + word.len()) == word
}

/// The lowercase form of an ASCII letter; other characters are kept.
pub open spec fn fold_case(c: char) -> char {
    if 'A' <= c && c <= 'Z' {
        ((c as u8 + 32) as u8) as char
    } else {
        c
    }
}

/// Whether `s` begins with `word`, letters compared without regard to case.
pub open spec fn begins_ignoring_case(s: Seq<char>, word: Seq<char>) -> bool {
    word.len() <= s.len() && forall|j: int|
        0 <= j < word.len() ==> fold_case(#[trigger] s[j]) == fold_case(word[j])
}

/// The characters of a string, one by one.
pub fn to_chars(text: &str) -> (chars: Vec<char>)
    ensures
        chars@ == text@,
{
    let mut chars: Vec<char> = Vec::new();
    let mut rest = text.chars();
    let ghost mut taken: int = 0;
    loop
        invariant
            0 <= taken <= text@.len(),
            rest.obeys_prophetic_iter_laws(),
            rest.decrease() is Some,
            rest.remaining() == text@.skip(taken),
            chars@ == text@.take(taken),
        decreases rest.decrease()->0,
    {
        match rest.next() {
            Some(c) => {
                proof {
                    taken = taken + 1;
                }
                chars.push(c);
            },
            None => {
                return chars;
            },
        }
    }
}

/// Computes `run_end`.
pub fn scan_run(s: &[char], i: usize, class: CharClass) -> (end: usize)
    requires
        i <= s@.len(),
    ensures
        end == run_end(s@, i as int, class),
        i <= end <= s@.len(),
{
    let mut j: usize = i;
    while j < s.len() && class.contains(s[j])
        invariant
            i <= j <= s@.len(),
            run_end(s@, i as int, class) == run_end(s@, j as int, class),
        decreases s@.len() - j,
    {
        j += 1;
    }
    j
}

/// The end of `word` where it stands in `s` at position `i`.
pub fn word_at(s: &[char], i: usize, word: &str) -> (result: Option<usize>)
    requires
        i <= s@.len(),
    ensures
        match result {
            Some(end) => has_at(s@, i as int, word@) && end == i + word@.len(),
            None => !has_at(s@, i as int, word@),
        },
{
    let w = to_chars(word);
    let n = w.len();
    if n > s.len() - i {
        return None;
    }
    let mut j: usize = 0;
    while j < n
        invariant
            j <= n,
            n == w@.len(),
            w@ == word@,
            i + n <= s@.len() <= usize::MAX,
            s@.subrange(i as int, i + j) == word@.subrange(0, j as int),
        decreases n - j,
    {
        if s[i + j] != w[j] {
            return None;
        }
        j += 1;
    }
    proof {
        assert(word@.subrange(0, n as int) =~= word@);
    }
    Some(i + n)
}

/// The lowercase form of an ASCII letter; computes `fold_case`.
pub fn fold(c: char) -> (result: char)
    ensures
        result == fold_case(c),
{
    if 'A' <= c && c <= 'Z' {
        ((c as u8) + 32) as char
    } else {
        c
    }
}

/// Decides `begins_ignoring_case`.
pub fn begins_with_ignoring_case(s: &[char], word: &str) -> (result: bool)
    ensures
        result == begins_ignoring_case(s@, word@),
{
    let w = to_chars(word);
    let n = w.len();
    if n > s.len() {
        return false;
    }
    let mut j: usize = 0;
    while j < n
        invariant
            j <= n,
            n == w@.len(),
            w@ == word@,
            n <= s@.len(),
            forall|k: int| 0 <= k < j ==> fold_case(#[trigger] s@[k]) == fold_case(word@[k]),
        decreases n - j,
    {
        if fold(s[j]) != fold(w[j]) {
            return false;
        }
        j += 1;
    }
    true
}

} // verus!
