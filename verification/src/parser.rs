//! The grammar of the metadata header lines: name, version and dependency
//! declarations, and the version comparisons that constrain a dependency.
//!
//! Every production is a greedy scan from left to right; no production looks
//! back. A line that matches no production is not an error: it is skipped.

use crate::scan::{
    all_of, begins_ignoring_case, begins_with_ignoring_case, has_at, lemma_run_end,
    lemma_run_ends_at, run_end, scan_run, to_chars, word_at, CharClass,
};
use vstd::prelude::*;
use vstd::string::*;

verus! {

/// The end of a version segment at `i`: a run of `class`, or `*` where
/// wildcards are allowed; `i` itself where there is none.
pub open spec fn segment_end(s: Seq<char>, i: int, class: CharClass, wildcard: bool) -> int {
    if wildcard && 0 <= i < s.len() && s[i] == '*' {
        i + 1
    } else {
        run_end(s, i, class)
    }
}

/// The end of the longest sequence of `.` and segment that starts at `i`.
/// A `.` that no segment follows is not taken.
pub open spec fn dotted_end(s: Seq<char>, i: int, class: CharClass, wildcard: bool) -> int
    decreases s.len() - i,
    via dotted_end_decreases
{
    if 0 <= i < s.len() && s[i] == '.' && i + 1 < segment_end(s, i + 1, class, wildcard) {
        dotted_end(s, segment_end(s, i + 1, class, wildcard), class, wildcard)
    } else {
        i
    }
}

#[via_fn]
proof fn dotted_end_decreases(s: Seq<char>, i: int, class: CharClass, wildcard: bool) {
    if 0 <= i < s.len() {
        lemma_run_end(s, i + 1, class);
    }
}

/// The end of an epoch (`N!`) at `i`; `i` itself where there is none.
pub open spec fn epoch_end(s: Seq<char>, i: int) -> int {
    let d = run_end(s, i, CharClass::Digit);
    if i < d < s.len() && s[d] == '!' {
        d + 1
    } else {
        i
    }
}

/// The end of `tag` followed by a number at `i`; `i` itself where there is none.
pub open spec fn tagged_end(s: Seq<char>, i: int, tag: Seq<char>) -> int {
    let k = i + tag.len();
    if has_at(s, i, tag) && k < run_end(s, k, CharClass::Digit) {
        run_end(s, k, CharClass::Digit)
    } else {
        i
    }
}

/// The end of a pre-release qualifier (`rcN`, `aN` or `bN`) at `i`; `i` itself
/// where there is none.
pub open spec fn pre_release_end(s: Seq<char>, i: int) -> int {
    if i < tagged_end(s, i, "rc"@) {
        tagged_end(s, i, "rc"@)
    } else if i < tagged_end(s, i, "a"@) {
        tagged_end(s, i, "a"@)
    } else {
        tagged_end(s, i, "b"@)
    }
}

/// The end of a local version (`+` and alphanumeric segments separated by `.`)
/// at `i`; `i` itself where there is none.
pub open spec fn local_end(s: Seq<char>, i: int) -> int {
    if 0 <= i < s.len() && s[i] == '+' && i + 1 < run_end(s, i + 1, CharClass::Alnum) {
        dotted_end(s, run_end(s, i + 1, CharClass::Alnum), CharClass::Alnum, false)
    } else {
        i
    }
}

/// The end of the version token that starts at `i`, if one does: an optional
/// epoch, one or more release segments separated by `.`, then, each optional
/// and in this order, a pre-release qualifier, `.postN`, `.devN` and a local
/// version. With `wildcard`, a release segment may be `*`.
pub open spec fn version_end(s: Seq<char>, i: int, wildcard: bool) -> Option<int> {
    let e = epoch_end(s, i);
    let first = segment_end(s, e, CharClass::Digit, wildcard);
    if e < first {
        let release = dotted_end(s, first, CharClass::Digit, wildcard);
        let pre = pre_release_end(s, release);
        let post = tagged_end(s, pre, ".post"@);
        let dev = tagged_end(s, post, ".dev"@);
        Some(local_end(s, dev))
    } else {
        None
    }
}

/// The end of the comparison operator at `i`, the longest first; `i` itself
/// where there is none.
pub open spec fn operator_end(s: Seq<char>, i: int) -> int {
    if has_at(s, i, "==="@) {
        i + "==="@.len()
    } else if has_at(s, i, "=="@) {
        i + "=="@.len()
    } else if has_at(s, i, "!="@) {
        i + "!="@.len()
    } else if has_at(s, i, "<="@) {
        i + "<="@.len()
    } else if has_at(s, i, ">="@) {
        i + ">="@.len()
    } else if has_at(s, i, "~="@) {
        i + "~="@.len()
    } else if has_at(s, i, "<"@) {
        i + "<"@.len()
    } else if has_at(s, i, ">"@) {
        i + ">"@.len()
    } else {
        i
    }
}

/// The end of the clause at `i`, if one stands there: an operator, blanks, and
/// a version token that may hold wildcards.
pub open spec fn clause_end(s: Seq<char>, i: int) -> Option<int> {
    let o = operator_end(s, i);
    if i < o {
        version_end(s, run_end(s, o, CharClass::Blank), true)
    } else {
        None
    }
}

/// Where the scan goes on after a clause that ended at `e`: behind the comma
/// that follows it and the blanks round that comma; `e` itself where no comma
/// follows.
pub open spec fn after_comma(s: Seq<char>, e: int) -> int {
    let c = run_end(s, e, CharClass::Blank);
    if 0 <= c < s.len() && s[c] == ',' {
        run_end(s, c + 1, CharClass::Blank)
    } else {
        e
    }
}

/// The end of the clauses that start at `i`, separated by commas, if at least
/// one stands there and a clause follows every comma.
pub open spec fn clauses_end(s: Seq<char>, i: int) -> Option<int>
    decreases s.len() - i,
    via clauses_end_decreases
{
    match clause_end(s, i) {
        None => None,
        Some(e) => {
            if e < after_comma(s, e) {
                clauses_end(s, after_comma(s, e))
            } else {
                Some(e)
            }
        },
    }
}

#[via_fn]
proof fn clauses_end_decreases(s: Seq<char>, i: int) {
    if 0 <= i <= s.len() {
        lemma_clause_end(s, i);
        if clause_end(s, i) is Some {
            lemma_after_comma(s, clause_end(s, i).unwrap());
        }
    }
}

/// A segment ends inside the line, at or after its start.
pub proof fn lemma_segment_end(s: Seq<char>, i: int, class: CharClass, wildcard: bool)
    requires
        0 <= i <= s.len(),
    ensures
        i <= segment_end(s, i, class, wildcard) <= s.len(),
{
    lemma_run_end(s, i, class);
}

/// A sequence of dotted segments ends inside the line, at or after its start.
pub proof fn lemma_dotted_end(s: Seq<char>, i: int, class: CharClass, wildcard: bool)
    requires
        0 <= i <= s.len(),
    ensures
        i <= dotted_end(s, i, class, wildcard) <= s.len(),
    decreases s.len() - i,
{
    if i < s.len() && s[i] == '.' && i + 1 < segment_end(s, i + 1, class, wildcard) {
        lemma_segment_end(s, i + 1, class, wildcard);
        lemma_dotted_end(s, segment_end(s, i + 1, class, wildcard), class, wildcard);
    }
}

/// A number behind a tag ends inside the line, at or after the start of the tag.
pub proof fn lemma_tagged_end(s: Seq<char>, i: int, tag: Seq<char>)
    requires
        0 <= i <= s.len(),
    ensures
        i <= tagged_end(s, i, tag) <= s.len(),
{
    if has_at(s, i, tag) {
        lemma_run_end(s, i + tag.len(), CharClass::Digit);
    }
}

/// A version token is not empty and ends inside the line.
pub proof fn lemma_version_end(s: Seq<char>, i: int, wildcard: bool)
    requires
        0 <= i <= s.len(),
    ensures
        version_end(s, i, wildcard) is Some ==> i < version_end(s, i, wildcard).unwrap()
            <= s.len(),
{
    let e = epoch_end(s, i);
    lemma_segment_end(s, e, CharClass::Digit, wildcard);
    let first = segment_end(s, e, CharClass::Digit, wildcard);
    if e < first {
        lemma_dotted_end(s, first, CharClass::Digit, wildcard);
        let release = dotted_end(s, first, CharClass::Digit, wildcard);
        lemma_tagged_end(s, release, "rc"@);
        lemma_tagged_end(s, release, "a"@);
        lemma_tagged_end(s, release, "b"@);
        let pre = pre_release_end(s, release);
        lemma_tagged_end(s, pre, ".post"@);
        let post = tagged_end(s, pre, ".post"@);
        lemma_tagged_end(s, post, ".dev"@);
        let dev = tagged_end(s, post, ".dev"@);
        if dev < s.len() && s[dev] == '+' {
            lemma_run_end(s, dev + 1, CharClass::Alnum);
            if dev + 1 < run_end(s, dev + 1, CharClass::Alnum) {
                lemma_dotted_end(
                    s,
                    run_end(s, dev + 1, CharClass::Alnum),
                    CharClass::Alnum,
                    false,
                );
            }
        }
    }
}

/// A clause is not empty and ends inside the line.
pub proof fn lemma_clause_end(s: Seq<char>, i: int)
    requires
        0 <= i <= s.len(),
    ensures
        clause_end(s, i) is Some ==> i < clause_end(s, i).unwrap() <= s.len(),
{
    let o = operator_end(s, i);
    if i < o {
        lemma_run_end(s, o, CharClass::Blank);
        lemma_version_end(s, run_end(s, o, CharClass::Blank), true);
    }
}

/// The scan goes on inside the line, behind a comma or where the clause ended.
pub proof fn lemma_after_comma(s: Seq<char>, e: int)
    requires
        0 <= e <= s.len(),
    ensures
        e <= after_comma(s, e) <= s.len(),
{
    lemma_run_end(s, e, CharClass::Blank);
    let c = run_end(s, e, CharClass::Blank);
    if c < s.len() {
        lemma_run_end(s, c + 1, CharClass::Blank);
    }
}

/// Whether `text` is a version comparison: blanks, one or more clauses
/// separated by commas, blanks, and then either nothing or an environment
/// marker, which `;` introduces and which is not looked into.
pub open spec fn is_version_comparison(text: Seq<char>) -> bool {
    match clauses_end(text, run_end(text, 0, CharClass::Blank)) {
        None => false,
        Some(e) => {
            let m = run_end(text, e, CharClass::Blank);
            m == text.len() || (0 <= m < text.len() && text[m] == ';')
        },
    }
}

/// The clauses of a version comparison alone, without the blanks that lead
/// them and without the environment marker.
pub open spec fn pure_constraint(text: Seq<char>) -> Option<Seq<char>> {
    let start = run_end(text, 0, CharClass::Blank);
    match clauses_end(text, start) {
        Some(e) => {
            if is_version_comparison(text) {
                Some(text.subrange(start, e))
            } else {
                None
            }
        },
        None => None,
    }
}

/// The raw name that a name declaration holds: the keyword `Name:` in any
/// case, blanks, a name token, and blanks up to the end of the line.
pub open spec fn name_declaration(line: Seq<char>) -> Option<Seq<char>> {
    let start = run_end(line, "name:"@.len() as int, CharClass::Blank);
    let end = run_end(line, start, CharClass::NameChar);
    if begins_ignoring_case(line, "name:"@) && start < end && run_end(line, end, CharClass::Blank)
        == line.len() {
        Some(line.subrange(start, end))
    } else {
        None
    }
}

/// The version that a version declaration holds, as it is written: the keyword
/// `Version:` in any case, blanks, a version token without wildcards, and
/// blanks up to the end of the line.
pub open spec fn version_declaration(line: Seq<char>) -> Option<Seq<char>> {
    let start = run_end(line, "version:"@.len() as int, CharClass::Blank);
    match version_end(line, start, false) {
        Some(end) => {
            if begins_ignoring_case(line, "version:"@) && run_end(line, end, CharClass::Blank)
                == line.len() {
                Some(line.subrange(start, end))
            } else {
                None
            }
        },
        None => None,
    }
}

/// A line declares the name `name` exactly if it is made of the keyword
/// `Name:` in any case, blanks, the name, which is not empty and holds name
/// characters only, and blanks again.
pub proof fn lemma_name_declaration(line: Seq<char>, name: Seq<char>)
    ensures
        name_declaration(line) == Some(name) <==> name.len() > 0 && all_of(
            name,
            CharClass::NameChar,
        ) && exists|keyword: Seq<char>, before: Seq<char>, after: Seq<char>|
            #![trigger keyword + before + name + after]
            line == keyword + before + name + after && begins_ignoring_case(keyword, "name:"@)
                && keyword.len() == "name:"@.len() && all_of(before, CharClass::Blank) && all_of(
                after,
                CharClass::Blank,
            ),
{
    let k = "name:"@.len() as int;
    if name_declaration(line) == Some(name) {
        let start = run_end(line, k, CharClass::Blank);
        let end = run_end(line, start, CharClass::NameChar);
        lemma_run_end(line, k, CharClass::Blank);
        lemma_run_end(line, start, CharClass::NameChar);
        lemma_run_end(line, end, CharClass::Blank);
        let keyword = line.subrange(0, k);
        let before = line.subrange(k, start);
        let after = line.subrange(end, line.len() as int);
        assert(line =~= keyword + before + name + after);
    }
    if name.len() > 0 && all_of(name, CharClass::NameChar) && exists|
        keyword: Seq<char>,
        before: Seq<char>,
        after: Seq<char>,
    |
        #![trigger keyword + before + name + after]
        line == keyword + before + name + after && begins_ignoring_case(keyword, "name:"@)
            && keyword.len() == "name:"@.len() && all_of(before, CharClass::Blank) && all_of(
            after,
            CharClass::Blank,
        ) {
        let (keyword, before, after) = choose|
            keyword: Seq<char>,
            before: Seq<char>,
            after: Seq<char>,
        |
            #![trigger keyword + before + name + after]
            line == keyword + before + name + after && begins_ignoring_case(keyword, "name:"@)
                && keyword.len() == "name:"@.len() && all_of(before, CharClass::Blank) && all_of(
                after,
                CharClass::Blank,
            );
        let start = k + before.len();
        let end = start + name.len();
        lemma_run_ends_at(line, k, start, CharClass::Blank);
        lemma_run_ends_at(line, start, end, CharClass::NameChar);
        lemma_run_ends_at(line, end, line.len() as int, CharClass::Blank);
        assert(line.subrange(start, end) =~= name);
    }
}

/// A line declares a dependency on `name` exactly if it is made of the keyword
/// `Requires-Dist:` as written, blanks, the name, which is not empty and holds
/// name characters only, and a rest that does not go on with a name
/// character. What it says of the dependency is read from that rest.
pub proof fn lemma_dependency_declaration(line: Seq<char>, name: Seq<char>, text: Seq<char>)
    ensures
        dependency_declaration(line) == Some((name, text)) <==> name.len() > 0 && all_of(
            name,
            CharClass::NameChar,
        ) && exists|before: Seq<char>, rest: Seq<char>|
            dependency_parts(line, before, name, rest) && text == requirement_text(
                line,
                line.len() - rest.len(),
            ),
{
    let k = "Requires-Dist:"@.len() as int;
    if dependency_declaration(line) == Some((name, text)) {
        let start = run_end(line, k, CharClass::Blank);
        let end = run_end(line, start, CharClass::NameChar);
        lemma_run_end(line, k, CharClass::Blank);
        lemma_run_end(line, start, CharClass::NameChar);
        let before = line.subrange(k, start);
        let rest = line.subrange(end, line.len() as int);
        assert(line =~= "Requires-Dist:"@ + before + name + rest);
        assert(dependency_parts(line, before, name, rest));
    }
    if name.len() > 0 && all_of(name, CharClass::NameChar) && exists|
        before: Seq<char>,
        rest: Seq<char>,
    |
        dependency_parts(line, before, name, rest) && text == requirement_text(
            line,
            line.len() - rest.len(),
        ) {
        let (before, rest) = choose|before: Seq<char>, rest: Seq<char>|
            dependency_parts(line, before, name, rest) && text == requirement_text(
                line,
                line.len() - rest.len(),
            );
        lemma_dependency_parts(line, before, name, rest);
    }
}

/// Whether `line` is the keyword `Requires-Dist:`, the blanks `before`, `name`
/// and a `rest` that does not go on with a name character.
pub open spec fn dependency_parts(
    line: Seq<char>,
    before: Seq<char>,
    name: Seq<char>,
    rest: Seq<char>,
) -> bool {
    line == "Requires-Dist:"@ + before + name + rest && all_of(before, CharClass::Blank) && (
    rest.len() > 0 ==> !CharClass::NameChar.holds(rest[0]))
}

/// The scan of a line of such parts finds the name between the blanks and the
/// rest.
pub proof fn lemma_dependency_parts(
    line: Seq<char>,
    before: Seq<char>,
    name: Seq<char>,
    rest: Seq<char>,
)
    requires
        dependency_parts(line, before, name, rest),
        name.len() > 0,
        all_of(name, CharClass::NameChar),
    ensures
        dependency_declaration(line) == Some(
            (name, requirement_text(line, line.len() - rest.len())),
        ),
{
    let k = "Requires-Dist:"@.len() as int;
    let start = k + before.len();
    let end = start + name.len();
    assert(line.subrange(0, k) =~= "Requires-Dist:"@);
    lemma_run_ends_at(line, k, start, CharClass::Blank);
    lemma_run_ends_at(line, start, end, CharClass::NameChar);
}

/// A declared name and a declared version stand in the line as they are
/// captured, letter for letter.
pub proof fn lemma_declarations_verbatim(line: Seq<char>)
    ensures
        name_declaration(line) is Some ==> exists|a: int, b: int|
            0 <= a <= b <= line.len() && name_declaration(line).unwrap()
                == #[trigger] line.subrange(a, b),
        version_declaration(line) is Some ==> exists|a: int, b: int|
            0 <= a <= b <= line.len() && version_declaration(line).unwrap()
                == #[trigger] line.subrange(a, b),
{
    if version_declaration(line) is Some {
        let start = run_end(line, "version:"@.len() as int, CharClass::Blank);
        lemma_version_end(line, start, false);
    }
}

/// A declared version is never empty.
pub proof fn lemma_version_declaration(line: Seq<char>)
    ensures
        version_declaration(line) is Some ==> version_declaration(line).unwrap().len() > 0,
{
    if version_declaration(line) is Some {
        lemma_version_end(line, run_end(line, "version:"@.len() as int, CharClass::Blank), false);
    }
}

/// The end of a bracketed list of extras at `i`; `i` itself where none stands
/// there.
pub open spec fn extras_end(s: Seq<char>, i: int) -> int {
    let close = run_end(s, i, CharClass::Except(']'));
    if 0 <= i < s.len() && s[i] == '[' && close < s.len() {
        close + 1
    } else {
        i
    }
}

/// What a dependency declaration says behind the name token that ends at `i`:
/// the rest of the line without the blanks and the extras that lead it, and,
/// where it begins with a parenthesized part, without that pair of parentheses.
pub open spec fn requirement_text(s: Seq<char>, i: int) -> Seq<char> {
    let begin = run_end(s, extras_end(s, run_end(s, i, CharClass::Blank)), CharClass::Blank);
    let close = run_end(s, begin, CharClass::Except(')'));
    if 0 <= begin < s.len() && s[begin] == '(' && close < s.len() {
        s.subrange(begin + 1, close) + s.subrange(close + 1, s.len() as int)
    } else {
        s.subrange(begin, s.len() as int)
    }
}

/// The raw name and the requirement text that a dependency declaration holds:
/// the keyword `Requires-Dist:` as written, blanks, a name token, and the
/// rest of the line.
pub open spec fn dependency_declaration(line: Seq<char>) -> Option<(Seq<char>, Seq<char>)> {
    let start = run_end(line, "Requires-Dist:"@.len() as int, CharClass::Blank);
    let end = run_end(line, start, CharClass::NameChar);
    if has_at(line, 0, "Requires-Dist:"@) && start < end {
        Some((line.subrange(start, end), requirement_text(line, end)))
    } else {
        None
    }
}

/// Computes `segment_end`.
fn scan_segment(s: &[char], i: usize, class: CharClass, wildcard: bool) -> (end: usize)
    requires
        i <= s@.len(),
    ensures
        end == segment_end(s@, i as int, class, wildcard),
        i <= end <= s@.len(),
{
    if wildcard && i < s.len() && s[i] == '*' {
        i + 1
    } else {
        scan_run(s, i, class)
    }
}

/// Computes `dotted_end`.
fn scan_dotted(s: &[char], i: usize, class: CharClass, wildcard: bool) -> (end: usize)
    requires
        i <= s@.len(),
    ensures
        end == dotted_end(s@, i as int, class, wildcard),
        i <= end <= s@.len(),
{
    let mut j: usize = i;
    loop
        invariant
            i <= j <= s@.len(),
            dotted_end(s@, i as int, class, wildcard) == dotted_end(s@, j as int, class, wildcard),
        decreases s@.len() - j,
    {
        if j < s.len() && s[j] == '.' {
            let next = scan_segment(s, j + 1, class, wildcard);
            if j + 1 < next {
                j = next;
            } else {
                return j;
            }
        } else {
            return j;
        }
    }
}

/// Computes `epoch_end`.
fn scan_epoch(s: &[char], i: usize) -> (end: usize)
    requires
        i <= s@.len(),
    ensures
        end == epoch_end(s@, i as int),
        i <= end <= s@.len(),
{
    let d = scan_run(s, i, CharClass::Digit);
    if i < d && d < s.len() && s[d] == '!' {
        d + 1
    } else {
        i
    }
}

/// Computes `tagged_end`.
fn scan_tagged(s: &[char], i: usize, tag: &str) -> (end: usize)
    requires
        i <= s@.len(),
    ensures
        end == tagged_end(s@, i as int, tag@),
        i <= end <= s@.len(),
{
    match word_at(s, i, tag) {
        Some(k) => {
            let d = scan_run(s, k, CharClass::Digit);
            if k < d {
                d
            } else {
                i
            }
        },
        None => i,
    }
}

/// Computes `pre_release_end`.
fn scan_pre_release(s: &[char], i: usize) -> (end: usize)
    requires
        i <= s@.len(),
    ensures
        end == pre_release_end(s@, i as int),
        i <= end <= s@.len(),
{
    let rc = scan_tagged(s, i, "rc");
    if i < rc {
        return rc;
    }
    let a = scan_tagged(s, i, "a");
    if i < a {
        return a;
    }
    scan_tagged(s, i, "b")
}

/// Computes `local_end`.
fn scan_local(s: &[char], i: usize) -> (end: usize)
    requires
        i <= s@.len(),
    ensures
        end == local_end(s@, i as int),
        i <= end <= s@.len(),
{
    if i < s.len() && s[i] == '+' {
        let first = scan_run(s, i + 1, CharClass::Alnum);
        if i + 1 < first {
            scan_dotted(s, first, CharClass::Alnum, false)
        } else {
            i
        }
    } else {
        i
    }
}

/// Computes `version_end`.
fn scan_version(s: &[char], i: usize, wildcard: bool) -> (end: Option<usize>)
    requires
        i <= s@.len(),
    ensures
        match end {
            Some(e) => version_end(s@, i as int, wildcard) == Some(e as int) && i < e <= s@.len(),
            None => version_end(s@, i as int, wildcard) is None,
        },
{
    let e = scan_epoch(s, i);
    let first = scan_segment(s, e, CharClass::Digit, wildcard);
    if e < first {
        let release = scan_dotted(s, first, CharClass::Digit, wildcard);
        let pre = scan_pre_release(s, release);
        let post = scan_tagged(s, pre, ".post");
        let dev = scan_tagged(s, post, ".dev");
        Some(scan_local(s, dev))
    } else {
        None
    }
}

/// Computes `operator_end`.
fn scan_operator(s: &[char], i: usize) -> (end: usize)
    requires
        i <= s@.len(),
    ensures
        end == operator_end(s@, i as int),
        i <= end <= s@.len(),
{
    if let Some(end) = word_at(s, i, "===") {
        end
    } else if let Some(end) = word_at(s, i, "==") {
        end
    } else if let Some(end) = word_at(s, i, "!=") {
        end
    } else if let Some(end) = word_at(s, i, "<=") {
        end
    } else if let Some(end) = word_at(s, i, ">=") {
        end
    } else if let Some(end) = word_at(s, i, "~=") {
        end
    } else if let Some(end) = word_at(s, i, "<") {
        end
    } else if let Some(end) = word_at(s, i, ">") {
        end
    } else {
        i
    }
}

/// Computes `clause_end`.
fn scan_clause(s: &[char], i: usize) -> (end: Option<usize>)
    requires
        i <= s@.len(),
    ensures
        match end {
            Some(e) => clause_end(s@, i as int) == Some(e as int) && i < e <= s@.len(),
            None => clause_end(s@, i as int) is None,
        },
{
    let o = scan_operator(s, i);
    if i < o {
        let v = scan_run(s, o, CharClass::Blank);
        scan_version(s, v, true)
    } else {
        None
    }
}

/// Computes `after_comma`.
fn scan_comma(s: &[char], e: usize) -> (next: usize)
    requires
        e <= s@.len(),
    ensures
        next == after_comma(s@, e as int),
        e <= next <= s@.len(),
{
    let c = scan_run(s, e, CharClass::Blank);
    if c < s.len() && s[c] == ',' {
        scan_run(s, c + 1, CharClass::Blank)
    } else {
        e
    }
}

/// Computes `clauses_end`.
fn scan_clauses(s: &[char], i: usize) -> (end: Option<usize>)
    requires
        i <= s@.len(),
    ensures
        match end {
            Some(e) => clauses_end(s@, i as int) == Some(e as int) && i < e <= s@.len(),
            None => clauses_end(s@, i as int) is None,
        },
{
    let mut j: usize = i;
    loop
        invariant
            i <= j <= s@.len(),
            clauses_end(s@, i as int) == clauses_end(s@, j as int),
        decreases s@.len() - j,
    {
        match scan_clause(s, j) {
            None => {
                return None;
            },
            Some(e) => {
                let next = scan_comma(s, e);
                if e < next {
                    j = next;
                } else {
                    return Some(e);
                }
            },
        }
    }
}

/// Computes `extras_end`.
fn scan_extras(s: &[char], i: usize) -> (end: usize)
    requires
        i <= s@.len(),
    ensures
        end == extras_end(s@, i as int),
        i <= end <= s@.len(),
{
    let close = scan_run(s, i, CharClass::Except(']'));
    if i < s.len() && s[i] == '[' && close < s.len() {
        close + 1
    } else {
        i
    }
}

/// The parser of the metadata header lines.
pub struct DepParser;

impl DepParser {
    /// Matches a line against the name declaration.
    pub fn parse_name_row(line: &str) -> (result: Option<String>)
        ensures
            match result {
                Some(name) => name_declaration(line@) == Some(name@),
                None => name_declaration(line@) is None,
            },
    {
        let s = to_chars(line);
        if !begins_with_ignoring_case(s.as_slice(), "name:") {
            return None;
        }
        let start = scan_run(s.as_slice(), "name:".unicode_len(), CharClass::Blank);
        let end = scan_run(s.as_slice(), start, CharClass::NameChar);
        if start < end && scan_run(s.as_slice(), end, CharClass::Blank) == s.len() {
            Some(line.substring_char(start, end).to_owned())
        } else {
            None
        }
    }

    /// Matches a line against the version declaration.
    pub fn parse_version_row(line: &str) -> (result: Option<String>)
        ensures
            match result {
                Some(version) => version_declaration(line@) == Some(version@),
                None => version_declaration(line@) is None,
            },
    {
        let s = to_chars(line);
        if !begins_with_ignoring_case(s.as_slice(), "version:") {
            return None;
        }
        let start = scan_run(s.as_slice(), "version:".unicode_len(), CharClass::Blank);
        match scan_version(s.as_slice(), start, false) {
            Some(end) => {
                if scan_run(s.as_slice(), end, CharClass::Blank) == s.len() {
                    Some(line.substring_char(start, end).to_owned())
                } else {
                    None
                }
            },
            None => None,
        }
    }

    /// Matches a line against the dependency declaration.
    pub fn parse_required_distribution_row(line: &str) -> (result: Option<(String, String)>)
        ensures
            match result {
                Some((name, text)) => dependency_declaration(line@) == Some((name@, text@)),
                None => dependency_declaration(line@) is None,
            },
    {
        let s = to_chars(line);
        let keyword_end = match word_at(s.as_slice(), 0, "Requires-Dist:") {
            Some(end) => end,
            None => {
                return None;
            },
        };
        let start = scan_run(s.as_slice(), keyword_end, CharClass::Blank);
        let end = scan_run(s.as_slice(), start, CharClass::NameChar);
        if !(start < end) {
            return None;
        }
        let name = line.substring_char(start, end).to_owned();
        let after_name = scan_run(s.as_slice(), end, CharClass::Blank);
        let after_extras = scan_extras(s.as_slice(), after_name);
        let begin = scan_run(s.as_slice(), after_extras, CharClass::Blank);
        let close = scan_run(s.as_slice(), begin, CharClass::Except(')'));
        if begin < s.len() && s[begin] == '(' && close < s.len() {
            proof {
                lemma_run_end(s@, begin + 1, CharClass::Except(')'));
            }
            let mut text = line.substring_char(begin + 1, close).to_owned();
            text.append(line.substring_char(close + 1, s.len()));
            Some((name, text))
        } else {
            Some((name, line.substring_char(begin, s.len()).to_owned()))
        }
    }

    /// Extracts the clauses of a requirement text that is a version
    /// comparison, leaving out the environment marker.
    pub fn parse_version_comparison(text: &str) -> (result: Option<String>)
        ensures
            match result {
                Some(clauses) => pure_constraint(text@) == Some(clauses@),
                None => !is_version_comparison(text@),
            },
    {
        let s = to_chars(text);
        let start = scan_run(s.as_slice(), 0, CharClass::Blank);
        match scan_clauses(s.as_slice(), start) {
            None => None,
            Some(e) => {
                let m = scan_run(s.as_slice(), e, CharClass::Blank);
                if m == s.len() || s[m] == ';' {
                    Some(text.substring_char(start, e).to_owned())
                } else {
                    None
                }
            },
        }
    }

    /// Decides whether a requirement text is a version comparison, with or
    /// without an environment marker behind it.
    pub fn check_version_comparison(text: &str) -> (result: bool)
        ensures
            result == is_version_comparison(text@),
    {
        let s = to_chars(text);
        let start = scan_run(s.as_slice(), 0, CharClass::Blank);
        match scan_clauses(s.as_slice(), start) {
            None => false,
            Some(e) => {
                let m = scan_run(s.as_slice(), e, CharClass::Blank);
                m == s.len() || s[m] == ';'
            },
        }
    }
}

} // verus!
