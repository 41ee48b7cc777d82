//! Cutting the lines of a metadata file down to its header.

use crate::scan::{to_chars, word_at};
use vstd::prelude::*;
use vstd::string::*;

verus! {

/// The lines up to the first one that `stop_func` does not let pass.
///
/// `stop_func` says of a line whether reading goes on; the line on which it
/// says no, and every line after it, are left out.
pub fn get_lnreader<'a, F: Fn(&String) -> bool>(lines: &'a [String], stop_func: F) -> (result:
    &'a [String])
    requires
        forall|i: int| 0 <= i < lines@.len() ==> call_requires(stop_func, (&#[trigger] lines@[i],)),
    ensures
        result@.len() <= lines@.len(),
        result@ == lines@.take(result@.len() as int),
        forall|i: int|
            0 <= i < result@.len() ==> call_ensures(stop_func, (&#[trigger] lines@[i],), true),
        result@.len() < lines@.len() ==> call_ensures(
            stop_func,
            (&lines@[result@.len() as int],),
            false,
        ),
{
    let mut n: usize = 0;
    let mut going = true;
    while going && n < lines.len()
        invariant
            n <= lines@.len(),
            forall|i: int|
                0 <= i < lines@.len() ==> call_requires(stop_func, (&#[trigger] lines@[i],)),
            forall|i: int| 0 <= i < n ==> call_ensures(stop_func, (&#[trigger] lines@[i],), true),
            !going ==> n < lines@.len() && call_ensures(stop_func, (&lines@[n as int],), false),
        decreases lines@.len() - n + if going { 1int } else { 0int },
    {
        if stop_func(&lines[n]) {
            n += 1;
        } else {
            going = false;
        }
    }
    &lines[0..n]
}

/// Whether two strings hold the same text.
pub fn same_text(a: &str, b: &str) -> (result: bool)
    ensures
        result == (a@ == b@),
{
    let chars = to_chars(a);
    proof {
        assert(a@.subrange(0, a@.len() as int) =~= a@);
    }
    match word_at(chars.as_slice(), 0, b) {
        Some(end) => end == chars.len(),
        None => false,
    }
}

/// The line that ends the header of a metadata file.
pub open spec fn header_end() -> Seq<char> {
    "Description-Content-Type"@
}

/// The number of lines before the first one that is `header_end`.
pub open spec fn header_len(lines: Seq<Seq<char>>, i: int) -> int
    decreases lines.len() - i,
{
    if 0 <= i < lines.len() && lines[i] != header_end() {
        header_len(lines, i + 1)
    } else {
        i
    }
}

/// The header of a metadata file: the lines before the first one that is
/// `header_end`.
pub open spec fn header(lines: Seq<Seq<char>>) -> Seq<Seq<char>> {
    lines.take(header_len(lines, 0))
}

/// Whether a line belongs to the header: it is not the line that ends it.
pub fn is_header_line(line: &String) -> (result: bool)
    ensures
        result == (line@ != header_end()),
{
    !same_text(line.as_str(), "Description-Content-Type")
}

/// The header lines of a metadata file.
pub fn header_lines<'a>(lines: &'a [String]) -> (result: &'a [String])
    ensures
        crate::dag::texts(result@) == header(crate::dag::texts(lines@)),
{
    let result = get_lnreader(lines, is_header_line);
    proof {
        let all = crate::dag::texts(lines@);
        let n = result@.len() as int;
        lemma_header_len(all, 0, n);
    }
    result
}

/// The header is the beginning of the lines, holds no line that ends it, and
/// stops at the first such line, if there is one.
pub proof fn lemma_header(lines: Seq<Seq<char>>)
    ensures
        0 <= header_len(lines, 0) <= lines.len(),
        header(lines) == lines.take(header_len(lines, 0)),
        forall|j: int| 0 <= j < header(lines).len() ==> #[trigger] header(lines)[j] != header_end(),
        header_len(lines, 0) < lines.len() ==> lines[header_len(lines, 0)] == header_end(),
{
    lemma_header_len_bounds(lines, 0);
}

/// From `i` on, the header ends inside the lines, before it no line ends it,
/// and the line at its end, if there is one, does.
pub proof fn lemma_header_len_bounds(lines: Seq<Seq<char>>, i: int)
    requires
        0 <= i <= lines.len(),
    ensures
        i <= header_len(lines, i) <= lines.len(),
        forall|j: int| i <= j < header_len(lines, i) ==> #[trigger] lines[j] != header_end(),
        header_len(lines, i) < lines.len() ==> lines[header_len(lines, i)] == header_end(),
    decreases lines.len() - i,
{
    if i < lines.len() && lines[i] != header_end() {
        lemma_header_len_bounds(lines, i + 1);
    }
}

/// The header ends at `n` if no line from `i` up to `n` ends it and the line
/// at `n`, if there is one, does.
pub proof fn lemma_header_len(lines: Seq<Seq<char>>, i: int, n: int)
    requires
        0 <= i <= n <= lines.len(),
        forall|j: int| i <= j < n ==> #[trigger] lines[j] != header_end(),
        n < lines.len() ==> lines[n] == header_end(),
    ensures
        header_len(lines, i) == n,
    decreases n - i,
{
    if i < n {
        lemma_header_len(lines, i + 1, n);
    }
}

} // verus!
