//! The two line patterns of a document, and the regular expressions that
//! find them.

use crate::text::starts_with;
use regex::Regex;
use vstd::prelude::*;

verus! {

/// The regular expression for a top-level heading: `# ` at the start.
pub open spec fn heading_pattern() -> Seq<char> {
    "^# "@
}

/// The regular expression for a transclusion directive: `{{`, then any
/// characters, then `}}`.
pub open spec fn transclusion_pattern() -> Seq<char> {
    "\\{\\{.*\\}\\}"@
}

/// A top-level heading: a line that begins with `#` and a space.
pub open spec fn is_heading(line: Seq<char>) -> bool {
    starts_with(line, seq!['#', ' '])
}

/// The character `c` stands twice in `line`, at `i` and right behind.
pub open spec fn twice_at(line: Seq<char>, c: char, i: int) -> bool {
    0 <= i && i + 2 <= line.len() && line[i] == c && line[i + 1] == c
}

/// No line feed stands in `line` from `from` up to `to`.
pub open spec fn no_line_feed(line: Seq<char>, from: int, to: int) -> bool {
    forall|k: int| from <= k < to ==> #[trigger] line[k] != '\n'
}

/// A transclusion directive: `{{` and, somewhere behind it, `}}`, with no
/// line feed in between.
pub open spec fn has_transclusion(line: Seq<char>) -> bool {
    exists|i: int, j: int|
        #![trigger twice_at(line, '{', i), twice_at(line, '}', j)]
        twice_at(line, '{', i) && twice_at(line, '}', j) && i + 2 <= j && no_line_feed(
            line,
            i + 2,
            j,
        )
}

/// Whether a regular expression matches somewhere in `haystack`:
/// `regex::Regex::new` compiles `pattern` and `Regex::is_match` searches;
/// `None` where the pattern does not compile.
///
/// Believed, not proved: the two patterns of this crate compile, and each
/// means what its description says. In `^# ` the `^` stands for the start
/// of the haystack and the other two characters for themselves. In
/// `\{\{.*\}\}` the escaped braces stand for themselves and `.*` for any
/// run of characters other than a line feed. Of other patterns nothing is
/// said.
#[verifier::external_body]
pub(crate) fn is_match(pattern: &str, haystack: &str) -> (found: Option<bool>)
    ensures
        pattern@ == heading_pattern() ==> found == Some(is_heading(haystack@)),
        pattern@ == transclusion_pattern() ==> found == Some(has_transclusion(haystack@)),
{
    match Regex::new(pattern) {
        Ok(re) => Some(re.is_match(haystack)),
        Err(_) => None,
    }
}

} // verus!
