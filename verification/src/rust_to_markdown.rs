//! Literate sources whose prose sits in plain block comments.

use crate::rs2md::{converted, Converter};
use crate::text::{chars_of, lines, string_of};
use vstd::prelude::*;

verus! {

/// The markup of a literate source whose prose sits in `/* ... */` blocks;
/// `/**` opens nothing here.
pub fn code_to_markdown(content: &str) -> (markdown: String)
    ensures
        markdown@ == converted(content@, false),
{
    let raws = lines(&chars_of(content));
    let mut c = Converter::new();
    c.feed_all(&raws, false);
    string_of(&c.markdown)
}

} // verus!
