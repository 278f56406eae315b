//! Labels for optional values.

use vstd::prelude::*;

verus! {

/// `value` behind its `label`, and nothing at all when `value` is empty.
pub open spec fn labelled(label: Seq<char>, value: Seq<char>) -> Seq<char> {
    if value.len() == 0 {
        Seq::empty()
    } else {
        label + value
    }
}

pub fn format_or_empty(label: &str, value: &String) -> (text: String)
    ensures
        text@ == labelled(label@, value@),
{
    if value.as_str().is_empty() {
        return String::new();
    }
    let mut text = String::from_str(label);
    text.append(value.as_str());
    text
}

} // verus!
