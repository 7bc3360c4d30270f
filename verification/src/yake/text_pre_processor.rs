//! The first pass over the raw text.

use crate::common::text::{replace_pattern, replaced_or_same, trim, trimmed};
use crate::common::{get_space_regex, space_pattern};
use vstd::prelude::*;

verus! {

/// The text without its outer white space, and with every line break and
/// tab turned into a space. Where nothing but white space stands in the
/// text, nothing is left of it.
pub open spec fn processed_text(text: Seq<char>) -> Seq<char> {
    let t = trimmed(text);
    if t.len() == 0 {
        t
    } else {
        replaced_or_same(space_pattern(), t, seq![' '])
    }
}

/// The first pass over the raw text.
pub struct TextPreProcessor;

impl TextPreProcessor {
    /// Trims the text and turns its line breaks and tabs into spaces.
    pub fn process_text(text: &str) -> (r: String)
        ensures
            r@ == processed_text(text@),
            text@.len() == 0 ==> r@.len() == 0,
    {
        let trimmed_text = trim(text);
        if trimmed_text.as_str().is_empty() {
            return trimmed_text;
        }
        proof {
            reveal_strlit(" ");
            assert(" "@ =~= seq![' ']);
        }
        match replace_pattern(get_space_regex(), trimmed_text.as_str(), " ") {
            Some(r) => r,
            None => trimmed_text,
        }
    }
}

} // verus!
