//! How verbs are shown on the terminal.

use vstd::prelude::*;
use crate::text::{chars_eq, chars_of};

verus! {

/// The (bold) colour of a verb.
#[derive(PartialEq, Eq, Structural, Clone, Copy, Debug)]
pub enum VerbStyle {
    Red,
    Yellow,
    Cyan,
    Blue,
    Green,
}

fn is(verb: &Vec<char>, word: &str) -> (b: bool)
    ensures
        b == (verb@ == word@),
{
    chars_eq(verb, &chars_of(word))
}

/// The colour of a verb on a full line: removals red, updates yellow, fetching
/// cyan, fresh blue, everything else green.
pub fn verb_style(verb: &str) -> (s: VerbStyle)
    ensures
        s == (if verb@ == "Removing"@ || verb@ == "Removed"@ {
            VerbStyle::Red
        } else if verb@ == "Updating"@ {
            VerbStyle::Yellow
        } else if verb@ == "Fetching"@ || verb@ == "Resolving"@ {
            VerbStyle::Cyan
        } else if verb@ == "Fresh"@ {
            VerbStyle::Blue
        } else {
            VerbStyle::Green
        }),
{
    let v = chars_of(verb);
    if is(&v, "Removing") || is(&v, "Removed") {
        VerbStyle::Red
    } else if is(&v, "Updating") {
        VerbStyle::Yellow
    } else if is(&v, "Fetching") || is(&v, "Resolving") {
        VerbStyle::Cyan
    } else if is(&v, "Fresh") {
        VerbStyle::Blue
    } else {
        VerbStyle::Green
    }
}

/// The colour of a verb on a line without a newline: compiling cyan, else green.
pub fn no_ln_style(verb: &str) -> (s: VerbStyle)
    ensures
        s == (if verb@ == "Compiling"@ {
            VerbStyle::Cyan
        } else {
            VerbStyle::Green
        }),
{
    if is(&chars_of(verb), "Compiling") {
        VerbStyle::Cyan
    } else {
        VerbStyle::Green
    }
}

} // verus!
