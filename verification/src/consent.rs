//! The confirmation answer rule: everything that is not consent declines.

use vstd::prelude::*;

use crate::text::{chars_of, eq_ignore_ascii_case, same_ignoring_ascii_case, trim, trim_chars};

verus! {

/// What one confirmation answer means.
#[derive(Clone, Copy, Debug, PartialEq, Eq, Structural)]
pub enum Consent {
    Granted,
    Declined,
}

impl Consent {
    /// Whether the answer consents.
    pub fn granted(self) -> (r: bool)
        ensures
            r <==> self == Consent::Granted,
    {
        match self {
            Consent::Granted => true,
            Consent::Declined => false,
        }
    }
}

/// Whether an answer consents: `y` or `yes`, in any ASCII case, once
/// surrounding white space is removed.
pub open spec fn consents(answer: Seq<char>) -> bool {
    eq_ignore_ascii_case(trim(answer), "y"@) || eq_ignore_ascii_case(trim(answer), "yes"@)
}

/// Decides one answer, asked once.
///
/// A bare Enter, an unrecognized word and end of input all decline: the
/// question guards a deletion, and a verb that re-asked would hang against a
/// terminal whose user has walked away.
pub fn decide(answer: Option<&str>) -> (r: Consent)
    ensures
        r == (match answer {
            Some(text) => if consents(text@) {
                Consent::Granted
            } else {
                Consent::Declined
            },
            None => Consent::Declined,
        }),
{
    match answer {
        Some(text) => {
            let value = trim_chars(&chars_of(text));
            let y = chars_of("y");
            let yes = chars_of("yes");
            if same_ignoring_ascii_case(&value, &y) || same_ignoring_ascii_case(&value, &yes) {
                Consent::Granted
            } else {
                Consent::Declined
            }
        },
        None => Consent::Declined,
    }
}

} // verus!
