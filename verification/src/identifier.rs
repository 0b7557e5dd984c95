//! Validated identifiers used by wrapper configuration.

use vstd::prelude::*;

use crate::error::DomainError;
use crate::text::{chars_of, string_of};

verus! {

/// Whether a character is an ASCII lowercase letter.
pub open spec fn is_lower(c: char) -> bool {
    'a' <= c && c <= 'z'
}

/// Whether a character is an ASCII decimal digit.
pub open spec fn is_digit(c: char) -> bool {
    '0' <= c && c <= '9'
}

/// Whether a character may follow the first one in an identifier.
pub open spec fn is_tail_char(c: char) -> bool {
    is_lower(c) || is_digit(c) || c == '_' || c == '-'
}

/// The identifier grammar: one to thirty-two characters, a lowercase letter or
/// digit first, then lowercase letters, digits, `_` and `-`.
///
/// Every accepted character is ASCII, so the character count is the byte count.
pub open spec fn is_identifier(s: Seq<char>) -> bool {
    &&& 1 <= s.len() <= 32
    &&& (is_lower(s[0]) || is_digit(s[0]))
    &&& forall|i: int| 1 <= i < s.len() ==> #[trigger] is_tail_char(s[i])
}

/// A lowercase, path-safe account or profile identifier.
#[derive(Debug, PartialEq, Eq)]
pub struct Identifier {
    value: String,
}

impl View for Identifier {
    type V = Seq<char>;

    closed spec fn view(&self) -> Seq<char> {
        self.value@
    }
}

impl Identifier {
    /// Every identifier value satisfies the grammar.
    #[verifier::type_invariant]
    spec fn grammar_holds(self) -> bool {
        is_identifier(self.value@)
    }

    /// Parses an identifier, returning the rejected text verbatim on failure.
    pub fn parse(value: &str) -> (r: Result<Identifier, DomainError>)
        ensures
            is_identifier(value@) ==> (r matches Ok(id) && id@ == value@),
            !is_identifier(value@) ==> (r matches Err(DomainError::InvalidIdentifier(text)) && text@ == value@),
    {
        let chars = chars_of(value);
        let n = chars.len();
        let mut valid = 1 <= n && n <= 32;
        if valid {
            let first = chars[0];
            valid = ('a' <= first && first <= 'z') || ('0' <= first && first <= '9');
        }
        let mut i: usize = 1;
        while valid && i < n
            invariant
                chars@ == value@,
                n == chars@.len(),
                1 <= i,
                valid ==> 1 <= n <= 32 && (is_lower(chars@[0]) || is_digit(chars@[0])),
                valid ==> forall|k: int| 1 <= k < i && k < n ==> #[trigger] is_tail_char(chars@[k]),
                !valid ==> !is_identifier(value@),
            decreases n - i,
        {
            let c = chars[i];
            if !(('a' <= c && c <= 'z') || ('0' <= c && c <= '9') || c == '_' || c == '-') {
                valid = false;
                proof {
                    assert(!is_tail_char(value@[i as int]));
                }
            }
            i = i + 1;
        }
        if valid {
            Ok(Identifier { value: string_of(&chars) })
        } else {
            Err(DomainError::InvalidIdentifier(string_of(&chars)))
        }
    }

    /// Borrows the validated identifier text.
    pub fn as_str(&self) -> (r: &str)
        ensures
            r@ == self@,
            is_identifier(r@),
    {
        proof {
            use_type_invariant(self);
        }
        self.value.as_str()
    }

    /// Returns an identifier with the same text.
    pub fn duplicate(&self) -> (r: Identifier)
        ensures
            r@ == self@,
    {
        proof {
            use_type_invariant(self);
        }
        Identifier { value: self.value.clone() }
    }

    /// Compares two identifiers by their text.
    pub fn same_as(&self, other: &Identifier) -> (r: bool)
        ensures
            r == (self@ == other@),
    {
        self.value == other.value
    }

    /// Moves the validated text out.
    pub fn into_string(self) -> (r: String)
        ensures
            r@ == self@,
            is_identifier(r@),
    {
        proof {
            use_type_invariant(&self);
        }
        self.value
    }
}

impl Clone for Identifier {
    fn clone(&self) -> (r: Self)
        ensures
            r@ == self@,
    {
        self.duplicate()
    }
}

impl std::str::FromStr for Identifier {
    type Err = DomainError;

    fn from_str(value: &str) -> (r: Result<Identifier, DomainError>)
        ensures
            is_identifier(value@) ==> (r matches Ok(id) && id@ == value@),
            !is_identifier(value@) ==> (r matches Err(DomainError::InvalidIdentifier(text)) && text@ == value@),
    {
        Identifier::parse(value)
    }
}

} // verus!
