//! Namespace identifiers.

use vstd::prelude::*;

verus! {

/// The pattern of a namespace: a letter or an underscore, then any word characters.
pub const IDENTIFIER_PATTERN: &'static str = r"^[a-zA-Z_]\w*$";

/// What `regex::Regex::is_match` returns for a pattern and a haystack, and `None` for a pattern
/// that `regex::Regex::new` does not compile.
pub uninterp spec fn regex_is_match(pattern: Seq<char>, haystack: Seq<char>) -> Option<bool>;

pub open spec fn is_ascii_letter(c: char) -> bool {
    'a' <= c <= 'z' || 'A' <= c <= 'Z'
}

/// A character that may begin an identifier.
pub open spec fn begins_identifier(c: char) -> bool {
    is_ascii_letter(c) || c == '_'
}

/// An ASCII word character: a letter, a digit or an underscore.
pub open spec fn is_ascii_word(c: char) -> bool {
    begins_identifier(c) || '0' <= c <= '9'
}

/// A text of ASCII characters alone.
pub open spec fn is_ascii_text(text: Seq<char>) -> bool {
    forall|i: int| 0 <= i < text.len() ==> (#[trigger] text[i] as u32) < 128
}

/// An ASCII text that is an identifier.
pub open spec fn is_ascii_identifier(text: Seq<char>) -> bool {
    &&& text.len() > 0
    &&& begins_identifier(text[0])
    &&& forall|i: int| 0 <= i < text.len() ==> is_ascii_word(#[trigger] text[i])
}

/// `regex::Regex::new`, then `regex::Regex::is_match` of the compiled pattern on the haystack.
/// The result is a function of the two texts. The identifier pattern compiles; it matches
/// only what begins with an ASCII letter or an underscore, and of the ASCII texts exactly those
/// that go on with ASCII letters, digits and underscores. Which other characters count as word
/// characters is left to the tables of `regex`.
#[verifier::external_body]
fn compile_and_match(pattern: &str, haystack: &str) -> (r: Option<bool>)
    ensures
        r == regex_is_match(pattern@, haystack@),
        pattern@ == IDENTIFIER_PATTERN@ ==> r is Some,
        pattern@ == IDENTIFIER_PATTERN@ && r == Some(true) ==> haystack@.len() > 0
            && begins_identifier(haystack@[0]),
        pattern@ == IDENTIFIER_PATTERN@ && is_ascii_text(haystack@) ==> r == Some(
            is_ascii_identifier(haystack@),
        ),
{
    match regex::Regex::new(pattern) {
        Ok(compiled) => Some(compiled.is_match(haystack)),
        Err(_) => None,
    }
}

/// Whether a text is the identifier of a namespace.
pub open spec fn is_identifier(text: Seq<char>) -> bool {
    regex_is_match(IDENTIFIER_PATTERN@, text) == Some(true)
}

/// Tests whether `text` is the identifier of a namespace.
pub fn test_identifier(text: &str) -> (r: bool)
    ensures
        r == is_identifier(text@),
        r ==> text@.len() > 0 && begins_identifier(text@[0]),
        is_ascii_text(text@) ==> r == is_ascii_identifier(text@),
{
    match compile_and_match(IDENTIFIER_PATTERN, text) {
        Some(matched) => matched,
        None => false,
    }
}

/// The text of a namespace annotation, with whether it is an identifier.
#[derive(Debug, PartialEq, Eq)]
pub struct NamespaceText {
    text: String,
    valid: bool,
}

impl NamespaceText {
    /// The text of the annotation.
    pub closed spec fn spec_text(self) -> Seq<char> {
        self.text@
    }

    /// Whether the text is an identifier.
    pub closed spec fn spec_valid(self) -> bool {
        self.valid
    }

    #[verifier::type_invariant]
    spec fn is_tested(self) -> bool {
        self.valid == is_identifier(self.text@)
    }

    /// Takes the text of an annotation and tests it.
    pub fn new(text: String) -> (r: Self)
        ensures
            r.spec_text() == text@,
            r.spec_valid() == is_identifier(text@),
            is_ascii_text(text@) ==> r.spec_valid() == is_ascii_identifier(text@),
    {
        let valid = test_identifier(text.as_str());
        NamespaceText { text, valid }
    }

    /// The text of the annotation.
    pub fn text(&self) -> (r: &String)
        ensures
            r@ == self.spec_text(),
    {
        &self.text
    }

    /// Whether the text is an identifier.
    pub fn is_valid(&self) -> (r: bool)
        ensures
            r == self.spec_valid(),
            r == is_identifier(self.spec_text()),
    {
        proof {
            use_type_invariant(self);
        }
        self.valid
    }
}

} // verus!
