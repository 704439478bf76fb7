use vstd::prelude::*;

use crate::strings::push_str;

verus! {

/// Errors produced while validating Archive.org identifiers.
#[derive(Debug, Clone, PartialEq, Eq, Structural)]
pub enum IdentifierError {
    /// The identifier is shorter than the supported minimum length.
    TooShort,
    /// The identifier exceeds the supported maximum length.
    TooLong,
    /// The identifier starts with a forbidden leading character.
    InvalidLeadingCharacter(char),
    /// The identifier contains an unsupported character.
    InvalidCharacter(char),
}

/// Errors produced while applying Archive.org authentication.
#[derive(Debug, Clone, PartialEq, Eq, Structural)]
pub enum AuthenticationError {
    MissingAccessKey,
    MissingSecretKey,
    MissingAccessAndSecretKey,
}

/// Errors raised when an item cannot be found in metadata.
#[derive(Debug, Clone, PartialEq, Eq)]
pub struct ItemLocateError(pub String);

/// The text of `format!("{c:?}")`: the character quoted, with the escapes
/// that `char::escape_debug` makes.
pub uninterp spec fn char_debug_text(c: char) -> Seq<char>;

/// `format!("{c:?}")` for a character. The contract claims only that the
/// text depends on `c` alone; it is named `char_debug_text`.
#[verifier::external_body]
fn char_debug(c: char) -> (s: String)
    ensures
        s@ == char_debug_text(c),
{
    format!("{c:?}")
}

pub open spec fn identifier_error_message(e: IdentifierError) -> Seq<char> {
    match e {
        IdentifierError::TooShort => "Identifier should be between 3 and 80 characters in length."@,
        IdentifierError::TooLong => "Identifier should be between 3 and 80 characters in length."@,
        IdentifierError::InvalidLeadingCharacter(ch) =>
            "Identifier cannot begin with periods \".\", underscores \"_\", or dashes \"-\". Found "@
                + char_debug_text(ch) + "."@,
        IdentifierError::InvalidCharacter(ch) =>
            "Identifier can only contain alphanumeric characters, periods \".\", underscores \"_\", or dashes \"-\". Found "@
                + char_debug_text(ch) + "."@,
    }
}

impl IdentifierError {
    /// The text shown for this error.
    pub fn message(&self) -> (r: String)
        ensures
            r@ == identifier_error_message(*self),
    {
        match self {
            IdentifierError::TooShort => "Identifier should be between 3 and 80 characters in length.".to_owned(),
            IdentifierError::TooLong => "Identifier should be between 3 and 80 characters in length.".to_owned(),
            IdentifierError::InvalidLeadingCharacter(ch) => {
                let mut s = "Identifier cannot begin with periods \".\", underscores \"_\", or dashes \"-\". Found ".to_owned();
                let d = char_debug(*ch);
                push_str(&mut s, d.as_str());
                push_str(&mut s, ".");
                s
            },
            IdentifierError::InvalidCharacter(ch) => {
                let mut s = "Identifier can only contain alphanumeric characters, periods \".\", underscores \"_\", or dashes \"-\". Found ".to_owned();
                let d = char_debug(*ch);
                push_str(&mut s, d.as_str());
                push_str(&mut s, ".");
                s
            },
        }
    }
}

pub open spec fn authentication_error_message(e: AuthenticationError) -> Seq<char> {
    match e {
        AuthenticationError::MissingAccessKey => "No access_key set! Have you run `ia configure`?"@,
        AuthenticationError::MissingSecretKey => "No secret_key set! Have you run `ia configure`?"@,
        AuthenticationError::MissingAccessAndSecretKey =>
            "No access_key or secret_key set! Have you run `ia configure`?"@,
    }
}

impl AuthenticationError {
    /// The text shown for this error.
    pub fn message(&self) -> (r: String)
        ensures
            r@ == authentication_error_message(*self),
    {
        match self {
            AuthenticationError::MissingAccessKey => "No access_key set! Have you run `ia configure`?".to_owned(),
            AuthenticationError::MissingSecretKey => "No secret_key set! Have you run `ia configure`?".to_owned(),
            AuthenticationError::MissingAccessAndSecretKey => "No access_key or secret_key set! Have you run `ia configure`?".to_owned(),
        }
    }
}

impl ItemLocateError {
    /// The text shown for this error: the message it carries.
    pub fn message(&self) -> (r: String)
        ensures
            r@ == self.0@,
    {
        self.0.clone()
    }
}

} // verus!
