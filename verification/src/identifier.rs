use vstd::prelude::*;

use crate::errors::IdentifierError;

verus! {

/// Characters that may appear in an identifier: ASCII letters and digits, `.`, `_` and `-`.
pub open spec fn is_legal_identifier_char_spec(c: char) -> bool {
    ||| ('a' <= c && c <= 'z')
    ||| ('A' <= c && c <= 'Z')
    ||| ('0' <= c && c <= '9')
    ||| c == '.'
    ||| c == '_'
    ||| c == '-'
}

/// Characters that may not open an identifier (after an optional `@`).
pub open spec fn is_forbidden_leading_char(c: char) -> bool {
    c == '.' || c == '_' || c == '-'
}

/// The part of an identifier that is checked character by character:
/// everything after one optional leading `@`.
pub open spec fn identifier_body(s: Seq<char>) -> Seq<char> {
    if s.len() > 0 && s[0] == '@' {
        s.drop_first()
    } else {
        s
    }
}

/// Index of the first character at or after `i` that is not legal.
pub open spec fn first_illegal_from(s: Seq<char>, i: int) -> Option<int>
    decreases s.len() - i,
{
    if i < 0 || i >= s.len() {
        None
    } else if !is_legal_identifier_char_spec(s[i]) {
        Some(i)
    } else {
        first_illegal_from(s, i + 1)
    }
}

/// The outcome of validating the identifier whose characters are `s`.
pub open spec fn identifier_verdict(s: Seq<char>) -> Result<(), IdentifierError> {
    let body = identifier_body(s);
    if s.len() < 3 {
        Err(IdentifierError::TooShort)
    } else if s.len() > 100 {
        Err(IdentifierError::TooLong)
    } else if is_forbidden_leading_char(body[0]) {
        Err(IdentifierError::InvalidLeadingCharacter(body[0]))
    } else {
        match first_illegal_from(body, 0) {
            Some(i) => Err(IdentifierError::InvalidCharacter(body[i])),
            None => Ok(()),
        }
    }
}

/// A legal identifier: 3 to 100 characters, an optional leading `@`, then a
/// first character that is not `.`, `_` or `-`, and only legal characters.
pub open spec fn is_valid_identifier(s: Seq<char>) -> bool {
    let body = identifier_body(s);
    &&& 3 <= s.len() <= 100
    &&& !is_forbidden_leading_char(body[0])
    &&& forall|i: int| 0 <= i < body.len() ==> is_legal_identifier_char_spec(#[trigger] body[i])
}

proof fn lemma_first_illegal_none(s: Seq<char>, i: int)
    requires
        0 <= i <= s.len(),
    ensures
        first_illegal_from(s, i) is None <==> forall|j: int|
            i <= j < s.len() ==> is_legal_identifier_char_spec(#[trigger] s[j]),
        first_illegal_from(s, i) matches Some(k) ==> i <= k < s.len()
            && !is_legal_identifier_char_spec(s[k]),
    decreases s.len() - i,
{
    if i < s.len() {
        lemma_first_illegal_none(s, i + 1);
    }
}

/// Validity is exactly the absence of an error.
pub proof fn lemma_verdict_ok_iff_valid(s: Seq<char>)
    ensures
        identifier_verdict(s) is Ok <==> is_valid_identifier(s),
{
    if 3 <= s.len() <= 100 {
        lemma_first_illegal_none(identifier_body(s), 0);
    }
}

fn is_legal_identifier_char(ch: char) -> (r: bool)
    ensures
        r == is_legal_identifier_char_spec(ch),
{
    ('a' <= ch && ch <= 'z') || ('A' <= ch && ch <= 'Z') || ('0' <= ch && ch <= '9') || ch == '.'
        || ch == '_' || ch == '-'
}

/// Validate that a string is a legal Archive.org identifier.
///
/// - length must be between 3 and 100 characters inclusive
/// - the identifier may not begin with `.`, `_`, or `-`
/// - `@` is allowed as a leading character for user items
/// - remaining characters must be alphanumeric, `.`, `_`, or `-`
pub fn validate_s3_identifier(identifier: &str) -> (r: Result<(), IdentifierError>)
    ensures
        r == identifier_verdict(identifier@),
        r is Ok <==> is_valid_identifier(identifier@),
{
    proof {
        lemma_verdict_ok_iff_valid(identifier@);
    }
    let length = identifier.unicode_len();
    if length < 3 {
        return Err(IdentifierError::TooShort);
    }
    if length > 100 {
        return Err(IdentifierError::TooLong);
    }
    let start: usize = if identifier.get_char(0) == '@' { 1 } else { 0 };
    let ghost body = identifier_body(identifier@);
    assert(body =~= identifier@.subrange(start as int, length as int));
    let first = identifier.get_char(start);
    if first == '.' || first == '_' || first == '-' {
        return Err(IdentifierError::InvalidLeadingCharacter(first));
    }
    let mut i: usize = start;
    while i < length
        invariant
            start <= i <= length,
            length == identifier@.len(),
            body == identifier@.subrange(start as int, length as int),
            first_illegal_from(body, 0) == first_illegal_from(body, i - start),
            3 <= length <= 100,
            body == identifier_body(identifier@),
            !is_forbidden_leading_char(body[0]),
        decreases length - i,
    {
        let ch = identifier.get_char(i);
        if !is_legal_identifier_char(ch) {
            return Err(IdentifierError::InvalidCharacter(ch));
        }
        i = i + 1;
    }
    Ok(())
}

} // verus!
