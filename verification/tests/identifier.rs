use internetarchive_core::errors::IdentifierError;
use internetarchive_core::identifier::validate_s3_identifier;

#[test]
fn accepts_valid_identifiers() {
    for identifier in ["nasa", "archive.org", "@user_item"] {
        assert!(validate_s3_identifier(identifier).is_ok());
    }
}

#[test]
fn rejects_short_identifiers() {
    assert_eq!(validate_s3_identifier("ab"), Err(IdentifierError::TooShort));
}

#[test]
fn rejects_invalid_leading_characters() {
    assert!(matches!(
        validate_s3_identifier(".abc"),
        Err(IdentifierError::InvalidLeadingCharacter('.'))
    ));
}

#[test]
fn rejects_invalid_characters() {
    assert!(matches!(
        validate_s3_identifier("føø"),
        Err(IdentifierError::InvalidCharacter('ø'))
    ));
}

#[test]
fn length_bounds_are_inclusive() {
    let hundred = "a".repeat(100);
    assert_eq!(validate_s3_identifier(&hundred), Ok(()));
    let too_long = "a".repeat(101);
    assert_eq!(validate_s3_identifier(&too_long), Err(IdentifierError::TooLong));
    assert_eq!(validate_s3_identifier("abc"), Ok(()));
    assert_eq!(validate_s3_identifier(""), Err(IdentifierError::TooShort));
}

#[test]
fn length_counts_characters_not_bytes() {
    // Three characters, six bytes: long enough, but `ø` is not allowed.
    assert_eq!(
        validate_s3_identifier("øøø"),
        Err(IdentifierError::InvalidCharacter('ø'))
    );
}

#[test]
fn leading_at_sign_is_skipped_before_the_leading_rule() {
    assert_eq!(
        validate_s3_identifier("@_abc"),
        Err(IdentifierError::InvalidLeadingCharacter('_'))
    );
    assert_eq!(
        validate_s3_identifier("-abc"),
        Err(IdentifierError::InvalidLeadingCharacter('-'))
    );
    assert_eq!(validate_s3_identifier("@ab"), Ok(()));
    // Only one leading `@` is skipped; a second one is an illegal character.
    assert_eq!(
        validate_s3_identifier("@@ab"),
        Err(IdentifierError::InvalidCharacter('@'))
    );
}

#[test]
fn reports_first_illegal_character() {
    assert_eq!(
        validate_s3_identifier("ab c!"),
        Err(IdentifierError::InvalidCharacter(' '))
    );
    assert_eq!(
        validate_s3_identifier("!abc"),
        Err(IdentifierError::InvalidCharacter('!'))
    );
}

#[test]
fn identifier_error_messages() {
    assert_eq!(
        IdentifierError::TooShort.message(),
        "Identifier should be between 3 and 80 characters in length."
    );
    assert_eq!(
        IdentifierError::TooLong.message(),
        "Identifier should be between 3 and 80 characters in length."
    );
    assert_eq!(
        IdentifierError::InvalidLeadingCharacter('.').message(),
        "Identifier cannot begin with periods \".\", underscores \"_\", or dashes \"-\". Found '.'."
    );
    assert_eq!(
        IdentifierError::InvalidCharacter('ø').message(),
        "Identifier can only contain alphanumeric characters, periods \".\", underscores \"_\", or dashes \"-\". Found 'ø'."
    );
    assert_eq!(
        IdentifierError::InvalidCharacter('\'').message(),
        "Identifier can only contain alphanumeric characters, periods \".\", underscores \"_\", or dashes \"-\". Found '\\''."
    );
}
