use internetarchive_core::auth::{S3Auth, S3PostAuth};
use internetarchive_core::errors::{AuthenticationError, ItemLocateError};
use internetarchive_core::strmap::StrMap;

#[test]
fn applies_low_auth_header() {
    let auth = S3Auth::new(Some("a".to_string()), Some("s".to_string()));
    let mut headers = StrMap::new();
    auth.apply(&mut headers).unwrap();
    assert_eq!(headers.get("Authorization"), Some(&"LOW a:s".to_string()));
}

#[test]
fn rejects_missing_auth_parts() {
    let auth = S3Auth::new(None, None);
    assert!(matches!(
        auth.apply(&mut StrMap::new()),
        Err(AuthenticationError::MissingAccessAndSecretKey)
    ));
}

#[test]
fn names_the_missing_key() {
    let mut headers: StrMap<String> = StrMap::new();
    headers.insert("Accept".to_string(), "*/*".to_string());
    let only_secret = S3Auth::new(None, Some("s".to_string()));
    assert_eq!(
        only_secret.apply(&mut headers),
        Err(AuthenticationError::MissingAccessKey)
    );
    let only_access = S3Auth::new(Some("a".to_string()), None);
    assert_eq!(
        only_access.apply(&mut headers),
        Err(AuthenticationError::MissingSecretKey)
    );
    // A refused request leaves the headers as they were.
    assert_eq!(headers.len(), 1);
    assert_eq!(headers.get("Authorization"), None);
    assert_eq!(headers.get("Accept"), Some(&"*/*".to_string()));
}

#[test]
fn auth_header_replaces_and_keeps_others() {
    let mut headers: StrMap<String> = StrMap::new();
    headers.insert("Authorization".to_string(), "old".to_string());
    headers.insert("Accept".to_string(), "*/*".to_string());
    S3Auth::new(Some("key".to_string()), Some("secret".to_string()))
        .apply(&mut headers)
        .unwrap();
    assert_eq!(headers.len(), 2);
    assert_eq!(headers.get("Authorization"), Some(&"LOW key:secret".to_string()));
    assert_eq!(headers.get("Accept"), Some(&"*/*".to_string()));
}

#[test]
fn post_auth_appends_credentials() {
    let mut body = "a=1".to_string();
    S3PostAuth::new(Some("k".to_string()), Some("s".to_string())).apply(&mut body);
    assert_eq!(body, "a=1&access=k&secret=s");
    let mut empty = String::new();
    S3PostAuth::new(None, None).apply(&mut empty);
    assert_eq!(empty, "&access=&secret=");
}

#[test]
fn authentication_error_messages() {
    assert_eq!(
        AuthenticationError::MissingAccessKey.message(),
        "No access_key set! Have you run `ia configure`?"
    );
    assert_eq!(
        AuthenticationError::MissingSecretKey.message(),
        "No secret_key set! Have you run `ia configure`?"
    );
    assert_eq!(
        AuthenticationError::MissingAccessAndSecretKey.message(),
        "No access_key or secret_key set! Have you run `ia configure`?"
    );
    assert_eq!(ItemLocateError("gone".to_string()).message(), "gone");
}
