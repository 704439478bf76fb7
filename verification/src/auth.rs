use vstd::prelude::*;

use crate::errors::AuthenticationError;
use crate::strings::push_str;
use crate::strmap::{keys_sorted, lemma_model_insert_get, lemma_string_map_insert, model_get, model_insert, string_map_view, StrMap};

verus! {

/// IA-S3 request authentication.
#[derive(Debug, Clone, PartialEq, Eq)]
pub struct S3Auth {
    pub access_key: Option<String>,
    pub secret_key: Option<String>,
}

/// The `Authorization` header value for a pair of keys.
pub open spec fn low_auth_value(access: Seq<char>, secret: Seq<char>) -> Seq<char> {
    "LOW "@ + access + ":"@ + secret
}

impl S3Auth {
    /// Create a new S3 auth helper.
    pub fn new(access_key: Option<String>, secret_key: Option<String>) -> (r: Self)
        ensures
            r.access_key == access_key,
            r.secret_key == secret_key,
    {
        S3Auth { access_key, secret_key }
    }

    /// Apply the `Authorization` header: `LOW <access>:<secret>` when both
    /// keys are set; otherwise the error that names what is missing, with the
    /// headers left as they were.
    pub fn apply(&self, headers: &mut StrMap<String>) -> (r: Result<(), AuthenticationError>)
        ensures
            match (self.access_key, self.secret_key) {
                (Some(a), Some(s)) => r is Ok && string_map_view(*final(headers)) == model_insert(
                    string_map_view(*old(headers)),
                    "Authorization"@,
                    low_auth_value(a@, s@),
                ),
                (None, Some(_)) => r == Err::<(), AuthenticationError>(
                    AuthenticationError::MissingAccessKey,
                ) && *final(headers) == *old(headers),
                (Some(_), None) => r == Err::<(), AuthenticationError>(
                    AuthenticationError::MissingSecretKey,
                ) && *final(headers) == *old(headers),
                (None, None) => r == Err::<(), AuthenticationError>(
                    AuthenticationError::MissingAccessAndSecretKey,
                ) && *final(headers) == *old(headers),
            },
            keys_sorted(old(headers).keys()) ==> keys_sorted(final(headers).keys()),
    {
        match (&self.access_key, &self.secret_key) {
            (Some(access), Some(secret)) => {
                let mut value = "LOW ".to_owned();
                push_str(&mut value, access.as_str());
                push_str(&mut value, ":");
                push_str(&mut value, secret.as_str());
                let key = "Authorization".to_owned();
                proof {
                    lemma_string_map_insert(headers.entries@, key, value);
                }
                headers.insert(key, value);
                Ok(())
            },
            (None, Some(_)) => Err(AuthenticationError::MissingAccessKey),
            (Some(_), None) => Err(AuthenticationError::MissingSecretKey),
            (None, None) => Err(AuthenticationError::MissingAccessAndSecretKey),
        }
    }
}

/// After a successful `apply`, the `Authorization` header reads
/// `LOW <access>:<secret>`, and every other header reads what it read before.
pub proof fn law_auth_header_read_back(
    before: Seq<(Seq<char>, Seq<char>)>,
    access: Seq<char>,
    secret: Seq<char>,
    other: Seq<char>,
)
    ensures
        model_get(model_insert(before, "Authorization"@, low_auth_value(access, secret)),
            "Authorization"@) == Some(low_auth_value(access, secret)),
        other != "Authorization"@ ==> model_get(
            model_insert(before, "Authorization"@, low_auth_value(access, secret)),
            other,
        ) == model_get(before, other),
{
    lemma_model_insert_get(before, "Authorization"@, low_auth_value(access, secret), other);
}

/// IA-S3 metadata write authentication.
#[derive(Debug, Clone, PartialEq, Eq)]
pub struct S3PostAuth {
    pub access_key: Option<String>,
    pub secret_key: Option<String>,
}

/// The characters of an optional key, empty when it is missing.
pub open spec fn key_or_empty(k: Option<String>) -> Seq<char> {
    match k {
        Some(s) => s@,
        None => Seq::empty(),
    }
}

impl S3PostAuth {
    /// Create a new post auth helper.
    pub fn new(access_key: Option<String>, secret_key: Option<String>) -> (r: Self)
        ensures
            r.access_key == access_key,
            r.secret_key == secret_key,
    {
        S3PostAuth { access_key, secret_key }
    }

    /// Append credentials to a URL-encoded request body: `&access=<a>&secret=<s>`,
    /// a missing key written as nothing.
    pub fn apply(&self, body: &mut String)
        ensures
            final(body)@ == old(body)@ + "&access="@ + key_or_empty(self.access_key) + "&secret="@
                + key_or_empty(self.secret_key),
    {
        push_str(body, "&access=");
        match &self.access_key {
            Some(a) => push_str(body, a.as_str()),
            None => {},
        }
        push_str(body, "&secret=");
        match &self.secret_key {
            Some(s) => push_str(body, s.as_str()),
            None => {},
        }
        assert(key_or_empty(self.access_key) =~= key_or_empty(self.access_key));
    }
}

} // verus!
