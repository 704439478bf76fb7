use vstd::prelude::*;

verus! {

/// Session configuration used by the Rust core.
#[derive(Debug, Clone, PartialEq, Eq)]
pub struct ArchiveSessionConfig {
    pub secure: bool,
    pub host: String,
    pub user_agent_suffix: Option<String>,
    pub access_key: Option<String>,
    pub secret_key: Option<String>,
}

impl Default for ArchiveSessionConfig {
    /// A secure session with `archive.org`, without credentials or user-agent suffix.
    fn default() -> (r: Self)
        ensures
            r.secure,
            r.host@ == "archive.org"@,
            r.user_agent_suffix is None,
            r.access_key is None,
            r.secret_key is None,
    {
        ArchiveSessionConfig {
            secure: true,
            host: "archive.org".to_owned(),
            user_agent_suffix: None,
            access_key: None,
            secret_key: None,
        }
    }
}

/// Lightweight core session wrapper.
#[derive(Debug, Clone, PartialEq, Eq)]
pub struct ArchiveSession {
    pub config: ArchiveSessionConfig,
}

impl ArchiveSession {
    /// Create a session with the provided configuration.
    pub fn new(config: ArchiveSessionConfig) -> (r: Self)
        ensures
            r.config == config,
    {
        ArchiveSession { config }
    }

    /// Return the URL scheme used by the session.
    pub fn protocol(&self) -> (r: &'static str)
        ensures
            r@ == (if self.config.secure {
                "https:"@
            } else {
                "http:"@
            }),
    {
        if self.config.secure {
            "https:"
        } else {
            "http:"
        }
    }

    /// Return the configured host.
    pub fn host(&self) -> (r: &str)
        ensures
            r@ == self.config.host@,
    {
        self.config.host.as_str()
    }
}

} // verus!
