//! Validated configuration for the route cache.
//!
//! A configuration is constructed once at startup from plain values
//! (typically read from the environment by the surrounding program) and is
//! immutable afterwards. Validation demands a non-empty store location,
//! non-empty credentials free of whitespace, and a public URL prefix that
//! is a well-formed absolute URL.

use vstd::prelude::*;
use vstd::string::*;

verus! {

/// The configuration field an error is about.
#[derive(Clone, Copy, Debug, PartialEq, Eq, Structural)]
pub enum ConfigField {
    Location,
    AccessKey,
    SecretKey,
    PublicPrefix,
}

/// Why a configuration was rejected, naming the offending field.
#[derive(Clone, Copy, Debug, PartialEq, Eq, Structural)]
pub enum ConfigError {
    MissingField(ConfigField),
    InvalidUrl(ConfigField),
    InvalidCredentials(ConfigField),
}

pub struct RouteConfig {
    pub location: String,
    pub access_key: String,
    pub secret_key: String,
    pub public_prefix: String,
    pub refresh_secs: Option<u64>,
}

/// Whether `url::Url::parse` accepts `s` as an absolute URL.
pub uninterp spec fn is_absolute_url(s: Seq<char>) -> bool;

/// Relies on url::Url::parse, which deterministically parses an absolute
/// URL from a string and returns an error exactly when it cannot.
#[verifier::external_body]
fn parse_absolute_url(s: &str) -> (r: bool)
    ensures
        r == is_absolute_url(s@),
{
    url::Url::parse(s).is_ok()
}

pub open spec fn is_space(c: char) -> bool {
    c == ' ' || c == '\t' || c == '\n' || c == '\r'
}

/// A credential may not contain whitespace.
pub open spec fn credential_ok(s: Seq<char>) -> bool {
    forall|i: int| 0 <= i < s.len() ==> !is_space(#[trigger] s[i])
}

/// The error a configuration is rejected with, or `None` if it is valid.
pub open spec fn spec_validate(
    location: Seq<char>,
    access_key: Seq<char>,
    secret_key: Seq<char>,
    public_prefix: Seq<char>,
) -> Option<ConfigError> {
    if location.len() == 0 {
        Option::Some(ConfigError::MissingField(ConfigField::Location))
    } else if access_key.len() == 0 {
        Option::Some(ConfigError::MissingField(ConfigField::AccessKey))
    } else if secret_key.len() == 0 {
        Option::Some(ConfigError::MissingField(ConfigField::SecretKey))
    } else if !credential_ok(access_key) {
        Option::Some(ConfigError::InvalidCredentials(ConfigField::AccessKey))
    } else if !credential_ok(secret_key) {
        Option::Some(ConfigError::InvalidCredentials(ConfigField::SecretKey))
    } else if public_prefix.len() == 0 {
        Option::Some(ConfigError::MissingField(ConfigField::PublicPrefix))
    } else if !is_absolute_url(public_prefix) {
        Option::Some(ConfigError::InvalidUrl(ConfigField::PublicPrefix))
    } else {
        Option::None
    }
}

/// Whether `s` contains no whitespace character.
fn check_credential(s: &str) -> (r: bool)
    ensures
        r == credential_ok(s@),
{
    let n = s.unicode_len();
    let mut i: usize = 0;
    while i < n
        invariant
            n == s@.len(),
            0 <= i <= n,
            forall|j: int| 0 <= j < i ==> !is_space(#[trigger] s@[j]),
        decreases n - i,
    {
        let c = s.get_char(i);
        if c == ' ' || c == '\t' || c == '\n' || c == '\r' {
            return false;
        }
        i += 1;
    }
    true
}

impl RouteConfig {
    /// Validates the given settings and constructs the configuration, or
    /// reports the first offending field.
    pub fn new(
        location: String,
        access_key: String,
        secret_key: String,
        public_prefix: String,
        refresh_secs: Option<u64>,
    ) -> (r: Result<RouteConfig, ConfigError>)
        ensures
            match r {
                Result::Ok(c) => spec_validate(location@, access_key@, secret_key@, public_prefix@)
                    is None && c.location == location && c.access_key == access_key && c.secret_key
                    == secret_key && c.public_prefix == public_prefix && c.refresh_secs
                    == refresh_secs,
                Result::Err(e) => spec_validate(
                    location@,
                    access_key@,
                    secret_key@,
                    public_prefix@,
                ) == Option::Some(e),
            },
    {
        if location.as_str().is_empty() {
            return Result::Err(ConfigError::MissingField(ConfigField::Location));
        }
        if access_key.as_str().is_empty() {
            return Result::Err(ConfigError::MissingField(ConfigField::AccessKey));
        }
        if secret_key.as_str().is_empty() {
            return Result::Err(ConfigError::MissingField(ConfigField::SecretKey));
        }
        if !check_credential(access_key.as_str()) {
            return Result::Err(ConfigError::InvalidCredentials(ConfigField::AccessKey));
        }
        if !check_credential(secret_key.as_str()) {
            return Result::Err(ConfigError::InvalidCredentials(ConfigField::SecretKey));
        }
        if public_prefix.as_str().is_empty() {
            return Result::Err(ConfigError::MissingField(ConfigField::PublicPrefix));
        }
        if !parse_absolute_url(public_prefix.as_str()) {
            return Result::Err(ConfigError::InvalidUrl(ConfigField::PublicPrefix));
        }
        Result::Ok(
            RouteConfig { location, access_key, secret_key, public_prefix, refresh_secs },
        )
    }

    /// The base URL redirect targets are built from.
    pub fn public_prefix(&self) -> (r: &str)
        ensures
            r@ == self.public_prefix@,
    {
        self.public_prefix.as_str()
    }
}

} // verus!
