//! The typed configuration document and the compilation error type.
//!
//! A configuration arrives as plain values: a field that may be absent in
//! the source document is an `Option`, and a list-valued field that may
//! also be of the wrong kind is `Declared`, so that the validation pass
//! states exactly which document compiles and which fails, and with which
//! error.

use vstd::prelude::*;
use vstd::string::*;

verus! {

/// A list-valued field of the source document: absent, present but of
/// the wrong kind (which fails compilation where the field matters), or
/// a list.
pub enum Declared<T> {
    Absent,
    Invalid,
    List(Vec<T>),
}

/// One server variable: an enumerated value set, a single default, or
/// neither (which fails compilation). An `enum` whose elements are not
/// all strings arrives as `Invalid`.
pub struct RawVariable {
    pub name: String,
    pub enum_values: Declared<String>,
    pub default_value: Option<String>,
}

/// One declared server: a URL template and its variables.
pub struct RawServer {
    pub url: Option<String>,
    pub variables: Option<Vec<RawVariable>>,
}

/// One path template together with the member keys of its path item;
/// the keys that name HTTP methods select the tries the route enters.
/// A path item that is not an object arrives with `keys` absent.
pub struct RawPathItem {
    pub template: String,
    pub keys: Option<Vec<String>>,
}

/// One declared service. A `servers` field that is not an array arrives
/// as `Invalid`.
pub struct RawService {
    pub name: Option<String>,
    pub servers: Declared<RawServer>,
    pub paths: Option<Vec<RawPathItem>>,
}

/// The whole configuration document.
pub struct RawConfig {
    pub preserve_existing_headers: Option<bool>,
    pub use_host_in_match: Option<bool>,
    pub cache_size: Option<usize>,
    pub services: Option<Vec<RawService>>,
}

/// Why a configuration failed to compile. Each variant carries the
/// offending value so the message can name it.
#[derive(Debug)]
pub enum ConfigError {
    /// `services` is absent or not an array.
    MissingServices,
    /// `services` is present but empty.
    EmptyServices,
    /// A service has no (or an empty) `name`.
    MissingName,
    /// A service has no (or an empty, or a malformed) `paths` object.
    MissingPaths { service: String },
    /// A service's `servers` field is present but not an array.
    InvalidServers,
    /// A service's `servers` array is present but empty.
    EmptyServers,
    /// A server declaration has no `url`.
    MissingUrl,
    /// A server URL is empty after trimming.
    EmptyUrl,
    /// A server variable's `enum` array holds a value that is not a
    /// string.
    InvalidEnumValues { variable: String },
    /// A server variable's `enum` array is empty.
    EmptyEnum { variable: String },
    /// A server variable defines neither `enum` nor `default`.
    MissingVariableValues { variable: String },
    /// Expanding one server declaration exceeded the expansion cap.
    TooManyExpansions { url: String },
    /// A path item is not an object.
    InvalidPathItem { path: String },
    /// A path template does not start with `/`.
    BadPathStart { path: String },
    /// A path template is longer than the maximum.
    PathTooLong { path: String },
    /// A path template contains NUL, a space, or a line break.
    BadPathChar { path: String },
    /// The same template was inserted twice into one group and method
    /// scope.
    DuplicateRoute { path: String },
}

/// The human-readable message of each error.
pub open spec fn spec_message(e: ConfigError) -> Seq<char> {
    match e {
        ConfigError::MissingServices => "Invalid or missing 'services' in configuration"@,
        ConfigError::EmptyServices => "Services array cannot be empty"@,
        ConfigError::MissingName => "Missing 'name' in service configuration"@,
        ConfigError::MissingPaths { service } => "Invalid or missing 'paths' in service configuration '"@
            + service@ + "'"@,
        ConfigError::InvalidServers => "Invalid 'servers' in service configuration"@,
        ConfigError::EmptyServers => "Servers array cannot be empty"@,
        ConfigError::MissingUrl => "Missing 'url' in server configuration"@,
        ConfigError::EmptyUrl => "Server url cannot be empty"@,
        ConfigError::InvalidEnumValues { variable } => "Server variable enum values must be strings for variable '"@
            + variable@ + "'"@,
        ConfigError::EmptyEnum { variable } => "Server variable enum cannot be empty for variable '"@
            + variable@ + "'"@,
        ConfigError::MissingVariableValues { variable } => "Server variable must define 'enum' or 'default' for variable '"@
            + variable@ + "'"@,
        ConfigError::TooManyExpansions { url } => "Too many expanded server URLs (max 100) for url '"@
            + url@ + "'"@,
        ConfigError::InvalidPathItem { path } => "Invalid path item configuration for path '"@
            + path@ + "'"@,
        ConfigError::BadPathStart { path } => "Invalid path '"@ + path@
            + "': must start with '/'"@,
        ConfigError::PathTooLong { path } => "Invalid path '"@ + path@
            + "': exceeds the maximum length"@,
        ConfigError::BadPathChar { path } => "Invalid path '"@ + path@
            + "': contains a forbidden character"@,
        ConfigError::DuplicateRoute { path } => "Duplicate or conflicting route '"@ + path@ + "'"@,
    }
}

impl ConfigError {
    /// Renders the error as its human-readable message.
    pub fn message(&self) -> (r: String)
        ensures
            r@ == spec_message(*self),
    {
        match self {
            ConfigError::MissingServices => String::from_str(
                "Invalid or missing 'services' in configuration",
            ),
            ConfigError::EmptyServices => String::from_str("Services array cannot be empty"),
            ConfigError::MissingName => String::from_str("Missing 'name' in service configuration"),
            ConfigError::MissingPaths { service } => wrap(
                "Invalid or missing 'paths' in service configuration '",
                service,
                "'",
            ),
            ConfigError::InvalidServers => String::from_str(
                "Invalid 'servers' in service configuration",
            ),
            ConfigError::EmptyServers => String::from_str("Servers array cannot be empty"),
            ConfigError::MissingUrl => String::from_str("Missing 'url' in server configuration"),
            ConfigError::EmptyUrl => String::from_str("Server url cannot be empty"),
            ConfigError::InvalidEnumValues { variable } => wrap(
                "Server variable enum values must be strings for variable '",
                variable,
                "'",
            ),
            ConfigError::EmptyEnum { variable } => wrap(
                "Server variable enum cannot be empty for variable '",
                variable,
                "'",
            ),
            ConfigError::MissingVariableValues { variable } => wrap(
                "Server variable must define 'enum' or 'default' for variable '",
                variable,
                "'",
            ),
            ConfigError::TooManyExpansions { url } => wrap(
                "Too many expanded server URLs (max 100) for url '",
                url,
                "'",
            ),
            ConfigError::InvalidPathItem { path } => wrap(
                "Invalid path item configuration for path '",
                path,
                "'",
            ),
            ConfigError::BadPathStart { path } => wrap(
                "Invalid path '",
                path,
                "': must start with '/'",
            ),
            ConfigError::PathTooLong { path } => wrap(
                "Invalid path '",
                path,
                "': exceeds the maximum length",
            ),
            ConfigError::BadPathChar { path } => wrap(
                "Invalid path '",
                path,
                "': contains a forbidden character",
            ),
            ConfigError::DuplicateRoute { path } => wrap(
                "Duplicate or conflicting route '",
                path,
                "'",
            ),
        }
    }
}

/// `prefix + subject + suffix` as one string.
fn wrap(prefix: &str, subject: &String, suffix: &str) -> (r: String)
    ensures
        r@ == prefix@ + subject@ + suffix@,
{
    let mut m = String::from_str(prefix);
    m.append(subject.as_str());
    m.append(suffix);
    m
}

} // verus!
