//! Error taxonomy for the tunnel.
//!
//! Locally recoverable conditions (one dropped datagram) are reported and
//! never escape a worker; configuration and setup errors are fatal at
//! startup.  Each variant renders with a fixed prefix.

use vstd::prelude::*;
use vstd::string::StringExecFns;

verus! {

/// The error type shared by the whole library.
#[derive(Clone, Debug)]
pub enum OneboxError {
    /// Missing or malformed settings; fatal at startup.
    Config(String),
    /// A network operation failed on one link.
    Network(String),
    /// The virtual interface failed; fatal for the data plane.
    Tun(String),
    /// The peer could not be authenticated.
    Auth(String),
    /// An AEAD seal or open failed.
    Crypto(String),
    /// An input or output operation failed.
    Io(String),
    /// A wire value could not be encoded or decoded.
    Serialization(String),
    /// A host-level operation failed.
    System(String),
}

/// Result type for tunnel operations.
pub type OneboxResult<T> = Result<T, OneboxError>;

impl OneboxError {
    /// The rendered text of the error: a fixed prefix per variant,
    /// followed by the detail string.
    pub open spec fn message_spec(self) -> Seq<char> {
        match self {
            OneboxError::Config(s) => "Configuration error: "@ + s@,
            OneboxError::Network(s) => "Network error: "@ + s@,
            OneboxError::Tun(s) => "TUN interface error: "@ + s@,
            OneboxError::Auth(s) => "Authentication error: "@ + s@,
            OneboxError::Crypto(s) => "Encryption error: "@ + s@,
            OneboxError::Io(s) => "IO error: "@ + s@,
            OneboxError::Serialization(s) => "Serialization error: "@ + s@,
            OneboxError::System(s) => "System error: "@ + s@,
        }
    }

    /// Render the error as text.
    pub fn message(&self) -> (r: String)
        ensures
            r@ == self.message_spec(),
    {
        match self {
            OneboxError::Config(s) => String::from_str("Configuration error: ").concat(s.as_str()),
            OneboxError::Network(s) => String::from_str("Network error: ").concat(s.as_str()),
            OneboxError::Tun(s) => String::from_str("TUN interface error: ").concat(s.as_str()),
            OneboxError::Auth(s) => String::from_str("Authentication error: ").concat(s.as_str()),
            OneboxError::Crypto(s) => String::from_str("Encryption error: ").concat(s.as_str()),
            OneboxError::Io(s) => String::from_str("IO error: ").concat(s.as_str()),
            OneboxError::Serialization(s) => String::from_str("Serialization error: ").concat(
                s.as_str(),
            ),
            OneboxError::System(s) => String::from_str("System error: ").concat(s.as_str()),
        }
    }
}

} // verus!
