//! Configuration schema.
//!
//! The structures that a configuration file populates.  Reading and parsing
//! the file itself is host plumbing and happens outside the library; the
//! library only fixes the shape of the settings and their defaults.

use vstd::prelude::*;
use vstd::string::StringExecFns;

verus! {

/// The entire configuration of one endpoint.
#[derive(Clone, Debug)]
pub struct Config {
    /// Verbosity of the external logging collaborator.
    pub log_level: String,
    /// Seeds AEAD key derivation; required.
    pub preshared_key: String,
    /// Client-specific settings.
    pub client: ClientConfig,
    /// Server-specific settings.
    pub server: ServerConfig,
}

/// Client-specific configuration.
#[derive(Clone, Debug)]
pub struct ClientConfig {
    /// Where the client sends: the server's address.
    pub server_address: String,
    /// Where the client sends: the server's port.
    pub server_port: u16,
    /// Name of the client's virtual interface.
    pub tun_name: String,
    /// Address of the client's virtual interface.
    pub tun_ip: String,
    /// Netmask of the client's virtual interface.
    pub tun_netmask: String,
}

/// Server-specific configuration.
#[derive(Clone, Debug)]
pub struct ServerConfig {
    /// The server's bind address.
    pub listen_address: String,
    /// The server's bind port.
    pub listen_port: u16,
}

impl Default for ClientConfig {
    /// The client settings used when the section is missing.
    fn default() -> (r: Self)
        ensures
            r.server_address@ == "127.0.0.1"@,
            r.server_port == 51820,
            r.tun_name@ == "onebox0"@,
            r.tun_ip@ == "10.8.0.1"@,
            r.tun_netmask@ == "255.255.255.0"@,
    {
        ClientConfig {
            server_address: String::from_str("127.0.0.1"),
            server_port: 51820,
            tun_name: String::from_str("onebox0"),
            tun_ip: String::from_str("10.8.0.1"),
            tun_netmask: String::from_str("255.255.255.0"),
        }
    }
}

impl Default for ServerConfig {
    /// The server settings used when the section is missing.
    fn default() -> (r: Self)
        ensures
            r.listen_address@ == "0.0.0.0"@,
            r.listen_port == 51820,
    {
        ServerConfig { listen_address: String::from_str("0.0.0.0"), listen_port: 51820 }
    }
}

} // verus!
