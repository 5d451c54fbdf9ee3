//! The settings file of the recording service.
use vstd::prelude::*;

verus! {

/// The recording service's settings, as its settings file holds them.
#[derive(Debug, Clone, PartialEq)]
pub struct ApplicationConfig {
    /// log directory, e.g. "target/logs/"
    pub log_dir: String,
    /// log level
    pub log_level: String,
    /// the service address
    pub server: ServerConfig,
    /// where records are kept
    pub record_dir: String,
    pub port: u16,
}

/// The address of the current service.
#[derive(Debug, Clone, PartialEq)]
pub struct ServerConfig {
    host: String,
    port: String,
}

impl ServerConfig {
    /// An address from its host and port text.
    pub fn new(host: String, port: String) -> (r: ServerConfig)
        ensures
            r.host() == host@,
            r.port() == port@,
    {
        ServerConfig { host, port }
    }

    /// The host text.
    pub closed spec fn host(self) -> Seq<char> {
        self.host@
    }

    /// The port text.
    pub closed spec fn port(self) -> Seq<char> {
        self.port@
    }

    /// The host and port text, in that order.
    pub fn parts(&self) -> (r: (String, String))
        ensures
            r.0@ == self.host(),
            r.1@ == self.port(),
    {
        (self.host.clone(), self.port.clone())
    }
}

} // verus!
