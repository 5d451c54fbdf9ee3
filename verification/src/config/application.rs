//! The replay server's settings: where it listens, where it logs, and where
//! the recorded market data lies.
use vstd::prelude::*;

use crate::text::{
    chars_of, lemma_split_pieces_props, parse_u16, parse_unsigned, parse_unsigned_spec,
    split_chars, split_pieces,
};

verus! {

/// Where the server listens.
#[derive(Debug, Clone, PartialEq, Eq)]
pub struct ServerConfig {
    /// bind host name
    pub host: String,
    /// bind server port
    pub port: u16,
}

/// The server application's settings.
#[derive(Debug, Clone, PartialEq, Eq)]
pub struct ApplicationConfig {
    /// log save directory "target/logs/"
    pub log_dir: String,
    /// log show level
    pub log_level: String,
    /// server base config
    pub server: ServerConfig,
    /// market data base directory
    pub market_data_dir: String,
}

/// The given value, or the default when absent.
pub open spec fn or_default(v: Option<Seq<char>>, d: Seq<char>) -> Seq<char> {
    match v {
        Some(s) => s,
        None => d,
    }
}

/// The view of an optional string slice.
pub open spec fn opt_str_view(v: Option<&str>) -> Option<Seq<char>> {
    match v {
        Some(s) => Some(s@),
        None => None,
    }
}

/// The dotted-quad octets of a host: every `.`-separated piece must parse as
/// a `u8` and there must be at least four pieces; the first four are taken.
pub open spec fn host_octets(host: Seq<char>) -> Option<Seq<nat>> {
    let pieces = split_pieces(host, '.');
    if pieces.len() >= 4 && forall|i: int| 0 <= i < pieces.len() ==> (#[trigger] parse_unsigned_spec(pieces[i], 0xff)) is Some {
        Some(seq![
            parse_unsigned_spec(pieces[0], 0xff)->0,
            parse_unsigned_spec(pieces[1], 0xff)->0,
            parse_unsigned_spec(pieces[2], 0xff)->0,
            parse_unsigned_spec(pieces[3], 0xff)->0,
        ])
    } else {
        None
    }
}

fn string_or(v: Option<&str>, d: &str) -> (r: String)
    ensures
        r@ == or_default(opt_str_view(v), d@),
{
    match v {
        Some(s) => s.to_owned(),
        None => d.to_owned(),
    }
}

impl ServerConfig {
    /// Settings from the command line's `host` and port values; the host
    /// defaults to `127.0.0.1` and the port to `3001`. The port must be a
    /// decimal `u16` (the server does not start otherwise).
    pub fn new(host: Option<&str>, port: Option<&str>) -> (r: ServerConfig)
        requires
            parse_unsigned_spec(or_default(opt_str_view(port), "3001"@), 0xffff) is Some,
        ensures
            r.host@ == or_default(opt_str_view(host), "127.0.0.1"@),
            r.port as nat == parse_unsigned_spec(or_default(opt_str_view(port), "3001"@), 0xffff)->0,
    {
        let p = match port {
            Some(p) => p,
            None => "3001",
        };
        proof {
            reveal_strlit("3001");
        }
        let port = match parse_u16(p) {
            Some(v) => v,
            None => 0,
        };
        let host = string_or(host, "127.0.0.1");
        ServerConfig { host, port }
    }

    /// The IPv4 address and port to bind: the octets of the dotted host
    /// (see [`host_octets`]) and the port. The host must be of that form
    /// (the server does not start otherwise).
    pub fn get_addr(&self) -> (r: ([u8; 4], u16))
        requires
            host_octets(self.host@) is Some,
        ensures
            r.1 == self.port,
            r.0@.len() == 4,
            forall|k: int| 0 <= k < 4 ==> r.0@[k] as nat == host_octets(self.host@)->0[k],
    {
        match parse_host(self.host.as_str()) {
            Some(a) => (a, self.port),
            None => ([0u8; 4], self.port),
        }
    }
}

/// The octets of a dotted-quad host, or `None` when it is not of that form
/// (see [`host_octets`]).
pub fn parse_host(host: &str) -> (r: Option<[u8; 4]>)
    ensures
        r is Some <==> host_octets(host@) is Some,
        r matches Some(a) ==> a@.len() == 4
            && forall|k: int| 0 <= k < 4 ==> a@[k] as nat == host_octets(host@)->0[k],
{
    let hv = chars_of(host);
    let pieces = split_chars(hv.as_slice(), '.');
    let ghost ps = split_pieces(hv@, '.');
    proof {
        lemma_split_pieces_props(hv@, '.');
    }
    let mut octets: Vec<u8> = Vec::new();
    let mut i: usize = 0;
    while i < pieces.len()
        invariant
            i <= pieces@.len(),
            ps == split_pieces(host@, '.'),
            pieces@.len() == ps.len(),
            forall|j: int| 0 <= j < pieces@.len() ==> pieces@[j]@ == #[trigger] ps[j],
            octets@.len() == i,
            forall|j: int| 0 <= j < i ==> (#[trigger] parse_unsigned_spec(ps[j], 0xff)) == Some(octets@[j] as nat),
        decreases pieces@.len() - i,
    {
        assert(pieces@[i as int]@ == ps[i as int]);
        match parse_unsigned(pieces[i].as_slice(), 0xff) {
            Some(v) => {
                octets.push(v as u8);
            },
            None => {
                return None;
            },
        }
        i = i + 1;
    }
    if octets.len() < 4 {
        return None;
    }
    let a = [octets[0], octets[1], octets[2], octets[3]];
    proof {
        assert(parse_unsigned_spec(ps[0], 0xff) == Some(octets@[0] as nat));
        assert(parse_unsigned_spec(ps[1], 0xff) == Some(octets@[1] as nat));
        assert(parse_unsigned_spec(ps[2], 0xff) == Some(octets@[2] as nat));
        assert(parse_unsigned_spec(ps[3], 0xff) == Some(octets@[3] as nat));
    }
    Some(a)
}

impl ApplicationConfig {
    /// Settings from the command line: log directory (default `logs`), log
    /// level (default `info`), market-data directory (default `./`), and the
    /// server's host and port (see [`ServerConfig::new`]).
    pub fn new(
        log: Option<&str>,
        level: Option<&str>,
        data: Option<&str>,
        host: Option<&str>,
        port: Option<&str>,
    ) -> (r: ApplicationConfig)
        requires
            parse_unsigned_spec(or_default(opt_str_view(port), "3001"@), 0xffff) is Some,
        ensures
            r.log_dir@ == or_default(opt_str_view(log), "logs"@),
            r.log_level@ == or_default(opt_str_view(level), "info"@),
            r.market_data_dir@ == or_default(opt_str_view(data), "./"@),
            r.server.host@ == or_default(opt_str_view(host), "127.0.0.1"@),
            r.server.port as nat == parse_unsigned_spec(or_default(opt_str_view(port), "3001"@), 0xffff)->0,
    {
        let server = ServerConfig::new(host, port);
        let log_dir = string_or(log, "logs");
        let log_level = string_or(level, "info");
        let market_data_dir = string_or(data, "./");
        ApplicationConfig { log_dir, log_level, server, market_data_dir }
    }
}

} // verus!
