//! Server, folder and port-forward settings, and the connection settings
//! derived from them.
use vstd::prelude::*;

use crate::text::{decimal, push_decimal};

verus! {

/// A local port forwarded through the SSH connection.
#[derive(Debug, Clone)]
pub struct LocalForwardConfig {
    pub local_port: u16,
    pub remote_host: String,
    pub remote_port: u16,
}

/// How a server is reached.
#[derive(Debug, Clone, Copy, PartialEq, Eq, Structural)]
pub enum ConnectionProtocol {
    Ssh,
    Telnet,
}

/// How the client authenticates to a server.
#[derive(Debug, Clone)]
pub enum AuthMethod {
    Password { password: String },
    Key { key_path: String, passphrase: Option<String> },
    Agent,
}

/// A saved server. The map coordinates are IEEE 754 `f64` values carried as
/// their bit patterns (`f64::to_bits`).
#[derive(Debug, Clone)]
pub struct ServerConfig {
    pub id: String,
    pub name: String,
    pub icon: String,
    pub host: String,
    pub port: u16,
    pub username: String,
    pub protocol: ConnectionProtocol,
    pub auth_method: AuthMethod,
    pub location: String,
    pub lat_bits: u64,
    pub lng_bits: u64,
    pub folder_id: Option<String>,
    pub keepalive_interval_secs: Option<u64>,
    pub scrollback_limit: Option<u32>,
    pub local_forwards: Option<Vec<LocalForwardConfig>>,
    pub jump_host_id: Option<String>,
}

/// A named group of servers.
#[derive(Debug, Clone)]
pub struct FolderConfig {
    pub id: String,
    pub name: String,
}

/// Everything the application saves.
#[derive(Debug, Clone)]
pub struct ConfigData {
    pub version: u32,
    pub folders: Vec<FolderConfig>,
    pub servers: Vec<ServerConfig>,
}

/// Version of the saved configuration format.
pub const CONFIG_VERSION: u32 = 2;

impl Default for ConfigData {
    fn default() -> (c: Self)
        ensures
            c.version == CONFIG_VERSION,
            c.folders@.len() == 0,
            c.servers@.len() == 0,
    {
        ConfigData { version: CONFIG_VERSION, folders: Vec::new(), servers: Vec::new() }
    }
}

/// The icon of a server whose saved settings name none.
pub fn default_server_icon() -> (icon: String)
    ensures
        icon@ == seq!['s', 'e', 'r', 'v', 'e', 'r'],
{
    proof {
        reveal_strlit("server");
    }
    "server".to_owned()
}

/// The protocol of a server whose saved settings name none.
pub fn default_connection_protocol() -> (p: ConnectionProtocol)
    ensures
        p == ConnectionProtocol::Ssh,
{
    ConnectionProtocol::Ssh
}

/// How many keepalive messages may go unanswered before the connection is
/// dropped, when keepalives are enabled.
pub const KEEPALIVE_MAX: usize = 3;

/// The keepalive interval, in seconds, to configure for `config`: its
/// setting when that is positive, none otherwise.
pub fn keepalive_interval(config: &ServerConfig) -> (secs: Option<u64>)
    ensures
        secs == match config.keepalive_interval_secs {
            Some(s) => if s > 0 {
                Some(s)
            } else {
                None
            },
            None => None,
        },
{
    match config.keepalive_interval_secs {
        Some(s) => if s > 0 {
            Some(s)
        } else {
            None
        },
        None => None,
    }
}

/// `host:port`, as `format!("{}:{}", host, port)` gives it.
pub fn host_port_address(host: &str, port: u16) -> (a: String)
    ensures
        a@ == host@ + seq![':'] + decimal(port as nat),
{
    let mut a = host.to_owned();
    proof {
        reveal_strlit(":");
    }
    a.append(":");
    push_decimal(&mut a, port as u64);
    a
}

/// The address of the server's SSH endpoint.
pub fn server_address(config: &ServerConfig) -> (a: String)
    ensures
        a@ == config.host@ + seq![':'] + decimal(config.port as nat),
{
    host_port_address(config.host.as_str(), config.port)
}

/// The loopback address on which a local forward listens.
pub fn forward_listen_address(forward: &LocalForwardConfig) -> (a: String)
    ensures
        a@ == seq!['1', '2', '7', '.', '0', '.', '0', '.', '1', ':'] + decimal(
            forward.local_port as nat,
        ),
{
    proof {
        reveal_strlit("127.0.0.1");
    }
    let a = host_port_address("127.0.0.1", forward.local_port);
    assert(a@ =~= seq!['1', '2', '7', '.', '0', '.', '0', '.', '1', ':'] + decimal(
        forward.local_port as nat,
    ));
    a
}

} // verus!
