use terminox::config::{
    default_connection_protocol, default_server_icon, forward_listen_address, host_port_address,
    keepalive_interval, server_address, AuthMethod, ConfigData, ConnectionProtocol,
    LocalForwardConfig, ServerConfig, CONFIG_VERSION, KEEPALIVE_MAX,
};

fn server(keepalive: Option<u64>) -> ServerConfig {
    ServerConfig {
        id: "srv-1".into(),
        name: "Test".into(),
        icon: default_server_icon(),
        host: "1.2.3.4".into(),
        port: 22,
        username: "root".into(),
        protocol: default_connection_protocol(),
        auth_method: AuthMethod::Agent,
        location: "US".into(),
        lat_bits: 40.0f64.to_bits(),
        lng_bits: (-74.0f64).to_bits(),
        folder_id: None,
        keepalive_interval_secs: keepalive,
        scrollback_limit: None,
        local_forwards: None,
        jump_host_id: None,
    }
}

#[test]
fn defaults() {
    assert_eq!(default_server_icon(), "server");
    assert_eq!(default_connection_protocol(), ConnectionProtocol::Ssh);
    let c = ConfigData::default();
    assert_eq!(c.version, CONFIG_VERSION);
    assert_eq!(c.version, 2);
    assert!(c.folders.is_empty() && c.servers.is_empty());
}

#[test]
fn keepalive_only_when_positive() {
    assert_eq!(keepalive_interval(&server(None)), None);
    assert_eq!(keepalive_interval(&server(Some(0))), None);
    assert_eq!(keepalive_interval(&server(Some(15))), Some(15));
    assert_eq!(KEEPALIVE_MAX, 3);
}

#[test]
fn addresses() {
    assert_eq!(server_address(&server(None)), "1.2.3.4:22");
    assert_eq!(host_port_address("example.org", 0), "example.org:0");
    assert_eq!(host_port_address("h", 65535), "h:65535");
    let f = LocalForwardConfig { local_port: 8080, remote_host: "db".into(), remote_port: 5432 };
    assert_eq!(forward_listen_address(&f), "127.0.0.1:8080");
}
