use anchor::codec::{decode_registry, encode_registry};
use anchor::tunnel::{find_ssh_pid_in, TunnelConfig, TunnelManager};

fn tunnel(name: &str, host: &str, port: u16, target: &str) -> TunnelConfig {
    TunnelConfig {
        name: name.as_bytes().to_vec(),
        ssh_host: host.as_bytes().to_vec(),
        local_port: port,
        remote_target: target.as_bytes().to_vec(),
        process: None,
    }
}

#[test]
fn ssh_pid_found_in_listing() {
    let out = b"COMMAND PID USER FD TYPE DEVICE SIZE/OFF NODE NAME\n\
ssh 4242 alice 5u IPv4 0x0 0t0 TCP 127.0.0.1:8080(LISTEN)\n";
    assert_eq!(find_ssh_pid_in(out), Some(4242));
}

#[test]
fn ssh_pid_ignores_other_commands() {
    let out = b"COMMAND PID USER FD TYPE DEVICE SIZE/OFF NODE NAME\n\
node 4242 alice 5u IPv4 0x0 0t0 TCP 127.0.0.1:8080(LISTEN)\n";
    assert_eq!(find_ssh_pid_in(out), None);
}

#[test]
fn ssh_pid_none_on_header_only() {
    assert_eq!(find_ssh_pid_in(b"COMMAND PID\n"), None);
}

#[test]
fn forward_spec_formats_port_and_target() {
    let t = tunnel("x", "me@host", 8080, "db:5432");
    assert_eq!(t.forward_spec(), b"8080:db:5432".to_vec());
}

#[test]
fn is_connected_follows_listing() {
    let t = tunnel("x", "me@host", 8080, "db:5432");
    let up = b"H\nssh 1 u 5u IPv4 0x0 0t0 TCP 127.0.0.1:8080(LISTEN)\n";
    let down = b"H\n";
    assert!(t.is_connected(up));
    assert!(!t.is_connected(down));
}

#[test]
fn connect_check_records_observed_pid() {
    let mut t = tunnel("x", "me@host", 8080, "db:5432");
    assert!(t.apply_connect_check(Some(77)));
    assert_eq!(t.process, Some(77));
}

#[test]
fn connect_check_failure_leaves_definition_untouched() {
    let mut t = tunnel("x", "me@host", 8080, "db:5432");
    assert!(!t.apply_connect_check(None));
    assert_eq!(t.process, None);
}

#[test]
fn disconnect_prefers_recorded_pid() {
    let mut t = tunnel("x", "me@host", 8080, "db:5432");
    t.process = Some(7);
    assert_eq!(t.disconnect(Some(9)), Some(7));
    assert_eq!(t.process, None);
}

#[test]
fn disconnect_falls_back_to_observed_pid() {
    let mut t = tunnel("x", "me@host", 8080, "db:5432");
    assert_eq!(t.disconnect(Some(9)), Some(9));
    assert_eq!(t.process, None);
}

#[test]
fn disconnect_when_already_disconnected_is_noop() {
    let mut t = tunnel("x", "me@host", 8080, "db:5432");
    assert_eq!(t.disconnect(None), None);
    assert_eq!(t.process, None);
    assert_eq!(t.name, b"x".to_vec());
    assert_eq!(t.local_port, 8080);
}

#[test]
fn status_string_reflects_connection() {
    let t = tunnel("x", "me@host", 8080, "db:5432");
    assert_eq!(t.status_string(true), "\u{25cf} Connected");
    assert_eq!(t.status_string(false), "\u{25cb} Disconnected");
}

#[test]
fn add_replaces_entry_with_same_name() {
    let mut m = TunnelManager::new();
    m.add(tunnel("x", "old@host", 1000, "a:1"));
    m.add(tunnel("y", "other@host", 2000, "b:2"));
    m.add(tunnel("x", "new@host", 3000, "c:3"));
    assert_eq!(m.tunnels.len(), 2);
    let x: Vec<&TunnelConfig> = m.tunnels.iter().filter(|t| t.name == b"x".to_vec()).collect();
    assert_eq!(x.len(), 1);
    assert_eq!(x[0].ssh_host, b"new@host".to_vec());
    assert_eq!(x[0].local_port, 3000);
}

#[test]
fn remove_signals_recorded_pid_and_deletes() {
    let mut m = TunnelManager::new();
    let mut t = tunnel("x", "me@host", 8080, "db:5432");
    t.process = Some(5);
    m.add(t);
    let signal = m.remove(b"x", None);
    assert_eq!(signal, Some(5));
    assert_eq!(m.tunnels.len(), 0);
}

#[test]
fn remove_falls_back_to_observed_pid() {
    let mut m = TunnelManager::new();
    m.add(tunnel("x", "me@host", 8080, "db:5432"));
    let signal = m.remove(b"x", Some(11));
    assert_eq!(signal, Some(11));
    assert_eq!(m.tunnels.len(), 0);
}

#[test]
fn remove_of_unknown_name_changes_nothing() {
    let mut m = TunnelManager::new();
    m.add(tunnel("x", "me@host", 8080, "db:5432"));
    assert_eq!(m.remove(b"y", None), None);
    assert_eq!(m.tunnels.len(), 1);
}

#[test]
fn encode_produces_canonical_json() {
    let defs = vec![tunnel("x", "me@host", 8080, "db:5432")];
    let bytes = encode_registry(&defs);
    assert_eq!(
        String::from_utf8(bytes).unwrap(),
        "{\"tunnels\":[{\"name\":\"x\",\"ssh_host\":\"me@host\",\"local_port\":8080,\"remote_target\":\"db:5432\"}]}"
    );
}

#[test]
fn encode_escapes_quotes_and_backslashes() {
    let defs = vec![tunnel("a\"b", "c\\d", 1, "t:2")];
    let bytes = encode_registry(&defs);
    assert_eq!(
        String::from_utf8(bytes).unwrap(),
        "{\"tunnels\":[{\"name\":\"a\\\"b\",\"ssh_host\":\"c\\\\d\",\"local_port\":1,\"remote_target\":\"t:2\"}]}"
    );
}

#[test]
fn encode_empty_registry() {
    let bytes = encode_registry(&Vec::new());
    assert_eq!(String::from_utf8(bytes).unwrap(), "{\"tunnels\":[]}");
}

#[test]
fn registry_round_trip_reproduces_definitions() {
    let mut defs = Vec::new();
    let mut a = tunnel("alpha", "me@one", 8080, "db:5432");
    a.process = Some(31);
    defs.push(a);
    defs.push(tunnel("beta", "me@two", 9090, "cache:6379"));
    defs.push(tunnel("gamma", "me@three", 7070, "web:80"));
    let bytes = encode_registry(&defs);
    let back = decode_registry(&bytes).unwrap();
    assert_eq!(back.len(), 3);
    for (orig, got) in defs.iter().zip(back.iter()) {
        assert_eq!(got.name, orig.name);
        assert_eq!(got.ssh_host, orig.ssh_host);
        assert_eq!(got.local_port, orig.local_port);
        assert_eq!(got.remote_target, orig.remote_target);
        assert_eq!(got.process, None);
    }
}

#[test]
fn round_trip_of_empty_registry() {
    let bytes = encode_registry(&Vec::new());
    let back = decode_registry(&bytes).unwrap();
    assert_eq!(back.len(), 0);
}

#[test]
fn decode_rejects_garbage() {
    assert!(decode_registry(b"").is_none());
    assert!(decode_registry(b"{}").is_none());
    assert!(decode_registry(b"{\"tunnels\":[").is_none());
    assert!(decode_registry(b"not json at all").is_none());
}

#[test]
fn decode_rejects_trailing_bytes() {
    let mut bytes = encode_registry(&vec![tunnel("x", "h", 1, "t:2")]);
    bytes.push(b' ');
    assert!(decode_registry(&bytes).is_none());
}

#[test]
fn decode_reads_escaped_strings() {
    let defs = vec![tunnel("a\"b", "c\\d", 1, "t:2")];
    let bytes = encode_registry(&defs);
    let back = decode_registry(&bytes).unwrap();
    assert_eq!(back[0].name, b"a\"b".to_vec());
    assert_eq!(back[0].ssh_host, b"c\\d".to_vec());
}
