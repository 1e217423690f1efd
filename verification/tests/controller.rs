use anchor::app::{App, AppTab, InputMode, PendingAction, StatusNote};
use anchor::tunnel::{TunnelConfig, TunnelManager};

fn fresh() -> App {
    App::new(TunnelManager::new())
}

const LISTING: &[u8] = b"COMMAND PID USER FD TYPE DEVICE SIZE/OFF NODE NAME\n\
node 123 alice 23u IPv4 0xabc 0t0 TCP 127.0.0.1:8080(LISTEN)\n\
postgres 45 postgres 7u IPv4 0xdef 0t0 TCP 127.0.0.1:5432(LISTEN)\n";

#[test]
fn new_app_starts_on_ports_tab() {
    let app = fresh();
    assert_eq!(app.current_tab, AppTab::Ports);
    assert_eq!(app.ports.len(), 0);
    assert!(matches!(app.status, StatusNote::Help));
}

#[test]
fn tabs_flip_back_and_forth() {
    let mut app = fresh();
    app.next_tab();
    assert_eq!(app.current_tab, AppTab::Tunnels);
    app.prev_tab();
    assert_eq!(app.current_tab, AppTab::Ports);
}

#[test]
fn refresh_fills_and_sorts_ports() {
    let mut app = fresh();
    app.refresh_ports(LISTING);
    assert_eq!(app.ports.len(), 2);
    assert_eq!(app.ports[0].port, 5432);
    assert_eq!(app.ports[1].port, 8080);
    assert_eq!(app.filtered_ports.len(), 2);
    assert!(matches!(app.status, StatusNote::FoundPorts(2)));
}

#[test]
fn filter_narrows_by_process_name() {
    let mut app = fresh();
    app.refresh_ports(LISTING);
    app.filter_text = b"NODE".to_vec();
    app.apply_filter();
    assert_eq!(app.filtered_ports.len(), 1);
    assert_eq!(app.filtered_ports[0].process_name, b"node".to_vec());
}

#[test]
fn filter_narrows_by_port_digits() {
    let mut app = fresh();
    app.refresh_ports(LISTING);
    app.filter_text = b"5432".to_vec();
    app.apply_filter();
    assert_eq!(app.filtered_ports.len(), 1);
    assert_eq!(app.filtered_ports[0].port, 5432);
}

#[test]
fn selection_wraps_in_both_directions() {
    let mut app = fresh();
    app.refresh_ports(LISTING);
    assert_eq!(app.port_selected, 0);
    app.select_next();
    assert_eq!(app.port_selected, 1);
    app.select_next();
    assert_eq!(app.port_selected, 0);
    app.select_prev();
    assert_eq!(app.port_selected, 1);
    app.select_first();
    assert_eq!(app.port_selected, 0);
    app.select_last();
    assert_eq!(app.port_selected, 1);
}

#[test]
fn kill_request_needs_confirmation() {
    let mut app = fresh();
    app.refresh_ports(LISTING);
    app.request_kill();
    assert!(app.show_confirm);
    match app.pending_action {
        Some(PendingAction::KillProcess(pid)) => assert_eq!(pid, 45),
        _ => panic!("expected a pending kill"),
    }
    let taken = app.confirm_action();
    assert!(!app.show_confirm);
    assert!(app.pending_action.is_none());
    assert!(matches!(taken, Some(PendingAction::KillProcess(45))));
}

#[test]
fn add_dialog_walks_four_steps_and_persists() {
    let mut app = fresh();
    app.start_add_tunnel();
    assert!(app.show_input);
    assert_eq!(app.input_mode, InputMode::TunnelName);

    app.input_buffer = b" staging ".to_vec();
    assert!(!app.submit_input());
    assert_eq!(app.input_mode, InputMode::TunnelHost);

    app.input_buffer = b"me@host".to_vec();
    assert!(!app.submit_input());
    assert_eq!(app.input_mode, InputMode::TunnelLocalPort);

    app.input_buffer = b"8080".to_vec();
    assert!(!app.submit_input());
    assert_eq!(app.input_mode, InputMode::TunnelRemotePort);

    app.input_buffer = b"db:5432".to_vec();
    assert!(app.submit_input());
    assert!(!app.show_input);
    assert_eq!(app.input_mode, InputMode::Idle);
    assert_eq!(app.tunnel_manager.tunnels.len(), 1);
    let t = &app.tunnel_manager.tunnels[0];
    assert_eq!(t.name, b"staging".to_vec());
    assert_eq!(t.ssh_host, b"me@host".to_vec());
    assert_eq!(t.local_port, 8080);
    assert_eq!(t.remote_target, b"db:5432".to_vec());
}

#[test]
fn add_dialog_rejects_empty_and_bad_port() {
    let mut app = fresh();
    app.start_add_tunnel();
    app.input_buffer = b"  ".to_vec();
    assert!(!app.submit_input());
    assert!(matches!(app.status, StatusNote::InputEmpty));
    assert_eq!(app.input_mode, InputMode::TunnelName);

    app.input_buffer = b"x".to_vec();
    assert!(!app.submit_input());
    app.input_buffer = b"h".to_vec();
    assert!(!app.submit_input());
    app.input_buffer = b"not-a-port".to_vec();
    assert!(!app.submit_input());
    assert!(matches!(app.status, StatusNote::InvalidPort));
    assert_eq!(app.input_mode, InputMode::TunnelLocalPort);
}

#[test]
fn cancel_abandons_the_dialog() {
    let mut app = fresh();
    app.start_add_tunnel();
    app.input_buffer = b"x".to_vec();
    app.cancel_input();
    assert!(!app.show_input);
    assert_eq!(app.input_mode, InputMode::Idle);
    assert!(app.new_tunnel.is_none());
    assert_eq!(app.tunnel_manager.tunnels.len(), 0);
}

#[test]
fn connect_refused_when_already_connected() {
    let mut app = fresh();
    app.tunnel_manager.add(TunnelConfig {
        name: b"x".to_vec(),
        ssh_host: b"me@host".to_vec(),
        local_port: 8080,
        remote_target: b"db:5432".to_vec(),
        process: None,
    });
    app.current_tab = AppTab::Tunnels;
    let r = app.connect_tunnel(Some(99));
    assert!(r.is_none());
    assert!(matches!(app.status, StatusNote::AlreadyConnected(_)));
}

#[test]
fn connect_hands_out_spawn_arguments_then_records_pid() {
    let mut app = fresh();
    app.tunnel_manager.add(TunnelConfig {
        name: b"x".to_vec(),
        ssh_host: b"me@host".to_vec(),
        local_port: 8080,
        remote_target: b"db:5432".to_vec(),
        process: None,
    });
    let (fwd, host) = app.connect_tunnel(None).unwrap();
    assert_eq!(fwd, b"8080:db:5432".to_vec());
    assert_eq!(host, b"me@host".to_vec());

    app.connect_tunnel_finish(Some(321), Vec::new());
    assert_eq!(app.tunnel_manager.tunnels[0].process, Some(321));
    assert!(matches!(app.status, StatusNote::Connected(_)));
}

#[test]
fn failed_connect_reports_diagnostic() {
    let mut app = fresh();
    app.tunnel_manager.add(TunnelConfig {
        name: b"x".to_vec(),
        ssh_host: b"me@host".to_vec(),
        local_port: 8080,
        remote_target: b"db:5432".to_vec(),
        process: None,
    });
    app.connect_tunnel_finish(None, b"connection refused".to_vec());
    assert_eq!(app.tunnel_manager.tunnels[0].process, None);
    match &app.status {
        StatusNote::ConnectFailed(msg) => assert_eq!(msg, &b"connection refused".to_vec()),
        _ => panic!("expected a connect failure"),
    }
}

#[test]
fn disconnect_not_connected_is_informational() {
    let mut app = fresh();
    app.tunnel_manager.add(TunnelConfig {
        name: b"x".to_vec(),
        ssh_host: b"me@host".to_vec(),
        local_port: 8080,
        remote_target: b"db:5432".to_vec(),
        process: None,
    });
    let r = app.disconnect_tunnel(None);
    assert!(r.is_none());
    assert!(matches!(app.status, StatusNote::NotConnected(_)));
}

#[test]
fn delete_signals_then_removes() {
    let mut app = fresh();
    app.tunnel_manager.add(TunnelConfig {
        name: b"x".to_vec(),
        ssh_host: b"me@host".to_vec(),
        local_port: 8080,
        remote_target: b"db:5432".to_vec(),
        process: Some(5),
    });
    app.current_tab = AppTab::Tunnels;
    app.request_delete_tunnel();
    assert!(app.show_confirm);
    let name = match app.confirm_action() {
        Some(PendingAction::DeleteTunnel(name)) => name,
        _ => panic!("expected a pending deletion"),
    };
    let signal = app.delete_tunnel_confirmed(&name, None);
    assert_eq!(signal, Some(5));
    assert_eq!(app.tunnel_manager.tunnels.len(), 0);
    assert!(matches!(app.status, StatusNote::TunnelDeleted(_)));
}
