use anchor::port::{
    first_listing_record, listing_records, parse_address_port, parse_lsof_line, Protocol,
    SockState,
};
use anchor::text::{parse_i32_bytes, parse_u16_bytes, trim_bytes};

#[test]
fn address_ipv6_bracketed() {
    let r = parse_address_port(b"[::1]:8080").unwrap();
    assert_eq!(r.0, b"::1".to_vec());
    assert_eq!(r.1, 8080);
}

#[test]
fn address_ipv6_wildcard() {
    let r = parse_address_port(b"[::]:443").unwrap();
    assert_eq!(r.0, b"::".to_vec());
    assert_eq!(r.1, 443);
}

#[test]
fn address_wildcard() {
    let r = parse_address_port(b"*:9000").unwrap();
    assert_eq!(r.0, b"*".to_vec());
    assert_eq!(r.1, 9000);
}

#[test]
fn address_annotated_port() {
    let r = parse_address_port(b"127.0.0.1:443(LISTEN)").unwrap();
    assert_eq!(r.0, b"127.0.0.1".to_vec());
    assert_eq!(r.1, 443);
}

#[test]
fn address_without_colon_is_rejected() {
    assert!(parse_address_port(b"localhost").is_none());
}

#[test]
fn address_with_bad_port_is_rejected() {
    assert!(parse_address_port(b"10.0.0.1:port").is_none());
    assert!(parse_address_port(b"10.0.0.1:70000").is_none());
}

#[test]
fn line_listening_socket() {
    let line = b"node 123 alice 23u IPv4 0xabc 0t0 TCP 127.0.0.1:8080(LISTEN)";
    let r = parse_lsof_line(line).unwrap();
    assert_eq!(r.process_name, b"node".to_vec());
    assert_eq!(r.pid, 123);
    assert_eq!(r.port, 8080);
    assert_eq!(r.local_address, b"127.0.0.1".to_vec());
    assert_eq!(r.protocol, Protocol::Tcp);
    assert_eq!(r.state, SockState::Listen);
    assert_eq!(r.foreign_address, Vec::<u8>::new());
}

#[test]
fn line_established_connection_is_split() {
    let line = b"curl 77 bob 5u IPv4 0xdef 0t0 TCP 192.168.1.5:51000->10.0.0.1:443";
    let r = parse_lsof_line(line).unwrap();
    assert_eq!(r.local_address, b"192.168.1.5".to_vec());
    assert_eq!(r.port, 51000);
    assert_eq!(r.foreign_address, b"10.0.0.1:443".to_vec());
    assert_eq!(r.state, SockState::Established);
}

#[test]
fn line_udp_protocol() {
    let line = b"mdns 9 sys 7u IPv4 0x1 0t0 UDP *:5353";
    let r = parse_lsof_line(line).unwrap();
    assert_eq!(r.protocol, Protocol::Udp);
    assert_eq!(r.state, SockState::Unknown);
    assert_eq!(r.port, 5353);
}

#[test]
fn line_with_few_fields_is_skipped() {
    assert!(parse_lsof_line(b"too short").is_none());
    assert!(parse_lsof_line(b"").is_none());
}

#[test]
fn line_with_bad_pid_is_skipped() {
    let line = b"node abc alice 23u IPv4 0xabc 0t0 TCP 127.0.0.1:8080(LISTEN)";
    assert!(parse_lsof_line(line).is_none());
}

#[test]
fn listing_empty_output_yields_no_records() {
    let out = b"COMMAND PID USER FD TYPE DEVICE SIZE/OFF NODE NAME\n";
    let recs = listing_records(out);
    assert_eq!(recs.len(), 0);
}

#[test]
fn listing_duplicate_rows_collapse() {
    let out = b"COMMAND PID USER FD TYPE DEVICE SIZE/OFF NODE NAME\n\
node 123 alice 23u IPv4 0xabc 0t0 TCP 127.0.0.1:8080(LISTEN)\n\
node 123 alice 24u IPv6 0xabd 0t0 TCP [::1]:8080(LISTEN)\n";
    let recs = listing_records(out);
    assert_eq!(recs.len(), 1);
    assert_eq!(recs[0].port, 8080);
    assert_eq!(recs[0].local_address, b"127.0.0.1".to_vec());
}

#[test]
fn listing_is_sorted_by_port() {
    let out = b"HEADER\n\
c 3 u 1u IPv4 0x0 0t0 TCP *:300(LISTEN)\n\
a 1 u 1u IPv4 0x0 0t0 TCP *:100(LISTEN)\n\
b 2 u 1u IPv4 0x0 0t0 TCP *:200(LISTEN)\n";
    let recs = listing_records(out);
    let ports: Vec<u16> = recs.iter().map(|r| r.port).collect();
    assert_eq!(ports, vec![100, 200, 300]);
}

#[test]
fn listing_sort_is_stable_for_equal_ports() {
    let out = b"HEADER\n\
b 2 u 1u IPv4 0x0 0t0 TCP *:100(LISTEN)\n\
a 1 u 1u IPv4 0x0 0t0 TCP *:100(LISTEN)\n\
c 3 u 1u IPv4 0x0 0t0 TCP *:50(LISTEN)\n";
    let recs = listing_records(out);
    assert_eq!(recs.len(), 3);
    assert_eq!(recs[0].port, 50);
    assert_eq!(recs[1].port, 100);
    assert_eq!(recs[1].pid, 2);
    assert_eq!(recs[2].port, 100);
    assert_eq!(recs[2].pid, 1);
}

#[test]
fn listing_unparsable_lines_are_skipped_silently() {
    let out = b"HEADER\n\
garbage line\n\
a 1 u 1u IPv4 0x0 0t0 TCP *:100(LISTEN)\n\
more garbage\n";
    let recs = listing_records(out);
    assert_eq!(recs.len(), 1);
    assert_eq!(recs[0].port, 100);
}

#[test]
fn first_record_takes_first_parseable_line() {
    let out = b"HEADER\n\
junk\n\
a 1 u 1u IPv4 0x0 0t0 TCP *:100(LISTEN)\n\
b 2 u 1u IPv4 0x0 0t0 TCP *:200(LISTEN)\n";
    let r = first_listing_record(out).unwrap();
    assert_eq!(r.port, 100);
    assert_eq!(r.pid, 1);
}

#[test]
fn first_record_none_on_header_only() {
    assert!(first_listing_record(b"HEADER\n").is_none());
}

#[test]
fn numeric_parsing_matches_std() {
    assert_eq!(parse_u16_bytes(b"8080"), Some(8080));
    assert_eq!(parse_u16_bytes(b"+80"), Some(80));
    assert_eq!(parse_u16_bytes(b"65535"), Some(65535));
    assert_eq!(parse_u16_bytes(b"65536"), None);
    assert_eq!(parse_u16_bytes(b""), None);
    assert_eq!(parse_u16_bytes(b"12a"), None);
    assert_eq!(parse_i32_bytes(b"-1"), Some(-1));
    assert_eq!(parse_i32_bytes(b"2147483647"), Some(2147483647));
    assert_eq!(parse_i32_bytes(b"-2147483648"), Some(-2147483648));
    assert_eq!(parse_i32_bytes(b"2147483648"), None);
}

#[test]
fn trim_matches_std() {
    assert_eq!(trim_bytes(b"  hello \t"), b"hello".to_vec());
    assert_eq!(trim_bytes(b"   "), Vec::<u8>::new());
    assert_eq!(trim_bytes(b"x"), b"x".to_vec());
}
