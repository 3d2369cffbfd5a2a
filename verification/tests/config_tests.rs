use relay::config::{
    parse_config, Config, ConfigError, MissingField, ParseReason, PeerAddr,
};

fn addr(a: u8, b: u8, c: u8, d: u8, port: u16) -> PeerAddr {
    PeerAddr { a, b, c, d, port }
}

#[test]
fn parses_example_file() {
    let text = b"# comment\nself=3\nport=5003\n1=127.0.0.1:5001\n2=127.0.0.1:5002\n3=127.0.0.1:5003\n";
    let c = parse_config(text).unwrap();
    assert_eq!(c.self_id, 3);
    assert_eq!(c.port, 5003);
    assert_eq!(c.peers.len(), 3);
    assert_eq!(c.peer_addr(1), Some(addr(127, 0, 0, 1, 5001)));
    assert_eq!(c.peer_addr(2), Some(addr(127, 0, 0, 1, 5002)));
    assert_eq!(c.peer_addr(3), Some(addr(127, 0, 0, 1, 5003)));
    assert_eq!(c.peer_addr(4), None);
}

#[test]
fn parsing_twice_yields_equal_results() {
    let text = b"self=1\nport=6001\n1=127.0.0.1:6001\n2=10.0.0.2:6002\n";
    let c1 = parse_config(text).unwrap();
    let c2 = parse_config(text).unwrap();
    assert_eq!(c1.self_id, c2.self_id);
    assert_eq!(c1.port, c2.port);
    assert_eq!(c1.peers, c2.peers);
}

#[test]
fn whitespace_and_blank_lines_are_tolerated() {
    let text = b"\n  self = 2 \n\tport=9\n 2 = 1.2.3.4:5 \n\n";
    let c = parse_config(text).unwrap();
    assert_eq!(c.self_id, 2);
    assert_eq!(c.port, 9);
    assert_eq!(c.peer_addr(2), Some(addr(1, 2, 3, 4, 5)));
}

#[test]
fn comment_lines_are_skipped_even_without_equals() {
    let text = b"# just a note\nself=1\nport=2\n1=1.1.1.1:1\n";
    let c = parse_config(text).unwrap();
    assert_eq!(c.self_id, 1);
}

#[test]
fn duplicate_key_later_wins() {
    let text = b"self=1\nport=2\n1=1.1.1.1:1\n1=9.9.9.9:9\nport=7\n";
    let c = parse_config(text).unwrap();
    assert_eq!(c.port, 7);
    assert_eq!(c.peers.len(), 1);
    assert_eq!(c.peer_addr(1), Some(addr(9, 9, 9, 9, 9)));
}

#[test]
fn negative_peer_ids_are_allowed() {
    let text = b"self=-5\nport=2\n-5=1.1.1.1:1\n";
    let c = parse_config(text).unwrap();
    assert_eq!(c.self_id, -5);
    assert_eq!(c.peer_addr(-5), Some(addr(1, 1, 1, 1, 1)));
}

#[test]
fn missing_self_is_rejected() {
    let text = b"port=5003\n1=127.0.0.1:5001\n";
    assert_eq!(
        parse_config(text),
        Err(ConfigError::Missing(MissingField::SelfId))
    );
}

#[test]
fn missing_port_is_rejected() {
    let text = b"self=1\n1=127.0.0.1:5001\n";
    assert_eq!(
        parse_config(text),
        Err(ConfigError::Missing(MissingField::Port))
    );
}

#[test]
fn missing_self_address_is_rejected() {
    // self=4 but no entry for 4: startup must fail with a Missing error.
    let text = b"self=4\nport=5004\n1=127.0.0.1:5001\n2=127.0.0.1:5002\n";
    assert_eq!(
        parse_config(text),
        Err(ConfigError::Missing(MissingField::SelfAddr))
    );
}

#[test]
fn line_without_equals_is_a_parse_error_with_line_number() {
    let text = b"self=1\nwhat is this\nport=2\n";
    assert_eq!(
        parse_config(text),
        Err(ConfigError::Parse(2, ParseReason::BadLine))
    );
}

#[test]
fn line_with_two_equals_is_a_parse_error() {
    let text = b"self=1=2\n";
    assert_eq!(
        parse_config(text),
        Err(ConfigError::Parse(1, ParseReason::BadLine))
    );
}

#[test]
fn bad_self_value_is_a_parse_error() {
    let text = b"port=1\nself=abc\n";
    assert_eq!(
        parse_config(text),
        Err(ConfigError::Parse(2, ParseReason::BadSelfId))
    );
}

#[test]
fn self_value_out_of_i32_range_is_a_parse_error() {
    let text = b"self=2147483648\n";
    assert_eq!(
        parse_config(text),
        Err(ConfigError::Parse(1, ParseReason::BadSelfId))
    );
}

#[test]
fn extreme_i32_values_parse() {
    let text = b"self=2147483647\nport=1\n2147483647=1.1.1.1:1\n";
    let c = parse_config(text).unwrap();
    assert_eq!(c.self_id, 2147483647);
    let text2 = b"self=-2147483648\nport=1\n-2147483648=1.1.1.1:1\n";
    let c2 = parse_config(text2).unwrap();
    assert_eq!(c2.self_id, -2147483648);
}

#[test]
fn bad_port_value_is_a_parse_error() {
    let text = b"port=65536\n";
    assert_eq!(
        parse_config(text),
        Err(ConfigError::Parse(1, ParseReason::BadPort))
    );
    let text2 = b"port=-1\n";
    assert_eq!(
        parse_config(text2),
        Err(ConfigError::Parse(1, ParseReason::BadPort))
    );
}

#[test]
fn bad_peer_key_is_a_parse_error() {
    let text = b"self=1\nport=2\npeer=1.1.1.1:1\n";
    assert_eq!(
        parse_config(text),
        Err(ConfigError::Parse(3, ParseReason::BadPeerId))
    );
}

#[test]
fn bad_address_is_a_parse_error() {
    for bad in [
        &b"1=127.0.0.1"[..],
        b"1=localhost:5001",
        b"1=256.0.0.1:5001",
        b"1=1.2.3:5001",
        b"1=1.2.3.4.5:6",
        b"1=1.2.3.4:65536",
        b"1=01.2.3.4:5",
        b"1=1.2.3.4:0080",
        b"1=1.2.3.4:1:2",
    ] {
        let mut text = Vec::new();
        text.extend_from_slice(b"self=1\nport=2\n");
        text.extend_from_slice(bad);
        text.extend_from_slice(b"\n");
        assert_eq!(
            parse_config(&text),
            Err(ConfigError::Parse(3, ParseReason::BadAddr)),
            "expected bad address for {:?}",
            String::from_utf8_lossy(bad)
        );
    }
}

#[test]
fn first_bad_line_wins() {
    let text = b"self=oops\nport=bad\n";
    assert_eq!(
        parse_config(text),
        Err(ConfigError::Parse(1, ParseReason::BadSelfId))
    );
}

#[test]
fn empty_file_is_missing_self() {
    assert_eq!(
        parse_config(b""),
        Err(ConfigError::Missing(MissingField::SelfId))
    );
}

#[test]
fn address_edge_values_parse() {
    let text = b"self=1\nport=0\n1=0.0.0.0:1\n2=255.255.255.255:65535\n";
    let c: Config = parse_config(text).unwrap();
    assert_eq!(c.port, 0);
    assert_eq!(c.peer_addr(1), Some(addr(0, 0, 0, 0, 1)));
    assert_eq!(c.peer_addr(2), Some(addr(255, 255, 255, 255, 65535)));
}
