use chord_ring::args::Project5;
use chord_ring::setup::hostsfile::{holds_record, record_entry, record_line};
use chord_ring::setup::socketry::{node_address, node_host, node_id_of_host, socket_address, CLIENT_PORT, NODE_PORT};
use chord_ring::text::{decimal_bytes, parse_decimal};
use std::path::PathBuf;

#[test]
fn decimal_matches_to_string() {
    for n in [0u64, 7, 10, 45, 115, 6970, 1_000_000, u64::MAX] {
        assert_eq!(decimal_bytes(n), n.to_string().into_bytes());
    }
}

#[test]
fn parse_matches_std() {
    for text in ["0", "007", "45", "+45", "+", "", "-1", "4a", "18446744073709551615", "18446744073709551616", "99999999999999999999"] {
        assert_eq!(parse_decimal(text.as_bytes()), text.parse::<u64>().ok(), "{text:?}");
    }
}

#[test]
fn node_hosts_round_trip() {
    for nid in [0u64, 1, 50, 66, 126, u64::MAX] {
        let host = node_host(nid);
        assert_eq!(host, format!("n{nid}").into_bytes());
        assert_eq!(node_id_of_host(&host), Some(nid));
    }
    assert_eq!(node_id_of_host(b"n+5"), Some(5));
    assert_eq!(node_id_of_host(b"x5"), None);
    assert_eq!(node_id_of_host(b""), None);
}

#[test]
fn addresses_name_host_and_port() {
    assert_eq!(node_address(66), b"n66:6970".to_vec());
    assert_eq!(socket_address(b"boot", CLIENT_PORT), b"boot:6971".to_vec());
    assert_eq!(socket_address(b"n1", NODE_PORT), b"n1:6970".to_vec());
}

#[test]
fn records_are_written_and_found() {
    assert_eq!(record_entry(1, 45), b"1::45".to_vec());
    assert_eq!(record_line(1, 115), b"1::115\n".to_vec());
    let lines = vec![b"2::45".to_vec(), b"1::45".to_vec()];
    assert!(holds_record(&lines, 1, 45));
    assert!(holds_record(&lines, 2, 45));
    assert!(!holds_record(&lines, 1, 4));
    assert!(!holds_record(&lines, 11, 45));
    assert!(!holds_record(&vec![b"1::45 ".to_vec()], 1, 45));
    assert!(!holds_record(&Vec::new(), 1, 45));
}

#[test]
fn records_of_different_pairs_differ() {
    assert_ne!(record_entry(1, 11), record_entry(11, 1));
    assert_ne!(record_entry(1, 23), record_entry(12, 3));
}

#[test]
fn bootstrap_is_the_process_without_a_bootstrap() {
    let boot = Project5 { bootstrap: None, delay: None, testcase: None, object: None };
    assert!(boot.is_bootstrap());
    let peer = Project5 {
        bootstrap: Some("n0".to_string()),
        delay: Some(2),
        testcase: None,
        object: Some(PathBuf::from("objects.txt")),
    };
    assert!(!peer.is_bootstrap());
}

#[test]
fn a_store_finds_exactly_what_was_stored() {
    let stored = [(1u64, 45u64), (2, 115), (1, 60)];
    let mut lines: Vec<Vec<u8>> = Vec::new();
    for (c, o) in stored {
        let mut line = record_line(c, o);
        assert_eq!(line.pop(), Some(b'\n'));
        lines.push(line);
    }
    for c in 0u64..4 {
        for o in [0u64, 45, 60, 115, 145] {
            assert_eq!(holds_record(&lines, c, o), stored.contains(&(c, o)), "{c}::{o}");
        }
    }
}
