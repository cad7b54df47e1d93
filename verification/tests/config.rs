use presunto_e_queijo::addr::PeerAddr;
use presunto_e_queijo::config_text::{char_is_whitespace, split_config};
use presunto_e_queijo::addr::IpAddress;
use presunto_e_queijo::peer_config::{
    after_lookup, caret_line, first_lookup, load, next_to_resolve, resolve_line,
    ConfigParseErrorKind, Lookup, ResolveStep, Resolution,
};
use presunto_e_queijo::peer_discovery::{self, from_config, peers_from_lines, read_addr};

fn v4(ip: u32, port: u16) -> PeerAddr {
    PeerAddr::V4 { ip, port }
}

#[test]
fn lines_are_trimmed_and_split_at_the_first_bar() {
    let c = split_config("  alice | 10.0.0.1:80 \r\nbob|b|c\n");
    assert!(c.unsplit.is_none());
    assert_eq!(c.lines.len(), 2);
    assert_eq!(c.lines[0].line_no, 0);
    assert_eq!(c.lines[0].line, "alice | 10.0.0.1:80");
    assert_eq!(c.lines[0].name, "alice ");
    assert_eq!(c.lines[0].host, " 10.0.0.1:80");
    assert_eq!(c.lines[0].column, 7);
    assert_eq!(c.lines[1].name, "bob");
    assert_eq!(c.lines[1].host, "b|c");
}

#[test]
fn splitting_stops_at_a_line_without_bar() {
    let c = split_config("a|1\nnobar\nc|3\n");
    assert_eq!(c.lines.len(), 1);
    let u = c.unsplit.unwrap();
    assert_eq!(u.line_no, 1);
    assert_eq!(u.line, "nobar");
    assert_eq!(u.column, 4);
}

#[test]
fn empty_line_points_past_everything() {
    let c = split_config("a|1\n\n");
    let u = c.unsplit.unwrap();
    assert_eq!(u.line_no, 1);
    assert_eq!(u.line, "");
    assert_eq!(u.column, usize::MAX);
}

#[test]
fn empty_text_has_no_lines() {
    let c = split_config("");
    assert!(c.lines.is_empty());
    assert!(c.unsplit.is_none());
}

#[test]
fn names_are_counted_in_characters() {
    let c = split_config("joão|h");
    assert_eq!(c.lines[0].column, 5);
}

#[test]
fn hosts_are_resolved_in_order_until_one_fails() {
    let c = split_config("a|x\nb|y\nc|z\n");
    let mut outcomes = Vec::new();
    assert_eq!(next_to_resolve(&c, &outcomes), Some(0));
    outcomes.push(Resolution::Resolved(v4(1, 2504)));
    assert_eq!(next_to_resolve(&c, &outcomes), Some(1));
    outcomes.push(Resolution::InvalidInput);
    assert_eq!(next_to_resolve(&c, &outcomes), None);
    let e = load(c, outcomes).unwrap_err();
    assert_eq!(e.line_no(), 1);
    assert_eq!(e.column(), 2);
    assert_eq!(e.line(), "b|y");
    assert!(matches!(e.kind(), ConfigParseErrorKind::InvalidIp { found } if found == "y"));
    assert_eq!(e.shown_line_no(), 2);
}

#[test]
fn all_resolved_gives_named_peers() {
    let c = split_config("a|x\nb|y\n");
    let outcomes = vec![Resolution::Resolved(v4(1, 1)), Resolution::Resolved(v4(2, 2))];
    let peers = load(c, outcomes).unwrap();
    assert_eq!(peers, vec![(Some("a".to_string()), v4(1, 1)), (Some("b".to_string()), v4(2, 2))]);
}

#[test]
fn missing_bar_is_reported_after_earlier_hosts_resolve() {
    let c = split_config("a|x\nbad\n");
    let outcomes = vec![Resolution::Resolved(v4(1, 1))];
    let e = load(c, outcomes).unwrap_err();
    assert_eq!(e.line_no(), 1);
    assert_eq!(e.column(), 2);
    assert!(matches!(e.kind(), ConfigParseErrorKind::MissingColon));
    assert_eq!(e.caret(), "  ^");
}

#[test]
fn failed_resolution_keeps_the_error() {
    let c = split_config("a|nowhere\n");
    let line = c.lines.into_iter().next().unwrap();
    let err = std::io::Error::new(std::io::ErrorKind::Other, "no such host");
    match resolve_line(line, Resolution::Failed(err)) {
        Err(e) => match e.kind() {
            ConfigParseErrorKind::FailedToResolve { host, error } => {
                assert_eq!(host, "nowhere");
                assert_eq!(error.to_string(), "no such host");
            }
            _ => panic!("expected a resolution failure"),
        },
        Ok(_) => panic!("expected an error"),
    }
}

#[test]
fn caret_marks_the_column() {
    assert_eq!(caret_line(0), "^");
    assert_eq!(caret_line(3), "   ^");
}

#[test]
fn discovery_reads_every_line() {
    let c = split_config("a|1.2.3.4\nb|[::1]:9\n");
    let parsed = vec![Some(v4(0x0102_0304, 2504)), Some(PeerAddr::V6 { ip: 1, port: 9, flowinfo: 0, scope_id: 0 })];
    let peers = peers_from_lines(c, parsed).unwrap();
    assert_eq!(peers.peers.len(), 2);
    assert_eq!(peers.peers[0].name, "a");
    assert_eq!(peers.peers[1].addr, PeerAddr::V6 { ip: 1, port: 9, flowinfo: 0, scope_id: 0 });
}

#[test]
fn discovery_reports_the_first_unreadable_address() {
    let c = split_config("a|1.2.3.4\nb|what\nc\n");
    let parsed = vec![Some(v4(1, 1)), None];
    let e = peers_from_lines(c, parsed).unwrap_err();
    assert_eq!(e.line_no(), 1);
    assert!(matches!(e.kind(), peer_discovery::ConfigParseErrorKind::InvalidIp { found } if found == "what"));
}

#[test]
fn discovery_reports_a_missing_bar() {
    let c = split_config("a|1.2.3.4\nc\n");
    let e = peers_from_lines(c, vec![Some(v4(1, 1))]).unwrap_err();
    assert_eq!(e.line_no(), 1);
    assert_eq!(e.caret(), "^");
    assert!(matches!(e.kind(), peer_discovery::ConfigParseErrorKind::MissingColon));
}

#[test]
fn white_space_is_what_std_says() {
    for u in 0..=0x10ffffu32 {
        if let Some(c) = char::from_u32(u) {
            assert_eq!(char_is_whitespace(c), c.is_whitespace(), "at {u:#x}");
        }
    }
}

#[test]
fn unicode_white_space_is_trimmed() {
    let c = split_config("\u{3000}\u{a0}a|b\u{85}\u{2009}\n\u{200b}c|d");
    assert_eq!(c.lines[0].line, "a|b");
    assert_eq!(c.lines[1].line, "\u{200b}c|d");
}

#[test]
fn error_messages_read_as_before() {
    let text = "a|x\n".repeat(11) + "b|y\n";
    let c = split_config(&text);
    let mut outcomes: Vec<Resolution> = (0..11).map(|i| Resolution::Resolved(v4(i, 1))).collect();
    outcomes.push(Resolution::InvalidInput);
    let e = load(c, outcomes).unwrap_err();
    assert_eq!(e.message(), "config parse error at 12:2: invalid ip, found \"y\"\nb|y\n  ^");

    let c = split_config("nobar");
    let e = load(c, vec![]).unwrap_err();
    assert_eq!(e.message(), "config parse error at 1:4: missing colon\nnobar\n    ^");

    let c = split_config("h|nowhere");
    let err = std::io::Error::new(std::io::ErrorKind::Other, "no such host");
    let e = load(c, vec![Resolution::Failed(err)]).unwrap_err();
    assert_eq!(
        e.message(),
        "config parse error at 1:2: failed to resolve host nowhere because no such host\nh|nowhere\n  ^"
    );
}

#[test]
fn discovery_error_messages_count_lines_from_zero() {
    let c = split_config("a|1.2.3.4\nb|wh\"at\n");
    let e = peers_from_lines(c, vec![Some(v4(1, 1)), None]).unwrap_err();
    assert_eq!(e.message(), "config parse error at 1:2: invalid ip, found \"wh\\\"at\"\nb|wh\"at\n  ^");
}

#[test]
fn discovery_reads_socket_and_ip_addresses() {
    let p = from_config("alice|127.0.0.1:3000\nbob|::1").unwrap();
    assert_eq!(p.peers.len(), 2);
    assert_eq!(p.peers[0].name, "alice");
    assert_eq!(p.peers[0].addr, v4(0x7f00_0001, 3000));
    assert_eq!(p.peers[1].name, "bob");
    assert_eq!(p.peers[1].addr, PeerAddr::V6 { ip: 1, port: 2504, flowinfo: 0, scope_id: 0 });
}

#[test]
fn discovery_from_text_reports_the_first_bad_line() {
    let e = from_config("  a|1.2.3.4\nb|what\nc\n").unwrap_err();
    assert_eq!(e.line_no(), 1);
    assert_eq!(e.column(), 2);
    assert_eq!(e.line(), "b|what");
    assert!(matches!(e.kind(), peer_discovery::ConfigParseErrorKind::InvalidIp { found } if found == "what"));

    let e = from_config("a|1.2.3.4\nbob\nc|what\n").unwrap_err();
    assert_eq!(e.line_no(), 1);
    assert_eq!(e.column(), 2);
    assert!(matches!(e.kind(), peer_discovery::ConfigParseErrorKind::MissingColon));

    let e = from_config("").map(|p| p.peers.len());
    assert_eq!(e.unwrap(), 0);
}

#[test]
fn addresses_are_read_with_the_default_port() {
    assert_eq!(read_addr("10.0.0.1"), Some(v4(0x0a00_0001, 2504)));
    assert_eq!(read_addr("10.0.0.1:80"), Some(v4(0x0a00_0001, 80)));
    assert_eq!(
        read_addr("[::2]:7"),
        Some(PeerAddr::V6 { ip: 2, port: 7, flowinfo: 0, scope_id: 0 })
    );
    assert_eq!(read_addr("example.org"), None);
    assert_eq!(read_addr("10.0.0.1:99999"), None);
    assert_eq!(read_addr(" 10.0.0.1"), None);
    assert_eq!(PeerAddr::new(IpAddress::V4(1), 2504), v4(1, 2504));
}

#[test]
fn a_host_is_looked_up_as_written_then_at_the_default_port() {
    let first = first_lookup("example.org");
    assert!(matches!(&first, Lookup::AsWritten { host } if host == "example.org"));
    match after_lookup(first, Resolution::InvalidInput) {
        ResolveStep::Look(Lookup::AtPort { host, port }) => {
            assert_eq!(host, "example.org");
            assert_eq!(port, 2504);
            let err = std::io::Error::new(std::io::ErrorKind::Other, "no such host");
            assert!(matches!(
                after_lookup(Lookup::AtPort { host, port }, Resolution::Failed(err)),
                ResolveStep::Done(Resolution::Failed(_))
            ));
        }
        other => panic!("expected a second lookup, got {other:?}"),
    }
    let found = after_lookup(first_lookup("h:1"), Resolution::Resolved(v4(1, 1)));
    assert!(matches!(found, ResolveStep::Done(Resolution::Resolved(a)) if a == v4(1, 1)));
    let again = Lookup::AtPort { host: "h".to_string(), port: 2504 };
    assert!(matches!(
        after_lookup(again, Resolution::InvalidInput),
        ResolveStep::Done(Resolution::InvalidInput)
    ));
}
