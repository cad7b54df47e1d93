use presunto_e_queijo::message::{ParseError, PizzaMessage};
use presunto_e_queijo::wire::{push_be, read_be};

fn text(s: &str) -> PizzaMessage {
    PizzaMessage::Text { body: s.to_string() }
}

#[test]
fn text_is_written_with_a_big_endian_length() {
    assert_eq!(text("hi").write(), vec![0, 0, 0, 0, 2, b'h', b'i']);
}

#[test]
fn name_is_written_with_a_one_byte_length() {
    let m = PizzaMessage::SetName { name: "bob".to_string() };
    assert_eq!(m.write(), vec![1, 3, b'b', b'o', b'b']);
}

#[test]
fn utf8_lengths_count_bytes() {
    let m = PizzaMessage::SetName { name: "ção".to_string() };
    assert_eq!(m.write(), vec![1, 5, 0xc3, 0xa7, 0xc3, 0xa3, b'o']);
}

#[test]
fn peers_are_written_as_octets() {
    let m = PizzaMessage::NewPeers { ipv4: vec![0x7f00_0001, 0x0a00_0102], ipv6: vec![1] };
    let mut expected = vec![2, 2, 1, 127, 0, 0, 1, 10, 0, 1, 2];
    expected.extend_from_slice(&[0; 15]);
    expected.push(1);
    assert_eq!(m.write(), expected);
}

#[test]
fn long_name_length_is_cut_to_its_low_byte() {
    let name = "x".repeat(300);
    let bytes = PizzaMessage::SetName { name }.write();
    assert_eq!(bytes.len(), 302);
    assert_eq!(bytes[1], 44);
}

#[test]
fn text_reads_back() {
    let mut bytes = text("olá mundo").write();
    let n = bytes.len();
    bytes.extend_from_slice(&[9, 9, 9]);
    match PizzaMessage::read(&bytes) {
        Ok((used, PizzaMessage::Text { body })) => {
            assert_eq!(used, n);
            assert_eq!(body, "olá mundo");
        }
        _ => panic!("expected a text"),
    }
}

#[test]
fn name_reads_back() {
    let bytes = PizzaMessage::SetName { name: "alice".to_string() }.write();
    match PizzaMessage::read(&bytes) {
        Ok((7, PizzaMessage::SetName { name })) => assert_eq!(name, "alice"),
        _ => panic!("expected a name"),
    }
}

#[test]
fn peers_read_back() {
    let m = PizzaMessage::NewPeers {
        ipv4: vec![0xc0a8_0001],
        ipv6: vec![0x2001_0db8_0000_0000_0000_0000_0000_0001, 7],
    };
    let bytes = m.write();
    match PizzaMessage::read(&bytes) {
        Ok((used, PizzaMessage::NewPeers { ipv4, ipv6 })) => {
            assert_eq!(used, 3 + 4 + 32);
            assert_eq!(ipv4, vec![0xc0a8_0001]);
            assert_eq!(ipv6, vec![0x2001_0db8_0000_0000_0000_0000_0000_0001, 7]);
        }
        _ => panic!("expected peers"),
    }
}

#[test]
fn empty_input_needs_more_bytes() {
    assert!(matches!(PizzaMessage::read(&[]), Err((0, ParseError::UnexpectedEof))));
}

#[test]
fn text_cut_in_its_length_ends_the_input() {
    assert!(!PizzaMessage::ends_inside_body(&[0, 0, 0]));
    assert!(matches!(PizzaMessage::read(&[0, 0, 0]), Err((0, ParseError::UnexpectedEof))));
}

#[test]
fn text_cut_in_its_body_is_told_apart() {
    assert!(PizzaMessage::ends_inside_body(&[0, 0, 0, 0, 3, b'a']));
    assert!(!PizzaMessage::ends_inside_body(&[0, 0, 0, 0, 1, b'a']));
}

#[test]
fn peer_list_cut_in_its_counts_ends_the_input() {
    assert!(!PizzaMessage::ends_inside_body(&[2, 1]));
    assert!(matches!(PizzaMessage::read(&[2, 1]), Err((0, ParseError::UnexpectedEof))));
}

#[test]
fn peer_list_cut_in_its_addresses_is_told_apart() {
    assert!(PizzaMessage::ends_inside_body(&[2, 1, 0, 127, 0]));
    assert!(PizzaMessage::ends_inside_body(&[1, 4, b'a']));
    assert!(!PizzaMessage::ends_inside_body(&[7]));
    assert!(!PizzaMessage::ends_inside_body(&[]));
}

#[test]
fn unknown_type_skips_one_byte() {
    assert!(matches!(
        PizzaMessage::read(&[7, 1, 2]),
        Err((1, ParseError::InvalidType { ty: 7 }))
    ));
}

#[test]
fn bad_utf8_skips_the_whole_name() {
    match PizzaMessage::read(&[1, 2, 0xff, 0xfe, 5]) {
        Err((4, ParseError::Utf8(e))) => assert_eq!(e.into_bytes(), vec![0xff, 0xfe]),
        _ => panic!("expected a utf8 error"),
    }
}

#[test]
fn big_endian_fields() {
    let mut out = Vec::new();
    push_be(&mut out, 0x0102_0304, 4);
    assert_eq!(out, vec![1, 2, 3, 4]);
    assert_eq!(read_be(&out, 0, 4), 0x0102_0304);
    assert_eq!(read_be(&out, 1, 2), 0x0203);
}

#[test]
fn messages_in_a_row_read_back_in_order() {
    let mut bytes = text("one").write();
    bytes.extend(PizzaMessage::SetName { name: "two".to_string() }.write());
    bytes.extend(PizzaMessage::NewPeers { ipv4: vec![3], ipv6: vec![] }.write());
    let mut rest: &[u8] = &bytes;
    let mut seen = Vec::new();
    while !rest.is_empty() {
        let (used, m) = PizzaMessage::read(rest).map_err(|_| ()).unwrap();
        seen.push(match m {
            PizzaMessage::Text { body } => format!("text {body}"),
            PizzaMessage::SetName { name } => format!("name {name}"),
            PizzaMessage::NewPeers { ipv4, ipv6 } => format!("peers {ipv4:?} {ipv6:?}"),
        });
        rest = &rest[used..];
    }
    assert_eq!(seen, vec!["text one", "name two", "peers [3] []"]);
}
