use presunto_e_queijo::message::{ParseError, PizzaMessage};
use presunto_e_queijo::reader::{MessageReader, ReadStep};

fn text(s: &str) -> PizzaMessage {
    PizzaMessage::Text { body: s.to_string() }
}

/// Feeds `bytes` in chunks of `size` and collects what the reader hands on,
/// as the runner does; `None` when the stream would wait for ever.
fn receive(bytes: &[u8], size: usize) -> Option<(Vec<PizzaMessage>, usize)> {
    let mut reader = MessageReader::new();
    let mut chunks = bytes.chunks(size);
    let mut messages = Vec::new();
    let mut skipped = 0;
    loop {
        match reader.next() {
            ReadStep::Message(m) => messages.push(m),
            ReadStep::Skipped(_) => skipped += 1,
            ReadStep::NeedBytes => match chunks.next() {
                Some(chunk) => reader.feed(chunk),
                None => {
                    return if reader.ends_at_close() { Some((messages, skipped)) } else { None };
                }
            },
        }
    }
}

fn same(a: &PizzaMessage, b: &PizzaMessage) -> bool {
    format!("{a:?}") == format!("{b:?}")
}

#[test]
fn written_messages_are_received_in_order_whatever_the_chunks() {
    let ms = vec![
        text("hello"),
        PizzaMessage::SetName { name: "zé".to_string() },
        PizzaMessage::NewPeers { ipv4: vec![0x7f00_0001], ipv6: vec![1, 2] },
        text(""),
    ];
    let bytes: Vec<u8> = ms.iter().flat_map(|m| m.write()).collect();
    for size in 1..=bytes.len() {
        let (got, skipped) = receive(&bytes, size).expect("the stream ends");
        assert_eq!(skipped, 0);
        assert_eq!(got.len(), ms.len());
        assert!(got.iter().zip(&ms).all(|(a, b)| same(a, b)), "chunks of {size}");
    }
}

#[test]
fn nothing_received_ends_at_once() {
    let (got, skipped) = receive(&[], 1).unwrap();
    assert!(got.is_empty());
    assert_eq!(skipped, 0);
}

#[test]
fn input_cut_inside_a_body_waits_for_ever() {
    assert!(receive(&[0, 0, 0, 0, 5, b'a'], 2).is_none());
    assert!(receive(&[2, 1, 0, 127], 3).is_none());
}

#[test]
fn input_cut_inside_a_length_ends() {
    let (got, _) = receive(&[0, 0, 0], 1).unwrap();
    assert!(got.is_empty());
}

#[test]
fn bad_bytes_are_skipped_and_reading_goes_on() {
    let mut bytes = vec![9, 1, 1, 0xff];
    bytes.extend(text("ok").write());
    let (got, skipped) = receive(&bytes, 3).unwrap();
    assert_eq!(skipped, 2);
    assert_eq!(got.len(), 1);
    assert!(same(&got[0], &text("ok")));
}

#[test]
fn the_reader_tells_why_it_skipped() {
    let mut reader = MessageReader::new();
    reader.feed(&[7]);
    assert!(matches!(reader.next(), ReadStep::Skipped(ParseError::InvalidType { ty: 7 })));
    assert!(matches!(reader.next(), ReadStep::NeedBytes));
    reader.feed(&[0, 0, 0]);
    reader.clear();
    assert!(reader.ends_at_close());
}
