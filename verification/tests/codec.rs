use swarm_core::msg::{
    bytes_eq, copy_range, drop_front, is_fatal, is_zero, parse_msg, parse_u32, try_parse,
    u32_to_be, Bitfield, Cancel, Handshake, Have, Header, Message, Piece, Request,
    partial_parse, BITFIELD, CANCEL, CHOKE, HAVE, PIECE, REQUEST, SUBPIECE_LEN, UNCHOKE,
};

fn be32(x: u32) -> Vec<u8> {
    u32_to_be(x)
}

#[test]
fn test_parse_u32_be() {
    let bytes = vec![0x12u8, 0x34, 0x56, 0x78];
    assert_eq!(parse_u32(&bytes), 0x12345678);
    assert_eq!(be32(0x12345678), bytes);
    assert_eq!(parse_u32(&be32(0)), 0);
    assert_eq!(parse_u32(&be32(u32::MAX)), u32::MAX);
}

#[test]
fn test_drop_front_and_helpers() {
    let mut v = vec![1u8, 2, 3];
    drop_front(&mut v, 2);
    assert_eq!(v, vec![3u8]);
    assert!(bytes_eq(&[1, 2], &[1, 2]));
    assert!(!bytes_eq(&[1, 2], &[1, 3]));
    assert_eq!(copy_range(&vec![9u8, 8, 7, 6], 1, 3), vec![8u8, 7]);
    assert!(is_zero(&[0, 0, 0]));
    assert!(!is_zero(&[]));
    assert!(!is_zero(&[0, 1]));
}

#[test]
fn test_header_round_trip() {
    let h = Header { len: 1, id: CHOKE };
    let bytes = h.as_bytes();
    assert_eq!(bytes, vec![0u8, 0, 0, 1, 0]);
    let parsed = Header::parse(&bytes).unwrap();
    assert_eq!(parsed.len, 1);
    assert_eq!(parsed.id, CHOKE);
    assert!(parsed.test());
    assert!(Header::parse(&[0u8, 0, 0, 1, 99]).is_none());
}

#[test]
fn test_have_round_trip() {
    let h = Have { header: Header { len: 5, id: HAVE }, index: 7 };
    assert!(h.test());
    let mut bytes = h.as_bytes();
    let parsed = Have::parse(&mut bytes).unwrap();
    assert_eq!(parsed.index, 7);
    assert!(bytes.is_empty());
}

#[test]
fn test_bitfield_round_trip() {
    let b = Bitfield { header: Header { len: 3, id: BITFIELD }, data: vec![0xAA, 0x55] };
    assert!(b.test());
    let mut bytes = b.as_bytes();
    let parsed = Bitfield::parse(&mut bytes).unwrap();
    assert_eq!(parsed.data, vec![0xAA, 0x55]);
    assert!(bytes.is_empty());
}

#[test]
fn test_request_round_trip() {
    let q = Request { header: Header { len: 13, id: REQUEST }, index: 1, begin: 2, length: 3 };
    assert!(q.test());
    let mut bytes = q.as_bytes();
    assert_eq!(bytes.len(), 17);
    let parsed = Request::parse(&mut bytes).unwrap();
    assert_eq!((parsed.index, parsed.begin, parsed.length), (1, 2, 3));
    assert!(bytes.is_empty());
}

#[test]
fn test_piece_round_trip() {
    let p = Piece {
        header: Header { len: 12, id: PIECE },
        index: 4,
        begin: 8,
        data: vec![1, 2, 3],
    };
    assert!(p.test());
    let mut bytes = p.as_bytes();
    assert_eq!(bytes.len(), 16);
    let parsed = Piece::parse(&mut bytes).unwrap();
    assert_eq!(parsed.index, 4);
    assert_eq!(parsed.begin, 8);
    assert_eq!(parsed.data, vec![1, 2, 3]);
    assert!(bytes.is_empty());
}

#[test]
fn test_cancel_round_trip() {
    let c = Cancel { header: Header { len: 13, id: CANCEL }, index: 9, begin: 1, length: 5 };
    assert!(c.test());
    let mut bytes = c.as_bytes();
    let parsed = Cancel::parse(&mut bytes).unwrap();
    assert_eq!((parsed.index, parsed.begin, parsed.length), (9, 1, 5));
}

#[test]
fn test_handshake_round_trip() {
    let mut hs = Handshake::default();
    assert!(hs.test());
    hs.info_hash = vec![7u8; 20];
    hs.peer_id = vec![9u8; 20];
    let mut bytes = hs.as_bytes();
    assert_eq!(bytes.len(), 68);
    assert_eq!(bytes[0], 19);
    assert_eq!(&bytes[1..20], b"BitTorrent protocol");
    let parsed = Handshake::parse(&mut bytes).unwrap();
    assert_eq!(parsed.info_hash, vec![7u8; 20]);
    assert_eq!(parsed.peer_id, vec![9u8; 20]);
    assert!(bytes.is_empty());
    let mut bad = vec![18u8; 68];
    assert!(Handshake::parse(&mut bad).is_none());
    assert_eq!(bad.len(), 68);
}

#[test]
fn test_partial_parse_fragmented() {
    // one `piece` message, data = 16384 bytes of 0x41, fed in chunks of
    // 4, 9 and the rest
    let p = Piece {
        header: Header { len: SUBPIECE_LEN + 9, id: PIECE },
        index: 0,
        begin: 0,
        data: vec![0x41u8; SUBPIECE_LEN as usize],
    };
    let wire = p.as_bytes();
    let mut buf: Vec<u8> = Vec::new();

    buf.extend_from_slice(&wire[0..4]);
    let (progress, msgs) = partial_parse(&mut buf);
    assert!(!progress);
    assert!(msgs.is_empty());
    assert_eq!(buf.len(), 4);

    buf.extend_from_slice(&wire[4..13]);
    let (progress, msgs) = partial_parse(&mut buf);
    assert!(!progress);
    assert!(msgs.is_empty());
    assert_eq!(buf.len(), 13);

    buf.extend_from_slice(&wire[13..]);
    let (progress, msgs) = partial_parse(&mut buf);
    assert!(progress);
    assert!(buf.is_empty());
    assert_eq!(msgs.len(), 1);
    match &msgs[0] {
        Message::Piece(got) => {
            assert_eq!(got.index, 0);
            assert_eq!(got.begin, 0);
            assert_eq!(got.data.len(), SUBPIECE_LEN as usize);
        }
        _ => panic!("expected a piece message"),
    }
}

#[test]
fn test_partial_parse_keepalives_silent() {
    // all-zero keep-alives are consumed, produce no message, and report no
    // progress
    let mut buf = vec![0u8; 8];
    let (progress, msgs) = partial_parse(&mut buf);
    assert!(!progress);
    assert!(msgs.is_empty());
    assert!(buf.is_empty());

    // a trailing partial length prefix stays in the buffer
    let mut buf = vec![0u8; 6];
    let (progress, msgs) = partial_parse(&mut buf);
    assert!(!progress);
    assert!(msgs.is_empty());
    assert_eq!(buf.len(), 2);
}

#[test]
fn test_partial_parse_empty_bitfield_between_keepalives() {
    // empty bitfield framed between keep-alives: one message, nothing else
    let bf = Bitfield { header: Header { len: 1, id: BITFIELD }, data: Vec::new() };
    let mut buf = vec![0u8, 0, 0, 0];
    buf.extend_from_slice(&bf.as_bytes());
    buf.extend_from_slice(&[0, 0, 0, 0]);
    let (progress, msgs) = partial_parse(&mut buf);
    assert!(progress);
    assert_eq!(msgs.len(), 1);
    assert!(matches!(&msgs[0], Message::Bitfield(b) if b.data.is_empty()));
}

#[test]
fn test_partial_parse_chunking_equivalence() {
    // the same byte stream cut at every boundary yields the same messages
    let mut stream: Vec<u8> = Vec::new();
    stream.extend_from_slice(&Header { len: 1, id: UNCHOKE }.as_bytes());
    stream.extend_from_slice(
        &Have { header: Header { len: 5, id: HAVE }, index: 3 }.as_bytes(),
    );
    stream.extend_from_slice(&[0, 0, 0, 0]);
    stream.extend_from_slice(
        &Request { header: Header { len: 13, id: REQUEST }, index: 1, begin: 0, length: 9 }
            .as_bytes(),
    );

    let mut whole = stream.clone();
    let (_, reference) = partial_parse(&mut whole);
    let shape: Vec<u8> = reference
        .iter()
        .map(|m| match m {
            Message::Unchoke(_) => 1u8,
            Message::Have(_) => 4,
            Message::Request(_) => 6,
            _ => 99,
        })
        .collect();
    assert_eq!(shape, vec![1, 4, 6]);

    for cut in 0..stream.len() {
        let mut buf: Vec<u8> = Vec::new();
        let mut got: Vec<u8> = Vec::new();
        buf.extend_from_slice(&stream[..cut]);
        let (_, msgs) = partial_parse(&mut buf);
        for m in &msgs {
            got.push(match m {
                Message::Unchoke(_) => 1,
                Message::Have(_) => 4,
                Message::Request(_) => 6,
                _ => 99,
            });
        }
        buf.extend_from_slice(&stream[cut..]);
        let (_, msgs) = partial_parse(&mut buf);
        for m in &msgs {
            got.push(match m {
                Message::Unchoke(_) => 1,
                Message::Have(_) => 4,
                Message::Request(_) => 6,
                _ => 99,
            });
        }
        assert_eq!(got, shape);
        assert!(buf.is_empty());
    }
}

#[test]
fn test_partial_parse_unknown_id_halts() {
    let mut buf = vec![0u8, 0, 0, 1, 42];
    let (progress, msgs) = partial_parse(&mut buf);
    assert!(!progress);
    assert!(msgs.is_empty());
    assert_eq!(buf.len(), 5);
}

#[test]
fn test_is_fatal() {
    // an unknown id can never become valid
    assert!(is_fatal(&[0, 0, 0, 1, 42]));
    // a known id with a length that does not fit its shape
    assert!(is_fatal(&[0, 0, 0, 9, HAVE]));
    assert!(is_fatal(&[0, 0, 0, 2, CHOKE]));
    // incomplete frames only await more bytes
    assert!(!is_fatal(&[]));
    assert!(!is_fatal(&[0, 0, 0]));
    assert!(!is_fatal(&[0, 0, 0, 1, CHOKE]));
    assert!(!is_fatal(&[0, 0, 0, 0]));
    let hs = Handshake::default().as_bytes();
    assert!(!is_fatal(&hs[..20]));
    assert!(!is_fatal(&hs));
    // a 68-byte handshake with a corrupt protocol string is fatal
    let mut bad = hs.clone();
    bad[1] = 99;
    assert!(is_fatal(&bad));
}

#[test]
fn test_parse_msg_and_try_parse() {
    let mut buf = Header { len: 1, id: CHOKE }.as_bytes();
    let complete = try_parse(&buf);
    assert!(complete);
    assert!(!try_parse(&buf[..3]));
    assert!(!try_parse(&[]));
    let msgs = parse_msg(&mut buf);
    assert_eq!(msgs.len(), 1);
    assert!(matches!(&msgs[0], Message::Choke(_)));
    assert!(buf.is_empty());
}
