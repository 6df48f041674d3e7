use swarm_core::field::{ByteField, COMPLETE, IN_PROGRESS};
use swarm_core::file::FileStore;
use swarm_core::hash::process_piece;
use swarm_core::msg::{
    partial_parse, Header, Message, Piece, Request, PIECE, REQUEST, SUBPIECE_LEN,
};
use swarm_core::session::{build_piece_requests, fulfill_req, Connector};
use swarm_core::swarm::{
    announce_due, filter_peers, next_counter, seeded_pieces, seeding_complete,
};
use swarm_core::tracker::IpPort;

fn sha1_bytes(data: &[u8]) -> Vec<u8> {
    let mut hasher = <sha1::Sha1 as sha1::Digest>::new();
    sha1::Digest::update(&mut hasher, data);
    sha1::Digest::finalize(hasher).to_vec()
}

fn pattern(len: usize) -> Vec<u8> {
    (0..len).map(|i| (i % 256) as u8).collect()
}

#[test]
fn test_connector_flag() {
    let mut c = Connector::new();
    assert!(!c.stopped());
    c.request_stop();
    assert!(c.stopped());
}

#[test]
fn test_build_requests_full_piece() {
    let reqs = build_piece_requests(0, 32768, 65536);
    assert_eq!(reqs.len(), 2);
    for (k, q) in reqs.iter().enumerate() {
        assert_eq!(q.header.id, REQUEST);
        assert_eq!(q.header.len, 13);
        assert_eq!(q.index, 0);
        assert_eq!(q.begin, (k as u32) * SUBPIECE_LEN);
        assert_eq!(q.length, SUBPIECE_LEN);
    }
}

#[test]
fn test_build_requests_truncated_tail() {
    // last piece shorter than piece_len: the final request carries
    // total_length mod SUBPIECE_LEN bytes and never reaches past the end
    let total = 32768 + 20000;
    let reqs = build_piece_requests(1, 32768, total);
    assert_eq!(reqs.len(), 2);
    assert_eq!(reqs[0].length, SUBPIECE_LEN);
    assert_eq!(reqs[1].begin, SUBPIECE_LEN);
    assert_eq!(reqs[1].length, (total % SUBPIECE_LEN as usize) as u32);
    for q in &reqs {
        assert!(32768 + (q.begin + q.length) as usize <= total);
    }
}

#[test]
fn test_fulfill_req_serves_complete_piece() {
    let piece_len = SUBPIECE_LEN as usize;
    let data = pattern(piece_len);
    let mut store = FileStore::new(&vec![piece_len]);
    store.write_range(0, &data);
    let mut field = ByteField::new(1);
    field.complete(0);
    let req = Request { header: Header { len: 13, id: REQUEST }, index: 0, begin: 0, length: SUBPIECE_LEN };
    let bytes = fulfill_req(&field, &store, piece_len, &req).unwrap();
    // the answer is a complete `piece` message carrying the stored bytes
    let mut buf = bytes;
    let (progress, msgs) = partial_parse(&mut buf);
    assert!(progress);
    assert_eq!(msgs.len(), 1);
    match &msgs[0] {
        Message::Piece(p) => {
            assert_eq!(p.index, 0);
            assert_eq!(p.begin, 0);
            assert_eq!(p.data, data);
        }
        _ => panic!("expected a piece message"),
    }
}

#[test]
fn test_fulfill_req_ignores_unfinished_piece() {
    let piece_len = SUBPIECE_LEN as usize;
    let store = FileStore::new(&vec![piece_len]);
    let field = ByteField::new(1);
    let req = Request { header: Header { len: 13, id: REQUEST }, index: 0, begin: 0, length: SUBPIECE_LEN };
    assert!(fulfill_req(&field, &store, piece_len, &req).is_none());
    // an out-of-range index is ignored too
    let req = Request { header: Header { len: 13, id: REQUEST }, index: 9, begin: 0, length: SUBPIECE_LEN };
    assert!(fulfill_req(&field, &store, piece_len, &req).is_none());
}

#[test]
fn test_leech_and_seed_exchange() {
    // a seeder with the payload answers a leecher's requests; the leecher
    // assembles, verifies and writes, ending with the same bytes
    let piece_len = 32768usize;
    let total = piece_len;
    let payload = pattern(total);
    let hashes = vec![sha1_bytes(&payload)];

    let mut seed_store = FileStore::new(&vec![total]);
    seed_store.write_range(0, &payload);
    let mut seed_field = ByteField::new(1);
    seed_field.complete(0);

    let mut leech_store = FileStore::new(&vec![total]);
    let mut leech_field = ByteField::new(1);

    let claimed = leech_field.claim_next().unwrap();
    assert_eq!(claimed, 0);
    assert_eq!(leech_field.arr[0], IN_PROGRESS);

    let reqs = build_piece_requests(claimed, piece_len, total);
    let mut wire: Vec<u8> = Vec::new();
    for q in &reqs {
        let answer = fulfill_req(&seed_field, &seed_store, piece_len, q).unwrap();
        wire.extend_from_slice(&answer);
    }
    let (_, msgs) = partial_parse(&mut wire);
    assert_eq!(msgs.len(), reqs.len());
    let mut assembled: Vec<Piece> = Vec::new();
    for m in msgs {
        match m {
            Message::Piece(p) => assembled.push(p),
            _ => panic!("expected only piece messages"),
        }
    }
    let ok = process_piece(&mut leech_field, &mut leech_store, assembled, &hashes, piece_len);
    assert!(ok);
    assert_eq!(leech_field.arr[0], COMPLETE);
    assert_eq!(leech_store.read_range(0, total), payload);
}

#[test]
fn test_fake_peer_zero_data_never_completes() {
    // a peer answering all-zero subpieces: the claim cycles back to EMPTY
    // every round and the piece never becomes COMPLETE
    let piece_len = 32768usize;
    let payload = pattern(piece_len);
    let hashes = vec![sha1_bytes(&payload)];
    let mut field = ByteField::new(1);
    let mut store = FileStore::new(&vec![piece_len]);
    for _round in 0..3 {
        let claimed = field.claim_next().unwrap();
        assert_eq!(claimed, 0);
        let fake = vec![
            Piece {
                header: Header { len: 16384 + 9, id: PIECE },
                index: 0,
                begin: 0,
                data: vec![0u8; 16384],
            },
            Piece {
                header: Header { len: 16384 + 9, id: PIECE },
                index: 0,
                begin: 16384,
                data: vec![0u8; 16384],
            },
        ];
        let ok = process_piece(&mut field, &mut store, fake, &hashes, piece_len);
        assert!(!ok);
        assert_eq!(field.arr[0], swarm_core::field::EMPTY);
    }
    assert_eq!(store.read_range(0, piece_len), vec![0u8; piece_len]);
}

#[test]
fn test_seeded_arithmetic() {
    assert_eq!(seeded_pieces(0, 2), 0);
    assert_eq!(seeded_pieces(1, 2), 1);
    assert_eq!(seeded_pieces(2, 2), 1);
    assert_eq!(seeded_pieces(3, 2), 2);
    assert!(!seeding_complete(1, 2, 2));
    assert!(seeding_complete(3, 2, 2));
    assert!(seeding_complete(4, 2, 2));
    assert!(seeding_complete(3, 2, 1));
}

#[test]
fn test_announce_schedule() {
    assert!(announce_due(0));
    assert!(!announce_due(2));
    assert!(announce_due(60));
    // after a failure the counter resets to one, which is due again
    assert!(announce_due(1));
    assert_eq!(next_counter(5, false), 6);
    assert_eq!(next_counter(5, true), 1);
}

#[test]
fn test_filter_peers_drops_own_port() {
    // the self-connect guard: a peer advertising our own listening port is
    // not dialed
    let peers = vec![
        IpPort { ip: 1, port: 6881 },
        IpPort { ip: 2, port: 7000 },
        IpPort { ip: 3, port: 6881 },
    ];
    let kept = filter_peers(&peers, 6881);
    assert_eq!(kept, vec![IpPort { ip: 2, port: 7000 }]);
    let kept = filter_peers(&peers, 9);
    assert_eq!(kept.len(), 3);
}
