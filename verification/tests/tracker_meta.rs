use swarm_core::torrent::{announce_candidates, parse_file, Client};
use swarm_core::tracker::{
    encode_announce_req, encode_connect_req, get_info_hash, parse_announce_resp,
    parse_announce_url, parse_connect_resp, IpPort, Scheme,
};

fn sha1_bytes(data: &[u8]) -> Vec<u8> {
    let mut hasher = <sha1::Sha1 as sha1::Digest>::new();
    sha1::Digest::update(&mut hasher, data);
    sha1::Digest::finalize(hasher).to_vec()
}

fn single_file_torrent() -> Vec<u8> {
    // name "f.bin", piece length 32768, one 32768-byte piece
    let mut doc = b"d8:announce7:udp://x4:infod6:lengthi32768e4:name5:f.bin12:piece lengthi32768e6:pieces20:".to_vec();
    doc.extend_from_slice(&[7u8; 20]);
    doc.extend_from_slice(b"ee");
    doc
}

#[test]
fn test_get_info_hash_is_digest_of_info_dict() {
    let doc = single_file_torrent();
    let hash = get_info_hash(&doc).unwrap();
    // the hashed bytes run from the `d` after `4:info` to the byte before
    // the document's final `e`
    let marker = b"4:infod";
    let at = doc.windows(7).position(|w| w == marker).unwrap();
    let info = &doc[at + 6..doc.len() - 1];
    assert_eq!(hash, sha1_bytes(info));
    assert!(get_info_hash(&b"d1:ai1ee".to_vec()).is_none());
}

#[test]
fn test_connect_packet_layout() {
    let req = encode_connect_req(0xCAFEBABE);
    assert_eq!(req.len(), 16);
    assert_eq!(&req[0..8], &[0x00, 0x00, 0x04, 0x17, 0x27, 0x10, 0x19, 0x80]);
    assert_eq!(&req[8..12], &[0, 0, 0, 0]);
    assert_eq!(&req[12..16], &[0xCA, 0xFE, 0xBA, 0xBE]);

    let mut resp = vec![0u8, 0, 0, 0];
    resp.extend_from_slice(&[0xCA, 0xFE, 0xBA, 0xBE]);
    resp.extend_from_slice(&[1, 2, 3, 4, 5, 6, 7, 8]);
    let (action, tid, cid) = parse_connect_resp(&resp).unwrap();
    assert_eq!(action, 0);
    assert_eq!(tid, 0xCAFEBABE);
    assert_eq!(cid, 0x0102030405060708);
    assert!(parse_connect_resp(&resp[..15]).is_none());
}

#[test]
fn test_announce_packet_layout() {
    let info_hash = vec![5u8; 20];
    let req = encode_announce_req(0x0102030405060708, 0xAABBCCDD, &info_hash, 6881);
    assert_eq!(req.len(), 98);
    assert_eq!(&req[0..8], &[1, 2, 3, 4, 5, 6, 7, 8]);
    assert_eq!(&req[8..12], &[0, 0, 0, 1]);
    assert_eq!(&req[12..16], &[0xAA, 0xBB, 0xCC, 0xDD]);
    assert_eq!(&req[16..36], &[5u8; 20][..]);
    assert_eq!(&req[36..56], &[1u8; 20][..]);
    assert_eq!(&req[92..96], &[0, 0, 0, 200]);
    assert_eq!(&req[96..98], &[0x1A, 0xE1]);
}

#[test]
fn test_announce_response_peers() {
    let mut resp = vec![0u8; 20];
    resp.extend_from_slice(&[10, 0, 0, 1, 0x1A, 0xE1]);
    resp.extend_from_slice(&[192, 168, 1, 2, 0x00, 0x50]);
    let peers = parse_announce_resp(&resp).unwrap();
    assert_eq!(peers.len(), 2);
    assert_eq!(peers[0], IpPort { ip: 0x0A000001, port: 6881 });
    assert_eq!(peers[1], IpPort { ip: 0xC0A80102, port: 80 });
    assert!(parse_announce_resp(&resp[..19]).is_none());
    assert_eq!(IpPort::from_bytes(&[1, 2, 3]).len(), 0);
}

#[test]
fn test_client_single_file() {
    let doc = single_file_torrent();
    let client = Client::new(&doc).unwrap();
    assert_eq!(client.piece_len, 32768);
    assert_eq!(client.num_pieces, 1);
    assert_eq!(client.hashes.len(), 1);
    assert_eq!(client.hashes[0], vec![7u8; 20]);
    assert_eq!(client.files.len(), 1);
    assert_eq!(client.files[0].path, vec![b"f.bin".to_vec()]);
    assert_eq!(client.files[0].len, 32768);
    assert_eq!(client.file_len, 32768);
    let marker = b"4:infod";
    let at = doc.windows(7).position(|w| w == marker).unwrap();
    assert_eq!(client.info_hash, sha1_bytes(&doc[at + 6..doc.len() - 1]));
}

#[test]
fn test_client_multi_file() {
    // name "t", files a (10 bytes) and b (10 bytes), one piece covers both
    let mut doc = b"d4:infod5:filesld6:lengthi10e4:pathl1:aeed6:lengthi10e4:pathl1:beee4:name1:t12:piece lengthi16384e6:pieces20:".to_vec();
    doc.extend_from_slice(&[1u8; 20]);
    doc.extend_from_slice(b"ee");
    let client = Client::new(&doc).unwrap();
    assert_eq!(client.files.len(), 2);
    assert_eq!(client.files[0].path, vec![b"t".to_vec(), b"a".to_vec()]);
    assert_eq!(client.files[0].len, 10);
    assert_eq!(client.files[1].path, vec![b"t".to_vec(), b"b".to_vec()]);
    assert_eq!(client.files[1].len, 10);
    assert_eq!(client.file_len, 20);
    assert_eq!(client.num_pieces, 1);
}

#[test]
fn test_client_rejects_malformed() {
    assert!(Client::new(&b"not bencode".to_vec()).is_none());
    assert!(Client::new(&b"d4:infoi3ee".to_vec()).is_none());
    // a piece length of zero is unusable
    let mut doc = b"d4:infod6:lengthi10e4:name1:f12:piece lengthi0e6:pieces20:".to_vec();
    doc.extend_from_slice(&[1u8; 20]);
    doc.extend_from_slice(b"ee");
    assert!(Client::new(&doc).is_none());
}

#[test]
fn test_parse_file_direct() {
    let mut doc = b"d6:lengthi5e4:name3:xyze".to_vec();
    let items = swarm_core::bencode::parse(&mut doc).unwrap();
    let dict = items[0].get_dict();
    let (files, total) = parse_file(dict).unwrap();
    assert_eq!(files.len(), 1);
    assert_eq!(files[0].path, vec![b"xyz".to_vec()]);
    assert_eq!(files[0].len, 5);
    assert_eq!(total, 5);
    // a files entry without a path is rejected
    let mut doc = b"d5:filesld6:lengthi10eee4:name1:te".to_vec();
    let items = swarm_core::bencode::parse(&mut doc).unwrap();
    let dict = items[0].get_dict();
    assert!(parse_file(dict).is_none());
}

#[test]
fn test_announce_candidates_in_order() {
    // the announce entry first, then announce-list tier by tier
    let mut doc = b"d8:announce3:abc13:announce-listll3:abc3:defel3:ghieee".to_vec();
    let items = swarm_core::bencode::parse(&mut doc).unwrap();
    let cands = announce_candidates(&items);
    assert_eq!(
        cands,
        vec![b"abc".to_vec(), b"abc".to_vec(), b"def".to_vec(), b"ghi".to_vec()]
    );

    // without a list the announce entry stands alone
    let mut doc = b"d8:announce3:abce".to_vec();
    let items = swarm_core::bencode::parse(&mut doc).unwrap();
    assert_eq!(announce_candidates(&items), vec![b"abc".to_vec()]);

    // a document without a top-level dictionary offers nothing
    let mut doc = b"i3e".to_vec();
    let items = swarm_core::bencode::parse(&mut doc).unwrap();
    assert!(announce_candidates(&items).is_empty());
}

#[test]
fn test_parse_announce_url() {
    let (scheme, host, port) = parse_announce_url(&b"udp://tracker.example:6969".to_vec()).unwrap();
    assert_eq!(scheme, Scheme::Udp);
    assert_eq!(host, b"tracker.example".to_vec());
    assert_eq!(port, 6969);

    // a missing port defaults to 80, and a path is ignored
    let (scheme, host, port) = parse_announce_url(&b"http://host/announce".to_vec()).unwrap();
    assert_eq!(scheme, Scheme::Http);
    assert_eq!(host, b"host".to_vec());
    assert_eq!(port, 80);

    let (_, host, port) = parse_announce_url(&b"udp://h:12/ann".to_vec()).unwrap();
    assert_eq!(host, b"h".to_vec());
    assert_eq!(port, 12);

    // anything but udp:// or http:// is refused
    assert!(parse_announce_url(&b"https://host".to_vec()).is_none());
    assert!(parse_announce_url(&b"host:80".to_vec()).is_none());
    // an empty host or an unusable port is refused
    assert!(parse_announce_url(&b"udp://:12".to_vec()).is_none());
    assert!(parse_announce_url(&b"udp://h:99999".to_vec()).is_none());
    assert!(parse_announce_url(&b"udp://h:".to_vec()).is_none());
}

#[test]
fn test_print_0x_to_decimal() {
    let hex_str = "0x4000";
    let dec = 16384;
    assert_eq!(format!("{:#x}", dec), hex_str);
    let mut msg = vec![1, 2, 3];
    assert_eq!(msg.drain(0..2).collect::<Vec<_>>(), &[1, 2]);
}
