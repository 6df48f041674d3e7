use swarm_core::field::{ByteField, COMPLETE, EMPTY, IN_PROGRESS};
use swarm_core::file::FileStore;
use swarm_core::hash::{process_piece, resume_torrent, split_hashes, Hasher};
use swarm_core::msg::{Header, Piece, PIECE};

fn sha1_bytes(data: &[u8]) -> Vec<u8> {
    let mut hasher = <sha1::Sha1 as sha1::Digest>::new();
    sha1::Digest::update(&mut hasher, data);
    sha1::Digest::finalize(hasher).to_vec()
}

fn subpiece(index: u32, begin: u32, data: Vec<u8>) -> Piece {
    Piece {
        header: Header { len: data.len() as u32 + 9, id: PIECE },
        index,
        begin,
        data,
    }
}

fn pattern(len: usize) -> Vec<u8> {
    (0..len).map(|i| (i % 256) as u8).collect()
}

#[test]
fn test_split_hashes() {
    let flat: Vec<u8> = (0u8..40).collect();
    let split = split_hashes(&flat);
    assert_eq!(split.len(), 2);
    assert_eq!(split[0], (0u8..20).collect::<Vec<u8>>());
    assert_eq!(split[1], (20u8..40).collect::<Vec<u8>>());
}

#[test]
fn test_hasher_queue() {
    let mut hasher = Hasher::new();
    assert!(!hasher.brk);
    assert!(hasher.pop_piece().is_none());
    hasher.push_piece(vec![subpiece(0, 0, vec![1])]);
    hasher.push_piece(vec![subpiece(1, 0, vec![2])]);
    let first = hasher.pop_piece().unwrap();
    assert_eq!(first[0].index, 0);
    let second = hasher.pop_piece().unwrap();
    assert_eq!(second[0].index, 1);
    assert!(hasher.pop_piece().is_none());
    hasher.request_stop();
    assert!(hasher.brk);
}

#[test]
fn test_process_piece_match_out_of_order() {
    // one 32768-byte piece arriving as two subpieces in the wrong order:
    // they are sorted, hashed, written, and the piece becomes COMPLETE
    let piece_len = 32768usize;
    let data = pattern(piece_len);
    let hashes = vec![sha1_bytes(&data)];
    let mut field = ByteField::new(1);
    field.arr[0] = IN_PROGRESS;
    let mut store = FileStore::new(&vec![piece_len]);
    let piece = vec![
        subpiece(0, 16384, data[16384..].to_vec()),
        subpiece(0, 0, data[..16384].to_vec()),
    ];
    let ok = process_piece(&mut field, &mut store, piece, &hashes, piece_len);
    assert!(ok);
    assert_eq!(field.arr[0], COMPLETE);
    assert_eq!(store.read_range(0, piece_len), data);
}

#[test]
fn test_process_piece_mismatch_writes_nothing() {
    // all-zero subpieces against a real digest: the piece goes back to
    // EMPTY and no byte is written
    let piece_len = 32768usize;
    let expected = pattern(piece_len);
    let hashes = vec![sha1_bytes(&expected)];
    let mut field = ByteField::new(1);
    field.arr[0] = IN_PROGRESS;
    let mut store = FileStore::new(&vec![piece_len]);
    // mark the store so an unexpected write would be visible
    store.write_range(0, &vec![9u8; 4]);
    let before = store.read_range(0, piece_len);
    let piece = vec![
        subpiece(0, 0, vec![0u8; 16384]),
        subpiece(0, 16384, vec![0u8; 16384]),
    ];
    let ok = process_piece(&mut field, &mut store, piece, &hashes, piece_len);
    assert!(!ok);
    assert_eq!(field.arr[0], EMPTY);
    assert_eq!(store.read_range(0, piece_len), before);
}

#[test]
fn test_process_piece_rejects_holes() {
    // a gap between subpieces can never verify
    let piece_len = 32768usize;
    let data = pattern(piece_len);
    let hashes = vec![sha1_bytes(&data)];
    let mut field = ByteField::new(1);
    field.arr[0] = IN_PROGRESS;
    let mut store = FileStore::new(&vec![piece_len]);
    let piece = vec![subpiece(0, 4, data[4..16388].to_vec())];
    let ok = process_piece(&mut field, &mut store, piece, &hashes, piece_len);
    assert!(!ok);
    assert_eq!(field.arr[0], EMPTY);
}

#[test]
fn test_resume_marks_everything_complete() {
    // replaying resume over a fully present payload marks every piece
    // COMPLETE, with no connection involved
    let piece_len = 16384usize;
    let total = 2 * piece_len + 5000;
    let payload = pattern(total);
    let hashes = vec![
        sha1_bytes(&payload[..piece_len]),
        sha1_bytes(&payload[piece_len..2 * piece_len]),
        sha1_bytes(&payload[2 * piece_len..]),
    ];
    let mut store = FileStore::new(&vec![20000usize, total - 20000]);
    store.write_range(0, &payload);
    let mut field = ByteField::new(3);
    let before = store.read_range(0, total);
    resume_torrent(&mut field, &mut store, &hashes, piece_len);
    assert_eq!(field.arr, vec![COMPLETE, COMPLETE, COMPLETE]);
    assert_eq!(store.read_range(0, total), before);
}

#[test]
fn test_resume_leaves_partial_pieces_empty() {
    // a piece whose bytes are absent hashes wrong and stays EMPTY
    let piece_len = 16384usize;
    let total = 2 * piece_len;
    let payload = pattern(total);
    let hashes = vec![
        sha1_bytes(&payload[..piece_len]),
        sha1_bytes(&payload[piece_len..]),
    ];
    let mut store = FileStore::new(&vec![total]);
    // only the second piece is on disk
    store.write_range(piece_len, &payload[piece_len..].to_vec());
    let mut field = ByteField::new(2);
    resume_torrent(&mut field, &mut store, &hashes, piece_len);
    assert_eq!(field.arr, vec![EMPTY, COMPLETE]);
}
