use swarm_core::bencode::{dict_find, parse, parse_int, parse_string, Item};
use swarm_core::field::{ByteField, COMPLETE, EMPTY, IN_PROGRESS};

#[test]
fn test_parse_int_at() {
    let buf = b"i42e".to_vec();
    let (v, np) = parse_int(&buf, 0).unwrap();
    assert_eq!(v, 42);
    assert_eq!(np, 4);
    // leading zeros are accepted, as a lenient integer reader does
    let buf = b"i007e".to_vec();
    assert_eq!(parse_int(&buf, 0).unwrap().0, 7);
    // missing digits or terminator are rejected
    assert!(parse_int(&b"ie".to_vec(), 0).is_none());
    assert!(parse_int(&b"i12".to_vec(), 0).is_none());
    // a value beyond the machine word is rejected
    assert!(parse_int(&b"i99999999999999999999999999e".to_vec(), 0).is_none());
}

#[test]
fn test_parse_string_at() {
    let buf = b"4:spam".to_vec();
    let (s, np) = parse_string(&buf, 0).unwrap();
    assert_eq!(s, b"spam".to_vec());
    assert_eq!(np, 6);
    assert!(parse_string(&b"4:spa".to_vec(), 0).is_none());
    assert!(parse_string(&b":spam".to_vec(), 0).is_none());
}

#[test]
fn test_parse_document() {
    let mut buf = b"i3e4:spamli1ei2eed1:ai9ee".to_vec();
    let items = parse(&mut buf).unwrap();
    assert!(buf.is_empty());
    assert_eq!(items.len(), 4);
    assert_eq!(items[0].get_integer(), 3);
    assert_eq!(items[1].get_string(), b"spam".to_vec());
    let list = items[2].get_list();
    assert_eq!(list.len(), 2);
    assert_eq!(list[0].get_integer(), 1);
    assert_eq!(list[1].get_integer(), 2);
    let dict = items[3].get_dict();
    assert_eq!(dict.len(), 1);
    assert_eq!(dict[0].0, b"a".to_vec());
    assert_eq!(dict[0].1.get_integer(), 9);
}

#[test]
fn test_parse_stops_at_foreign_byte() {
    let mut buf = b"i3exyz".to_vec();
    let items = parse(&mut buf).unwrap();
    assert_eq!(items.len(), 1);
    assert_eq!(buf, b"xyz".to_vec());
}

#[test]
fn test_parse_malformed_leaves_buffer() {
    let mut buf = b"li1e".to_vec();
    assert!(parse(&mut buf).is_none());
    assert_eq!(buf, b"li1e".to_vec());
    let mut buf = b"d1:a".to_vec();
    assert!(parse(&mut buf).is_none());
    assert_eq!(buf, b"d1:a".to_vec());
}

#[test]
fn test_dict_find() {
    let mut buf = b"d1:ai1e1:bi2ee".to_vec();
    let items = parse(&mut buf).unwrap();
    let dict = items[0].get_dict();
    let b = dict_find(dict, b"b").unwrap();
    assert_eq!(b.get_integer(), 2);
    assert!(dict_find(dict, b"c").is_none());
    assert!(matches!(dict_find(dict, b"a"), Some(Item::Integer(1))));
}

#[test]
fn test_field_states() {
    let mut field = ByteField::new(3);
    assert_eq!(field.arr, vec![EMPTY, EMPTY, EMPTY]);
    assert!(!field.if_full());
    assert_eq!(field.get_empty(), Some(0));

    let claimed = field.claim_next().unwrap();
    assert_eq!(claimed, 0);
    assert_eq!(field.arr[0], IN_PROGRESS);
    assert_eq!(field.get_empty(), Some(1));

    field.complete(1);
    assert_eq!(field.arr[1], COMPLETE);
    assert!(field.is_complete(1));
    assert!(!field.is_complete(0));

    field.release(0);
    assert_eq!(field.arr[0], EMPTY);

    field.complete(0);
    field.complete(2);
    assert!(field.if_full());
    assert_eq!(field.get_empty(), None);
    assert_eq!(field.claim_next(), None);
}

#[test]
fn test_field_release_claimed() {
    // a dying session returns its IN_PROGRESS claims to EMPTY and touches
    // nothing else
    let mut field = ByteField::new(4);
    field.arr = vec![IN_PROGRESS, COMPLETE, IN_PROGRESS, EMPTY];
    let claimed = vec![0usize, 1, 2];
    field.release_claimed(&claimed);
    assert_eq!(field.arr, vec![EMPTY, COMPLETE, EMPTY, EMPTY]);
    for idx in claimed {
        assert_ne!(field.arr[idx], IN_PROGRESS);
    }
}
