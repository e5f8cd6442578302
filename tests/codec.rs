use wikt::block::Block;
use wikt::entry::Entry;
use wikt::error::StoreError;

fn entry_text(e: Entry) -> (String, String) {
    let (t, b, _) = e.open().unwrap();
    (t, b)
}

#[test]
fn entry_wire_form_is_exact() {
    let e = Entry::new("ab", "c");
    assert_eq!(e.to_bytes(), vec![2, 0, 0, 0, 1, 0, 0, 0, b'a', b'b', b'c']);
}

#[test]
fn entry_round_trip() {
    let e = Entry::new("Title", "Some body text");
    let d = Entry::from_bytes(&e.to_bytes()).unwrap();
    assert_eq!(entry_text(d), ("Title".to_string(), "Some body text".to_string()));
}

#[test]
fn entry_round_trip_empty_body() {
    let e = Entry::new("alone", "");
    let d = Entry::from_bytes(&e.to_bytes()).unwrap();
    assert_eq!(d.body_len, 0);
    assert_eq!(entry_text(d), ("alone".to_string(), String::new()));
}

#[test]
fn entry_decode_short_input_is_corrupt() {
    assert_eq!(Entry::from_bytes(&[1, 0, 0]).unwrap_err(), StoreError::CorruptBlock);
    assert_eq!(
        Entry::from_bytes(&[5, 0, 0, 0, 0, 0, 0, 0, b'a']).unwrap_err(),
        StoreError::CorruptBlock
    );
}

fn three_entry_block() -> Block {
    let mut b = Block::default();
    b.add(Entry::new("a", "1")).unwrap();
    b.add(Entry::new("b", "22")).unwrap();
    b.add(Entry::new("c", "333")).unwrap();
    b
}

#[test]
fn offsets_follow_encoded_lengths() {
    let b = three_entry_block();
    assert_eq!(b.n, 3);
    assert_eq!(b.starts, vec![0, 10, 21]);
    assert_eq!(b.data.len(), 33);
}

#[test]
fn block_wire_form_header() {
    let bytes = three_entry_block().finish().unwrap();
    assert_eq!(&bytes[0..8], &[3, 0, 0, 0, 0, 0, 0, 0]);
    assert_eq!(&bytes[8..16], &[0, 0, 0, 0, 0, 0, 0, 0]);
    assert_eq!(&bytes[16..24], &[10, 0, 0, 0, 0, 0, 0, 0]);
    assert_eq!(bytes.len(), 8 + 24 + 33);
}

#[test]
fn block_round_trip() {
    let bytes = three_entry_block().finish().unwrap();
    let mut b = Block::from_bytes(&bytes).unwrap();
    b.id = 9;
    let e = b.entry(1).unwrap();
    assert_eq!(e.store_ref.block_id, 9);
    assert_eq!(e.store_ref.entry_id, 1);
    assert_eq!(entry_text(e), ("b".to_string(), "22".to_string()));
    assert_eq!(entry_text(b.entry(0).unwrap()), ("a".to_string(), "1".to_string()));
    assert_eq!(entry_text(b.entry(2).unwrap()), ("c".to_string(), "333".to_string()));
}

#[test]
fn lookup_out_of_range() {
    let b = three_entry_block();
    assert_eq!(b.entry(3).unwrap_err(), StoreError::NoSuchEntry);
}

#[test]
fn padding_bytes_are_ignored() {
    let mut bytes = three_entry_block().finish().unwrap();
    bytes[4] = 0xde;
    bytes[5] = 0xad;
    bytes[6] = 0xbe;
    bytes[7] = 0xef;
    let b = Block::from_bytes(&bytes).unwrap();
    assert_eq!(b.n, 3);
    assert_eq!(entry_text(b.entry(2).unwrap()), ("c".to_string(), "333".to_string()));
}

#[test]
fn short_block_is_corrupt() {
    assert_eq!(Block::from_bytes(&[1, 0, 0, 0]).unwrap_err(), StoreError::CorruptBlock);
    assert_eq!(
        Block::from_bytes(&[2, 0, 0, 0, 0, 0, 0, 0, 0, 0, 0, 0, 0, 0, 0, 0]).unwrap_err(),
        StoreError::CorruptBlock
    );
}

#[test]
fn corrupted_last_byte_gives_corrupt_block() {
    let mut b = three_entry_block();
    b.add(Entry::new("", "")).unwrap();
    let mut bytes = b.finish().unwrap();
    let last = bytes.len() - 1;
    bytes[last] = 0xff;
    let parsed = Block::from_bytes(&bytes).unwrap();
    assert_eq!(parsed.entry(3).unwrap_err(), StoreError::CorruptBlock);
}

#[test]
fn sample_sizes_are_entry_lengths() {
    let b = three_entry_block();
    assert_eq!(b.sample_sizes().unwrap(), vec![10, 11, 12]);
    let mut bad = three_entry_block();
    bad.starts[1] = 40;
    assert!(bad.sample_sizes().is_none());
}
