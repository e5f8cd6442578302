use wikt::block::Block;
use wikt::entry::Entry;
use wikt::error::StoreError;
use wikt::refid::Ref;
use wikt::store::{block_file_name, is_block_file, Store};

fn sample_entry(i: usize) -> Entry {
    let title = format!("word{}", i);
    let body = format!(
        "==English==\n===Noun===\n{} is a noun number {} with meaning {}\n",
        title,
        i,
        i * 7919 % 1000
    );
    Entry::new(&title, &body)
}

#[test]
fn file_names() {
    assert_eq!(block_file_name(0), "0.zst");
    assert_eq!(block_file_name(10000), "10000.zst");
    assert!(is_block_file("12.zst"));
    assert!(!is_block_file("zst.dictionary"));
    assert!(!is_block_file("zst"));
}

#[test]
fn blocks_keeps_block_files() {
    let store = Store::new("store");
    let names = vec!["0.zst".to_string(), "zst.dictionary".to_string(), "1.zst".to_string()];
    assert_eq!(store.blocks(&names), vec!["0.zst".to_string(), "1.zst".to_string()]);
}

#[test]
fn open_without_dictionary() {
    let mut store = Store::new("store");
    assert_eq!(store.open(None).unwrap_err(), StoreError::NoDictionary);
    assert_eq!(store.read_entry(Ref::new(0, 0), &[]).unwrap_err(), StoreError::StoreNotOpen);
    assert_eq!(store.read_block("0", &[]).unwrap_err(), StoreError::StoreNotOpen);
}

#[test]
fn commit_leaves_empty_block_and_reads_back() {
    let mut store = Store::new("store");
    let mut block = Block::default();
    for i in 0..2000 {
        block.add(sample_entry(i)).unwrap();
    }
    let c = store.commit(&mut block, 0).unwrap();
    assert_eq!(block.n, 0);
    assert!(block.starts.is_empty() && block.data.is_empty());
    assert_eq!(c.file_name, "0.zst");
    let dict = c.dictionary.unwrap();
    assert_eq!(store.dict.as_ref().unwrap(), &dict);

    let mut reader = Store::new("store");
    reader.open(Some(dict.clone())).unwrap();
    let e = reader.read_entry(Ref::new(0, 1), &c.bytes).unwrap();
    let (t, b, r) = e.open().unwrap();
    assert_eq!(t, "word1");
    assert!(b.contains("word1 is a noun"));
    assert_eq!(r, Ref::new(0, 1));

    let blk = reader.read_block("0", &c.bytes).unwrap();
    assert_eq!(blk.id, 0);
    assert_eq!(blk.n, 2000);
    assert_eq!(reader.read_block("x", &c.bytes).unwrap_err(), StoreError::BadFilename);
    assert_eq!(reader.read_block("0", &[1, 2, 3]).unwrap_err(), StoreError::CorruptBlock);

    block.add(Entry::new("last", "entry")).unwrap();
    let c2 = store.commit(&mut block, 1).unwrap();
    assert!(c2.dictionary.is_none());
    assert_eq!(store.dict.as_ref().unwrap(), &dict);
    let e = reader.read_entry(Ref::new(1, 0), &c2.bytes).unwrap();
    let (t, b, _) = e.open().unwrap();
    assert_eq!((t.as_str(), b.as_str()), ("last", "entry"));
}

#[test]
fn training_failure_leaves_store_untouched() {
    let mut store = Store::new("store");
    let mut block = Block::default();
    block.add(Entry::new("a", "1")).unwrap();
    assert_eq!(store.commit(&mut block, 0).unwrap_err(), StoreError::TrainFailed);
    assert!(store.dict.is_none());
    assert_eq!(block.n, 0);
}

#[test]
fn commit_refuses_disordered_offsets() {
    let mut store = Store::new("store");
    let mut block = Block::default();
    block.add(Entry::new("a", "1")).unwrap();
    block.add(Entry::new("b", "2")).unwrap();
    block.starts[0] = 5;
    assert_eq!(store.commit(&mut block, 0).unwrap_err(), StoreError::CorruptBlock);
}

#[test]
fn three_entries_block_lookup() {
    let mut block = Block::default();
    block.add(Entry::new("a", "1")).unwrap();
    block.add(Entry::new("b", "22")).unwrap();
    block.add(Entry::new("c", "333")).unwrap();
    assert_eq!(block_file_name(0), "0.zst");
    let plain = block.finish().unwrap();
    let stored = Block::from_stored("0", &plain).unwrap();
    let (t, b, r) = stored.entry(1).unwrap().open().unwrap();
    assert_eq!((t.as_str(), b.as_str()), ("b", "22"));
    assert_eq!(r, Ref::new(0, 1));
}

#[test]
fn ten_thousand_and_one_entries_two_blocks() {
    let mut store = Store::new("store");
    let mut block = Block::default();
    let mut files = Vec::new();
    for i in 0..10001 {
        block.add(sample_entry(i)).unwrap();
        if (i + 1) % 10000 == 0 {
            files.push(store.commit(&mut block, files.len()).unwrap());
        }
    }
    files.push(store.commit(&mut block, files.len()).unwrap());
    assert_eq!(files.len(), 2);
    assert_eq!(files[0].file_name, "0.zst");
    assert_eq!(files[1].file_name, "1.zst");
    assert!(files[0].dictionary.is_some() && files[1].dictionary.is_none());

    let mut reader = Store::new("store");
    reader.open(files[0].dictionary.clone()).unwrap();
    let (t, _, _) = reader.read_entry(Ref::new(1, 0), &files[1].bytes).unwrap().open().unwrap();
    assert_eq!(t, "word10000");
    let (t, _, _) = reader.read_entry(Ref::new(0, 9999), &files[0].bytes).unwrap().open().unwrap();
    assert_eq!(t, "word9999");
    assert_eq!(
        reader.read_entry(Ref::new(1, 1), &files[1].bytes).unwrap_err(),
        StoreError::NoSuchEntry
    );
}
