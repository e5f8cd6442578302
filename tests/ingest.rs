use wikt::ingest::Ingest;

#[test]
fn commits_every_ten_thousand_entries_then_once_at_the_end() {
    let mut ingest = Ingest::new();
    let mut tags = Vec::new();
    for _ in 0..10001 {
        if let Some(tag) = ingest.entry_added() {
            tags.push((ingest.count, tag));
        }
    }
    assert_eq!(tags, vec![(10000, 0)]);
    assert_eq!(ingest.finish(), 1);
    assert_eq!(ingest.count, 10001);
    assert_eq!(ingest.committed, 2);
}
