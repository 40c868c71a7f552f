use hl::replay::{Cache, LruCache, MinimalCache, ReplayBufCreator, ReplayBufReader, Whence};

#[test]
fn replay_round_trip_across_segments() {
    let mut creator = ReplayBufCreator::with_segment_size(4);
    creator.write(b"abcdefghij");
    let buf = creator.result();
    let mut reader = ReplayBufReader::new(buf);
    let mut collected = Vec::new();
    loop {
        let piece = reader.read(64);
        if piece.is_empty() {
            break;
        }
        collected.extend_from_slice(&piece);
    }
    assert_eq!(collected, b"abcdefghij");
}

#[test]
fn replay_seek_and_reread() {
    let mut creator = ReplayBufCreator::with_segment_size(4);
    creator.write(b"0123456789");
    let buf = creator.result();
    let mut reader = ReplayBufReader::build(buf).with_cache(LruCache::new(2)).result();
    reader.seek(Whence::Start(6)).unwrap();
    let piece = reader.read(2);
    assert_eq!(piece, b"67");
    reader.seek(Whence::Current(-4)).unwrap();
    let piece = reader.read(2);
    assert_eq!(piece, b"45");
    let end = reader.seek(Whence::End(3)).unwrap();
    assert_eq!(end, 7);
    // reads stop at segment boundaries, so collect until the end
    let mut tail = Vec::new();
    loop {
        let piece = reader.read(8);
        if piece.is_empty() {
            break;
        }
        tail.extend_from_slice(&piece);
    }
    assert_eq!(tail, b"789");
}

#[test]
fn minimal_cache_keeps_one_entry() {
    let mut cache = MinimalCache::new();
    cache.put(1, b"one".to_vec());
    assert_eq!(cache.get(1).map(|v| v.as_slice()), Some(b"one".as_slice()));
    cache.put(2, b"two".to_vec());
    assert_eq!(cache.get(1), None);
    assert_eq!(cache.get(2).map(|v| v.as_slice()), Some(b"two".as_slice()));
}

#[test]
fn tee_reader_pairs_parts() {
    let tee = hl::tee::TeeReader::new(7u32, 9u64);
    let (r, w) = tee.into();
    assert_eq!(r, 7);
    assert_eq!(w, 9);
}

#[test]
fn lru_cache_promotes_on_access() {
    let mut cache = LruCache::new(2);
    cache.put(1, b"a".to_vec());
    cache.put(2, b"b".to_vec());
    // touching the older entry makes it the most recently used
    assert!(cache.get(1).is_some());
    cache.put(3, b"c".to_vec());
    // the least recently used entry was evicted
    assert!(cache.get(2).is_none());
    assert!(cache.get(1).is_some());
    assert!(cache.get(3).is_some());
}
