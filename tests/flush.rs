use trie_store::cache::ScratchCache;
use trie_store::codec::to_bytes;
use trie_store::digest::Digest;
use trie_store::flush::{Flush, FlushStep};
use trie_store::trie::{Pointer, PointerBlock, Trie};

fn leaf(key: &[u8], value: &[u8]) -> Trie {
    Trie::Leaf { key: key.to_vec(), value: value.to_vec() }
}

fn hash_of(t: &Trie) -> Digest {
    Digest::hash(&to_bytes(t))
}

#[test]
fn flush_asks_about_digests_it_does_not_hold() {
    let outside = Digest::from_raw([5u8; 32]);
    let mut block = PointerBlock::new();
    block.set(2, Some(Pointer::NodePointer(outside)));
    let root = Trie::Node { pointer_block: block };
    let hr = hash_of(&root);

    // An unrelated entry keeps the cache from running empty.
    let other = leaf(&[9], b"unrelated");
    let mut cache = ScratchCache::new();
    cache.insert(&hash_of(&other), true, other);
    cache.insert(&hr, true, root.clone());
    let mut flush = Flush::start(cache, hr);
    match flush.next() {
        FlushStep::Check(d) => assert_eq!(d, outside),
        _ => panic!("expected a durability check"),
    }
    flush.confirm();
    assert!(matches!(flush.next(), FlushStep::Done));
    let validated = flush.finish();
    assert_eq!(validated.len(), 1);
    assert_eq!(validated[0].0, hr);
    assert_eq!(validated[0].1, root);
}

#[test]
fn flush_reports_missing_once_the_cache_runs_empty() {
    let outside = Digest::from_raw([5u8; 32]);
    let mut block = PointerBlock::new();
    block.set(2, Some(Pointer::NodePointer(outside)));
    let root = Trie::Node { pointer_block: block };
    let hr = hash_of(&root);
    let mut cache = ScratchCache::new();
    cache.insert(&hr, true, root);
    let mut flush = Flush::start(cache, hr);
    match flush.next() {
        FlushStep::Missing(d) => assert_eq!(d, outside),
        _ => panic!("expected the child to be missing"),
    }
}

#[test]
fn flush_reports_missing_on_empty_cache() {
    let root = Digest::from_raw([6u8; 32]);
    let mut flush = Flush::start(ScratchCache::new(), root);
    match flush.next() {
        FlushStep::Missing(d) => assert_eq!(d, root),
        _ => panic!("expected the root to be missing"),
    }
}

#[test]
fn flush_skips_clean_entries() {
    let l = leaf(&[1], b"clean");
    let hl = hash_of(&l);
    let mut block = PointerBlock::new();
    block.set(0, Some(Pointer::LeafPointer(hl)));
    let root = Trie::Node { pointer_block: block };
    let hr = hash_of(&root);
    let mut cache = ScratchCache::new();
    cache.insert(&hl, false, l);
    cache.insert(&hr, true, root);
    let mut flush = Flush::start(cache, hr);
    assert!(matches!(flush.next(), FlushStep::Done));
    let validated = flush.finish();
    assert_eq!(validated.len(), 1);
    assert_eq!(validated[0].0, hr);
}

#[test]
fn encodability_of_nodes() {
    assert!(leaf(&[1, 2], &[3]).is_encodable());
    let short = Trie::Node { pointer_block: PointerBlock { slots: vec![None; 3] } };
    assert!(!short.is_encodable());
    assert!(Trie::Node { pointer_block: PointerBlock::new() }.is_encodable());
}
