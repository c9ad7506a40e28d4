use trie_store::codec::{from_bytes, to_bytes};
use trie_store::digest::Digest;
use trie_store::environment::Environment;
use trie_store::error::Error;
use trie_store::trie::{Pointer, PointerBlock, Trie};
use trie_store::trie_store::{LmdbTrieStore, ScratchTrieStore};

fn leaf(key: &[u8], value: &[u8]) -> Trie {
    Trie::Leaf { key: key.to_vec(), value: value.to_vec() }
}

fn hash_of(t: &Trie) -> Digest {
    Digest::hash(&to_bytes(t))
}

fn node(children: &[(usize, Pointer)]) -> Trie {
    let mut pointer_block = PointerBlock::new();
    for (i, p) in children {
        pointer_block.set(*i, Some(*p));
    }
    Trie::Node { pointer_block }
}

fn setup() -> (Environment, LmdbTrieStore) {
    let mut env = Environment::new();
    let store = LmdbTrieStore::new(&mut env, None).unwrap();
    (env, store)
}

fn durable(env: &Environment, store: &LmdbTrieStore, d: &Digest) -> Option<Trie> {
    let txn = env.create_read_txn();
    store.get(env, &txn, d).unwrap()
}

#[test]
fn leaf_encoding_is_exact() {
    let t = leaf(&[1, 2], &[3]);
    assert_eq!(to_bytes(&t), vec![0, 2, 0, 0, 0, 1, 2, 1, 0, 0, 0, 3]);
    assert_eq!(from_bytes(&to_bytes(&t)), Some(t));
}

#[test]
fn node_and_extension_round_trip() {
    let d = Digest::from_raw([9u8; 32]);
    let n = node(&[(0, Pointer::LeafPointer(d)), (255, Pointer::NodePointer(d))]);
    let bytes = to_bytes(&n);
    assert_eq!(bytes.len(), 1 + 254 + 2 * 34);
    assert_eq!(bytes[0], 1);
    assert_eq!(&bytes[1..3], &[1, 0]);
    assert_eq!(from_bytes(&bytes), Some(n));

    let e = Trie::Extension { affix: vec![5, 6, 7], pointer: Pointer::NodePointer(d) };
    let bytes = to_bytes(&e);
    assert_eq!(&bytes[..9], &[2, 3, 0, 0, 0, 5, 6, 7, 1]);
    assert_eq!(bytes.len(), 9 + 32);
    assert_eq!(from_bytes(&bytes), Some(e));
}

#[test]
fn malformed_bytes_do_not_decode() {
    assert_eq!(from_bytes(&[]), None);
    assert_eq!(from_bytes(&[3]), None);
    let mut bytes = to_bytes(&leaf(&[1], &[2]));
    bytes.push(0);
    assert_eq!(from_bytes(&bytes), None);
    assert_eq!(from_bytes(&[0, 5, 0, 0, 0, 1]), None);
}

#[test]
fn digest_is_blake2b_256() {
    let d = Digest::hash(&[]);
    let expected: [u8; 32] = [
        0x0e, 0x57, 0x51, 0xc0, 0x26, 0xe5, 0x43, 0xb2, 0xe8, 0xab, 0x2e, 0xb0, 0x60, 0x99, 0xda,
        0xa1, 0xd1, 0xe5, 0xdf, 0x47, 0x77, 0x8f, 0x77, 0x87, 0xfa, 0xab, 0x45, 0xcd, 0xf1, 0x2f,
        0xe3, 0xa8,
    ];
    assert_eq!(d.value(), expected);
    assert_ne!(Digest::hash(&[1]).value(), Digest::hash(&[2]).value());
}

#[test]
fn children_of_a_node() {
    let a = Digest::from_raw([1u8; 32]);
    let b = Digest::from_raw([2u8; 32]);
    let n = node(&[(3, Pointer::LeafPointer(a)), (200, Pointer::NodePointer(b))]);
    assert_eq!(n.children(), vec![a, b]);
    assert!(leaf(&[1], &[1]).children().is_empty());
    let e = Trie::Extension { affix: vec![1], pointer: Pointer::NodePointer(b) };
    assert_eq!(e.children(), vec![b]);
}

#[test]
fn table_names() {
    assert_eq!(LmdbTrieStore::name(None), "TRIE_STORE");
    assert_eq!(LmdbTrieStore::name(Some("blocks")), "TRIE_STORE-blocks");
}

#[test]
fn open_requires_an_existing_table() {
    let mut env = Environment::new();
    assert_eq!(LmdbTrieStore::open(&env, Some("x")).err(), Some(Error::TableNotFound));
    let created = LmdbTrieStore::new(&mut env, Some("x")).unwrap();
    let opened = LmdbTrieStore::open(&env, Some("x")).unwrap();
    assert_eq!(created.get_db(), opened.get_db());
    let again = LmdbTrieStore::new(&mut env, Some("x")).unwrap();
    assert_eq!(again.get_db(), created.get_db());
    let other = LmdbTrieStore::new(&mut env, None).unwrap();
    assert_ne!(other.get_db(), created.get_db());
}

#[test]
fn unknown_table_is_an_error() {
    let (_, store) = setup();
    let empty = Environment::new();
    let txn = empty.create_read_txn();
    let d = Digest::from_raw([0u8; 32]);
    assert_eq!(store.get(&empty, &txn, &d).err(), Some(Error::BadDatabase));
}

#[test]
fn undecodable_value_is_a_decoding_error() {
    let (mut env, store) = setup();
    let d = Digest::from_raw([4u8; 32]);
    let mut txn = env.create_read_write_txn();
    env.put(&mut txn, store.get_db(), &d, vec![7, 7]).unwrap();
    env.commit(txn);
    let txn = env.create_read_txn();
    assert_eq!(store.get(&env, &txn, &d).err(), Some(Error::Decoding));
}

#[test]
fn no_implicit_commit() {
    let (mut env, store) = setup();
    let leaf_1 = leaf(&[0, 0, 0], b"val_1");
    let leaf_2 = leaf(&[1, 0, 0], b"val_2");
    let h1 = hash_of(&leaf_1);
    let h2 = hash_of(&leaf_2);
    let n = node(&[(0, Pointer::LeafPointer(h1)), (1, Pointer::LeafPointer(h2))]);
    let hn = hash_of(&n);
    {
        let mut txn = env.create_read_write_txn();
        store.put(&env, &mut txn, &h1, &leaf_1).unwrap();
        store.put(&env, &mut txn, &h2, &leaf_2).unwrap();
        store.put(&env, &mut txn, &hn, &n).unwrap();
        assert_eq!(store.get(&env, &txn, &h1).unwrap(), Some(leaf_1.clone()));
    }
    for h in [&h1, &h2, &hn] {
        assert_eq!(durable(&env, &store, h), None);
    }
    {
        let mut txn = env.create_read_write_txn();
        store.put(&env, &mut txn, &h1, &leaf_1).unwrap();
        store.put(&env, &mut txn, &h2, &leaf_2).unwrap();
        store.put(&env, &mut txn, &hn, &n).unwrap();
        env.commit(txn);
    }
    assert_eq!(durable(&env, &store, &h1), Some(leaf_1));
    assert_eq!(durable(&env, &store, &h2), Some(leaf_2));
    assert_eq!(durable(&env, &store, &hn), Some(n));
}

#[test]
fn content_addressing() {
    let (mut env, store) = setup();
    let n1 = leaf(&[1, 2, 3], b"same");
    let n2 = leaf(&[1, 2, 3], b"same");
    assert_eq!(to_bytes(&n1), to_bytes(&n2));
    assert_eq!(hash_of(&n1), hash_of(&n2));
    let mut txn = env.create_read_write_txn();
    store.put(&env, &mut txn, &hash_of(&n1), &n1).unwrap();
    env.commit(txn);
    assert_eq!(durable(&env, &store, &hash_of(&n2)), Some(n2));
    assert_ne!(hash_of(&n1), hash_of(&leaf(&[1, 2, 3], b"other")));
}

#[test]
fn read_through_population() {
    let (mut env, store) = setup();
    let n = leaf(&[9], b"durable");
    let h = hash_of(&n);
    let mut txn = env.create_read_write_txn();
    store.put(&env, &mut txn, &h, &n).unwrap();
    env.commit(txn);

    let mut scratch = ScratchTrieStore::new(store);
    let txn = env.create_read_txn();
    assert_eq!(scratch.get(&env, &txn, &h).unwrap(), Some(n.clone()));

    // A second read is served from the cache: an environment without the
    // node is never consulted.
    let mut other = Environment::new();
    let other_store = LmdbTrieStore::new(&mut other, None).unwrap();
    assert_eq!(other_store.get_db(), store.get_db());
    let other_txn = other.create_read_txn();
    assert_eq!(scratch.get(&other, &other_txn, &h).unwrap(), Some(n));
}

#[test]
fn missing_node_reads_as_absent() {
    let (env, store) = setup();
    let mut scratch = ScratchTrieStore::new(store);
    let txn = env.create_read_txn();
    let d = Digest::from_raw([3u8; 32]);
    assert_eq!(scratch.get(&env, &txn, &d).unwrap(), None);
}

#[test]
fn write_buffering_isolation() {
    let (env, store) = setup();
    let mut scratch = ScratchTrieStore::new(store);
    let n = leaf(&[4], b"buffered");
    let h = hash_of(&n);
    scratch.put(&h, &n);
    let txn = env.create_read_txn();
    assert_eq!(scratch.get(&env, &txn, &h).unwrap(), Some(n));
    assert_eq!(durable(&env, &store, &h), None);
    assert!(env.log.is_empty());
}

#[test]
fn flush_completeness() {
    let (mut env, store) = setup();
    let l1 = leaf(&[0], b"a");
    let l2 = leaf(&[1], b"b");
    let (h1, h2) = (hash_of(&l1), hash_of(&l2));
    let inner = node(&[(0, Pointer::LeafPointer(h1))]);
    let hi = hash_of(&inner);
    let root = Trie::Extension { affix: vec![1, 2], pointer: Pointer::NodePointer(hi) };
    let hr = hash_of(&root);
    let top = node(&[(0, Pointer::NodePointer(hr)), (7, Pointer::LeafPointer(h2))]);
    let ht = hash_of(&top);

    let mut scratch = ScratchTrieStore::new(store);
    for (h, t) in [(&h1, &l1), (&h2, &l2), (&hi, &inner), (&hr, &root), (&ht, &top)] {
        scratch.put(h, t);
    }
    scratch.write_root_to_db(&mut env, ht).unwrap();
    assert_eq!(durable(&env, &store, &h1), Some(l1));
    assert_eq!(durable(&env, &store, &h2), Some(l2));
    assert_eq!(durable(&env, &store, &hi), Some(inner));
    assert_eq!(durable(&env, &store, &hr), Some(root));
    assert_eq!(durable(&env, &store, &ht), Some(top));
    assert_eq!(env.log.len(), 5);
}

#[test]
fn flush_writes_only_the_closure_of_the_root() {
    let (mut env, store) = setup();
    let l1 = leaf(&[0], b"kept");
    let stray = leaf(&[1], b"stray");
    let h1 = hash_of(&l1);
    let hs = hash_of(&stray);
    let root = node(&[(0, Pointer::LeafPointer(h1))]);
    let hr = hash_of(&root);
    let mut scratch = ScratchTrieStore::new(store);
    scratch.put(&hs, &stray);
    scratch.put(&h1, &l1);
    scratch.put(&hr, &root);
    scratch.write_root_to_db(&mut env, hr).unwrap();
    assert_eq!(durable(&env, &store, &hr), Some(root));
    assert_eq!(durable(&env, &store, &h1), Some(l1));
    assert_eq!(durable(&env, &store, &hs), None);
}

#[test]
fn flush_rejects_incomplete_closure() {
    let (mut env, store) = setup();
    let missing = hash_of(&leaf(&[5], b"never put"));
    let present = leaf(&[6], b"put");
    let hp = hash_of(&present);
    let root = node(&[(5, Pointer::LeafPointer(missing)), (6, Pointer::LeafPointer(hp))]);
    let hr = hash_of(&root);
    let mut scratch = ScratchTrieStore::new(store);
    scratch.put(&hp, &present);
    scratch.put(&hr, &root);
    let r = scratch.write_root_to_db(&mut env, hr);
    assert_eq!(r, Err(Error::TrieNotFoundDuringCacheValidate(missing)));
    assert!(env.log.is_empty());
    assert_eq!(durable(&env, &store, &hr), None);
}

#[test]
fn flush_of_root_not_buffered_fails_on_empty_cache() {
    let (mut env, store) = setup();
    let scratch = ScratchTrieStore::new(store);
    let root = Digest::from_raw([8u8; 32]);
    assert_eq!(
        scratch.write_root_to_db(&mut env, root),
        Err(Error::TrieNotFoundDuringCacheValidate(root))
    );
}

#[test]
fn flush_accepts_durable_children() {
    let (mut env, store) = setup();
    let old_leaf = leaf(&[1], b"old");
    let ho = hash_of(&old_leaf);
    let mut txn = env.create_read_write_txn();
    store.put(&env, &mut txn, &ho, &old_leaf).unwrap();
    env.commit(txn);

    let new_leaf = leaf(&[2], b"new");
    let hn = hash_of(&new_leaf);
    let root = node(&[(1, Pointer::LeafPointer(ho)), (2, Pointer::LeafPointer(hn))]);
    let hr = hash_of(&root);
    let mut scratch = ScratchTrieStore::new(store);
    let txn = env.create_read_txn();
    // Reading the durable leaf caches it clean; it is then not written again.
    assert_eq!(scratch.get(&env, &txn, &ho).unwrap(), Some(old_leaf));
    scratch.put(&hn, &new_leaf);
    scratch.put(&hr, &root);
    scratch.write_root_to_db(&mut env, hr).unwrap();
    assert_eq!(env.log.len(), 3);
    assert_eq!(durable(&env, &store, &hr), Some(root));
}

#[test]
fn shared_subtree_is_written_once() {
    let (mut env, store) = setup();
    let child = leaf(&[7], b"shared");
    let hc = hash_of(&child);
    let left = node(&[(0, Pointer::LeafPointer(hc))]);
    let right = node(&[(1, Pointer::LeafPointer(hc))]);
    let (hl, hrt) = (hash_of(&left), hash_of(&right));
    let root = node(&[(0, Pointer::NodePointer(hl)), (1, Pointer::NodePointer(hrt))]);
    let hroot = hash_of(&root);

    let mut scratch = ScratchTrieStore::new(store);
    scratch.put(&hl, &left);
    scratch.put(&hrt, &right);
    scratch.put(&hc, &child);
    scratch.put(&hroot, &root);
    scratch.write_root_to_db(&mut env, hroot).unwrap();

    assert_eq!(env.log.iter().filter(|r| r.key == hc).count(), 1);
    assert_eq!(env.log.len(), 4);
    assert_eq!(durable(&env, &store, &hc), Some(child));
    assert_eq!(durable(&env, &store, &hroot), Some(root));
}
