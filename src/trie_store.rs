//! The durable trie store, bound to one named table of an environment, and
//! the scratch trie store, which buffers writes in memory and commits the
//! dirty closure of a state root in one transaction.
use vstd::prelude::*;
use vstd::string::StringExecFns;

use crate::cache::{CacheValue, ScratchCache};
use crate::flush::{
    closure_buffered, covered, dirty_path, is_dirty, reachable, validated_ok, Flush, FlushStep,
};
use crate::codec::{decoded, encode, from_bytes, is_encoding, to_bytes};
use crate::digest::Digest;
use crate::environment::{
    lemma_find_append, lemma_find_unique, Database, Environment, EnvironmentModel, RecordModel,
    Txn,
};
use crate::error::Error;
use crate::trie::{children_of, trie_wf, Trie, TrieModel};

verus! {

/// The base name of the table that holds trie nodes.
pub const NAME: &'static str = "TRIE_STORE";

/// The table name for an optional suffix: the base name alone, or the base
/// name, a dash and the suffix.
pub open spec fn table_name(maybe_name: Option<Seq<char>>) -> Seq<char> {
    match maybe_name {
        Some(n) => NAME@ + "-"@ + n,
        None => NAME@,
    }
}

/// Whether some table of `names` is called `name`.
pub open spec fn has_name(names: Seq<Seq<char>>, name: Seq<char>) -> bool {
    exists|j: int| 0 <= j < names.len() && names[j] == name
}

/// The view of an optional string slice.
pub open spec fn opt_view(maybe_name: Option<&str>) -> Option<Seq<char>> {
    match maybe_name {
        Some(n) => Some(n@),
        None => None,
    }
}

/// A trie store over one table of an environment: keys are the raw digest
/// bytes, values the canonical encoding of the node.
#[derive(Clone, Copy, Debug)]
pub struct LmdbTrieStore {
    pub db: Database,
}

impl LmdbTrieStore {
    /// Creates the store's table in `env`, or takes the existing one of that
    /// name.
    pub fn new(env: &mut Environment, maybe_name: Option<&str>) -> (r: Result<LmdbTrieStore, Error>)
        ensures
            final(env)@.log == old(env)@.log,
            r matches Ok(s) && s.db.index_of() < final(env)@.names.len() && final(env)@.names[s.db.index_of() as int]
                == table_name(opt_view(maybe_name)),
            has_name(old(env)@.names, table_name(opt_view(maybe_name))) ==> final(env)@.names
                == old(env)@.names,
            !has_name(old(env)@.names, table_name(opt_view(maybe_name))) ==> final(env)@.names
                == old(env)@.names.push(table_name(opt_view(maybe_name))),
    {
        let name = Self::name(maybe_name);
        let db = env.create_db(&name);
        Ok(LmdbTrieStore { db })
    }

    /// Opens the store's existing table in `env`.
    pub fn open(env: &Environment, maybe_name: Option<&str>) -> (r: Result<LmdbTrieStore, Error>)
        ensures
            match r {
                Ok(s) => s.db.index_of() < env@.names.len() && env@.names[s.db.index_of() as int]
                    == table_name(opt_view(maybe_name)),
                Err(e) => e == Error::TableNotFound && !has_name(
                    env@.names,
                    table_name(opt_view(maybe_name)),
                ),
            },
    {
        let name = Self::name(maybe_name);
        match env.open_db(&name) {
            Ok(db) => Ok(LmdbTrieStore { db }),
            Err(e) => Err(e),
        }
    }

    /// The table name for an optional suffix.
    pub fn name(maybe_name: Option<&str>) -> (r: String)
        ensures
            r@ == table_name(opt_view(maybe_name)),
    {
        let mut s = NAME.to_owned();
        match maybe_name {
            Some(n) => {
                s.append("-");
                s.append(n);
            },
            None => {},
        }
        s
    }

    /// The handle of the store's table.
    pub fn get_db(&self) -> (r: Database)
        ensures
            r == self.db,
    {
        self.db
    }

    /// Buffers in `txn` the write of `trie` under `key`.
    pub fn put(&self, env: &Environment, txn: &mut Txn, key: &Digest, trie: &Trie) -> (r: Result<
        (),
        Error,
    >)
        requires
            trie.wf(),
        ensures
            env@.has_db(self.db) ==> r is Ok && final(txn)@ == old(txn)@.push(
                (self.db.index_of(), key@, encode(trie@)),
            ),
            !env@.has_db(self.db) ==> r == Err::<(), Error>(Error::BadDatabase) && final(txn)@
                == old(txn)@,
    {
        let bytes = to_bytes(trie);
        env.put(txn, self.db, key, bytes)
    }

    /// The node stored under `key`, as seen through `txn`.
    pub fn get(&self, env: &Environment, txn: &Txn, key: &Digest) -> (r: Result<
        Option<Trie>,
        Error,
    >)
        ensures
            !env@.has_db(self.db) ==> r == Err::<Option<Trie>, Error>(Error::BadDatabase),
            env@.has_db(self.db) && env@.visible(txn@, self.db, key@) is None ==> r matches Ok(
                None,
            ),
            env@.has_db(self.db) && env@.visible(txn@, self.db, key@) is Some ==> match r {
                Ok(Some(t)) => t.wf() && is_encoding(env@.visible(txn@, self.db, key@)->Some_0) && t@
                    == decoded(env@.visible(txn@, self.db, key@)->Some_0),
                Err(e) => e == Error::Decoding && !is_encoding(
                    env@.visible(txn@, self.db, key@)->Some_0,
                ),
                Ok(None) => false,
            },
    {
        match env.read(txn, self.db, key) {
            Err(e) => Err(e),
            Ok(None) => Ok(None),
            Ok(Some(bytes)) => match from_bytes(bytes.as_slice()) {
                Some(t) => {
                    assert(trie_wf(t@) && encode(t@) == bytes@);
                    Ok(Some(t))
                },
                None => Err(Error::Decoding),
            },
        }
    }
}

} // verus!
verus! {

/// The digests committed in table `db` of `env`.
pub open spec fn committed_keys(env: EnvironmentModel, db: Database) -> Set<Seq<u8>> {
    Set::new(|d: Seq<u8>| env.committed(db, d) is Some)
}

/// The digests of records.
pub open spec fn record_keys(new: Seq<RecordModel>) -> Seq<Seq<u8>> {
    new.map_values(|r: RecordModel| r.1)
}

/// What a successful flush of `root` did: the environment went from `before`
/// to `after` by committing records `new`, each the encoding of a node cached
/// dirty and reachable from `root`, each digest once; the root and the
/// children of every written node are covered, with what was committed
/// before counting as durable.
pub open spec fn flushed(
    before: EnvironmentModel,
    after: EnvironmentModel,
    cache: Map<Seq<u8>, CacheValue>,
    db: Database,
    root: Seq<u8>,
) -> bool {
    let new = after.log.subrange(before.log.len() as int, after.log.len() as int);
    let durable = committed_keys(before, db);
    &&& after.names == before.names
    &&& before.log.len() <= after.log.len()
    &&& after.log.subrange(0, before.log.len() as int) == before.log
    &&& forall|i: int|
        #![trigger new[i]]
        0 <= i < new.len() ==> {
            &&& reachable(cache, root, new[i].1)
            &&& new[i].0 == db.index_of()
            &&& cache.contains_key(new[i].1)
            &&& cache[new[i].1].0
            &&& new[i].2 == encode(cache[new[i].1].1)
        }
    &&& forall|i: int, j: int|
        #![trigger new[i].1, new[j].1]
        0 <= i < new.len() && 0 <= j < new.len() && i != j ==> new[i].1 != new[j].1
    &&& covered(durable, record_keys(new), cache, root)
    &&& forall|i: int, j: int|
        #![trigger children_of(cache[new[i].1].1)[j]]
        0 <= i < new.len() && 0 <= j < children_of(cache[new[i].1].1).len() ==> covered(
            durable,
            record_keys(new),
            cache,
            children_of(cache[new[i].1].1)[j],
        )
}

/// The records that writing the validated nodes `v` into `db` appends.
pub open spec fn records_of(v: Seq<(Digest, Trie)>, db: Database) -> Seq<RecordModel> {
    v.map_values(|p: (Digest, Trie)| (db.index_of(), p.0@, encode(p.1@)))
}

proof fn lemma_covered_more_durable(
    a: Set<Seq<u8>>,
    b: Set<Seq<u8>>,
    written: Seq<Seq<u8>>,
    cache: Map<Seq<u8>, CacheValue>,
    d: Seq<u8>,
)
    requires
        a.subset_of(b),
        covered(a, written, cache, d),
    ensures
        covered(b, written, cache, d),
{
}

/// A trie store that buffers writes in a cache over a durable trie store.
pub struct ScratchTrieStore {
    pub cache: ScratchCache,
    pub store: LmdbTrieStore,
}

impl ScratchTrieStore {
    /// The cache is well formed.
    pub open spec fn wf(&self) -> bool {
        self.cache.wf()
    }

    /// A scratch store with an empty cache over `store`.
    pub fn new(store: LmdbTrieStore) -> (r: ScratchTrieStore)
        ensures
            r.wf(),
            r.cache@ == Map::<Seq<u8>, CacheValue>::empty(),
            r.store == store,
    {
        ScratchTrieStore { cache: ScratchCache::new(), store }
    }

    /// Buffers `trie` under `digest` as dirty, replacing any cached entry;
    /// the durable store is not touched.
    pub fn put(&mut self, digest: &Digest, trie: &Trie)
        requires
            old(self).wf(),
            trie.wf(),
        ensures
            final(self).wf(),
            final(self).store == old(self).store,
            final(self).cache@ == old(self).cache@.insert(digest@, (true, trie@)),
    {
        self.cache.insert(digest, true, trie.duplicate());
    }

    /// The node of `digest`: the cached one if any, dirty or clean; else the
    /// one that `txn` sees in the durable store, which is then cached clean.
    pub fn get(&mut self, env: &Environment, txn: &Txn, digest: &Digest) -> (r: Result<
        Option<Trie>,
        Error,
    >)
        requires
            old(self).wf(),
        ensures
            final(self).wf(),
            final(self).store == old(self).store,
            old(self).cache@.contains_key(digest@) ==> final(self).cache@ == old(self).cache@
                && (r matches Ok(Some(t)) && t@ == old(self).cache@[digest@].1),
            !old(self).cache@.contains_key(digest@) && !env@.has_db(old(self).store.db) ==> r
                == Err::<Option<Trie>, Error>(Error::BadDatabase) && final(self).cache@ == old(
                self,
            ).cache@,
            !old(self).cache@.contains_key(digest@) && env@.has_db(old(self).store.db)
                && env@.visible(txn@, old(self).store.db, digest@) is None ==> final(self).cache@
                == old(self).cache@ && (r matches Ok(None)),
            !old(self).cache@.contains_key(digest@) && env@.has_db(old(self).store.db)
                && env@.visible(txn@, old(self).store.db, digest@) is Some ==> match r {
                Ok(Some(t)) => t.wf() && t@ == decoded(
                    env@.visible(txn@, old(self).store.db, digest@)->Some_0,
                ) && final(self).cache@ == old(self).cache@.insert(digest@, (false, t@)),
                Err(e) => e == Error::Decoding && !is_encoding(
                    env@.visible(txn@, old(self).store.db, digest@)->Some_0,
                ) && final(self).cache@ == old(self).cache@,
                Ok(None) => false,
            },
    {
        match self.cache.lookup(digest) {
            Some((_, t)) => Ok(Some(t)),
            None => {
                let found = self.store.get(env, txn, digest);
                match found {
                    Ok(Some(t)) => {
                        self.cache.insert(digest, false, t.duplicate());
                        Ok(Some(t))
                    },
                    Ok(None) => Ok(None),
                    Err(e) => Err(e),
                }
            },
        }
    }
}


impl ScratchTrieStore {
    /// Commits to the durable store, in one transaction, the dirty nodes
    /// reachable from `state_root`.
    ///
    /// The traversal of [`Flush`] runs against the committed state; each
    /// digest it finds neither cached nor validated must already be
    /// committed. The validated nodes are written only once the whole
    /// traversal has succeeded; on any failure nothing is committed.
    pub fn write_root_to_db(self, env: &mut Environment, state_root: Digest) -> (r: Result<
        (),
        Error,
    >)
        requires
            self.wf(),
        ensures
            r is Ok ==> flushed(old(env)@, final(env)@, self.cache@, self.store.db, state_root@),
            r is Err ==> final(env)@ == old(env)@,
            r matches Err(e) ==> (e == Error::BadDatabase && !old(env)@.has_db(self.store.db))
                || e is TrieNotFoundDuringCacheValidate,
            r matches Err(Error::TrieNotFoundDuringCacheValidate(d)) ==> !is_dirty(
                self.cache@,
                d@,
            ),
            old(env)@.has_db(self.store.db) && closure_buffered(self.cache@, state_root@) ==> r is Ok,
    {
        let ghost env0 = env@;
        let store = self.store;
        let ghost db = store.db;
        let mut flush = Flush::start(self.cache, state_root);
        let mut txn = env.create_read_write_txn();
        loop
            invariant
                flush.inv(),
                flush.awaiting is None,
                flush.orig@ == self.cache@,
                flush.root@ == state_root@,
                forall|d: Seq<u8>|
                    flush.durable@.contains(d) ==> #[trigger] env0.committed(db, d) is Some,
                env@ == env0,
                env0 == old(env)@,
                txn@.len() == 0,
                store.db == db,
                db == self.store.db,
            ensures
                flush.inv(),
                flush.awaiting is None,
                flush.stack@.len() == 0,
                flush.orig@ == self.cache@,
                flush.root@ == state_root@,
                forall|d: Seq<u8>|
                    flush.durable@.contains(d) ==> #[trigger] env0.committed(db, d) is Some,
                env@ == env0,
                txn@.len() == 0,
            decreases flush.cache.entries@.len(), flush.stack@.len(),
        {
            match flush.next() {
                FlushStep::Done => {
                    break;
                },
                FlushStep::Missing(d) => {
                    return Err(Error::TrieNotFoundDuringCacheValidate(d));
                },
                FlushStep::Check(d) => {
                    match env.read(&txn, store.db, &d) {
                        Err(e) => {
                            return Err(e);
                        },
                        Ok(None) => {
                            return Err(Error::TrieNotFoundDuringCacheValidate(d));
                        },
                        Ok(Some(_)) => {
                            proof {
                                assert(env0.log + txn@ =~= env0.log);
                            }
                            flush.confirm();
                        },
                    }
                },
            }
        }
        let ghost durable = flush.durable@;
        let validated = flush.finish();
        let mut i: usize = 0;
        while i < validated.len()
            invariant
                i <= validated@.len(),
                store.db == db,
                db == self.store.db,
                env@ == env0,
                env0 == old(env)@,
                txn@ == records_of(validated@.subrange(0, i as int), db),
                validated_ok(validated@, self.cache@, state_root@, durable),
            decreases validated@.len() - i,
        {
            assert(validated@[i as int].1.wf());
            match store.put(env, &mut txn, &validated[i].0, &validated[i].1) {
                Err(e) => {
                    return Err(e);
                },
                Ok(()) => {},
            }
            proof {
                assert(records_of(validated@.subrange(0, i + 1), db) =~= records_of(
                    validated@.subrange(0, i as int),
                    db,
                ).push((db.index_of(), validated@[i as int].0@, encode(validated@[i as int].1@))));
            }
            i = i + 1;
        }
        let ghost written = txn@;
        env.commit(txn);
        proof {
            let orig = self.cache@;
            let root = state_root@;
            let v = validated@;
            assert(v.subrange(0, v.len() as int) =~= v);
            let new = env@.log.subrange(env0.log.len() as int, env@.log.len() as int);
            assert(new =~= written);
            assert(env@.log.subrange(0, env0.log.len() as int) =~= env0.log);
            let committed = committed_keys(env0, db);
            assert(durable.subset_of(committed));
            assert(record_keys(new) =~= crate::flush::keys_of(v));
            assert forall|i: int| 0 <= i < new.len() implies {
                &&& reachable(orig, root, (#[trigger] new[i]).1)
                &&& new[i].0 == db.index_of()
                &&& orig.contains_key(new[i].1)
                &&& orig[new[i].1].0
                &&& new[i].2 == encode(orig[new[i].1].1)
            } by {
                assert(v[i] == v[i]);
            }
            assert forall|i: int, j: int|
                0 <= i < new.len() && 0 <= j < new.len() && i != j implies #[trigger] new[i].1
                != #[trigger] new[j].1 by {
                assert(v[i].0@ != v[j].0@);
            }
            lemma_covered_more_durable(durable, committed, record_keys(new), orig, root);
            assert forall|i: int, j: int|
                0 <= i < new.len() && 0 <= j < children_of(orig[new[i].1].1).len() implies covered(
                committed,
                record_keys(new),
                orig,
                #[trigger] children_of(orig[new[i].1].1)[j],
            ) by {
                assert(v[i] == v[i]);
                assert(children_of(v[i].1@)[j] == children_of(v[i].1@)[j]);
                lemma_covered_more_durable(
                    durable,
                    committed,
                    record_keys(new),
                    orig,
                    children_of(v[i].1@)[j],
                );
            }
        }
        Ok(())
    }
}

} // verus!

verus! {

proof fn lemma_path_written(
    before: EnvironmentModel,
    after: EnvironmentModel,
    cache: Map<Seq<u8>, CacheValue>,
    db: Database,
    root: Seq<u8>,
    path: Seq<Seq<u8>>,
    k: int,
)
    requires
        flushed(before, after, cache, db, root),
        dirty_path(cache, root, path),
        0 <= k < path.len(),
    ensures
        covered(
            committed_keys(before, db),
            record_keys(after.log.subrange(before.log.len() as int, after.log.len() as int)),
            cache,
            path[k],
        ),
    decreases k,
{
    let new = after.log.subrange(before.log.len() as int, after.log.len() as int);
    let keys = record_keys(new);
    if k > 0 {
        lemma_path_written(before, after, cache, db, root, path, k - 1);
        assert(is_dirty(cache, path[k - 1]));
        let i = choose|i: int| 0 <= i < keys.len() && keys[i] == path[k - 1];
        assert(new[i].1 == path[k - 1]);
        assert(children_of(cache[path[k - 1]].1).contains(path[(k - 1) + 1]));
        let j = choose|j: int|
            0 <= j < children_of(cache[new[i].1].1).len() && children_of(cache[new[i].1].1)[j]
                == path[k];
        assert(covered(
            committed_keys(before, db),
            keys,
            cache,
            children_of(cache[new[i].1].1)[j],
        ));
    }
}

/// Flush completeness: after a successful flush of `root`, a digest reached
/// from `root` through nodes cached dirty, and itself cached dirty, is
/// committed with the encoding of its cached node.
pub proof fn law_flush_completeness(
    before: EnvironmentModel,
    after: EnvironmentModel,
    cache: Map<Seq<u8>, CacheValue>,
    db: Database,
    root: Seq<u8>,
    path: Seq<Seq<u8>>,
)
    requires
        flushed(before, after, cache, db, root),
        dirty_path(cache, root, path),
        is_dirty(cache, path.last()),
    ensures
        after.committed(db, path.last()) == Some(encode(cache[path.last()].1)),
{
    let new = after.log.subrange(before.log.len() as int, after.log.len() as int);
    lemma_path_written(before, after, cache, db, root, path, path.len() - 1);
    let keys = record_keys(new);
    let i = choose|i: int| 0 <= i < keys.len() && keys[i] == path.last();
    assert(new[i].1 == path.last());
    assert(new[i].0 == db.index_of());
    assert forall|j: int| 0 <= j < new.len() && j != i implies new[j].1 != path.last() by {
        assert(new[i].1 != new[j].1);
    }
    lemma_find_unique(new, db.index_of(), path.last(), i);
    lemma_find_append(before.log, new, db.index_of(), path.last());
    assert(after.log =~= before.log + new);
}

/// A flush rejects an incomplete closure: it cannot succeed when a path from
/// `root` through nodes cached dirty leads to a digest that is neither cached
/// nor committed.
pub proof fn law_flush_rejects_incomplete(
    before: EnvironmentModel,
    after: EnvironmentModel,
    cache: Map<Seq<u8>, CacheValue>,
    db: Database,
    root: Seq<u8>,
    path: Seq<Seq<u8>>,
)
    requires
        dirty_path(cache, root, path),
        !cache.contains_key(path.last()),
        before.committed(db, path.last()) is None,
    ensures
        !flushed(before, after, cache, db, root),
{
    if flushed(before, after, cache, db, root) {
        let new = after.log.subrange(before.log.len() as int, after.log.len() as int);
        lemma_path_written(before, after, cache, db, root, path, path.len() - 1);
        let keys = record_keys(new);
        if keys.contains(path.last()) {
            let i = choose|i: int| 0 <= i < keys.len() && keys[i] == path.last();
            assert(new[i].1 == path.last());
            assert(cache.contains_key(new[i].1));
        }
        assert(!committed_keys(before, db).contains(path.last()));
    }
}

/// What the scratch store caches under a digest, by `put` (dirty) or by a
/// `get` that read the durable store (clean), is the node that the next
/// `get` of that digest returns, from the cache.
pub proof fn law_cached_node_returned(
    cache: Map<Seq<u8>, CacheValue>,
    d: Seq<u8>,
    dirty: bool,
    t: TrieModel,
)
    ensures
        cache.insert(d, (dirty, t)).contains_key(d),
        cache.insert(d, (dirty, t))[d] == (dirty, t),
{
}

} // verus!
