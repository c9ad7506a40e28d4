//! The scratch cache: nodes keyed by digest, each marked dirty (written in
//! this session, not known to be durable) or clean (read from the durable
//! store).
use vstd::prelude::*;

use crate::digest::Digest;
use crate::trie::{Trie, TrieModel};

verus! {

/// The mathematical value of a cache entry: its dirty flag and its node.
pub type CacheValue = (bool, TrieModel);

/// One cached node.
pub struct CacheEntry {
    pub key: Digest,
    pub dirty: bool,
    pub trie: Trie,
}

impl View for CacheEntry {
    type V = (Seq<u8>, CacheValue);

    open spec fn view(&self) -> (Seq<u8>, CacheValue) {
        (self.key@, (self.dirty, self.trie@))
    }
}

/// The map that a sequence of entries stands for.
pub open spec fn entries_map(s: Seq<(Seq<u8>, CacheValue)>) -> Map<Seq<u8>, CacheValue>
    decreases s.len(),
{
    if s.len() == 0 {
        Map::empty()
    } else {
        entries_map(s.drop_last()).insert(s.last().0, s.last().1)
    }
}

/// No key occurs twice.
pub open spec fn keys_unique(s: Seq<(Seq<u8>, CacheValue)>) -> bool {
    forall|i: int, j: int|
        #![trigger s[i].0, s[j].0]
        0 <= i < s.len() && 0 <= j < s.len() && i != j ==> s[i].0 != s[j].0
}

proof fn lemma_entries_map(s: Seq<(Seq<u8>, CacheValue)>)
    requires
        keys_unique(s),
    ensures
        forall|k: Seq<u8>| #[trigger]
            entries_map(s).contains_key(k) <==> exists|i: int| 0 <= i < s.len() && s[i].0 == k,
        forall|i: int| 0 <= i < s.len() ==> #[trigger] entries_map(s)[s[i].0] == s[i].1,
    decreases s.len(),
{
    if s.len() > 0 {
        let t = s.drop_last();
        assert(keys_unique(t));
        lemma_entries_map(t);
        assert(entries_map(s) == entries_map(t).insert(s.last().0, s.last().1));
        assert forall|k: Seq<u8>| #[trigger]
            entries_map(s).contains_key(k) <==> exists|i: int| 0 <= i < s.len() && s[i].0 == k by {
            if entries_map(s).contains_key(k) {
                if k == s.last().0 {
                    assert(s[s.len() - 1].0 == k);
                } else {
                    let i = choose|i: int| 0 <= i < t.len() && t[i].0 == k;
                    assert(s[i].0 == k);
                }
            }
            if exists|i: int| 0 <= i < s.len() && s[i].0 == k {
                let i = choose|i: int| 0 <= i < s.len() && s[i].0 == k;
                if i < s.len() - 1 {
                    assert(t[i].0 == k);
                }
            }
        }
        assert forall|i: int| 0 <= i < s.len() implies #[trigger] entries_map(s)[s[i].0]
            == s[i].1 by {
            if i < s.len() - 1 {
                assert(t[i] == s[i]);
                assert(s[i].0 != s[s.len() - 1].0);
            }
        }
    }
}

/// The cache: entries with distinct keys, each holding an encodable node.
pub struct ScratchCache {
    pub entries: Vec<CacheEntry>,
}

impl View for ScratchCache {
    type V = Map<Seq<u8>, CacheValue>;

    open spec fn view(&self) -> Map<Seq<u8>, CacheValue> {
        entries_map(self.entries@.map_values(|e: CacheEntry| e@))
    }
}

impl ScratchCache {
    /// The entries have distinct keys and hold encodable nodes.
    pub open spec fn wf(&self) -> bool {
        &&& keys_unique(self.entries@.map_values(|e: CacheEntry| e@))
        &&& forall|i: int| 0 <= i < self.entries@.len() ==> (#[trigger] self.entries@[i]).trie.wf()
    }

    /// Every node of the map is encodable.
    pub open spec fn model_wf(m: Map<Seq<u8>, CacheValue>) -> bool {
        forall|k: Seq<u8>| #[trigger] m.contains_key(k) ==> crate::trie::trie_wf(m[k].1)
    }

    proof fn lemma_view(&self)
        requires
            self.wf(),
        ensures
            forall|k: Seq<u8>| #[trigger]
                self@.contains_key(k) <==> exists|i: int|
                    0 <= i < self.entries@.len() && self.entries@[i].key@ == k,
            forall|i: int|
                0 <= i < self.entries@.len() ==> #[trigger] self@[self.entries@[i].key@] == (
                self.entries@[i].dirty,
                self.entries@[i].trie@,
            ),
            Self::model_wf(self@),
    {
        let s = self.entries@.map_values(|e: CacheEntry| e@);
        lemma_entries_map(s);
        assert forall|k: Seq<u8>| #[trigger]
            self@.contains_key(k) <==> exists|i: int|
                0 <= i < self.entries@.len() && self.entries@[i].key@ == k by {
            if self@.contains_key(k) {
                let i = choose|i: int| 0 <= i < s.len() && s[i].0 == k;
                assert(self.entries@[i].key@ == k);
            }
            if exists|i: int| 0 <= i < self.entries@.len() && self.entries@[i].key@ == k {
                let i = choose|i: int| 0 <= i < self.entries@.len() && self.entries@[i].key@ == k;
                assert(s[i].0 == k);
            }
        }
        assert forall|i: int| 0 <= i < self.entries@.len() implies #[trigger] self@[
            self.entries@[i].key@
        ] == (self.entries@[i].dirty, self.entries@[i].trie@) by {
            assert(s[i] == self.entries@[i]@);
            assert(entries_map(s)[s[i].0] == s[i].1);
        }
        assert forall|k: Seq<u8>| #[trigger] self@.contains_key(k) implies crate::trie::trie_wf(
            self@[k].1,
        ) by {
            let i = choose|i: int|
                0 <= i < self.entries@.len() && self.entries@[i].key@ == k;
            assert(self.entries@[i].trie.wf());
        }
    }

    /// An empty cache.
    pub fn new() -> (r: ScratchCache)
        ensures
            r.wf(),
            r@ == Map::<Seq<u8>, CacheValue>::empty(),
    {
        let r = ScratchCache { entries: Vec::new() };
        assert(r.entries@.map_values(|e: CacheEntry| e@) =~= Seq::<(Seq<u8>, CacheValue)>::empty());
        r
    }

    /// Whether the cache holds no entry.
    pub fn is_empty(&self) -> (r: bool)
        requires
            self.wf(),
        ensures
            r == (forall|k: Seq<u8>| !#[trigger] self@.contains_key(k)),
    {
        proof {
            self.lemma_view();
            if self.entries@.len() > 0 {
                assert(self@.contains_key(self.entries@[0].key@));
            } else {
                let s = self.entries@.map_values(|e: CacheEntry| e@);
                assert(s =~= Seq::<(Seq<u8>, CacheValue)>::empty());
            }
        }
        self.entries.len() == 0
    }

    fn index_of(&self, key: &Digest) -> (r: Option<usize>)
        requires
            self.wf(),
        ensures
            match r {
                Some(i) => i < self.entries@.len() && self.entries@[i as int].key@ == key@,
                None => !self@.contains_key(key@),
            },
    {
        proof {
            self.lemma_view();
        }
        let mut i: usize = 0;
        while i < self.entries.len()
            invariant
                i <= self.entries@.len(),
                forall|j: int| 0 <= j < i ==> self.entries@[j].key@ != key@,
            decreases self.entries@.len() - i,
        {
            if self.entries[i].key.same_as(key) {
                return Some(i);
            }
            i = i + 1;
        }
        None
    }

    /// The entry of `key`: its dirty flag and a copy of its node.
    pub fn lookup(&self, key: &Digest) -> (r: Option<(bool, Trie)>)
        requires
            self.wf(),
        ensures
            match r {
                Some((dirty, t)) => self@.contains_key(key@) && self@[key@] == (dirty, t@)
                    && t.wf(),
                None => !self@.contains_key(key@),
            },
    {
        proof {
            self.lemma_view();
        }
        match self.index_of(key) {
            Some(i) => Some((self.entries[i].dirty, self.entries[i].trie.duplicate())),
            None => None,
        }
    }

    /// Sets the entry of `key`, replacing any earlier one.
    pub fn insert(&mut self, key: &Digest, dirty: bool, trie: Trie)
        requires
            old(self).wf(),
            trie.wf(),
        ensures
            final(self).wf(),
            final(self)@ == old(self)@.insert(key@, (dirty, trie@)),
    {
        proof {
            old(self).lemma_view();
        }
        let ghost old_view = self@;
        let entry = CacheEntry { key: *key, dirty, trie };
        match self.index_of(key) {
            Some(i) => {
                self.entries.set(i, entry);
                proof {
                    let s = self.entries@.map_values(|e: CacheEntry| e@);
                    assert(keys_unique(s)) by {
                        assert forall|a: int, b: int|
                            0 <= a < s.len() && 0 <= b < s.len() && a != b implies s[a].0
                            != s[b].0 by {
                            assert(old(self).entries@.map_values(|e: CacheEntry| e@)[a].0
                                != old(self).entries@.map_values(|e: CacheEntry| e@)[b].0);
                        }
                    }
                    self.lemma_view();
                    assert(self@ =~= old_view.insert(key@, (dirty, trie@))) by {
                        assert forall|k: Seq<u8>| #[trigger] self@.contains_key(k)
                            <==> old_view.insert(key@, (dirty, trie@)).contains_key(k) by {
                            if self@.contains_key(k) && k != key@ {
                                let j = choose|j: int|
                                    0 <= j < self.entries@.len() && self.entries@[j].key@ == k;
                                assert(old(self).entries@[j].key@ == k);
                            }
                            if old_view.contains_key(k) && k != key@ {
                                let j = choose|j: int|
                                    0 <= j < old(self).entries@.len() && old(self).entries@[j].key@
                                        == k;
                                assert(self.entries@[j].key@ == k);
                            }
                            if k == key@ {
                                assert(self.entries@[i as int].key@ == k);
                            }
                        }
                        assert forall|k: Seq<u8>| #[trigger] self@.contains_key(k) implies self@[k]
                            == old_view.insert(key@, (dirty, trie@))[k] by {
                            let j = choose|j: int|
                                0 <= j < self.entries@.len() && self.entries@[j].key@ == k;
                            assert(self@[self.entries@[j].key@] == (
                                self.entries@[j].dirty,
                                self.entries@[j].trie@,
                            ));
                            if j != i {
                                assert(old(self).entries@[j] == self.entries@[j]);
                                assert(old(self).entries@.map_values(|e: CacheEntry| e@)[j].0
                                    != old(self).entries@.map_values(|e: CacheEntry| e@)[i as int].0);
                                assert(old_view[old(self).entries@[j].key@] == (
                                    old(self).entries@[j].dirty,
                                    old(self).entries@[j].trie@,
                                ));
                            }
                        }
                    }
                }
            },
            None => {
                let ghost prev = self.entries@;
                self.entries.push(entry);
                proof {
                    let s = self.entries@.map_values(|e: CacheEntry| e@);
                    assert(s.drop_last() =~= prev.map_values(|e: CacheEntry| e@));
                    assert(keys_unique(s)) by {
                        assert forall|a: int, b: int|
                            0 <= a < s.len() && 0 <= b < s.len() && a != b implies s[a].0
                            != s[b].0 by {
                            if a < s.len() - 1 && b < s.len() - 1 {
                                assert(prev.map_values(|e: CacheEntry| e@)[a].0 != prev.map_values(
                                    |e: CacheEntry| e@,
                                )[b].0);
                            } else if a < s.len() - 1 {
                                assert(old_view.contains_key(prev[a].key@));
                            } else {
                                assert(old_view.contains_key(prev[b].key@));
                            }
                        }
                    }
                }
            },
        }
    }

    /// Removes the entry of `key` and gives it back.
    pub fn remove(&mut self, key: &Digest) -> (r: Option<(bool, Trie)>)
        requires
            old(self).wf(),
        ensures
            final(self).wf(),
            final(self)@ == old(self)@.remove(key@),
            r is Some ==> final(self).entries@.len() + 1 == old(self).entries@.len(),
            r is None ==> final(self).entries@.len() == old(self).entries@.len(),
            match r {
                Some((dirty, t)) => old(self)@.contains_key(key@) && old(self)@[key@] == (
                    dirty,
                    t@,
                ) && t.wf(),
                None => !old(self)@.contains_key(key@),
            },
    {
        proof {
            old(self).lemma_view();
        }
        let ghost old_view = self@;
        match self.index_of(key) {
            Some(i) => {
                let e = self.entries.remove(i);
                proof {
                    let o = old(self).entries@;
                    assert(forall|j: int| 0 <= j < self.entries@.len() ==> #[trigger] self.entries@[j]
                        == if j < i { o[j] } else { o[j + 1] });
                    let s = self.entries@.map_values(|e: CacheEntry| e@);
                    let os = o.map_values(|e: CacheEntry| e@);
                    assert(keys_unique(s)) by {
                        assert forall|a: int, b: int|
                            0 <= a < s.len() && 0 <= b < s.len() && a != b implies s[a].0
                            != s[b].0 by {
                            let a2 = if a < i { a } else { a + 1 };
                            let b2 = if b < i { b } else { b + 1 };
                            assert(os[a2].0 != os[b2].0);
                        }
                    }
                    assert forall|j: int| 0 <= j < self.entries@.len() implies (
                    #[trigger] self.entries@[j]).trie.wf() by {
                        if j >= i {
                            assert(o[j + 1].trie.wf());
                        }
                    }
                    self.lemma_view();
                    assert(self@ =~= old_view.remove(key@)) by {
                        assert forall|k: Seq<u8>| #[trigger] self@.contains_key(k)
                            <==> old_view.remove(key@).contains_key(k) by {
                            if self@.contains_key(k) {
                                let j = choose|j: int|
                                    0 <= j < self.entries@.len() && self.entries@[j].key@ == k;
                                let j2 = if j < i { j } else { j + 1 };
                                assert(o[j2].key@ == k);
                                assert(os[j2].0 != os[i as int].0);
                            }
                            if old_view.remove(key@).contains_key(k) {
                                let j = choose|j: int| 0 <= j < o.len() && o[j].key@ == k;
                                if j < i {
                                    assert(self.entries@[j].key@ == k);
                                } else {
                                    assert(j != i);
                                    assert(self.entries@[j - 1].key@ == k);
                                }
                            }
                        }
                        assert forall|k: Seq<u8>| #[trigger] self@.contains_key(k) implies self@[k]
                            == old_view.remove(key@)[k] by {
                            let j = choose|j: int|
                                0 <= j < self.entries@.len() && self.entries@[j].key@ == k;
                            let j2 = if j < i { j } else { j + 1 };
                            assert(o[j2] == self.entries@[j]);
                        }
                    }
                }
                Some((e.dirty, e.trie))
            },
            None => {
                proof {
                    assert(old_view.remove(key@) =~= old_view);
                }
                None
            },
        }
    }
}

} // verus!
