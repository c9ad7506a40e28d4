//! The validation traversal of a flush, as a step machine: it visits the
//! digests reachable from a root through the scratch cache, and asks its
//! driver whether each digest it finds neither cached nor validated is
//! durable.
use vstd::prelude::*;

use crate::cache::{CacheValue, ScratchCache};
use crate::digest::Digest;
use crate::trie::{children_of, Trie, TrieModel};

verus! {

/// Whether `d` is cached dirty.
pub open spec fn is_dirty(cache: Map<Seq<u8>, CacheValue>, d: Seq<u8>) -> bool {
    cache.contains_key(d) && cache[d].0
}

/// Whether `d` is taken care of by a flush that writes the digests `written`,
/// from a cache that was `cache`, given the digests `durable` known to be
/// durable: written; or, if it was not cached dirty, durable or cached clean.
pub open spec fn covered(
    durable: Set<Seq<u8>>,
    written: Seq<Seq<u8>>,
    cache: Map<Seq<u8>, CacheValue>,
    d: Seq<u8>,
) -> bool {
    ||| written.contains(d)
    ||| !is_dirty(cache, d) && (durable.contains(d) || cache.contains_key(d))
}

/// A path from `root` whose every step goes from a node cached dirty to one
/// of its children; the last digest may be anything.
pub open spec fn dirty_path(cache: Map<Seq<u8>, CacheValue>, root: Seq<u8>, path: Seq<Seq<u8>>) -> bool {
    &&& path.len() > 0
    &&& path[0] == root
    &&& forall|i: int| 0 <= i < path.len() - 1 ==> #[trigger] is_dirty(cache, path[i])
    &&& forall|i: int|
        0 <= i < path.len() - 1 ==> children_of(cache[path[i]].1).contains(#[trigger] path[i + 1])
}

/// Whether `d` is reached from `root` by a path whose every step goes from a
/// node cached dirty to one of its children.
pub open spec fn reachable(cache: Map<Seq<u8>, CacheValue>, root: Seq<u8>, d: Seq<u8>) -> bool {
    exists|path: Seq<Seq<u8>>| #[trigger] dirty_path(cache, root, path) && path.last() == d
}

proof fn lemma_extend_path(
    cache: Map<Seq<u8>, CacheValue>,
    root: Seq<u8>,
    path: Seq<Seq<u8>>,
    c: Seq<u8>,
)
    requires
        dirty_path(cache, root, path),
        is_dirty(cache, path.last()),
        children_of(cache[path.last()].1).contains(c),
    ensures
        dirty_path(cache, root, path.push(c)),
{
    let q = path.push(c);
    assert forall|i: int| 0 <= i < q.len() - 1 implies #[trigger] is_dirty(cache, q[i]) by {
        if i < path.len() - 1 {
            assert(q[i] == path[i]);
        }
    }
    assert forall|i: int| 0 <= i < q.len() - 1 implies children_of(cache[q[i]].1).contains(
        #[trigger] q[i + 1],
    ) by {
        if i < path.len() - 1 {
            assert(q[i] == path[i]);
            assert(q[i + 1] == path[i + 1]);
        }
    }
}

/// A set of digests that holds `root`, whose members are all cached dirty,
/// and which holds the children of each of their nodes.
pub open spec fn closed_dirty(
    s: Set<Seq<u8>>,
    cache: Map<Seq<u8>, CacheValue>,
    root: Seq<u8>,
) -> bool {
    &&& s.contains(root)
    &&& forall|x: Seq<u8>| #[trigger]
        s.contains(x) ==> cache.contains_key(x) && cache[x].0 && forall|j: int|
            0 <= j < children_of(cache[x].1).len() ==> s.contains(
                #[trigger] children_of(cache[x].1)[j],
            )
}

/// Whether the whole closure of `root` was buffered dirty.
pub open spec fn closure_buffered(cache: Map<Seq<u8>, CacheValue>, root: Seq<u8>) -> bool {
    exists|s: Set<Seq<u8>>| closed_dirty(s, cache, root)
}

/// A closed set of dirty digests around `root`, when there is one.
pub open spec fn buffered_closure(cache: Map<Seq<u8>, CacheValue>, root: Seq<u8>) -> Set<Seq<u8>> {
    choose|s: Set<Seq<u8>>| closed_dirty(s, cache, root)
}

/// The digests of validated nodes.
pub open spec fn keys_of(v: Seq<(Digest, Trie)>) -> Seq<Seq<u8>> {
    v.map_values(|p: (Digest, Trie)| p.0@)
}

/// What a finished traversal of `root` validated: nodes cached dirty and
/// reachable from `root`, each digest once; the root and the children of
/// every validated node are covered.
pub open spec fn validated_ok(
    v: Seq<(Digest, Trie)>,
    cache: Map<Seq<u8>, CacheValue>,
    root: Seq<u8>,
    durable: Set<Seq<u8>>,
) -> bool {
    &&& forall|i: int|
        #![trigger v[i]]
        0 <= i < v.len() ==> {
            &&& reachable(cache, root, v[i].0@)
            &&& cache.contains_key(v[i].0@)
            &&& cache[v[i].0@] == (true, v[i].1@)
            &&& v[i].1.wf()
        }
    &&& forall|i: int, j: int|
        #![trigger v[i].0@, v[j].0@]
        0 <= i < v.len() && 0 <= j < v.len() && i != j ==> v[i].0@ != v[j].0@
    &&& covered(durable, keys_of(v), cache, root)
    &&& forall|i: int, j: int|
        #![trigger children_of(v[i].1@)[j]]
        0 <= i < v.len() && 0 <= j < children_of(v[i].1@).len() ==> covered(
            durable,
            keys_of(v),
            cache,
            children_of(v[i].1@)[j],
        )
}

/// Whether `d` is on the stack of digests still to visit.
pub open spec fn pending(stack: Seq<Digest>, d: Seq<u8>) -> bool {
    exists|j: int| 0 <= j < stack.len() && stack[j]@ == d
}

proof fn lemma_pending_pop(stack: Seq<Digest>, d: Seq<u8>)
    requires
        stack.len() > 0,
        pending(stack, d),
        stack.last()@ != d,
    ensures
        pending(stack.drop_last(), d),
{
    let j = choose|j: int| 0 <= j < stack.len() && stack[j]@ == d;
    assert(stack.drop_last()[j] == stack[j]);
}

proof fn lemma_pending_extend(stack: Seq<Digest>, extra: Seq<Digest>, d: Seq<u8>)
    requires
        pending(stack, d),
    ensures
        pending(stack + extra, d),
{
    let j = choose|j: int| 0 <= j < stack.len() && stack[j]@ == d;
    assert((stack + extra)[j] == stack[j]);
}

/// Whether `v` holds `d`.
fn holds_digest(v: &Vec<(Digest, Trie)>, d: &Digest) -> (r: bool)
    ensures
        r == keys_of(v@).contains(d@),
{
    let mut i: usize = 0;
    while i < v.len()
        invariant
            i <= v@.len(),
            forall|j: int| 0 <= j < i ==> v@[j].0@ != d@,
        decreases v@.len() - i,
    {
        if v[i].0.same_as(d) {
            proof {
                assert(keys_of(v@)[i as int] == d@);
            }
            return true;
        }
        i = i + 1;
    }
    proof {
        if keys_of(v@).contains(d@) {
            let j = choose|j: int| 0 <= j < keys_of(v@).len() && keys_of(v@)[j] == d@;
            assert(v@[j].0@ == d@);
        }
    }
    false
}

/// Appends `items` to `stack`.
fn push_all(stack: &mut Vec<Digest>, items: Vec<Digest>)
    ensures
        final(stack)@ == old(stack)@ + items@,
{
    let mut i: usize = 0;
    while i < items.len()
        invariant
            i <= items@.len(),
            stack@ == old(stack)@ + items@.subrange(0, i as int),
        decreases items@.len() - i,
    {
        stack.push(items[i]);
        i = i + 1;
        assert(stack@ =~= old(stack)@ + items@.subrange(0, i as int));
    }
    assert(items@.subrange(0, items@.len() as int) =~= items@);
}

/// What the traversal needs next.
pub enum FlushStep {
    /// Whether this digest is durable: confirm it, or give up the flush.
    Check(Digest),
    /// The closure of the root is incomplete at this digest.
    Missing(Digest),
    /// The traversal is over.
    Done,
}

/// A traversal in progress.
pub struct Flush {
    pub cache: ScratchCache,
    pub stack: Vec<Digest>,
    pub validated: Vec<(Digest, Trie)>,
    pub awaiting: Option<Digest>,
    pub orig: Ghost<Map<Seq<u8>, CacheValue>>,
    pub root: Ghost<Seq<u8>>,
    pub durable: Ghost<Set<Seq<u8>>>,
}

impl Flush {
    /// Whether `d` is still to be visited, or waits for its durability check.
    pub open spec fn to_visit(&self, d: Seq<u8>) -> bool {
        pending(self.stack@, d) || (self.awaiting matches Some(a) && a@ == d)
    }

    /// Whether `d` is to be visited or covered.
    pub open spec fn handled(&self, d: Seq<u8>) -> bool {
        self.to_visit(d) || covered(self.durable@, keys_of(self.validated@), self.orig@, d)
    }

    /// The traversal's invariant.
    pub open spec fn inv(&self) -> bool {
        let orig = self.orig@;
        let root = self.root@;
        let v = self.validated@;
        let c = buffered_closure(orig, root);
        &&& self.cache.wf()
        &&& forall|k: Seq<u8>| #[trigger]
            self.cache@.contains_key(k) ==> orig.contains_key(k) && self.cache@[k] == orig[k]
        &&& forall|i: int|
            #![trigger v[i]]
            0 <= i < v.len() ==> {
                &&& reachable(orig, root, v[i].0@)
                &&& orig.contains_key(v[i].0@)
                &&& orig[v[i].0@] == (true, v[i].1@)
                &&& v[i].1.wf()
                &&& !self.cache@.contains_key(v[i].0@)
            }
        &&& forall|i: int, j: int|
            #![trigger v[i].0@, v[j].0@]
            0 <= i < v.len() && 0 <= j < v.len() && i != j ==> v[i].0@ != v[j].0@
        &&& forall|k: Seq<u8>| #[trigger]
            is_dirty(orig, k) && !self.cache@.contains_key(k) ==> keys_of(v).contains(k)
        &&& self.handled(root)
        &&& forall|i: int, j: int|
            #![trigger children_of(v[i].1@)[j]]
            0 <= i < v.len() && 0 <= j < children_of(v[i].1@).len() ==> self.handled(
                children_of(v[i].1@)[j],
            )
        &&& forall|j: int|
            0 <= j < self.stack@.len() ==> reachable(orig, root, #[trigger] self.stack@[j]@)
        &&& self.awaiting matches Some(a) ==> {
            &&& !is_dirty(orig, a@)
            &&& !self.cache@.contains_key(a@)
            &&& !keys_of(v).contains(a@)
        }
        &&& closure_buffered(orig, root) ==> {
            &&& closed_dirty(c, orig, root)
            &&& self.awaiting is None
            &&& forall|j: int| 0 <= j < self.stack@.len() ==> c.contains(#[trigger] self.stack@[j]@)
            &&& forall|x: Seq<u8>| #[trigger]
                c.contains(x) ==> self.cache@.contains_key(x) || keys_of(v).contains(x)
        }
    }

    /// A traversal of the closure of `root` in `cache`.
    pub fn start(cache: ScratchCache, root: Digest) -> (r: Flush)
        requires
            cache.wf(),
        ensures
            r.inv(),
            r.orig@ == cache@,
            r.root@ == root@,
            r.durable@ == Set::<Seq<u8>>::empty(),
            r.awaiting is None,
    {
        let ghost orig = cache@;
        let mut stack: Vec<Digest> = Vec::new();
        stack.push(root);
        let r = Flush {
            cache,
            stack,
            validated: Vec::new(),
            awaiting: None,
            orig: Ghost(orig),
            root: Ghost(root@),
            durable: Ghost(Set::empty()),
        };
        proof {
            assert(r.stack@[0]@ == root@);
            assert(r.to_visit(root@));
            assert(dirty_path(orig, root@, seq![root@]));
            assert(reachable(orig, root@, r.stack@[0]@));
            assert forall|k: Seq<u8>| #[trigger]
                is_dirty(orig, k) && !r.cache@.contains_key(k) implies keys_of(
                r.validated@,
            ).contains(k) by {}
            if closure_buffered(orig, root@) {
                let c = buffered_closure(orig, root@);
                assert(closed_dirty(c, orig, root@));
            }
        }
        r
    }

    /// Visits digests until one needs a durability check, the closure is
    /// found incomplete, or nothing is left to visit.
    ///
    /// A digest already validated is not visited again, so a node shared by
    /// several parents is validated once. Otherwise an empty cache means the
    /// closure is incomplete; a digest cached clean is known to be durable
    /// and is not descended into; a digest not cached needs a check and is
    /// not descended into either; a dirty node is validated and its children
    /// are pushed.
    pub fn next(&mut self) -> (r: FlushStep)
        requires
            old(self).inv(),
            old(self).awaiting is None,
        ensures
            !(r is Missing) ==> final(self).inv(),
            final(self).orig == old(self).orig,
            final(self).root == old(self).root,
            final(self).durable == old(self).durable,
            match r {
                FlushStep::Check(d) => final(self).awaiting == Some(d) && (
                final(self).cache.entries@.len() < old(self).cache.entries@.len() || (
                final(self).cache.entries@.len() == old(self).cache.entries@.len()
                    && final(self).stack@.len() < old(self).stack@.len())),
                FlushStep::Missing(d) => !is_dirty(old(self).orig@, d@),
                FlushStep::Done => final(self).stack@.len() == 0 && final(self).awaiting is None,
            },
            closure_buffered(old(self).orig@, old(self).root@) ==> r is Done,
    {
        loop
            invariant
                self.inv(),
                self.awaiting is None,
                self.orig == old(self).orig,
                self.root == old(self).root,
                self.durable == old(self).durable,
                self.cache.entries@.len() <= old(self).cache.entries@.len(),
                self.cache.entries@.len() == old(self).cache.entries@.len() ==> self.stack@.len()
                    <= old(self).stack@.len(),
            decreases self.cache.entries@.len(), self.stack@.len(),
        {
            if self.stack.len() == 0 {
                return FlushStep::Done;
            }
            let ghost orig = self.orig@;
            let ghost root = self.root@;
            let ghost c = buffered_closure(orig, root);
            let ghost before = self.stack@;
            let ghost vbefore = self.validated@;
            let ghost cache_before = self.cache@;
            let d = self.stack.pop().unwrap();
            proof {
                assert(self.stack@ == before.drop_last());
                assert(d == before.last());
                assert(reachable(orig, root, before[before.len() - 1]@));
                if closure_buffered(orig, root) {
                    assert(c.contains(before[before.len() - 1]@));
                }
                assert forall|j: int| 0 <= j < self.stack@.len() implies reachable(
                    orig,
                    root,
                    #[trigger] self.stack@[j]@,
                ) by {
                    assert(self.stack@[j] == before[j]);
                }
            }
            if holds_digest(&self.validated, &d) {
                proof {
                    assert forall|x: Seq<u8>| pending(before, x) implies #[trigger] self.handled(
                        x,
                    ) by {
                        if x != d@ {
                            lemma_pending_pop(before, x);
                        }
                    }
                }
                continue;
            }
            if self.cache.is_empty() {
                proof {
                    if closure_buffered(orig, root) {
                        assert(self.cache@.contains_key(d@));
                    }
                    assert(!self.cache@.contains_key(d@));
                }
                return FlushStep::Missing(d);
            }
            match self.cache.remove(&d) {
                Some((false, _)) => {
                    proof {
                        assert(covered(self.durable@, keys_of(self.validated@), orig, d@));
                        assert forall|x: Seq<u8>| pending(before, x) implies #[trigger] self.handled(
                            x,
                        ) by {
                            if x != d@ {
                                lemma_pending_pop(before, x);
                            }
                        }
                    }
                },
                None => {
                    self.awaiting = Some(d);
                    proof {
                        assert(!is_dirty(orig, d@));
                        assert forall|x: Seq<u8>| pending(before, x) implies #[trigger] self.handled(
                            x,
                        ) by {
                            if x != d@ {
                                lemma_pending_pop(before, x);
                            }
                        }
                    }
                    return FlushStep::Check(d);
                },
                Some((true, t)) => {
                    let children = t.children();
                    let ghost popped = self.stack@;
                    push_all(&mut self.stack, children);
                    self.validated.push((d, t));
                    proof {
                        let k0 = keys_of(vbefore);
                        let k1 = keys_of(self.validated@);
                        assert(k1 =~= k0.push(d@));
                        assert(k1[k0.len() as int] == d@);
                        assert forall|x: Seq<u8>|
                            pending(before, x) || covered(
                                self.durable@,
                                k0,
                                orig,
                                x,
                            ) implies #[trigger] self.handled(x) by {
                            if covered(self.durable@, k0, orig, x) {
                                if k0.contains(x) {
                                    let i = choose|i: int| 0 <= i < k0.len() && k0[i] == x;
                                    assert(k1[i] == x);
                                }
                            } else if x != d@ {
                                lemma_pending_pop(before, x);
                                lemma_pending_extend(popped, children@, x);
                            }
                        }
                        assert forall|j: int| 0 <= j < children_of(t@).len() implies self.handled(
                            #[trigger] children_of(t@)[j],
                        ) by {
                            assert(self.stack@[popped.len() + j] == children@[j]);
                            assert(children@.map_values(|c: Digest| c@)[j] == children@[j]@);
                        }
                        let dp = choose|path: Seq<Seq<u8>>|
                            #[trigger] dirty_path(orig, root, path) && path.last() == d@;
                        assert forall|j: int| 0 <= j < self.stack@.len() implies reachable(
                            orig,
                            root,
                            #[trigger] self.stack@[j]@,
                        ) by {
                            if j >= popped.len() {
                                let k = j - popped.len();
                                assert(self.stack@[j] == children@[k]);
                                assert(children@.map_values(|c: Digest| c@)[k] == children@[k]@);
                                assert(orig[d@].1 == t@);
                                assert(children_of(orig[dp.last()].1)[k] == self.stack@[j]@);
                                lemma_extend_path(orig, root, dp, self.stack@[j]@);
                                assert(dp.push(self.stack@[j]@).last() == self.stack@[j]@);
                            } else {
                                assert(self.stack@[j] == popped[j]);
                            }
                        }
                        let v = self.validated@;
                        assert forall|i: int| 0 <= i < v.len() implies {
                            &&& reachable(orig, root, (#[trigger] v[i]).0@)
                            &&& orig.contains_key(v[i].0@)
                            &&& orig[v[i].0@] == (true, v[i].1@)
                            &&& v[i].1.wf()
                            &&& !self.cache@.contains_key(v[i].0@)
                        } by {
                            if i < vbefore.len() {
                                assert(v[i] == vbefore[i]);
                            }
                        }
                        assert forall|i: int, j: int|
                            0 <= i < v.len() && 0 <= j < v.len() && i != j implies #[trigger] v[i].0@
                            != #[trigger] v[j].0@ by {
                            if i < vbefore.len() {
                                assert(v[i] == vbefore[i]);
                            }
                            if j < vbefore.len() {
                                assert(v[j] == vbefore[j]);
                            }
                            if i < vbefore.len() || j < vbefore.len() {
                                assert(cache_before.contains_key(d@));
                            }
                        }
                        assert forall|k: Seq<u8>| #[trigger]
                            is_dirty(orig, k) && !self.cache@.contains_key(k) implies k1.contains(
                            k,
                        ) by {
                            if k != d@ {
                                assert(!cache_before.contains_key(k));
                                let i = choose|i: int| 0 <= i < k0.len() && k0[i] == k;
                                assert(k1[i] == k);
                            }
                        }
                        assert forall|i: int, j: int|
                            0 <= i < v.len() && 0 <= j < children_of(v[i].1@).len() implies self.handled(
                            #[trigger] children_of(v[i].1@)[j],
                        ) by {
                            if i < vbefore.len() {
                                assert(v[i] == vbefore[i]);
                            }
                        }
                        if closure_buffered(orig, root) {
                            assert forall|j: int| 0 <= j < self.stack@.len() implies c.contains(
                                #[trigger] self.stack@[j]@,
                            ) by {
                                if j < popped.len() {
                                    assert(self.stack@[j] == before[j]);
                                } else {
                                    let k = j - popped.len();
                                    assert(self.stack@[j] == children@[k]);
                                    assert(children@.map_values(|c: Digest| c@)[k] == children@[k]@);
                                    assert(c.contains(d@));
                                    assert(orig[d@].1 == t@);
                                    assert(c.contains(children_of(orig[d@].1)[k]));
                                }
                            }
                            assert forall|x: Seq<u8>| #[trigger] c.contains(x) implies self.cache@.contains_key(
                                x,
                            ) || k1.contains(x) by {
                                if !self.cache@.contains_key(x) && x != d@ {
                                    assert(!cache_before.contains_key(x));
                                    let i = choose|i: int| 0 <= i < k0.len() && k0[i] == x;
                                    assert(k1[i] == x);
                                }
                            }
                        }
                    }
                },
            }
        }
    }

    /// Records that the digest waiting for its check is durable.
    pub fn confirm(&mut self)
        requires
            old(self).inv(),
            old(self).awaiting is Some,
        ensures
            final(self).inv(),
            final(self).awaiting is None,
            final(self).orig == old(self).orig,
            final(self).root == old(self).root,
            final(self).durable@ == old(self).durable@.insert(old(self).awaiting->Some_0@),
            final(self).cache.entries@.len() == old(self).cache.entries@.len(),
            final(self).stack@ == old(self).stack@,
    {
        let ghost d = self.awaiting->Some_0;
        let ghost before = *self;
        self.durable = Ghost(self.durable@.insert(d@));
        self.awaiting = None;
        proof {
            assert forall|x: Seq<u8>| before.handled(x) implies #[trigger] self.handled(x) by {}
        }
    }

    /// The validated nodes of a finished traversal.
    pub fn finish(self) -> (r: Vec<(Digest, Trie)>)
        requires
            self.inv(),
            self.stack@.len() == 0,
            self.awaiting is None,
        ensures
            validated_ok(r@, self.orig@, self.root@, self.durable@),
    {
        self.validated
    }
}

} // verus!
