//! The content-addressed store model: immutable entries keyed by identity.
//!
//! An entry records, for each declared output path of a finished job, the
//! content hash it was captured with. Entries are immutable once committed:
//! a second commit under the same identity is a no-op when it matches and a
//! detectable inconsistency when it does not — the store never silently
//! replaces an entry. Durability and the bytes themselves live behind the
//! storage boundary; this model decides what may be committed and read.

use vstd::prelude::*;

verus! {

/// A committed entry's shape: each captured output path with its content
/// hash, in the order the job declared them.
pub type Entry = Vec<(String, String)>;

/// A commit that contradicts an existing entry: the identity is already
/// bound to different content. Signals a nondeterministic command or a
/// fingerprinting defect; never silently accepted.
#[derive(Debug, Clone)]
pub struct StoreMismatch {
    pub id: u64,
}

/// The store's decision state: which identities are committed, and to what.
pub struct Store {
    entries: Vec<(u64, Entry)>,
}

impl Store {
    spec fn key_at(&self, i: int) -> u64 {
        self.entries@[i].0
    }

    spec fn spec_has(&self, id: u64) -> bool {
        exists|i: int| 0 <= i < self.entries@.len() && self.key_at(i) == id
    }

    spec fn spec_entry(&self, id: u64) -> Seq<(Seq<char>, Seq<char>)> {
        let i = choose|i: int| 0 <= i < self.entries@.len() && self.key_at(i) == id;
        self.entries@[i].1.deep_view()
    }

    /// Each identity is bound at most once.
    #[verifier::type_invariant]
    spec fn unique_keys(&self) -> bool {
        forall|i: int, j: int|
            0 <= i < j < self.entries@.len() ==> self.key_at(i) != self.key_at(j)
    }

    pub fn new() -> (r: Store)
        ensures
            r@ == Map::<u64, Seq<(Seq<char>, Seq<char>)>>::empty(),
    {
        let r = Store { entries: Vec::new() };
        proof {
            assert(r@ =~= Map::<u64, Seq<(Seq<char>, Seq<char>)>>::empty());
        }
        r
    }

    /// Whether a complete entry exists for this identity.
    pub fn has(&self, id: u64) -> (r: bool)
        ensures
            r == self@.contains_key(id),
    {
        proof {
            use_type_invariant(self);
        }
        let mut i: usize = 0;
        while i < self.entries.len()
            invariant
                i <= self.entries@.len(),
                self.unique_keys(),
                forall|k: int| 0 <= k < i ==> self.key_at(k) != id,
            decreases self.entries@.len() - i,
        {
            if self.entries[i].0 == id {
                proof {
                    assert(self.key_at(i as int) == id);
                    assert(self.spec_has(id));
                }
                return true;
            }
            i = i + 1;
        }
        proof {
            if self.spec_has(id) {
                let k = choose|k: int| 0 <= k < self.entries@.len() && self.key_at(k) == id;
            }
        }
        false
    }

    /// Atomically publish an entry under an identity.
    ///
    /// A fresh identity is bound to the entry. A repeated commit with
    /// identical content is an idempotent no-op. A repeated commit with
    /// different content changes nothing and reports the mismatch.
    pub fn commit(&mut self, id: u64, entry: Entry) -> (r: Result<(), StoreMismatch>)
        ensures
            match r {
                Ok(()) => {
                    &&& (old(self)@.contains_key(id) ==> old(self)@[id] == entry.deep_view()
                        && final(self)@ == old(self)@)
                    &&& (!old(self)@.contains_key(id) ==> final(self)@ == old(self)@.insert(
                        id,
                        entry.deep_view(),
                    ))
                },
                Err(m) => {
                    &&& m.id == id
                    &&& old(self)@.contains_key(id)
                    &&& old(self)@[id] != entry.deep_view()
                    &&& final(self)@ == old(self)@
                },
            },
    {
        proof {
            use_type_invariant(&*self);
        }
        let ghost pre = self.entries@;
        let mut i: usize = 0;
        while i < self.entries.len()
            invariant
                i <= self.entries@.len(),
                self.unique_keys(),
                self == old(self),
                forall|k: int| 0 <= k < i ==> self.key_at(k) != id,
            decreases self.entries@.len() - i,
        {
            if self.entries[i].0 == id {
                proof {
                    assert(self.key_at(i as int) == id);
                    assert(self.spec_has(id));
                    let k = choose|k: int| 0 <= k < self.entries@.len() && self.key_at(k) == id;
                    assert(k == i);
                    assert(self@.contains_key(id));
                    assert(self@[id] == self.entries@[i as int].1.deep_view());
                }
                if entries_equal(&self.entries[i].1, &entry) {
                    return Ok(());
                } else {
                    return Err(StoreMismatch { id });
                }
            }
            i = i + 1;
        }
        proof {
            if self.spec_has(id) {
                let k = choose|k: int| 0 <= k < self.entries@.len() && self.key_at(k) == id;
            }
            assert(!self@.contains_key(id));
        }
        let ghost oldview = self@;
        proof {
            assert forall|k: int| 0 <= k < pre.len() implies (#[trigger] pre[k]).0 != id by {
                assert(self.key_at(k) != id);
            }
        }
        let mut es: Vec<(u64, Entry)> = Vec::new();
        core::mem::swap(&mut es, &mut self.entries);
        es.push((id, entry));
        proof {
            assert(es@.drop_last() == pre);
            assert forall|a: int, b: int|
                0 <= a < b < es@.len() implies es@[a].0 != es@[b].0 by {
                if b == es@.len() - 1 {
                    assert(pre[a].0 != id);
                } else {
                    assert(old(self).key_at(a) != old(self).key_at(b));
                }
            }
        }
        core::mem::swap(&mut es, &mut self.entries);
        proof {
            let post = self.entries@;
            assert(post.drop_last() == pre);
            assert(post.last().0 == id);
            assert(self.unique_keys());
            assert(final(self)@ =~= oldview.insert(id, post.last().1.deep_view())) by {
                assert forall|q: u64| true implies (self.spec_has(q) <==> (q == id
                    || old(self).spec_has(q))) by {
                    if q == id {
                        assert(self.key_at(post.len() - 1) == id);
                    } else {
                        if self.spec_has(q) {
                            let k = choose|k: int| 0 <= k < post.len() && self.key_at(k) == q;
                            assert(k < post.len() - 1);
                            assert(old(self).key_at(k) == q);
                        }
                        if old(self).spec_has(q) {
                            let k = choose|k: int| 0 <= k < pre.len() && old(self).key_at(k) == q;
                            assert(self.key_at(k) == q);
                        }
                    }
                }
                assert forall|q: u64| self.spec_has(q) implies self.spec_entry(q) == (if q == id {
                    post.last().1.deep_view()
                } else {
                    old(self).spec_entry(q)
                }) by {
                    if q == id {
                        assert forall|k: int|
                            0 <= k < post.len() && self.key_at(k) == q implies k == post.len()
                            - 1 by {}
                    } else {
                        let k = choose|k: int| 0 <= k < post.len() && self.key_at(k) == q;
                        assert(k < post.len() - 1);
                        assert(old(self).key_at(k) == q);
                        assert forall|k2: int|
                            0 <= k2 < post.len() && self.key_at(k2) == q implies k2 == k by {}
                        assert forall|k2: int|
                            0 <= k2 < pre.len() && old(self).key_at(k2) == q implies k2 == k by {}
                    }
                }
            }
        }
        Ok(())
    }
}

impl View for Store {
    type V = Map<u64, Seq<(Seq<char>, Seq<char>)>>;

    closed spec fn view(&self) -> Map<u64, Seq<(Seq<char>, Seq<char>)>> {
        Map::new(|id: u64| self.spec_has(id), |id: u64| self.spec_entry(id))
    }
}

/// Whether two entries carry the same paths and hashes, in the same order.
fn entries_equal(a: &Entry, b: &Entry) -> (r: bool)
    ensures
        r == (a.deep_view() == b.deep_view()),
{
    if a.len() != b.len() {
        proof {
            assert(a.deep_view().len() != b.deep_view().len());
        }
        return false;
    }
    let mut i: usize = 0;
    while i < a.len()
        invariant
            i <= a.len(),
            a.deep_view().len() == b.deep_view().len(),
            a@.len() == b@.len(),
            forall|k: int| 0 <= k < i ==> a.deep_view()[k] == b.deep_view()[k],
        decreases a.len() - i,
    {
        proof {
            assert(a.deep_view()[i as int] == (a@[i as int].0@, a@[i as int].1@));
            assert(b.deep_view()[i as int] == (b@[i as int].0@, b@[i as int].1@));
        }
        if !(a[i].0 == b[i].0) || !(a[i].1 == b[i].1) {
            proof {
                assert(a.deep_view()[i as int] != b.deep_view()[i as int]);
            }
            return false;
        }
        i = i + 1;
    }
    proof {
        assert(a.deep_view() =~= b.deep_view());
    }
    true
}

} // verus!
