//! The cache contract over a key-value store boundary.
//!
//! A `Cache` owns a store that meets the `CacheStore` boundary and exposes
//! `get`, `has`, `set`, `clear` and `set_capacity` over composite keys and
//! canonically-serializable values.  Its abstract state is a map from key
//! views to decoded values.  Two storage topologies are chosen at
//! construction: `SingleObject` keeps every entry as a field of one store
//! object, enforces the capacity bound before each write, and answers `has`
//! with a dedicated existence check; `Flat` delegates capacity to the
//! store's own configuration (so `set_capacity` is a documented no-op) and
//! answers `has` by fetching and checking decodability.  Both satisfy the
//! same contract.

use vstd::prelude::*;
use vstd::map::*;
use vstd::set::axiom_set_insert_len;
use crate::codec::{encode_key, key_token, lemma_key_token_injective, CompositeKey};
use crate::store::CacheStore;
use crate::values::{decode_response, CacheValue};
use core::marker::PhantomData;

verus! {

/// How the namespace is laid out in the backing store.
pub enum Topology {
    /// One store object holds every entry as a field; capacity is enforced
    /// here, before each write.
    SingleObject,
    /// Each entry is an independent prefixed key; capacity is delegated to
    /// the store's own configuration.
    Flat,
}

/// The abstract cache state a store's contents denote: each stored,
/// decodable entry under its composite key.
pub open spec fn spec_view<V: CacheValue>(m: Map<Seq<u8>, Seq<u8>>) -> Map<Seq<Seq<u8>>, V> {
    Map::new(
        |f: Seq<Seq<u8>>| m.dom().contains(key_token(f)),
        |f: Seq<Seq<u8>>| V::dec(m[key_token(f)])->Some_0,
    )
}

/// What `get` returns in a cache state.
pub open spec fn spec_get<V>(m: Map<Seq<Seq<u8>>, V>, k: Seq<Seq<u8>>) -> Option<V> {
    if m.dom().contains(k) {
        Some(m[k])
    } else {
        None
    }
}

/// What `set` leaves behind: the entry is admitted unless a bounded
/// namespace is already at capacity, in which case the write is silently
/// rejected.
pub open spec fn spec_set<V>(
    m: Map<Seq<Seq<u8>>, V>,
    entry_count: nat,
    cap: nat,
    bounded: bool,
    k: Seq<Seq<u8>>,
    v: V,
) -> Map<Seq<Seq<u8>>, V> {
    if bounded && entry_count >= cap {
        m
    } else {
        m.insert(k, v)
    }
}

/// The cache contract: a capacity bound, a topology, and a store.
pub struct Cache<S: CacheStore, V: CacheValue> {
    store: S,
    cap: usize,
    topology: Topology,
    marker: PhantomData<V>,
}

impl<S: CacheStore, V: CacheValue> View for Cache<S, V> {
    type V = Map<Seq<Seq<u8>>, V>;

    closed spec fn view(&self) -> Map<Seq<Seq<u8>>, V> {
        spec_view::<V>(self.store.contents())
    }
}

impl<S: CacheStore, V: CacheValue> Cache<S, V> {
    /// The configured capacity bound.  Only the `SingleObject` topology
    /// enforces it.
    pub closed spec fn capacity(&self) -> nat {
        self.cap as nat
    }

    /// Number of live entries in the namespace.
    pub closed spec fn entry_count(&self) -> nat {
        self.store.contents().dom().len()
    }

    /// The topology this cache was constructed with.
    pub closed spec fn topology(&self) -> Topology {
        self.topology
    }

    /// Whether this cache enforces the capacity bound itself.
    pub open spec fn bounded(&self) -> bool {
        self.topology() is SingleObject
    }

    /// Well-formedness: the store is well-formed and every stored entry
    /// decodes, so reads never meet garbage of the cache's own making.
    pub closed spec fn wf(&self) -> bool {
        &&& self.store.inv()
        &&& forall|t: Seq<u8>| #[trigger]
            self.store.contents().dom().contains(t) ==> V::dec(self.store.contents()[t]) is Some
    }

    /// Attach a cache to a store whose namespace holds only well-formed
    /// entries (an empty one in particular).  The initial capacity bound
    /// matches the backing client's default of one thousand entries.
    pub fn new(store: S, topology: Topology) -> (r: Cache<S, V>)
        requires
            store.inv(),
            forall|t: Seq<u8>| #[trigger]
                store.contents().dom().contains(t) ==> V::dec(store.contents()[t]) is Some,
        ensures
            r.wf(),
            r@ == spec_view::<V>(store.contents()),
            r.capacity() == 1000,
            r.topology() == topology,
            r.entry_count() == store.contents().dom().len(),
    {
        Cache { store, cap: 1000, topology, marker: PhantomData }
    }

    /// Hand the backing store back, for instance to inspect the shared
    /// keyspace after the cache is done with it.
    pub fn into_store(self) -> (r: S)
        requires
            self.wf(),
        ensures
            r.inv(),
            spec_view::<V>(r.contents()) == self@,
    {
        self.store
    }

    /// Read a decision back.  Any absent, undecodable or lost entry
    /// resolves to `None`: a cache failure only ever costs a recomputation.
    pub fn get(&mut self, k: &CompositeKey) -> (r: Option<V>)
        requires
            old(self).wf(),
        ensures
            final(self).wf(),
            final(self)@ == old(self)@,
            final(self).capacity() == old(self).capacity(),
            final(self).topology() == old(self).topology(),
            final(self).entry_count() == old(self).entry_count(),
            r == spec_get(old(self)@, k@),
    {
        let token = encode_key(k);
        let resp = self.store.read(token.as_slice());
        let r = decode_response::<V>(resp);
        proof {
            let m = self.store.contents();
            if m.dom().contains(key_token(k@)) {
                assert(self@.dom().contains(k@));
                assert(self@[k@] == V::dec(m[key_token(k@)])->Some_0);
            } else {
                assert(!self@.dom().contains(k@));
            }
        }
        r
    }

    /// Existence check; agrees with `get` in every state this cache
    /// maintains: true exactly when `get` would return a value.
    pub fn has(&mut self, k: &CompositeKey) -> (r: bool)
        requires
            old(self).wf(),
        ensures
            final(self).wf(),
            final(self)@ == old(self)@,
            final(self).capacity() == old(self).capacity(),
            final(self).topology() == old(self).topology(),
            final(self).entry_count() == old(self).entry_count(),
            r == (spec_get(old(self)@, k@) is Some),
    {
        let token = encode_key(k);
        match self.topology {
            Topology::SingleObject => {
                let r = self.store.has_key(token.as_slice());
                proof {
                    assert(r == self@.dom().contains(k@));
                }
                r
            },
            Topology::Flat => {
                let resp = self.store.read(token.as_slice());
                let decoded = decode_response::<V>(resp);
                proof {
                    let m = self.store.contents();
                    if m.dom().contains(key_token(k@)) {
                        assert(decoded is Some);
                        assert(self@.dom().contains(k@));
                    } else {
                        assert(!self@.dom().contains(k@));
                    }
                }
                decoded.is_some()
            },
        }
    }

    /// Write a decision.  Best-effort and advisory: when a bounded
    /// namespace is already at capacity the write is silently rejected and
    /// the state is unchanged.
    pub fn set(&mut self, k: CompositeKey, v: V)
        requires
            old(self).wf(),
        ensures
            final(self).wf(),
            final(self).capacity() == old(self).capacity(),
            final(self).topology() == old(self).topology(),
            final(self)@ == spec_set(
                old(self)@,
                old(self).entry_count(),
                old(self).capacity(),
                old(self).bounded(),
                k@,
                v,
            ),
            old(self).bounded() && old(self).entry_count() >= old(self).capacity()
                ==> final(self).entry_count() == old(self).entry_count(),
            !(old(self).bounded() && old(self).entry_count() >= old(self).capacity())
                ==> final(self).entry_count() == old(self).entry_count() + (
                if old(self)@.dom().contains(k@) {
                    0int
                } else {
                    1int
                }),
    {
        let admitted = match self.topology {
            Topology::SingleObject => {
                let n = self.store.count();
                n < self.cap
            },
            Topology::Flat => true,
        };
        if admitted {
            let token = encode_key(&k);
            let enc = v.encode();
            let ghost pre = self.store.contents();
            proof {
                self.store.lemma_contents_finite();
            }
            self.store.write(token.as_slice(), enc.as_slice());
            proof {
                let post = self.store.contents();
                assert(post == pre.insert(key_token(k@), v.enc()));
                axiom_set_insert_len(pre.dom(), key_token(k@));
                assert(post.dom() =~= pre.dom().insert(key_token(k@)));
                assert(pre.dom().contains(key_token(k@)) == old(self)@.dom().contains(k@));
                v.lemma_round_trip();
                assert forall|t: Seq<u8>| #[trigger] post.dom().contains(t) implies V::dec(
                    post[t],
                ) is Some by {
                    if t != key_token(k@) {
                        assert(pre.dom().contains(t));
                    }
                }
                assert forall|f: Seq<Seq<u8>>| spec_view::<V>(post).dom().contains(
                    f,
                ) implies old(self)@.insert(k@, v).dom().contains(f) && spec_view::<V>(post)[f]
                    == old(self)@.insert(k@, v)[f] by {
                    lemma_key_token_injective(f, k@);
                    if f == k@ {
                        assert(post[key_token(k@)] == v.enc());
                        assert(spec_view::<V>(post)[f] == V::dec(v.enc())->Some_0);
                    } else {
                        assert(key_token(f) != key_token(k@));
                        assert(pre.dom().contains(key_token(f)));
                        assert(post[key_token(f)] == pre[key_token(f)]);
                    }
                }
                assert forall|f: Seq<Seq<u8>>| old(self)@.insert(k@, v).dom().contains(
                    f,
                ) implies spec_view::<V>(post).dom().contains(f) by {
                    lemma_key_token_injective(f, k@);
                }
                assert_maps_equal!(spec_view::<V>(post), old(self)@.insert(k@, v), f => {
                    lemma_key_token_injective(f, k@);
                    if f == k@ {
                        assert(post[key_token(k@)] == v.enc());
                    } else {
                        assert(key_token(f) != key_token(k@));
                        if pre.dom().contains(key_token(f)) {
                            assert(post[key_token(f)] == pre[key_token(f)]);
                        }
                    }
                });
            }
        }
    }

    /// Remove every entry in the cache's namespace.
    pub fn clear(&mut self)
        requires
            old(self).wf(),
        ensures
            final(self).wf(),
            final(self).capacity() == old(self).capacity(),
            final(self).topology() == old(self).topology(),
            final(self)@ == Map::<Seq<Seq<u8>>, V>::empty(),
            final(self).entry_count() == 0,
    {
        self.store.clear_all();
        proof {
            assert(self@ =~= Map::<Seq<Seq<u8>>, V>::empty());
            assert(self.store.contents().dom() =~= Set::<Seq<u8>>::empty());
        }
    }

    /// Configure the capacity bound.  Effective only for the
    /// `SingleObject` topology; for `Flat` it is a documented no-op, the
    /// bound being delegated to the store's own configuration.
    pub fn set_capacity(&mut self, cap: usize)
        requires
            old(self).wf(),
        ensures
            final(self).wf(),
            final(self)@ == old(self)@,
            final(self).topology() == old(self).topology(),
            final(self).entry_count() == old(self).entry_count(),
            final(self).capacity() == if old(self).bounded() {
                cap as nat
            } else {
                old(self).capacity()
            },
    {
        match self.topology {
            Topology::SingleObject => {
                self.cap = cap;
            },
            Topology::Flat => {},
        }
    }
}

/// A `set` that was admitted is immediately visible: `get` of the same key
/// returns the value just written, absent an intervening capacity rejection
/// or `clear`.
pub proof fn lemma_set_then_get<V: CacheValue>(
    m: Map<Seq<Seq<u8>>, V>,
    entry_count: nat,
    cap: nat,
    bounded: bool,
    k: Seq<Seq<u8>>,
    v: V,
)
    requires
        !(bounded && entry_count >= cap),
    ensures
        spec_get(spec_set(m, entry_count, cap, bounded, k, v), k) == Some(v),
{
}

/// `has` is true exactly when `get` returns a value.
pub proof fn lemma_has_iff_get<V>(m: Map<Seq<Seq<u8>>, V>, k: Seq<Seq<u8>>)
    ensures
        m.dom().contains(k) <==> spec_get(m, k) is Some,
{
}

/// After `clear`, `get` returns absent for every key whatsoever.
pub proof fn lemma_clear_then_get<V>(k: Seq<Seq<u8>>)
    ensures
        spec_get(Map::<Seq<Seq<u8>>, V>::empty(), k) == None::<V>,
{
}

/// In a bounded namespace holding at least its capacity, a further `set`
/// changes nothing: the state, and with it the entry count, stays as it
/// was.
pub proof fn lemma_capacity_rejection<V>(
    m: Map<Seq<Seq<u8>>, V>,
    entry_count: nat,
    cap: nat,
    k: Seq<Seq<u8>>,
    v: V,
)
    requires
        entry_count >= cap,
    ensures
        spec_set(m, entry_count, cap, true, k, v) == m,
{
}

} // verus!


