//! The key-value store boundary and a verified in-memory store.
//!
//! The cache needs exactly point read, point write, an existence check, an
//! entry count, and bulk deletion of its whole namespace, each specified
//! against the store's abstract contents: a map from encoded key to stored
//! bytes.  `MemStore` discharges the boundary with an association list, so
//! the full cache contract can be exercised with no external store at all.

use vstd::prelude::*;
use vstd::set::axiom_set_insert_len;

verus! {

/// The minimal operation set the cache requires from a backing store,
/// restricted to the cache's own namespace.
pub trait CacheStore: Sized {
    /// The namespace's abstract contents: encoded key to stored bytes.
    spec fn contents(&self) -> Map<Seq<u8>, Seq<u8>>;

    /// The store's internal well-formedness.
    spec fn inv(&self) -> bool;

    /// A well-formed namespace holds finitely many entries.
    proof fn lemma_contents_finite(&self)
        requires
            self.inv(),
        ensures
            self.contents().dom().finite(),
    ;

    /// Point read under the namespace.
    fn read(&mut self, token: &[u8]) -> (r: Option<Vec<u8>>)
        requires
            old(self).inv(),
        ensures
            final(self).inv(),
            final(self).contents() == old(self).contents(),
            match r {
                Some(v) => old(self).contents().dom().contains(token@) && v@ == old(
                    self,
                ).contents()[token@],
                None => !old(self).contents().dom().contains(token@),
            },
    ;

    /// Existence check under the namespace.
    fn has_key(&mut self, token: &[u8]) -> (r: bool)
        requires
            old(self).inv(),
        ensures
            final(self).inv(),
            final(self).contents() == old(self).contents(),
            r == old(self).contents().dom().contains(token@),
    ;

    /// Point write under the namespace.
    fn write(&mut self, token: &[u8], value: &[u8])
        requires
            old(self).inv(),
        ensures
            final(self).inv(),
            final(self).contents() == old(self).contents().insert(token@, value@),
    ;

    /// Number of live entries in the namespace.
    fn count(&mut self) -> (r: usize)
        requires
            old(self).inv(),
        ensures
            final(self).inv(),
            final(self).contents() == old(self).contents(),
            r == old(self).contents().dom().len(),
    ;

    /// Remove every entry of the namespace.
    fn clear_all(&mut self)
        requires
            old(self).inv(),
        ensures
            final(self).inv(),
            final(self).contents() == Map::<Seq<u8>, Seq<u8>>::empty(),
    ;
}

/// One stored entry: an encoded key and its bytes.
pub struct StoredEntry {
    pub key: Vec<u8>,
    pub val: Vec<u8>,
}

/// An in-memory store: an association list with pairwise-distinct keys.
pub struct MemStore {
    entries: Vec<StoredEntry>,
}

/// The map an association list denotes; later entries win, though a
/// well-formed store never holds a key twice.
pub open spec fn assoc_map(s: Seq<StoredEntry>) -> Map<Seq<u8>, Seq<u8>>
    decreases s.len(),
{
    if s.len() == 0 {
        Map::empty()
    } else {
        assoc_map(s.drop_last()).insert(s.last().key@, s.last().val@)
    }
}

pub open spec fn keys_distinct(s: Seq<StoredEntry>) -> bool {
    forall|i: int, j: int| 0 <= i < j < s.len() ==> s[i].key@ != s[j].key@
}

proof fn lemma_assoc_map_dom(s: Seq<StoredEntry>)
    ensures
        forall|k: Seq<u8>|
            #[trigger] assoc_map(s).dom().contains(k) <==> exists|i: int|
                0 <= i < s.len() && #[trigger] s[i].key@ == k,
        assoc_map(s).dom().finite(),
    decreases s.len(),
{
    if s.len() == 0 {
    } else {
        lemma_assoc_map_dom(s.drop_last());
        assert forall|k: Seq<u8>| #[trigger] assoc_map(s).dom().contains(k) implies exists|i: int|
            0 <= i < s.len() && #[trigger] s[i].key@ == k by {
            if k == s.last().key@ {
                assert(s[s.len() - 1].key@ == k);
            } else {
                let i = choose|i: int|
                    0 <= i < s.drop_last().len() && #[trigger] s.drop_last()[i].key@ == k;
                assert(s[i].key@ == k);
            }
        }
        assert forall|k: Seq<u8>|
            (exists|i: int| 0 <= i < s.len() && #[trigger] s[i].key@ == k) implies #[trigger]
        assoc_map(s).dom().contains(k) by {
            let i = choose|i: int| 0 <= i < s.len() && #[trigger] s[i].key@ == k;
            if i == s.len() - 1 {
            } else {
                assert(s.drop_last()[i].key@ == k);
            }
        }
    }
}

proof fn lemma_assoc_map_val(s: Seq<StoredEntry>)
    requires
        keys_distinct(s),
    ensures
        forall|i: int|
            0 <= i < s.len() ==> assoc_map(s).dom().contains(#[trigger] s[i].key@) && assoc_map(
                s,
            )[s[i].key@] == s[i].val@,
    decreases s.len(),
{
    lemma_assoc_map_dom(s);
    if s.len() == 0 {
    } else {
        assert(keys_distinct(s.drop_last()));
        lemma_assoc_map_val(s.drop_last());
        assert forall|i: int| 0 <= i < s.len() implies assoc_map(s).dom().contains(
            #[trigger] s[i].key@,
        ) && assoc_map(s)[s[i].key@] == s[i].val@ by {
            if i < s.len() - 1 {
                assert(s.drop_last()[i] == s[i]);
                assert(s[i].key@ != s.last().key@);
            }
        }
    }
}

proof fn lemma_assoc_map_len(s: Seq<StoredEntry>)
    requires
        keys_distinct(s),
    ensures
        assoc_map(s).dom().len() == s.len(),
        assoc_map(s).dom().finite(),
    decreases s.len(),
{
    lemma_assoc_map_dom(s);
    if s.len() == 0 {
        assert(assoc_map(s).dom() =~= Set::<Seq<u8>>::empty());
    } else {
        assert(keys_distinct(s.drop_last()));
        lemma_assoc_map_len(s.drop_last());
        lemma_assoc_map_dom(s.drop_last());
        assert(!assoc_map(s.drop_last()).dom().contains(s.last().key@)) by {
            if assoc_map(s.drop_last()).dom().contains(s.last().key@) {
                let i = choose|i: int|
                    0 <= i < s.drop_last().len() && #[trigger] s.drop_last()[i].key@
                        == s.last().key@;
                assert(s[i].key@ == s[s.len() - 1].key@);
                assert(false);
            }
        }
        axiom_set_insert_len(assoc_map(s.drop_last()).dom(), s.last().key@);
        assert(assoc_map(s).dom() =~= assoc_map(s.drop_last()).dom().insert(s.last().key@));
    }
}

impl MemStore {
    pub fn new() -> (r: MemStore)
        ensures
            r.inv(),
            r.contents() == Map::<Seq<u8>, Seq<u8>>::empty(),
    {
        MemStore { entries: Vec::new() }
    }
}

/// Index of the entry holding `key`, if any.
fn find_entry(entries: &Vec<StoredEntry>, key: &[u8]) -> (r: Option<usize>)
    ensures
        match r {
            Some(i) => i < entries@.len() && entries@[i as int].key@ == key@,
            None => forall|i: int| 0 <= i < entries@.len() ==> entries@[i].key@ != key@,
        },
{
    let mut i: usize = 0;
    while i < entries.len()
        invariant
            i <= entries@.len(),
            forall|j: int| 0 <= j < i ==> entries@[j].key@ != key@,
        decreases entries@.len() - i,
    {
        if bytes_equal(entries[i].key.as_slice(), key) {
            return Some(i);
        }
        i = i + 1;
    }
    None
}

/// Byte-for-byte equality of two byte strings.
fn bytes_equal(a: &[u8], b: &[u8]) -> (r: bool)
    ensures
        r == (a@ == b@),
{
    if a.len() != b.len() {
        return false;
    }
    let mut i: usize = 0;
    while i < a.len()
        invariant
            a@.len() == b@.len(),
            i <= a@.len(),
            forall|j: int| 0 <= j < i ==> a@[j] == b@[j],
        decreases a@.len() - i,
    {
        if a[i] != b[i] {
            return false;
        }
        i = i + 1;
    }
    proof {
        assert(a@ =~= b@);
    }
    true
}

/// Removing one entry removes exactly its key from the denoted map.
proof fn lemma_assoc_map_remove_at(pre: Seq<StoredEntry>, i: int)
    requires
        keys_distinct(pre),
        0 <= i < pre.len(),
    ensures
        keys_distinct(pre.remove(i)),
        forall|m: int| 0 <= m < pre.remove(i).len() ==> pre.remove(i)[m].key@ != pre[i].key@,
        assoc_map(pre.remove(i)) == assoc_map(pre).remove(pre[i].key@),
{
    let mid = pre.remove(i);
    assert(forall|m: int|
        0 <= m < mid.len() ==> mid[m] == (if m < i {
            pre[m]
        } else {
            pre[m + 1]
        }));
    lemma_assoc_map_dom(pre);
    lemma_assoc_map_val(pre);
    assert(keys_distinct(mid));
    lemma_assoc_map_dom(mid);
    lemma_assoc_map_val(mid);
    assert forall|k: Seq<u8>| #[trigger] assoc_map(pre).remove(pre[i].key@).dom().contains(
        k,
    ) implies assoc_map(mid).dom().contains(k) && assoc_map(mid)[k] == assoc_map(pre).remove(
        pre[i].key@,
    )[k] by {
        let n = choose|n: int| 0 <= n < pre.len() && #[trigger] pre[n].key@ == k;
        assert(n != i);
        let w: int = if n < i {
            n
        } else {
            n - 1
        };
        assert(mid[w] == pre[n]);
        assert(assoc_map(mid)[k] == mid[w].val@);
        assert(assoc_map(pre)[k] == pre[n].val@);
    }
    assert forall|k: Seq<u8>| #[trigger] assoc_map(mid).dom().contains(k) implies assoc_map(
        pre,
    ).remove(pre[i].key@).dom().contains(k) by {
        let m = choose|m: int| 0 <= m < mid.len() && #[trigger] mid[m].key@ == k;
        let n: int = if m < i {
            m
        } else {
            m + 1
        };
        assert(pre[n].key@ == k);
        assert(k != pre[i].key@);
    }
    assert(assoc_map(mid) =~= assoc_map(pre).remove(pre[i].key@));
}

impl CacheStore for MemStore {
    closed spec fn contents(&self) -> Map<Seq<u8>, Seq<u8>> {
        assoc_map(self.entries@)
    }

    closed spec fn inv(&self) -> bool {
        keys_distinct(self.entries@)
    }

    proof fn lemma_contents_finite(&self) {
        lemma_assoc_map_dom(self.entries@);
    }

    fn read(&mut self, token: &[u8]) -> (r: Option<Vec<u8>>) {
        proof {
            lemma_assoc_map_dom(self.entries@);
            lemma_assoc_map_val(self.entries@);
        }
        match find_entry(&self.entries, token) {
            Some(i) => Some(slice_to_vec(self.entries[i].val.as_slice())),
            None => None,
        }
    }

    fn has_key(&mut self, token: &[u8]) -> (r: bool) {
        proof {
            lemma_assoc_map_dom(self.entries@);
        }
        match find_entry(&self.entries, token) {
            Some(_) => true,
            None => false,
        }
    }

    fn write(&mut self, token: &[u8], value: &[u8]) {
        let ghost pre = self.entries@;
        proof {
            lemma_assoc_map_dom(pre);
            lemma_assoc_map_val(pre);
        }
        match find_entry(&self.entries, token) {
            Some(i) => {
                proof {
                    lemma_assoc_map_remove_at(pre, i as int);
                }
                self.entries.remove(i);
            },
            None => {},
        }
        let ghost mid = self.entries@;
        proof {
            assert(keys_distinct(mid));
            assert(forall|m: int| 0 <= m < mid.len() ==> #[trigger] mid[m].key@ != token@);
        }
        let entry = StoredEntry { key: slice_to_vec(token), val: slice_to_vec(value) };
        self.entries.push(entry);
        proof {
            let post = self.entries@;
            assert(post.drop_last() =~= mid);
            assert(post.last().key@ == token@ && post.last().val@ == value@);
            assert forall|i: int, j: int| 0 <= i < j < post.len() implies post[i].key@
                != post[j].key@ by {
                if j == post.len() - 1 {
                    assert(post[i] == mid[i]);
                } else {
                    assert(post[i] == mid[i] && post[j] == mid[j]);
                }
            }
            assert(assoc_map(post) == assoc_map(mid).insert(token@, value@));
            assert(assoc_map(mid).insert(token@, value@) =~= assoc_map(pre).insert(
                token@,
                value@,
            ));
        }
    }

    fn count(&mut self) -> (r: usize) {
        proof {
            lemma_assoc_map_len(self.entries@);
        }
        self.entries.len()
    }

    fn clear_all(&mut self) {
        self.entries.clear();
        proof {
            assert(assoc_map(self.entries@) =~= Map::<Seq<u8>, Seq<u8>>::empty());
        }
    }
}

/// Whether `k` lies in the namespace that prefix `p` carves out of a
/// shared flat keyspace.
pub open spec fn has_prefix(k: Seq<u8>, p: Seq<u8>) -> bool {
    k.len() >= p.len() && k.take(p.len() as int) == p
}

/// The namespace-local map a shared flat keyspace denotes under a prefix:
/// each prefixed key, stripped, to its bytes.
pub open spec fn prefixed_map(p: Seq<u8>, s: Seq<StoredEntry>) -> Map<Seq<u8>, Seq<u8>>
    decreases s.len(),
{
    if s.len() == 0 {
        Map::empty()
    } else if has_prefix(s.last().key@, p) {
        prefixed_map(p, s.drop_last()).insert(
            s.last().key@.skip(p.len() as int),
            s.last().val@,
        )
    } else {
        prefixed_map(p, s.drop_last())
    }
}

proof fn lemma_prefix_skip(p: Seq<u8>, t: Seq<u8>)
    ensures
        has_prefix(p + t, p),
        (p + t).skip(p.len() as int) == t,
{
    assert((p + t).take(p.len() as int) =~= p);
    assert((p + t).skip(p.len() as int) =~= t);
}

proof fn lemma_prefix_reconstruct(k: Seq<u8>, p: Seq<u8>)
    requires
        has_prefix(k, p),
    ensures
        k == p + k.skip(p.len() as int),
{
    assert(k =~= p + k.skip(p.len() as int));
}

proof fn lemma_prefixed_map_dom(p: Seq<u8>, s: Seq<StoredEntry>)
    ensures
        forall|t: Seq<u8>|
            #[trigger] prefixed_map(p, s).dom().contains(t) <==> exists|i: int|
                0 <= i < s.len() && #[trigger] s[i].key@ == p + t,
        prefixed_map(p, s).dom().finite(),
    decreases s.len(),
{
    if s.len() == 0 {
    } else {
        lemma_prefixed_map_dom(p, s.drop_last());
        let last = s.last();
        assert forall|t: Seq<u8>| #[trigger] prefixed_map(p, s).dom().contains(t) implies exists|
            i: int,
        | 0 <= i < s.len() && #[trigger] s[i].key@ == p + t by {
            if has_prefix(last.key@, p) && t == last.key@.skip(p.len() as int) {
                lemma_prefix_reconstruct(last.key@, p);
                assert(s[s.len() - 1].key@ == p + t);
            } else {
                let i = choose|i: int|
                    0 <= i < s.drop_last().len() && #[trigger] s.drop_last()[i].key@ == p + t;
                assert(s[i].key@ == p + t);
            }
        }
        assert forall|t: Seq<u8>|
            (exists|i: int| 0 <= i < s.len() && #[trigger] s[i].key@ == p + t) implies #[trigger]
        prefixed_map(p, s).dom().contains(t) by {
            let i = choose|i: int| 0 <= i < s.len() && #[trigger] s[i].key@ == p + t;
            lemma_prefix_skip(p, t);
            if i == s.len() - 1 {
                assert(has_prefix(last.key@, p));
                assert(last.key@.skip(p.len() as int) == t);
            } else {
                assert(s.drop_last()[i].key@ == p + t);
            }
        }
    }
}

proof fn lemma_prefixed_map_val(p: Seq<u8>, s: Seq<StoredEntry>)
    requires
        keys_distinct(s),
    ensures
        forall|i: int|
            0 <= i < s.len() && has_prefix(#[trigger] s[i].key@, p) ==> prefixed_map(
                p,
                s,
            ).dom().contains(s[i].key@.skip(p.len() as int)) && prefixed_map(p, s)[s[i].key@.skip(
                p.len() as int,
            )] == s[i].val@,
    decreases s.len(),
{
    if s.len() == 0 {
    } else {
        assert(keys_distinct(s.drop_last()));
        lemma_prefixed_map_val(p, s.drop_last());
        let last = s.last();
        assert forall|i: int|
            0 <= i < s.len() && has_prefix(#[trigger] s[i].key@, p) implies prefixed_map(
            p,
            s,
        ).dom().contains(s[i].key@.skip(p.len() as int)) && prefixed_map(p, s)[s[i].key@.skip(
            p.len() as int,
        )] == s[i].val@ by {
            if i < s.len() - 1 {
                assert(s.drop_last()[i] == s[i]);
                if has_prefix(last.key@, p) && s[i].key@.skip(p.len() as int) == last.key@.skip(
                    p.len() as int,
                ) {
                    lemma_prefix_reconstruct(s[i].key@, p);
                    lemma_prefix_reconstruct(last.key@, p);
                    assert(s[i].key@ == s[s.len() - 1].key@);
                    assert(false);
                }
            }
        }
    }
}

/// Removing one entry keeps the rest, in order, and drops its key.
proof fn lemma_remove_entry(s: Seq<StoredEntry>, i: int)
    requires
        keys_distinct(s),
        0 <= i < s.len(),
    ensures
        keys_distinct(s.remove(i)),
        forall|m: int|
            0 <= m < s.remove(i).len() ==> s.remove(i)[m] == (if m < i {
                s[m]
            } else {
                s[m + 1]
            }),
        forall|m: int| 0 <= m < s.remove(i).len() ==> #[trigger] s.remove(i)[m].key@ != s[i].key@,
{
    let mid = s.remove(i);
    assert(forall|m: int|
        0 <= m < mid.len() ==> mid[m] == (if m < i {
            s[m]
        } else {
            s[m + 1]
        }));
}

/// Removing an entry of the namespace removes exactly its stripped key
/// from the namespace-local map.
proof fn lemma_prefixed_map_remove_at(p: Seq<u8>, s: Seq<StoredEntry>, i: int)
    requires
        keys_distinct(s),
        0 <= i < s.len(),
        has_prefix(s[i].key@, p),
    ensures
        prefixed_map(p, s.remove(i)) == prefixed_map(p, s).remove(s[i].key@.skip(p.len() as int)),
{
    let mid = s.remove(i);
    let t0 = s[i].key@.skip(p.len() as int);
    lemma_remove_entry(s, i);
    lemma_prefix_reconstruct(s[i].key@, p);
    lemma_prefixed_map_dom(p, s);
    lemma_prefixed_map_val(p, s);
    lemma_prefixed_map_dom(p, mid);
    lemma_prefixed_map_val(p, mid);
    assert forall|t: Seq<u8>| #[trigger] prefixed_map(p, mid).dom().contains(t) implies prefixed_map(
        p,
        s,
    ).remove(t0).dom().contains(t) && prefixed_map(p, mid)[t] == prefixed_map(p, s).remove(
        t0,
    )[t] by {
        let m = choose|m: int| 0 <= m < mid.len() && #[trigger] mid[m].key@ == p + t;
        let n: int = if m < i {
            m
        } else {
            m + 1
        };
        assert(s[n] == mid[m]);
        if t == t0 {
            assert(mid[m].key@ == s[i].key@);
            assert(false);
        }
        lemma_prefix_skip(p, t);
        assert(prefixed_map(p, s)[t] == s[n].val@);
        assert(prefixed_map(p, mid)[t] == mid[m].val@);
    }
    assert forall|t: Seq<u8>| #[trigger] prefixed_map(p, s).remove(t0).dom().contains(
        t,
    ) implies prefixed_map(p, mid).dom().contains(t) by {
        let n = choose|n: int| 0 <= n < s.len() && #[trigger] s[n].key@ == p + t;
        if n == i {
            lemma_prefix_skip(p, t);
            assert(t == t0);
            assert(false);
        }
        let m: int = if n < i {
            n
        } else {
            n - 1
        };
        assert(mid[m] == s[n]);
    }
    assert(prefixed_map(p, mid) =~= prefixed_map(p, s).remove(t0));
}

/// Whether `k` starts with `p`, byte for byte.
fn slice_has_prefix(k: &[u8], p: &[u8]) -> (r: bool)
    ensures
        r == has_prefix(k@, p@),
{
    if p.len() > k.len() {
        return false;
    }
    let mut j: usize = 0;
    while j < p.len()
        invariant
            j <= p@.len(),
            p@.len() <= k@.len(),
            forall|m: int| 0 <= m < j ==> k@[m] == p@[m],
        decreases p@.len() - j,
    {
        if k[j] != p[j] {
            proof {
                assert(k@.take(p@.len() as int)[j as int] != p@[j as int]);
            }
            return false;
        }
        j = j + 1;
    }
    proof {
        assert(k@.take(p@.len() as int) =~= p@);
    }
    true
}

/// The two byte strings, one after the other.
fn concat_bytes(a: &[u8], b: &[u8]) -> (r: Vec<u8>)
    ensures
        r@ == a@ + b@,
{
    let mut out = slice_to_vec(a);
    let mut i: usize = 0;
    while i < b.len()
        invariant
            i <= b@.len(),
            out@ == a@ + b@.take(i as int),
        decreases b@.len() - i,
    {
        out.push(b[i]);
        proof {
            assert(out@ =~= a@ + b@.take(i + 1 as int));
        }
        i = i + 1;
    }
    proof {
        assert(b@.take(b@.len() as int) =~= b@);
    }
    out
}

/// A flat, prefixed store: the namespace shares one keyspace with
/// unrelated data and is carved out by a key prefix.  Bulk deletion must
/// enumerate the prefixed keys and remove them one by one, leaving
/// unrelated keys untouched.
pub struct FlatStore {
    prefix: Vec<u8>,
    entries: Vec<StoredEntry>,
}

impl FlatStore {
    /// The namespace prefix this store was built with.
    pub closed spec fn ns_prefix(&self) -> Seq<u8> {
        self.prefix@
    }

    /// The whole shared keyspace, namespace and unrelated data alike.
    pub closed spec fn raw(&self) -> Map<Seq<u8>, Seq<u8>> {
        assoc_map(self.entries@)
    }

    pub fn new(prefix: Vec<u8>) -> (r: FlatStore)
        ensures
            r.inv(),
            r.ns_prefix() == prefix@,
            r.contents() == Map::<Seq<u8>, Seq<u8>>::empty(),
            r.raw() == Map::<Seq<u8>, Seq<u8>>::empty(),
    {
        FlatStore { prefix, entries: Vec::new() }
    }

    /// Drop an unrelated entry into the shared keyspace, as a neighbour
    /// application would.  It must lie outside the namespace and not
    /// collide with an existing key; the namespace's contents are
    /// untouched: isolation on the write side.
    pub fn seed_unrelated(&mut self, key: &[u8], value: &[u8])
        requires
            old(self).inv(),
            !has_prefix(key@, old(self).ns_prefix()),
            !old(self).raw().dom().contains(key@),
        ensures
            final(self).inv(),
            final(self).ns_prefix() == old(self).ns_prefix(),
            final(self).raw() == old(self).raw().insert(key@, value@),
            final(self).contents() == old(self).contents(),
    {
        let ghost p = self.prefix@;
        let ghost pre = self.entries@;
        proof {
            lemma_assoc_map_dom(pre);
            lemma_prefixed_map_dom(p, pre);
        }
        let entry = StoredEntry { key: slice_to_vec(key), val: slice_to_vec(value) };
        self.entries.push(entry);
        proof {
            let post = self.entries@;
            assert(post.drop_last() =~= pre);
            assert forall|i: int, j: int| 0 <= i < j < post.len() implies post[i].key@
                != post[j].key@ by {
                if j == post.len() - 1 {
                    assert(post[i] == pre[i]);
                    assert(pre[i].key@ == post[i].key@);
                } else {
                    assert(post[i] == pre[i] && post[j] == pre[j]);
                }
            }
            assert(assoc_map(post) == assoc_map(pre).insert(key@, value@));
            assert(prefixed_map(p, post) == prefixed_map(p, pre));
        }
    }

    /// Read any key of the shared keyspace, prefixed or not.
    pub fn read_anywhere(&self, key: &[u8]) -> (r: Option<Vec<u8>>)
        requires
            self.inv(),
        ensures
            match r {
                Some(v) => self.raw().dom().contains(key@) && v@ == self.raw()[key@],
                None => !self.raw().dom().contains(key@),
            },
    {
        proof {
            lemma_assoc_map_dom(self.entries@);
            lemma_assoc_map_val(self.entries@);
        }
        match find_entry(&self.entries, key) {
            Some(i) => Some(slice_to_vec(self.entries[i].val.as_slice())),
            None => None,
        }
    }

    /// Write one entry of the namespace, under its prefixed key.  Every
    /// key outside the prefix is untouched: isolation on the write side.
    pub fn write_namespace(&mut self, token: &[u8], value: &[u8])
        requires
            old(self).inv(),
        ensures
            final(self).inv(),
            final(self).ns_prefix() == old(self).ns_prefix(),
            final(self).contents() == old(self).contents().insert(token@, value@),
            forall|k: Seq<u8>|
                !has_prefix(k, old(self).ns_prefix()) ==> ((#[trigger] final(self).raw().dom().contains(k)
                    <==> old(self).raw().dom().contains(k)) && (old(self).raw().dom().contains(k)
                    ==> final(self).raw()[k] == old(self).raw()[k])),
    {
        let ghost p = self.prefix@;
        let ghost pre = self.entries@;
        let full = concat_bytes(self.prefix.as_slice(), token);
        let ghost gfull = full@;
        proof {
            lemma_prefix_skip(p, token@);
            lemma_prefixed_map_dom(p, pre);
        }
        match find_entry(&self.entries, full.as_slice()) {
            Some(i) => {
                proof {
                    lemma_remove_entry(pre, i as int);
                    assert(pre[i as int].key@.skip(p.len() as int) == token@);
                    lemma_prefixed_map_remove_at(p, pre, i as int);
                    lemma_assoc_map_remove_at(pre, i as int);
                }
                self.entries.remove(i);
                proof {
                    assert(prefixed_map(p, self.entries@) == prefixed_map(p, pre).remove(token@));
                    assert(assoc_map(self.entries@) == assoc_map(pre).remove(gfull));
                }
            },
            None => {
                proof {
                    if prefixed_map(p, pre).dom().contains(token@) {
                        let j = choose|j: int|
                            0 <= j < pre.len() && #[trigger] pre[j].key@ == p + token@;
                        assert(pre[j].key@ == gfull);
                        assert(false);
                    }
                    assert(prefixed_map(p, pre).remove(token@) =~= prefixed_map(p, pre));
                    lemma_assoc_map_dom(pre);
                    if assoc_map(pre).dom().contains(gfull) {
                        let j = choose|j: int| 0 <= j < pre.len() && #[trigger] pre[j].key@ == gfull;
                        assert(false);
                    }
                    assert(assoc_map(pre).remove(gfull) =~= assoc_map(pre));
                }
            },
        }
        let ghost mid = self.entries@;
        proof {
            assert(keys_distinct(mid));
            assert(forall|m: int| 0 <= m < mid.len() ==> #[trigger] mid[m].key@ != gfull);
            assert(prefixed_map(p, mid) == prefixed_map(p, pre).remove(token@));
            assert(assoc_map(mid) == assoc_map(pre).remove(gfull));
        }
        let entry = StoredEntry { key: full, val: slice_to_vec(value) };
        self.entries.push(entry);
        proof {
            let post = self.entries@;
            assert(post.drop_last() =~= mid);
            assert(post.last().key@ == gfull && post.last().val@ == value@);
            assert forall|a: int, b: int| 0 <= a < b < post.len() implies post[a].key@
                != post[b].key@ by {
                if b == post.len() - 1 {
                    assert(post[a] == mid[a]);
                } else {
                    assert(post[a] == mid[a] && post[b] == mid[b]);
                }
            }
            assert(has_prefix(gfull, p) && gfull.skip(p.len() as int) == token@);
            assert(prefixed_map(p, post) == prefixed_map(p, mid).insert(token@, value@));
            assert(prefixed_map(p, pre).remove(token@).insert(token@, value@) =~= prefixed_map(
                p,
                pre,
            ).insert(token@, value@));
            assert(assoc_map(post) == assoc_map(mid).insert(gfull, value@));
            assert forall|k: Seq<u8>| !has_prefix(k, p) implies ((#[trigger] assoc_map(
                post,
            ).dom().contains(k) <==> assoc_map(pre).dom().contains(k)) && (assoc_map(
                pre,
            ).dom().contains(k) ==> assoc_map(post)[k] == assoc_map(pre)[k])) by {
                assert(k != gfull);
            }
        }
    }

    /// Enumerate the keys under the namespace prefix and delete them one
    /// by one.  Unrelated keys survive: isolation on the delete side.
    pub fn clear_namespace(&mut self)
        requires
            old(self).inv(),
        ensures
            final(self).inv(),
            final(self).ns_prefix() == old(self).ns_prefix(),
            final(self).contents() == Map::<Seq<u8>, Seq<u8>>::empty(),
            forall|k: Seq<u8>|
                !has_prefix(k, old(self).ns_prefix()) ==> ((#[trigger] final(self).raw().dom().contains(k)
                    <==> old(self).raw().dom().contains(k)) && (old(self).raw().dom().contains(k)
                    ==> final(self).raw()[k] == old(self).raw()[k])),
    {
        let ghost p = old(self).prefix@;
        let ghost orig = old(self).entries@;
        let mut i: usize = 0;
        while i < self.entries.len()
            invariant
                self.prefix@ == p,
                keys_distinct(self.entries@),
                i <= self.entries@.len(),
                forall|j: int| 0 <= j < i ==> !has_prefix(#[trigger] self.entries@[j].key@, p),
                forall|k: Seq<u8>|
                    !has_prefix(k, p) ==> (#[trigger] assoc_map(self.entries@).dom().contains(k)
                        <==> assoc_map(orig).dom().contains(k)) && (assoc_map(
                        self.entries@,
                    ).dom().contains(k) ==> assoc_map(self.entries@)[k] == assoc_map(orig)[k]),
            decreases self.entries@.len() - i,
        {
            if slice_has_prefix(self.entries[i].key.as_slice(), self.prefix.as_slice()) {
                let ghost now = self.entries@;
                proof {
                    lemma_remove_entry(now, i as int);
                }
                self.entries.remove(i);
                proof {
                    let nxt = self.entries@;
                    assert(assoc_map(nxt) == assoc_map(now).remove(now[i as int].key@)) by {
                        lemma_assoc_map_remove_at(now, i as int);
                    }
                    assert forall|j: int| 0 <= j < i implies !has_prefix(
                        #[trigger] nxt[j].key@,
                        p,
                    ) by {
                        assert(nxt[j] == now[j]);
                    }
                }
            } else {
                i = i + 1;
            }
        }
        proof {
            lemma_prefixed_map_dom(p, self.entries@);
            assert forall|t: Seq<u8>| !(#[trigger] prefixed_map(p, self.entries@).dom().contains(
                t,
            )) by {
                if prefixed_map(p, self.entries@).dom().contains(t) {
                    let j = choose|j: int|
                        0 <= j < self.entries@.len() && #[trigger] self.entries@[j].key@ == p + t;
                    lemma_prefix_skip(p, t);
                    assert(false);
                }
            }
            assert(prefixed_map(p, self.entries@) =~= Map::<Seq<u8>, Seq<u8>>::empty());
        }
    }
}

impl CacheStore for FlatStore {
    closed spec fn contents(&self) -> Map<Seq<u8>, Seq<u8>> {
        prefixed_map(self.prefix@, self.entries@)
    }

    closed spec fn inv(&self) -> bool {
        keys_distinct(self.entries@)
    }

    proof fn lemma_contents_finite(&self) {
        lemma_prefixed_map_dom(self.prefix@, self.entries@);
    }

    fn read(&mut self, token: &[u8]) -> (r: Option<Vec<u8>>) {
        let ghost p = self.prefix@;
        let ghost s = self.entries@;
        proof {
            lemma_prefixed_map_dom(p, s);
            lemma_prefixed_map_val(p, s);
        }
        let full = concat_bytes(self.prefix.as_slice(), token);
        match find_entry(&self.entries, full.as_slice()) {
            Some(i) => {
                proof {
                    lemma_prefix_skip(p, token@);
                    assert(has_prefix(s[i as int].key@, p));
                    assert(s[i as int].key@.skip(p.len() as int) == token@);
                }
                Some(slice_to_vec(self.entries[i].val.as_slice()))
            },
            None => {
                proof {
                    if prefixed_map(p, s).dom().contains(token@) {
                        let j = choose|j: int|
                            0 <= j < s.len() && #[trigger] s[j].key@ == p + token@;
                        assert(s[j].key@ == full@);
                        assert(false);
                    }
                }
                None
            },
        }
    }

    fn has_key(&mut self, token: &[u8]) -> (r: bool) {
        let ghost p = self.prefix@;
        let ghost s = self.entries@;
        proof {
            lemma_prefixed_map_dom(p, s);
        }
        let full = concat_bytes(self.prefix.as_slice(), token);
        match find_entry(&self.entries, full.as_slice()) {
            Some(_) => {
                proof {
                    lemma_prefix_skip(p, token@);
                }
                true
            },
            None => {
                proof {
                    if prefixed_map(p, s).dom().contains(token@) {
                        let j = choose|j: int|
                            0 <= j < s.len() && #[trigger] s[j].key@ == p + token@;
                        assert(s[j].key@ == full@);
                        assert(false);
                    }
                }
                false
            },
        }
    }

    fn write(&mut self, token: &[u8], value: &[u8]) {
        self.write_namespace(token, value);
    }

    fn count(&mut self) -> (r: usize) {
        let ghost p = self.prefix@;
        let ghost s = self.entries@;
        let n = self.entries.len();
        let mut cnt: usize = 0;
        let mut i: usize = 0;
        while i < n
            invariant
                self.prefix@ == p,
                self.entries@ == s,
                keys_distinct(s),
                n == s.len(),
                i <= n,
                cnt <= i,
                cnt == prefixed_map(p, s.take(i as int)).dom().len(),
                prefixed_map(p, s.take(i as int)).dom().finite(),
            decreases n - i,
        {
            let prefixed = slice_has_prefix(self.entries[i].key.as_slice(), self.prefix.as_slice());
            proof {
                let part = s.take(i as int);
                let part1 = s.take(i + 1 as int);
                assert(part1.drop_last() =~= part);
                assert(part1.last() == s[i as int]);
                lemma_prefixed_map_dom(p, part);
                if has_prefix(s[i as int].key@, p) {
                    let t = s[i as int].key@.skip(p.len() as int);
                    assert(!prefixed_map(p, part).dom().contains(t)) by {
                        if prefixed_map(p, part).dom().contains(t) {
                            let j = choose|j: int|
                                0 <= j < part.len() && #[trigger] part[j].key@ == p + t;
                            lemma_prefix_reconstruct(s[i as int].key@, p);
                            assert(s[j].key@ == s[i as int].key@);
                            assert(false);
                        }
                    }
                    axiom_set_insert_len(prefixed_map(p, part).dom(), t);
                    assert(prefixed_map(p, part1) == prefixed_map(p, part).insert(
                        t,
                        s[i as int].val@,
                    ));
                    assert(prefixed_map(p, part1).dom() =~= prefixed_map(p, part).dom().insert(t));
                } else {
                    assert(prefixed_map(p, part1) == prefixed_map(p, part));
                }
            }
            if prefixed {
                cnt = cnt + 1;
            }
            i = i + 1;
        }
        proof {
            assert(s.take(n as int) =~= s);
        }
        cnt
    }

    fn clear_all(&mut self) {
        self.clear_namespace();
    }
}

/// Copy a borrowed byte string into an owned one.
fn slice_to_vec(s: &[u8]) -> (r: Vec<u8>)
    ensures
        r@ == s@,
{
    let mut out: Vec<u8> = Vec::new();
    let mut i: usize = 0;
    while i < s.len()
        invariant
            i <= s@.len(),
            out@ == s@.take(i as int),
        decreases s@.len() - i,
    {
        out.push(s[i]);
        proof {
            assert(out@ =~= s@.take(i + 1 as int));
        }
        i = i + 1;
    }
    proof {
        assert(s@.take(s@.len() as int) =~= s@);
    }
    out
}

} // verus!
