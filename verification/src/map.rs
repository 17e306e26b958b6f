//! The bucket-management engine: a hash map whose collision chains are the
//! ordered trees of the `splay` crate.
//!
//! Keys and values are 64-bit integers: the ordered-chain collaborator is
//! held behind trusted contracts, and those contracts must be stated at a
//! concrete item type whose ordering std itself documents.

use vstd::prelude::*;

use crate::hash::DefaultHashBuilder;
use crate::hash::HashProvider;

verus! {

/// The ordered-tree collaborator that holds one bucket's collision chain.
#[verifier::external_type_specification]
#[verifier::external_body]
#[verifier::reject_recursive_types(K)]
#[verifier::reject_recursive_types(V)]
pub struct ExSplayMap<K: Ord, V>(splay::SplayMap<K, V>);

/// The one-shot consuming in-order traversal of a chain.
#[verifier::external_type_specification]
#[verifier::external_body]
#[verifier::reject_recursive_types(K)]
#[verifier::reject_recursive_types(V)]
pub struct ExSplayIntoIter<K, V>(splay::map::IntoIter<K, V>);

/// The entries an ordered chain currently stores.
pub uninterp spec fn chain_entries(t: splay::SplayMap<u64, u64>) -> Map<u64, u64>;

/// The empty collection of entries.
pub open spec fn no_entries() -> Map<u64, u64> {
    Map::empty()
}

/// The entries a chain traversal has not yet yielded.
pub uninterp spec fn iter_entries(it: splay::map::IntoIter<u64, u64>) -> Map<u64, u64>;

/// Relies on `splay::SplayMap::into_iter`: consumes the tree; the traversal
/// will yield exactly the entries the tree stored, each one once.
#[verifier::external_body]
fn chain_into_iter(t: splay::SplayMap<u64, u64>) -> (it: splay::map::IntoIter<u64, u64>)
    ensures
        iter_entries(it) == chain_entries(t),
{
    t.into_iter()
}

/// Relies on `splay::map::IntoIter::next`: yields a remaining entry, or
/// nothing once every entry has been yielded.
#[verifier::external_body]
fn chain_iter_next(it: &mut splay::map::IntoIter<u64, u64>) -> (r: Option<(u64, u64)>)
    ensures
        r matches Some(p) ==> iter_entries(*old(it)).contains_pair(p.0, p.1)
            && iter_entries(*final(it)) == iter_entries(*old(it)).remove(p.0),
        r is None ==> iter_entries(*final(it)) == no_entries()
            && iter_entries(*old(it)) == iter_entries(*final(it)),
{
    it.next()
}

/// Relies on `splay::SplayMap::new`: the tree starts empty.
#[verifier::external_body]
fn chain_new() -> (t: splay::SplayMap<u64, u64>)
    ensures
        chain_entries(t) == no_entries(),
{
    splay::SplayMap::new()
}

/// Relies on `splay::SplayMap::insert`: stores `k -> v` and returns the value
/// previously stored under `k`, if any.
#[verifier::external_body]
fn chain_insert(t: &mut splay::SplayMap<u64, u64>, k: u64, v: u64) -> (prev: Option<u64>)
    ensures
        chain_entries(*final(t)) == chain_entries(*old(t)).insert(k, v),
        prev == if chain_entries(*old(t)).dom().contains(k) {
            Some(chain_entries(*old(t))[k])
        } else {
            None::<u64>
        },
{
    t.insert(k, v)
}

/// Relies on `splay::SplayMap::remove`: takes the entry stored under `k` out
/// of the tree and returns its value, if there was one.
#[verifier::external_body]
fn chain_remove(t: &mut splay::SplayMap<u64, u64>, k: &u64) -> (removed: Option<u64>)
    ensures
        chain_entries(*final(t)) == chain_entries(*old(t)).remove(*k),
        removed == if chain_entries(*old(t)).dom().contains(*k) {
            Some(chain_entries(*old(t))[*k])
        } else {
            None::<u64>
        },
{
    t.remove(k)
}

/// Relies on `splay::SplayMap::get`: returns the value stored under `k`, if
/// any. The tree rebalances itself internally on lookup, but the entries it
/// stores do not change.
#[verifier::external_body]
fn chain_get<'a>(t: &'a splay::SplayMap<u64, u64>, k: &u64) -> (r: Option<&'a u64>)
    ensures
        match r {
            Some(v) => chain_entries(*t).dom().contains(*k) && *v == chain_entries(*t)[*k],
            None => !chain_entries(*t).dom().contains(*k),
        },
{
    t.get(k)
}

/// The number of buckets a fresh map starts with.
pub const INITIAL_SIZE: usize = 1;

/// One bucket slot's entries: a slot without a chain holds nothing.
pub open spec fn slot_entries(slot: Option<splay::SplayMap<u64, u64>>) -> Map<u64, u64> {
    match slot {
        Some(c) => chain_entries(c),
        None => no_entries(),
    }
}

/// The entries of the first `n` bucket slots taken together. Later slots
/// shadow earlier ones, but the slots of a well-formed map are disjoint, so
/// the order never matters there.
pub open spec fn entries_below(
    bs: Seq<Option<splay::SplayMap<u64, u64>>>,
    n: int,
) -> Map<u64, u64>
    decreases n,
{
    if n <= 0 {
        no_entries()
    } else {
        entries_below(bs, n - 1).union_prefer_right(slot_entries(bs[n - 1]))
    }
}

/// A hash map whose collision chains are self-balancing ordered trees, so a
/// lookup inside one bucket stays logarithmic even when every key collides.
///
/// The bucket array always holds at least one slot, every stored key sits in
/// the bucket its digest selects under the current bucket count, and
/// `num_entries` counts the distinct live keys. Crossing a load factor of
/// 3/4 on insert doubles the bucket count; falling under 1/4 on remove
/// halves it, never below one bucket.
pub struct SplashMap<S: HashProvider = DefaultHashBuilder> {
    /// The bucket array; a slot is filled lazily by the first insert routed
    /// to it, and an emptied chain persists until the next rehash.
    pub buckets: Vec<Option<splay::SplayMap<u64, u64>>>,
    /// The number of distinct live keys across all buckets.
    pub num_entries: usize,
    /// The injected hash-function provider.
    pub hash_builder: S,
}

impl<S: HashProvider> View for SplashMap<S> {
    type V = Map<u64, u64>;

    open spec fn view(&self) -> Map<u64, u64> {
        entries_below(self.buckets@, self.buckets@.len() as int)
    }
}

impl<S: HashProvider> SplashMap<S> {
    /// The current bucket count.
    pub open spec fn num_buckets(self) -> int {
        self.buckets@.len() as int
    }

    /// The bucket index the provider's digest selects for `k` under the
    /// current bucket count.
    pub open spec fn route(self, k: u64) -> int {
        self.hash_builder.hash_spec(k) as int % self.num_buckets()
    }

    /// The structural invariant of the bucket array: at least one bucket,
    /// every chain finite, and every stored key in the bucket its digest
    /// selects under the current bucket count.
    pub open spec fn buckets_wf(self) -> bool {
        &&& self.num_buckets() >= 1
        &&& forall|i: int|
            0 <= i < self.num_buckets() ==> (#[trigger] slot_entries(
                self.buckets@[i],
            )).dom().finite()
        &&& forall|i: int, k: u64|
            0 <= i < self.num_buckets() && (#[trigger] slot_entries(
                self.buckets@[i],
            ).dom().contains(k)) ==> self.route(k) == i
    }

    /// Full well-formedness: the bucket array is structurally sound and the
    /// entry count equals the number of distinct stored keys.
    pub open spec fn wf(self) -> bool {
        &&& self.buckets_wf()
        &&& self.num_entries == self@.dom().len()
    }

    /// How many entries fit before the next growth: three quarters of the
    /// bucket count, and at least one. An estimate, not a hard limit.
    pub open spec fn cap_spec(self) -> int {
        if 3 * self.num_buckets() / 4 < 1 {
            1
        } else {
            3 * self.num_buckets() / 4
        }
    }
}

/// All-empty slots hold no entries.
proof fn lemma_entries_below_all_none(bs: Seq<Option<splay::SplayMap<u64, u64>>>, n: int)
    requires
        0 <= n <= bs.len(),
        forall|i: int| 0 <= i < n ==> bs[i] is None,
    ensures
        entries_below(bs, n) == no_entries(),
    decreases n,
{
    if n > 0 {
        lemma_entries_below_all_none(bs, n - 1);
        assert(entries_below(bs, n) =~= no_entries());
    }
}

/// The slots up to `n` hold finitely many entries when each slot does.
proof fn lemma_entries_below_finite(bs: Seq<Option<splay::SplayMap<u64, u64>>>, n: int)
    requires
        0 <= n <= bs.len(),
        forall|i: int| 0 <= i < bs.len() ==> (#[trigger] slot_entries(bs[i])).dom().finite(),
    ensures
        entries_below(bs, n).dom().finite(),
    decreases n,
{
    if n > 0 {
        lemma_entries_below_finite(bs, n - 1);
        assert(entries_below(bs, n).dom() =~= entries_below(bs, n - 1).dom().union(
            slot_entries(bs[n - 1]).dom(),
        ));
    }
}

/// When every slot but `j` is free of `k`, membership and value of `k` in
/// the combined entries reduce to slot `j`.
proof fn lemma_entries_below_routed(
    bs: Seq<Option<splay::SplayMap<u64, u64>>>,
    n: int,
    j: int,
    k: u64,
)
    requires
        0 <= n <= bs.len(),
        0 <= j < bs.len(),
        forall|i: int|
            0 <= i < bs.len() && i != j ==> !(#[trigger] slot_entries(bs[i])).dom().contains(k),
    ensures
        entries_below(bs, n).dom().contains(k) <==> (j < n && slot_entries(
            bs[j],
        ).dom().contains(k)),
        entries_below(bs, n).dom().contains(k) ==> entries_below(bs, n)[k] == slot_entries(
            bs[j],
        )[k],
    decreases n,
{
    if n > 0 {
        lemma_entries_below_routed(bs, n - 1, j, k);
    }
}

/// Writing `k -> v` into slot `j` inserts `k -> v` into the combined
/// entries, provided no other slot holds `k`.
proof fn lemma_entries_below_insert(
    bs: Seq<Option<splay::SplayMap<u64, u64>>>,
    bs2: Seq<Option<splay::SplayMap<u64, u64>>>,
    n: int,
    j: int,
    k: u64,
    v: u64,
)
    requires
        bs2.len() == bs.len(),
        0 <= j < bs.len(),
        0 <= n <= bs.len(),
        forall|i: int| 0 <= i < bs.len() && i != j ==> bs2[i] == bs[i],
        slot_entries(bs2[j]) == slot_entries(bs[j]).insert(k, v),
        forall|i: int|
            0 <= i < bs.len() && i != j ==> !(#[trigger] slot_entries(bs[i])).dom().contains(k),
    ensures
        n <= j ==> entries_below(bs2, n) == entries_below(bs, n),
        n > j ==> entries_below(bs2, n) == entries_below(bs, n).insert(k, v),
    decreases n,
{
    if n > 0 {
        lemma_entries_below_insert(bs, bs2, n - 1, j, k, v);
        if n - 1 < j {
            assert(entries_below(bs2, n) =~= entries_below(bs, n));
        } else if n - 1 == j {
            assert(entries_below(bs2, n) =~= entries_below(bs, n).insert(k, v));
        } else {
            assert(entries_below(bs2, n) =~= entries_below(bs, n).insert(k, v));
        }
    }
}

/// Taking `k` out of slot `j` removes `k` from the combined entries,
/// provided no other slot holds `k`.
proof fn lemma_entries_below_remove(
    bs: Seq<Option<splay::SplayMap<u64, u64>>>,
    bs2: Seq<Option<splay::SplayMap<u64, u64>>>,
    n: int,
    j: int,
    k: u64,
)
    requires
        bs2.len() == bs.len(),
        0 <= j < bs.len(),
        0 <= n <= bs.len(),
        forall|i: int| 0 <= i < bs.len() && i != j ==> bs2[i] == bs[i],
        slot_entries(bs2[j]) == slot_entries(bs[j]).remove(k),
        forall|i: int|
            0 <= i < bs.len() && i != j ==> !(#[trigger] slot_entries(bs[i])).dom().contains(k),
    ensures
        n <= j ==> entries_below(bs2, n) == entries_below(bs, n),
        n > j ==> entries_below(bs2, n) == entries_below(bs, n).remove(k),
    decreases n,
{
    if n > 0 {
        lemma_entries_below_remove(bs, bs2, n - 1, j, k);
        if n - 1 < j {
            assert(entries_below(bs2, n) =~= entries_below(bs, n));
        } else if n - 1 == j {
            lemma_entries_below_routed(bs, j, j, k);
            assert(entries_below(bs2, n) =~= entries_below(bs, n).remove(k));
        } else {
            assert(bs2[n - 1] == bs[n - 1]);
            assert(!slot_entries(bs[n - 1]).dom().contains(k));
            assert(entries_below(bs2, n) =~= entries_below(bs, n).remove(k));
        }
    }
}

/// Builds a bucket array of `n` empty slots.
fn empty_buckets(n: usize) -> (bs: Vec<Option<splay::SplayMap<u64, u64>>>)
    ensures
        bs@.len() == n,
        forall|i: int| 0 <= i < n ==> bs@[i] is None,
{
    let mut bs: Vec<Option<splay::SplayMap<u64, u64>>> = Vec::new();
    let mut i: usize = 0;
    while i < n
        invariant
            i <= n,
            bs@.len() == i,
            forall|j: int| 0 <= j < i ==> bs@[j] is None,
        decreases n - i,
    {
        bs.push(None);
        i = i + 1;
    }
    bs
}

impl<S: HashProvider> SplashMap<S> {
    /// A map with `capacity` initial buckets (at least one) and the given
    /// hash-function provider.
    pub fn with_capacity_and_hasher(capacity: usize, hash_builder: S) -> (m: SplashMap<S>)
        ensures
            m.wf(),
            m@ == no_entries(),
            m.hash_builder == hash_builder,
            m.num_buckets() == if capacity >= 1 { capacity as int } else { 1int },
    {
        let n = if capacity == 0 { 1 } else { capacity };
        let buckets = empty_buckets(n);
        let m = SplashMap { buckets, num_entries: 0usize, hash_builder };
        proof {
            lemma_entries_below_all_none(m.buckets@, n as int);
            assert(m@.dom() =~= Set::<u64>::empty());
        }
        m
    }

    /// The bucket index for `k`, freshly computed from the provider's digest
    /// and the current bucket count.
    fn bucket_index(&self, k: &u64) -> (idx: usize)
        requires
            self.num_buckets() >= 1,
        ensures
            idx as int == self.route(*k),
            idx < self.buckets@.len(),
    {
        let digest = crate::hash::make_hash(&self.hash_builder, k);
        (digest % (self.buckets.len() as u64)) as usize
    }

    /// Looks the key up in the bucket its digest selects. Read-only: never
    /// triggers a resize.
    pub fn get(&self, k: &u64) -> (r: Option<&u64>)
        requires
            self.wf(),
        ensures
            r matches Some(v) ==> self@.dom().contains(*k) && *v == self@[*k],
            r is None ==> !self@.dom().contains(*k),
    {
        let idx = self.bucket_index(k);
        proof {
            lemma_entries_below_routed(
                self.buckets@,
                self.buckets@.len() as int,
                idx as int,
                *k,
            );
        }
        match &self.buckets[idx] {
            None => None,
            Some(chain) => chain_get(chain, k),
        }
    }

    /// The number of distinct live keys.
    pub fn len(&self) -> (n: usize)
        requires
            self.wf(),
        ensures
            n == self@.dom().len(),
    {
        self.num_entries
    }

    /// Whether the map holds no entries.
    pub fn is_empty(&self) -> (e: bool)
        requires
            self.wf(),
        ensures
            e == (self@.dom().len() == 0),
    {
        self.len() == 0
    }

    /// How many entries fit before the next growth: three quarters of the
    /// bucket count, at least one. An estimate, not a hard limit — inserting
    /// past it is always legal and triggers growth seamlessly.
    pub fn capacity(&self) -> (cap: usize)
        ensures
            cap == self.cap_spec(),
    {
        let n = self.buckets.len();
        let q128 = (3u128 * (n as u128)) / 4;
        proof {
            vstd::arithmetic::div_mod::lemma_div_is_ordered(3 * (n as int), 4 * (n as int), 4);
            vstd::arithmetic::div_mod::lemma_div_by_multiple(n as int, 4);
        }
        let q = q128 as usize;
        if q == 0 {
            1
        } else {
            q
        }
    }

    /// Routes `k` to its bucket and stores `k -> v` there, creating the
    /// chain on first use. Reports whether the key was fresh, but leaves the
    /// entry count and the bucket count alone: the resize pass uses this
    /// routine for pure redistribution, where neither may move.
    fn insert_priv(&mut self, k: u64, v: u64) -> (fresh: usize)
        requires
            old(self).buckets_wf(),
        ensures
            final(self).buckets_wf(),
            final(self)@ == old(self)@.insert(k, v),
            fresh == (if old(self)@.dom().contains(k) {
                0usize
            } else {
                1usize
            }),
            final(self).num_entries == old(self).num_entries,
            final(self).hash_builder == old(self).hash_builder,
            final(self).num_buckets() == old(self).num_buckets(),
    {
        let idx = self.bucket_index(&k);
        let ghost bs0 = self.buckets@;
        let ghost j = idx as int;
        proof {
            assert forall|i: int|
                0 <= i < bs0.len() && i != j implies !(#[trigger] slot_entries(
                bs0[i],
            )).dom().contains(k) by {
                if slot_entries(bs0[i]).dom().contains(k) {
                    assert(old(self).route(k) == i);
                }
            }
            lemma_entries_below_routed(bs0, bs0.len() as int, j, k);
        }
        let taken = self.buckets[idx].take();
        let mut c = match taken {
            Some(c0) => c0,
            None => chain_new(),
        };
        let prev = chain_insert(&mut c, k, v);
        self.buckets[idx] = Some(c);
        proof {
            let bs2 = self.buckets@;
            assert(bs2 =~= bs0.update(j, bs2[j]));
            assert(slot_entries(bs2[j]) == slot_entries(bs0[j]).insert(k, v));
            lemma_entries_below_insert(bs0, bs2, bs0.len() as int, j, k, v);
            assert forall|i: int, k2: u64|
                0 <= i < self.num_buckets() && (#[trigger] slot_entries(
                    self.buckets@[i],
                ).dom().contains(k2)) implies self.route(k2) == i by {
                if i != j {
                    assert(slot_entries(bs0[i]).dom().contains(k2));
                } else {
                    if k2 != k {
                        assert(slot_entries(bs0[j]).dom().contains(k2));
                    }
                }
            }
        }
        if prev.is_none() {
            1
        } else {
            0
        }
    }

    /// Routes to a bucket and stores `k -> v`, counting the key only when it
    /// was not already present — updating an existing key never inflates the
    /// count. If the load factor then reaches 3/4, the bucket count doubles
    /// (when a doubled array is still addressable) and every entry is
    /// redistributed.
    pub fn insert(&mut self, k: u64, v: u64)
        requires
            old(self).wf(),
            old(self)@.dom().len() < usize::MAX,
        ensures
            final(self).wf(),
            final(self)@ == old(self)@.insert(k, v),
            final(self).hash_builder == old(self).hash_builder,
            final(self).num_buckets() == (if 4 * old(self)@.insert(k, v).dom().len() >= 3
                * old(self).num_buckets() && old(self).num_buckets() <= usize::MAX as int / 2 {
                2 * old(self).num_buckets()
            } else {
                old(self).num_buckets()
            }),
            final(self).cap_spec() >= old(self).cap_spec(),
    {
        proof {
            lemma_entries_below_finite(self.buckets@, self.buckets@.len() as int);
        }
        let fresh = self.insert_priv(k, v);
        self.num_entries = self.num_entries + fresh;
        if 4 * (self.num_entries as u128) >= 3 * (self.buckets.len() as u128) {
            let n = self.buckets.len();
            if n <= usize::MAX / 2 {
                self.resize_and_rehash(2 * n);
            }
        }
        proof {
            lemma_cap_spec_monotone(*old(self), *self);
        }
    }
}

/// Half the bucket count, clamped to at least one bucket.
pub open spec fn half_clamped(n: int) -> int {
    if n / 2 < 1 {
        1
    } else {
        n / 2
    }
}

/// The entries of a sequence of detached chains taken together.
pub open spec fn chains_entries(ds: Seq<splay::SplayMap<u64, u64>>) -> Map<u64, u64>
    decreases ds.len(),
{
    if ds.len() == 0 {
        no_entries()
    } else {
        chains_entries(ds.drop_last()).union_prefer_right(chain_entries(ds.last()))
    }
}

/// Every detached chain holds finitely many entries.
pub open spec fn chains_finite(ds: Seq<splay::SplayMap<u64, u64>>) -> bool {
    forall|i: int| 0 <= i < ds.len() ==> (#[trigger] chain_entries(ds[i])).dom().finite()
}

/// No key lives in two detached chains.
pub open spec fn chains_disjoint(ds: Seq<splay::SplayMap<u64, u64>>) -> bool {
    forall|a: int, b: int|
        0 <= a < ds.len() && 0 <= b < ds.len() && a != b ==> (#[trigger] chain_entries(
            ds[a],
        )).dom().disjoint((#[trigger] chain_entries(ds[b])).dom())
}

/// A key lies in the combined entries of detached chains exactly when some
/// chain holds it, and it keeps that chain's value.
proof fn lemma_chains_entries_contains(ds: Seq<splay::SplayMap<u64, u64>>, k: u64)
    ensures
        chains_entries(ds).dom().contains(k) <==> exists|i: int|
            0 <= i < ds.len() && (#[trigger] chain_entries(ds[i])).dom().contains(k),
    decreases ds.len(),
{
    if ds.len() > 0 {
        lemma_chains_entries_contains(ds.drop_last(), k);
        if chains_entries(ds).dom().contains(k) {
            if chains_entries(ds.drop_last()).dom().contains(k) {
                let i = choose|i: int|
                    0 <= i < ds.drop_last().len() && (#[trigger] chain_entries(
                        ds.drop_last()[i],
                    )).dom().contains(k);
                assert(chain_entries(ds[i]).dom().contains(k));
            } else {
                assert(chain_entries(ds[ds.len() - 1]).dom().contains(k));
            }
        }
        if exists|i: int| 0 <= i < ds.len() && (#[trigger] chain_entries(ds[i])).dom().contains(k) {
            let i = choose|i: int|
                0 <= i < ds.len() && (#[trigger] chain_entries(ds[i])).dom().contains(k);
            if i < ds.len() - 1 {
                assert(chain_entries(ds.drop_last()[i]).dom().contains(k));
            }
            assert(chains_entries(ds).dom().contains(k));
        }
    }
}

/// A key lies in the combined entries of the first `n` slots exactly when
/// one of those slots holds it.
proof fn lemma_entries_below_contains(
    bs: Seq<Option<splay::SplayMap<u64, u64>>>,
    n: int,
    k: u64,
)
    requires
        0 <= n <= bs.len(),
    ensures
        entries_below(bs, n).dom().contains(k) <==> exists|i: int|
            0 <= i < n && (#[trigger] slot_entries(bs[i])).dom().contains(k),
    decreases n,
{
    if n > 0 {
        lemma_entries_below_contains(bs, n - 1, k);
    }
}

impl<S: HashProvider> SplashMap<S> {
    /// Resizes the bucket array to `new_size` slots (at least one) and
    /// redistributes every entry under freshly computed indices: a change of
    /// the bucket count invalidates every stored key's routing, so all
    /// chains are detached and their entries reinserted one by one. Pure
    /// redistribution: the entries and the entry count come out unchanged,
    /// and no load-factor trigger runs while it is in progress.
    pub fn resize_and_rehash(&mut self, new_size: usize)
        requires
            old(self).buckets_wf(),
        ensures
            final(self).buckets_wf(),
            final(self)@ == old(self)@,
            final(self).num_entries == old(self).num_entries,
            final(self).hash_builder == old(self).hash_builder,
            final(self).num_buckets() == (if new_size >= 1 {
                new_size as int
            } else {
                1int
            }),
    {
        let target = if new_size == 0 {
            1
        } else {
            new_size
        };
        let ghost old_view = self@;
        let ghost orig = self.buckets@;

        // Step 1: put a fresh all-empty array of the new size in place.
        let mut detached = empty_buckets(target);
        core::mem::swap(&mut self.buckets, &mut detached);
        proof {
            lemma_entries_below_all_none(self.buckets@, target as int);
            assert(self@.dom() =~= Set::<u64>::empty());
        }

        // Step 2: detach every chain that was populated under the old
        // sizing, collecting the chains into a temporary list.
        let mut displaced: Vec<splay::SplayMap<u64, u64>> = Vec::new();
        proof {
            assert(orig.subrange(0, orig.len() as int) =~= orig);
            assert(entries_below(orig, orig.len() as int).union_prefer_right(
                chains_entries(displaced@),
            ) =~= old_view);
        }
        while detached.len() > 0
            invariant
                detached@.len() <= orig.len(),
                detached@ == orig.subrange(0, detached@.len() as int),
                entries_below(orig, detached@.len() as int).union_prefer_right(
                    chains_entries(displaced@),
                ) == old_view,
                entries_below(orig, detached@.len() as int).dom().disjoint(
                    chains_entries(displaced@).dom(),
                ),
                chains_finite(displaced@),
                chains_disjoint(displaced@),
                forall|i: int|
                    0 <= i < orig.len() ==> (#[trigger] slot_entries(orig[i])).dom().finite(),
                forall|i: int, k: u64|
                    0 <= i < orig.len() && (#[trigger] slot_entries(orig[i]).dom().contains(k))
                        ==> old(self).route(k) == i,
            decreases detached@.len(),
        {
            let ghost m = detached@.len() - 1;
            let ghost ds0 = displaced@;
            proof {
                assert(orig.subrange(0, m + 1).subrange(0, m) =~= orig.subrange(0, m));
                assert(detached@[m] == orig[m]);
                // The popped slot's keys route to `m`; everything already in
                // lower slots or in the displaced list routes elsewhere.
                assert forall|k: u64|
                    entries_below(orig, m).dom().contains(k) implies !slot_entries(
                    orig[m],
                ).dom().contains(k) by {
                    lemma_entries_below_contains(orig, m, k);
                }
            }
            let slot = detached.pop().unwrap();
            match slot {
                None => {
                    proof {
                        assert(entries_below(orig, m + 1) =~= entries_below(
                            orig,
                            m,
                        ).union_prefer_right(slot_entries(orig[m])));
                        assert(entries_below(orig, m).union_prefer_right(
                            chains_entries(displaced@),
                        ) =~= old_view);
                    }
                }
                Some(c) => {
                    proof {
                        assert(chain_entries(c) == slot_entries(orig[m]));
                    }
                    displaced.push(c);
                    proof {
                        assert(displaced@.drop_last() =~= ds0);
                        assert(chains_entries(displaced@) == chains_entries(
                            ds0,
                        ).union_prefer_right(chain_entries(c)));
                        assert forall|k: u64|
                            chains_entries(ds0).dom().contains(k) implies !chain_entries(
                            c,
                        ).dom().contains(k) by {
                            assert(entries_below(orig, m + 1).dom().contains(k) == false);
                            lemma_entries_below_contains(orig, m + 1, k);
                        }
                        assert(entries_below(orig, m).union_prefer_right(
                            chains_entries(displaced@),
                        ) =~= old_view);
                        assert forall|a: int, b: int|
                            0 <= a < displaced@.len() && 0 <= b < displaced@.len() && a
                                != b implies (#[trigger] chain_entries(
                            displaced@[a],
                        )).dom().disjoint((#[trigger] chain_entries(displaced@[b])).dom()) by {
                            if a == displaced@.len() - 1 || b == displaced@.len() - 1 {
                                lemma_chains_entries_contains(ds0, choose|k: u64|
                                    chain_entries(displaced@[a]).dom().contains(k)
                                        && chain_entries(displaced@[b]).dom().contains(k));
                            }
                        }
                    }
                }
            }
        }

        // Step 3: reinsert every displaced entry under an index computed
        // against the new bucket count. The entry count never moves.
        proof {
            assert(chains_entries(displaced@) =~= old_view);
        }
        while displaced.len() > 0
            invariant
                self.buckets_wf(),
                self.num_buckets() == target as int,
                self.num_entries == old(self).num_entries,
                self.hash_builder == old(self).hash_builder,
                self@.union_prefer_right(chains_entries(displaced@)) == old_view,
                self@.dom().disjoint(chains_entries(displaced@).dom()),
                chains_finite(displaced@),
                chains_disjoint(displaced@),
            decreases displaced@.len(),
        {
            let ghost ds0 = displaced@;
            let c = displaced.pop().unwrap();
            proof {
                assert(ds0.drop_last() =~= displaced@);
                assert(chains_entries(ds0) == chains_entries(
                    displaced@,
                ).union_prefer_right(chain_entries(c)));
                assert forall|k: u64|
                    chains_entries(displaced@).dom().contains(k) implies !chain_entries(
                    c,
                ).dom().contains(k) by {
                    lemma_chains_entries_contains(displaced@, k);
                    let i = choose|i: int|
                        0 <= i < displaced@.len() && (#[trigger] chain_entries(
                            displaced@[i],
                        )).dom().contains(k);
                    assert(chain_entries(ds0[i]).dom().disjoint(
                        chain_entries(ds0[ds0.len() - 1]).dom(),
                    ));
                }
            }
            let mut it = chain_into_iter(c);
            loop
                invariant
                    self.buckets_wf(),
                    self.num_buckets() == target as int,
                    self.num_entries == old(self).num_entries,
                    self.hash_builder == old(self).hash_builder,
                    self@.union_prefer_right(
                        chains_entries(displaced@).union_prefer_right(iter_entries(it)),
                    ) == old_view,
                    self@.dom().disjoint(chains_entries(displaced@).dom()),
                    self@.dom().disjoint(iter_entries(it).dom()),
                    iter_entries(it).dom().disjoint(chains_entries(displaced@).dom()),
                    iter_entries(it).dom().finite(),
                    chains_finite(displaced@),
                    chains_disjoint(displaced@),
                ensures
                    self.buckets_wf(),
                    self.num_buckets() == target as int,
                    self.num_entries == old(self).num_entries,
                    self.hash_builder == old(self).hash_builder,
                    self@.union_prefer_right(chains_entries(displaced@)) == old_view,
                    self@.dom().disjoint(chains_entries(displaced@).dom()),
                    chains_finite(displaced@),
                    chains_disjoint(displaced@),
                decreases iter_entries(it).dom().len(),
            {
                let ghost view0 = self@;
                let ghost it0 = it;
                match chain_iter_next(&mut it) {
                    None => {
                        proof {
                            assert(self@.union_prefer_right(chains_entries(displaced@))
                                =~= self@.union_prefer_right(
                                chains_entries(displaced@).union_prefer_right(
                                    iter_entries(it0),
                                ),
                            ));
                        }
                        break ;
                    }
                    Some(p) => {
                        self.insert_priv(p.0, p.1);
                        proof {
                            assert(self@ == view0.insert(p.0, p.1));
                            assert(iter_entries(it) == iter_entries(it0).remove(p.0));
                            assert(iter_entries(it0)[p.0] == p.1);
                            assert(self@.union_prefer_right(
                                chains_entries(displaced@).union_prefer_right(
                                    iter_entries(it),
                                ),
                            ) =~= view0.union_prefer_right(
                                chains_entries(displaced@).union_prefer_right(
                                    iter_entries(it0),
                                ),
                            ));
                        }
                    }
                }
            }
        }
        proof {
            assert(self@ =~= self@.union_prefer_right(chains_entries(displaced@)));
        }
    }
}

impl<S: HashProvider> SplashMap<S> {
    /// Routes to a bucket and takes the entry under `k` out, handing its
    /// value to the caller; the count drops only when a value was actually
    /// removed. An emptied chain stays in its slot until the next rehash. If
    /// the load factor then falls under 1/4, the bucket count halves, never
    /// below one bucket. (An absent key may or may not run the shrink check,
    /// depending on whether its bucket ever held a chain.)
    pub fn remove(&mut self, k: &u64) -> (removed: Option<u64>)
        requires
            old(self).wf(),
        ensures
            final(self).wf(),
            final(self)@ == old(self)@.remove(*k),
            removed == (if old(self)@.dom().contains(*k) {
                Some(old(self)@[*k])
            } else {
                None::<u64>
            }),
            final(self).hash_builder == old(self).hash_builder,
            final(self).num_buckets() <= old(self).num_buckets(),
            final(self).num_buckets() >= 1,
            old(self)@.dom().contains(*k) ==> final(self).num_buckets() == (if 4 * (old(
                self,
            )@.dom().len() - 1) < old(self).num_buckets() {
                half_clamped(old(self).num_buckets())
            } else {
                old(self).num_buckets()
            }),
            final(self).cap_spec() <= old(self).cap_spec(),
    {
        let idx = self.bucket_index(k);
        let ghost bs0 = self.buckets@;
        let ghost j = idx as int;
        proof {
            assert forall|i: int|
                0 <= i < bs0.len() && i != j implies !(#[trigger] slot_entries(
                bs0[i],
            )).dom().contains(*k) by {
                if slot_entries(bs0[i]).dom().contains(*k) {
                    assert(old(self).route(*k) == i);
                }
            }
            lemma_entries_below_routed(bs0, bs0.len() as int, j, *k);
            lemma_entries_below_finite(bs0, bs0.len() as int);
        }
        if self.buckets[idx].is_none() {
            proof {
                assert(self@.remove(*k) =~= self@);
            }
            return None;
        }
        let taken = self.buckets[idx].take();
        let mut c = match taken {
            Some(c0) => c0,
            None => chain_new(),
        };
        let removed = chain_remove(&mut c, k);
        self.buckets[idx] = Some(c);
        proof {
            let bs2 = self.buckets@;
            assert(bs2 =~= bs0.update(j, bs2[j]));
            assert(slot_entries(bs2[j]) == slot_entries(bs0[j]).remove(*k));
            lemma_entries_below_remove(bs0, bs2, bs0.len() as int, j, *k);
            assert forall|i: int, k2: u64|
                0 <= i < self.num_buckets() && (#[trigger] slot_entries(
                    self.buckets@[i],
                ).dom().contains(k2)) implies self.route(k2) == i by {
                if i != j {
                    assert(slot_entries(bs0[i]).dom().contains(k2));
                } else {
                    assert(slot_entries(bs0[j]).dom().contains(k2));
                }
            }
        }
        if removed.is_some() {
            self.num_entries = self.num_entries - 1;
        }
        if 4 * (self.num_entries as u128) < (self.buckets.len() as u128) {
            let n = self.buckets.len();
            self.resize_and_rehash(n / 2);
            proof {
                vstd::arithmetic::div_mod::lemma_div_is_ordered(
                    n as int,
                    2 * (n as int),
                    2,
                );
                vstd::arithmetic::div_mod::lemma_div_by_multiple(n as int, 2);
            }
        }
        proof {
            lemma_cap_spec_monotone(*self, *old(self));
        }
        removed
    }
}

impl SplashMap<DefaultHashBuilder> {
    /// A map with one initial bucket and a freshly seeded default provider.
    pub fn new() -> (m: SplashMap<DefaultHashBuilder>)
        ensures
            m.wf(),
            m@ == no_entries(),
            m.num_buckets() == 1,
    {
        SplashMap::with_capacity_and_hasher(INITIAL_SIZE, DefaultHashBuilder::new())
    }

    /// A map with `capacity` initial buckets (at least one) and a freshly
    /// seeded default provider.
    pub fn with_capacity(capacity: usize) -> (m: SplashMap<DefaultHashBuilder>)
        ensures
            m.wf(),
            m@ == no_entries(),
            m.num_buckets() == (if capacity >= 1 {
                capacity as int
            } else {
                1int
            }),
    {
        SplashMap::with_capacity_and_hasher(capacity, DefaultHashBuilder::new())
    }
}

impl Default for SplashMap<DefaultHashBuilder> {
    /// Same as `new`: one bucket, a freshly seeded default provider.
    fn default() -> (m: Self)
        ensures
            m.wf(),
            m@ == no_entries(),
    {
        SplashMap::new()
    }
}

/// Law: after any operation on a well-formed map, the entry count equals the
/// number of distinct keys held — the keys `get` retrieves, since `get`
/// answers `Some` exactly on the view's domain.
pub proof fn lemma_len_counts_distinct_keys<S: HashProvider>(m: SplashMap<S>)
    requires
        m.wf(),
    ensures
        m.num_entries == m@.dom().len(),
{
}

/// Law: a well-formed map always has at least one bucket, so routing never
/// takes a remainder by zero, and the capacity estimate never falls under
/// one.
pub proof fn lemma_at_least_one_bucket<S: HashProvider>(m: SplashMap<S>)
    requires
        m.wf(),
    ensures
        m.num_buckets() >= 1,
        m.cap_spec() >= 1,
{
}

/// Law: storing a key that is already present replaces its value without
/// inflating the count — stated over the views that `insert`'s contract
/// assigns, a second store of `k` keeps the domain of the first and leaves
/// the latest value.
pub proof fn lemma_update_in_place(m: Map<u64, u64>, k: u64, v1: u64, v2: u64)
    requires
        m.dom().finite(),
    ensures
        m.insert(k, v1).insert(k, v2) == m.insert(k, v2),
        m.insert(k, v1).insert(k, v2).dom().len() == m.insert(k, v1).dom().len(),
        m.insert(k, v1).insert(k, v2)[k] == v2,
{
    assert(m.insert(k, v1).insert(k, v2) =~= m.insert(k, v2));
    assert(m.insert(k, v1).insert(k, v2).dom() =~= m.insert(k, v1).dom());
}

/// A wider bucket array never has the smaller capacity estimate.
proof fn lemma_cap_spec_monotone<S: HashProvider>(m1: SplashMap<S>, m2: SplashMap<S>)
    requires
        m1.num_buckets() <= m2.num_buckets(),
    ensures
        m1.cap_spec() <= m2.cap_spec(),
{
    vstd::arithmetic::div_mod::lemma_div_is_ordered(
        3 * m1.num_buckets(),
        3 * m2.num_buckets(),
        4,
    );
}

} // verus!

