//! A hash map whose key space is split across a fixed number of independent
//! partitions ("shards"). Every operation routes its key to one shard by
//! hashing, then works inside that shard alone, so operations on keys that
//! land in different shards never touch common state. One routing function
//! serves two storage strategies — a mutable one whose lookups copy values
//! out, and a read-only one whose lookups borrow them — and a container of
//! the mutable strategy can be converted, shard by shard and without
//! rehashing a single entry, into one of the read-only strategy.

pub mod routing;
pub mod shards;

use core::marker::PhantomData;
use vstd::prelude::*;

use crate::routing::{is_pow2, key_hash, lemma_shard_of_in_range, spec_shard_of};
use crate::shards::{ImmutableInnerMap, InnerMap, MutShard, MutableInnerMap, PlainShard};

verus! {

/// The number of entries held by the first `i` shards of `s`, added up shard
/// by shard.
spec fn lens_upto<V, T: InnerMap<V>>(s: Seq<T>, i: int) -> nat
    decreases i,
{
    if i <= 0 {
        0
    } else {
        lens_upto(s, i - 1) + s[i - 1].contents().len()
    }
}

/// The keys held by the first `i` shards of `s`.
spec fn doms_upto<V, T: InnerMap<V>>(s: Seq<T>, i: int) -> Set<u64>
    decreases i,
{
    if i <= 0 {
        Set::empty()
    } else {
        doms_upto(s, i - 1).union(s[i - 1].contents().dom())
    }
}

/// A key is among the first `i` shards' keys exactly when some one of those
/// shards holds it.
proof fn lemma_doms_upto_member<V, T: InnerMap<V>>(s: Seq<T>, i: int, k: u64)
    requires
        0 <= i <= s.len(),
    ensures
        doms_upto(s, i).contains(k) <==> exists|j: int|
            0 <= j < i && (#[trigger] s[j].contents()).contains_key(k),
    decreases i,
{
    if i > 0 {
        lemma_doms_upto_member(s, i - 1, k);
    }
}

/// Adding shards only grows the running entry count.
proof fn lemma_lens_upto_mono<V, T: InnerMap<V>>(s: Seq<T>, i: int, j: int)
    requires
        0 <= i <= j,
    ensures
        lens_upto(s, i) <= lens_upto(s, j),
    decreases j - i,
{
    if i < j {
        lemma_lens_upto_mono(s, i, j - 1);
    }
}

/// When every key rests in the shard it routes to, the shards hold pairwise
/// disjoint key sets, so the keys of the first `i` shards form a finite set
/// as large as the shard sizes added up.
proof fn lemma_doms_upto_len<V, T: InnerMap<V>>(s: Seq<T>, n: int, i: int)
    requires
        0 <= i <= n,
        n == s.len(),
        forall|j: int, k: u64|
            0 <= j < n && #[trigger] s[j].contents().contains_key(k) ==> spec_shard_of(k, n) == j,
    ensures
        doms_upto(s, i).finite(),
        doms_upto(s, i).len() == lens_upto(s, i),
    decreases i,
{
    if i > 0 {
        lemma_doms_upto_len(s, n, i - 1);
        s[i - 1].lemma_contents_finite();
        let a = doms_upto(s, i - 1);
        let b = s[i - 1].contents().dom();
        assert forall|k: u64| a.contains(k) implies !b.contains(k) by {
            lemma_doms_upto_member(s, i - 1, k);
            let j = choose|j: int| 0 <= j < i - 1 && (#[trigger] s[j].contents()).contains_key(k);
            assert(spec_shard_of(k, n) == j);
        }
        vstd::set_lib::lemma_set_disjoint_lens(a, b);
        assert(doms_upto(s, i) =~= a + b);
    }
}

/// A sharded map: an ordered, fixed-size sequence of shards, each an instance
/// of the storage strategy `T`, holding a disjoint slice of the key space.
/// The shard count is fixed at construction and never changes, so a key keeps
/// routing to the shard that holds it.
pub struct ShardMap<V, T: InnerMap<V> = PlainShard<V>> {
    shards: Vec<T>,
    _strategy: PhantomData<V>,
}

/// A sharded map of the mutable strategy, convertible into a read-only
/// `ShardMap<V>` once no further mutation is wanted.
pub type MutableShardMap<V> = ShardMap<V, MutShard<V>>;

impl<V, T: InnerMap<V>> View for ShardMap<V, T> {
    type V = Map<u64, V>;

    /// The container seen as one map: a key is present exactly when the shard
    /// it routes to holds it, with that shard's value.
    closed spec fn view(&self) -> Map<u64, V> {
        Map::new(
            |k: u64|
                self.shards@[spec_shard_of(k, self.shards@.len() as int)].contents().contains_key(
                    k,
                ),
            |k: u64| self.shards@[spec_shard_of(k, self.shards@.len() as int)].contents()[k],
        )
    }
}

impl<V, T: InnerMap<V>> ShardMap<V, T> {
    /// How many shards this container was built with.
    pub closed spec fn shard_count(self) -> int {
        self.shards@.len() as int
    }

    /// The entries shard `i` holds.
    pub closed spec fn shard_contents(self, i: int) -> Map<u64, V> {
        self.shards@[i].contents()
    }

    /// The shard index this container routes key `k` to.
    pub open spec fn route(self, k: u64) -> int {
        spec_shard_of(k, self.shard_count())
    }

    /// Every key rests in the shard it routes to. Shards therefore hold
    /// pairwise disjoint key sets, and a key missing from its own shard is in
    /// no shard at all.
    spec fn routed(self) -> bool {
        forall|i: int, k: u64|
            0 <= i < self.shards@.len() && #[trigger] self.shards@[i].contents().contains_key(k)
                ==> spec_shard_of(k, self.shards@.len() as int) == i
    }

    /// Well-formedness: at least one shard, a power-of-two shard count, every
    /// key resting in the shard it routes to, and a total entry count a
    /// `usize` can report.
    pub closed spec fn wf(self) -> bool {
        &&& 1 <= self.shards@.len()
        &&& is_pow2(self.shards@.len() as int)
        &&& self.routed()
        &&& self@.len() <= usize::MAX
    }

    /// The view of a routed container has finitely many entries: as many as
    /// the shard sizes added up.
    proof fn lemma_view_cardinality(self)
        requires
            1 <= self.shards@.len(),
            self.routed(),
        ensures
            self@.dom().finite(),
            self@.len() == lens_upto(self.shards@, self.shards@.len() as int),
    {
        let s = self.shards@;
        let n = s.len() as int;
        lemma_doms_upto_len(s, n, n);
        assert(self@.dom() =~= doms_upto(s, n)) by {
            assert forall|k: u64| self@.dom().contains(k) == doms_upto(s, n).contains(k) by {
                lemma_shard_of_in_range(k, n);
                lemma_doms_upto_member(s, n, k);
                if self@.dom().contains(k) {
                    assert(s[spec_shard_of(k, n)].contents().contains_key(k));
                }
                if doms_upto(s, n).contains(k) {
                    let j = choose|j: int|
                        0 <= j < n && (#[trigger] s[j].contents()).contains_key(k);
                    assert(spec_shard_of(k, n) == j);
                }
            }
        }
    }

    /// A well-formed container holds finitely many entries.
    pub proof fn lemma_view_finite(self)
        requires
            self.wf(),
        ensures
            self@.dom().finite(),
    {
        self.lemma_view_cardinality();
    }

    /// A well-formed container routes every key to an existing shard.
    pub proof fn lemma_route_in_range(self, k: u64)
        requires
            self.wf(),
        ensures
            0 <= self.route(k) < self.shard_count(),
            1 <= self.shard_count(),
    {
        lemma_shard_of_in_range(k, self.shard_count());
    }

    /// A key is in the container exactly when it is in the shard it routes
    /// to, with the same value.
    proof fn lemma_view_lookup(self, k: u64)
        requires
            self.wf(),
        ensures
            self@.contains_key(k) == self.shard_contents(self.route(k)).contains_key(k),
            self@.contains_key(k) ==> self@[k] == self.shard_contents(self.route(k))[k],
    {
    }

    /// A shard holds only keys that route to it, so any key a shard holds is
    /// visible in the container's view.
    proof fn lemma_shard_member_in_view(self, i: int, k: u64)
        requires
            self.wf(),
            0 <= i < self.shard_count(),
            self.shard_contents(i).contains_key(k),
        ensures
            self.route(k) == i,
            self@.contains_key(k),
    {
    }

    /// Create an empty container with `shard_amount` shards. The count is
    /// fixed here once and for all; it must be at least one and a power of
    /// two.
    pub fn new(shard_amount: usize) -> (r: Self)
        requires
            1 <= shard_amount,
            is_pow2(shard_amount as int),
        ensures
            r.wf(),
            r.shard_count() == shard_amount,
            r@ == Map::<u64, V>::empty(),
    {
        let mut shards: Vec<T> = Vec::new();
        while shards.len() < shard_amount
            invariant
                shards@.len() <= shard_amount,
                forall|i: int|
                    0 <= i < shards@.len() ==> (#[trigger] shards@[i].contents()) == Map::<
                        u64,
                        V,
                    >::empty(),
            decreases shard_amount - shards@.len(),
        {
            shards.push(T::empty());
        }
        let r = ShardMap { shards, _strategy: PhantomData };
        proof {
            assert(r@ =~= Map::<u64, V>::empty());
        }
        r
    }

    /// Route a key to its shard index: hash, then reduce modulo the shard
    /// count. The same pure function serves reads and writes, so a key
    /// inserted by one call is found by every later call with the same key.
    fn shard(&self, k: u64) -> (r: usize)
        requires
            self.wf(),
        ensures
            r as int == self.route(k),
            r < self.shards@.len(),
    {
        let h = key_hash(k);
        let n = self.shards.len();
        proof {
            lemma_shard_of_in_range(k, n as int);
        }
        (h % (n as u64)) as usize
    }

    /// Does the container hold key `k`? Answered by the one shard `k` routes
    /// to; no other shard is touched.
    pub fn contains_key(&self, k: u64) -> (r: bool)
        requires
            self.wf(),
        ensures
            r == self@.contains_key(k),
    {
        let i = self.shard(k);
        proof {
            self.lemma_view_lookup(k);
        }
        self.shards[i].contains_key(k)
    }

    /// How many entries the whole container holds: the shard sizes added up,
    /// each shard visited once, in order.
    pub fn len(&self) -> (r: usize)
        requires
            self.wf(),
        ensures
            r == self@.len(),
    {
        proof {
            self.lemma_view_cardinality();
        }
        let n = self.shards.len();
        let mut total: usize = 0;
        let mut i: usize = 0;
        while i < n
            invariant
                self.wf(),
                n == self.shards@.len(),
                i <= n,
                total == lens_upto(self.shards@, i as int),
                self@.len() == lens_upto(self.shards@, n as int),
            decreases n - i,
        {
            let l = self.shards[i].len();
            proof {
                lemma_lens_upto_mono(self.shards@, i as int + 1, n as int);
            }
            total = total + l;
            i = i + 1;
        }
        total
    }

    /// Is the whole container empty? True exactly when every shard is empty,
    /// each shard visited once, in order.
    pub fn is_empty(&self) -> (r: bool)
        requires
            self.wf(),
        ensures
            r == self@.dom().is_empty(),
            r == (self@.len() == 0),
    {
        let n = self.shards.len();
        let mut i: usize = 0;
        while i < n
            invariant
                self.wf(),
                n == self.shards@.len(),
                i <= n,
                forall|j: int|
                    0 <= j < i ==> (#[trigger] self.shards@[j].contents()).dom().is_empty(),
            decreases n - i,
        {
            if !self.shards[i].is_empty() {
                proof {
                    let c = self.shards@[i as int].contents();
                    assert(!(c.dom() =~= Set::<u64>::empty()));
                    let k = choose|k: u64| c.dom().contains(k);
                    self.lemma_shard_member_in_view(i as int, k);
                    self.lemma_view_cardinality();
                    if self@.len() == 0 {
                        self@.dom().lemma_len0_is_empty();
                    }
                }
                return false;
            }
            i = i + 1;
        }
        proof {
            assert(self@.dom() =~= Set::<u64>::empty()) by {
                assert forall|k: u64| !self@.dom().contains(k) by {
                    self.lemma_route_in_range(k);
                }
            }
        }
        true
    }
}

impl<V, T: InnerMap<V>> ShardMap<V, T> {
    /// Writing `insert(k, v)` into the one shard `k` routes to, and touching
    /// no other shard, inserts `(k, v)` into the container's view, keeps the
    /// container well formed, and grows the entry count by one exactly when
    /// the key was new.
    proof fn lemma_insert_updates_view(pre: Self, post: Self, k: u64, v: V)
        requires
            pre.wf(),
            pre@.contains_key(k) || pre@.len() < usize::MAX,
            post.shards@.len() == pre.shards@.len(),
            post.shards@[pre.route(k)].contents() == pre.shards@[pre.route(k)].contents().insert(
                k,
                v,
            ),
            forall|j: int|
                0 <= j < pre.shards@.len() && j != pre.route(k) ==> post.shards@[j]
                    == pre.shards@[j],
        ensures
            post.wf(),
            post@ == pre@.insert(k, v),
            post@.len() == pre@.len() + (if pre@.contains_key(k) {
                0int
            } else {
                1int
            }),
    {
        let n = pre.shards@.len() as int;
        let i = pre.route(k);
        lemma_shard_of_in_range(k, n);
        assert forall|j: int, k2: u64|
            0 <= j < n && #[trigger] post.shards@[j].contents().contains_key(k2) implies spec_shard_of(
            k2,
            n,
        ) == j by {
            if j == i && k2 != k {
                assert(pre.shards@[j].contents().contains_key(k2));
            }
        }
        assert(post@ =~= pre@.insert(k, v)) by {
            assert forall|k2: u64|
                #![auto]
                post@.contains_key(k2) == pre@.insert(k, v).contains_key(k2) && (
                post@.contains_key(k2) ==> post@[k2] == pre@.insert(k, v)[k2]) by {
                lemma_shard_of_in_range(k2, n);
                let r2 = spec_shard_of(k2, n);
                if k2 != k && r2 != i {
                    assert(post.shards@[r2] == pre.shards@[r2]);
                }
            }
        }
        pre.lemma_view_cardinality();
        assert(post@.dom() == pre@.dom().insert(k));
        post.lemma_view_cardinality();
    }

    /// Applying `remove(k)` to the one shard `k` routes to, and touching no
    /// other shard, removes `k` from the container's view, keeps the
    /// container well formed, and shrinks the entry count by one exactly when
    /// the key was present. Removing an absent key changes nothing.
    proof fn lemma_remove_updates_view(pre: Self, post: Self, k: u64)
        requires
            pre.wf(),
            post.shards@.len() == pre.shards@.len(),
            post.shards@[pre.route(k)].contents() == pre.shards@[pre.route(k)].contents().remove(
                k,
            ),
            forall|j: int|
                0 <= j < pre.shards@.len() && j != pre.route(k) ==> post.shards@[j]
                    == pre.shards@[j],
        ensures
            post.wf(),
            post@ == pre@.remove(k),
            post@.len() == pre@.len() - (if pre@.contains_key(k) {
                1int
            } else {
                0int
            }),
            !pre@.contains_key(k) ==> post@ == pre@,
    {
        let n = pre.shards@.len() as int;
        let i = pre.route(k);
        lemma_shard_of_in_range(k, n);
        assert forall|j: int, k2: u64|
            0 <= j < n && #[trigger] post.shards@[j].contents().contains_key(k2) implies spec_shard_of(
            k2,
            n,
        ) == j by {
            if j == i {
                assert(pre.shards@[j].contents().contains_key(k2));
            }
        }
        assert(post@ =~= pre@.remove(k)) by {
            assert forall|k2: u64|
                #![auto]
                post@.contains_key(k2) == pre@.remove(k).contains_key(k2) && (post@.contains_key(
                    k2,
                ) ==> post@[k2] == pre@.remove(k)[k2]) by {
                lemma_shard_of_in_range(k2, n);
                let r2 = spec_shard_of(k2, n);
                if k2 != k && r2 != i {
                    assert(post.shards@[r2] == pre.shards@[r2]);
                }
            }
        }
        pre.lemma_view_cardinality();
        assert(post@.dom() == pre@.dom().remove(k));
        post.lemma_view_cardinality();
        if !pre@.contains_key(k) {
            assert(post@ =~= pre@);
        }
    }
}

impl<V, T: ImmutableInnerMap<V>> ShardMap<V, T> {
    /// Look up `k` and borrow its value. Only the read-only strategy offers
    /// this: with no mutation left, references into a shard stay valid for
    /// the container's whole life.
    pub fn get(&self, k: u64) -> (r: Option<&V>)
        requires
            self.wf(),
        ensures
            match r {
                Some(v) => self@.contains_key(k) && *v == self@[k],
                None => !self@.contains_key(k),
            },
    {
        let i = self.shard(k);
        proof {
            self.lemma_view_lookup(k);
        }
        self.shards[i].get(k)
    }
}

impl<V, T: MutableInnerMap<V>> ShardMap<V, T> {
    /// Look up `k` and copy its value out. The mutable strategy cannot hand
    /// out references into a shard, so the value comes back owned.
    pub fn get_cloned(&self, k: u64) -> (r: Option<V>) where V: Copy
        requires
            self.wf(),
        ensures
            match r {
                Some(v) => self@.contains_key(k) && v == self@[k],
                None => !self@.contains_key(k),
            },
    {
        let i = self.shard(k);
        proof {
            self.lemma_view_lookup(k);
        }
        self.shards[i].get(k)
    }

    /// Insert `(k, v)` into the shard `k` routes to, replacing and returning
    /// the previous value if the key was already there. No other shard is
    /// read or written.
    pub fn insert(&mut self, k: u64, v: V) -> (r: Option<V>)
        requires
            old(self).wf(),
            old(self)@.contains_key(k) || old(self)@.len() < usize::MAX,
        ensures
            final(self).wf(),
            final(self)@ == old(self)@.insert(k, v),
            final(self).shard_count() == old(self).shard_count(),
            forall|j: int|
                0 <= j < old(self).shard_count() && j != old(self).route(k)
                    ==> final(self).shard_contents(j) == old(self).shard_contents(j),
            match r {
                Some(p) => old(self)@.contains_key(k) && p == old(self)@[k],
                None => !old(self)@.contains_key(k),
            },
            final(self)@.len() == old(self)@.len() + (if old(self)@.contains_key(k) {
                0int
            } else {
                1int
            }),
    {
        let i = self.shard(k);
        proof {
            (*self).lemma_view_lookup(k);
        }
        let r = self.shards[i].insert(k, v);
        proof {
            Self::lemma_insert_updates_view(*old(self), *self, k, v);
        }
        r
    }

    /// Remove key `k` from the shard it routes to, returning its value if it
    /// was present; removing an absent key returns nothing and leaves the
    /// container, and its entry count, unchanged. No other shard is read or
    /// written.
    pub fn remove(&mut self, k: u64) -> (r: Option<V>)
        requires
            old(self).wf(),
        ensures
            final(self).wf(),
            final(self)@ == old(self)@.remove(k),
            final(self).shard_count() == old(self).shard_count(),
            forall|j: int|
                0 <= j < old(self).shard_count() && j != old(self).route(k)
                    ==> final(self).shard_contents(j) == old(self).shard_contents(j),
            match r {
                Some(p) => old(self)@.contains_key(k) && p == old(self)@[k],
                None => !old(self)@.contains_key(k),
            },
            final(self)@.len() == old(self)@.len() - (if old(self)@.contains_key(k) {
                1int
            } else {
                0int
            }),
            !old(self)@.contains_key(k) ==> final(self)@ == old(self)@,
    {
        let i = self.shard(k);
        proof {
            (*self).lemma_view_lookup(k);
        }
        let r = self.shards[i].remove(k);
        proof {
            Self::lemma_remove_updates_view(*old(self), *self, k);
        }
        r
    }

    /// Empty every shard, in order, one shard at a time. Afterwards the
    /// container is empty; calling this on an already empty container is
    /// harmless and leaves it empty again.
    pub fn clear(&mut self)
        requires
            old(self).wf(),
        ensures
            final(self).wf(),
            final(self).shard_count() == old(self).shard_count(),
            final(self)@ == Map::<u64, V>::empty(),
    {
        let n = self.shards.len();
        let mut i: usize = 0;
        while i < n
            invariant
                old(self).wf(),
                n == self.shards@.len(),
                self.shards@.len() == old(self).shards@.len(),
                i <= n,
                forall|j: int|
                    0 <= j < i ==> (#[trigger] self.shards@[j].contents()) == Map::<
                        u64,
                        V,
                    >::empty(),
            decreases n - i,
        {
            self.shards[i].clear();
            i = i + 1;
        }
        proof {
            assert(self@ =~= Map::<u64, V>::empty()) by {
                assert forall|k: u64| !self@.contains_key(k) by {
                    lemma_shard_of_in_range(k, self.shards@.len() as int);
                }
            }
        }
    }
}

impl<V> ShardMap<V, MutShard<V>> {
    /// Consume a fully built container of the mutable strategy and produce a
    /// read-only one with the same shard count and, shard for shard, the very
    /// same entries: each shard's interior table is moved across whole, so no
    /// entry is rehashed, copied, or moved between shards. The source is gone
    /// afterwards; the result owns everything.
    pub fn into_read_only(self) -> (r: ShardMap<V, PlainShard<V>>)
        requires
            self.wf(),
        ensures
            r.wf(),
            r.shard_count() == self.shard_count(),
            forall|i: int|
                0 <= i < self.shard_count() ==> r.shard_contents(i) == self.shard_contents(i),
            r@ == self@,
    {
        let ghost orig = self.shards@;
        let mut rest = self.shards;
        let mut done: Vec<PlainShard<V>> = Vec::new();
        while rest.len() > 0
            invariant
                done@.len() + rest@.len() == orig.len(),
                rest@ == orig.subrange(done@.len() as int, orig.len() as int),
                forall|j: int|
                    0 <= j < done@.len() ==> (#[trigger] done@[j].contents())
                        == orig[j].contents(),
            decreases rest@.len(),
        {
            let s = rest.remove(0);
            proof {
                assert(orig.subrange(done@.len() as int, orig.len() as int).drop_first()
                    =~= orig.subrange(done@.len() as int + 1, orig.len() as int));
            }
            done.push(s.into_plain());
        }
        let r = ShardMap { shards: done, _strategy: PhantomData };
        proof {
            assert(r@ =~= self@) by {
                assert forall|k: u64|
                    #![auto]
                    r@.contains_key(k) == self@.contains_key(k) && (r@.contains_key(k)
                        ==> r@[k] == self@[k]) by {
                    lemma_shard_of_in_range(k, orig.len() as int);
                }
            }
        }
        r
    }
}

/// Routing determinism: the shard index of a key is a pure function of the
/// key and the shard count alone, so two containers built with equal shard
/// counts — whatever their storage strategies, and whenever they were built —
/// route every key to the same index.
pub proof fn lemma_routing_deterministic<V1, T1: InnerMap<V1>, V2, T2: InnerMap<V2>>(
    a: ShardMap<V1, T1>,
    b: ShardMap<V2, T2>,
    k: u64,
)
    requires
        a.shard_count() == b.shard_count(),
    ensures
        a.route(k) == b.route(k),
{
}

/// Inserting at one key twice: the second value is the one the map then
/// holds, and the map is exactly what a single insert of the second value
/// would have left.
pub proof fn lemma_insert_overwrites<V>(m: Map<u64, V>, k: u64, v1: V, v2: V)
    ensures
        m.insert(k, v1).insert(k, v2) == m.insert(k, v2),
        m.insert(k, v1).insert(k, v2)[k] == v2,
        m.insert(k, v1).contains_key(k),
        m.insert(k, v1)[k] == v1,
{
    assert(m.insert(k, v1).insert(k, v2) =~= m.insert(k, v2));
}

/// Shard independence: keys that route to different shards are necessarily
/// different keys, so — by the frame clauses of `insert` and `remove` — an
/// operation on one of them neither reads nor writes the shard holding the
/// other.
pub proof fn lemma_shard_independence<V, T: InnerMap<V>>(
    m: ShardMap<V, T>,
    k1: u64,
    k2: u64,
)
    requires
        m.route(k1) != m.route(k2),
    ensures
        k1 != k2,
{
}

} // verus!
