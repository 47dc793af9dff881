use std::collections::HashMap;
use vstd::prelude::*;

verus! {

broadcast use vstd::std_specs::hash::group_hash_axioms;

/// The capability every shard storage type offers, whether or not it supports
/// mutation: its abstract contents, emptiness and size queries, and a key
/// existence check. Contracts of the container are stated over `contents`.
pub trait InnerMap<V>: Sized {
    /// The entries this shard currently holds, as a mathematical map.
    spec fn contents(&self) -> Map<u64, V>;

    /// A shard always holds finitely many entries.
    proof fn lemma_contents_finite(&self)
        ensures
            self.contents().dom().finite(),
    ;

    /// A shard with no entries.
    fn empty() -> (r: Self)
        ensures
            r.contents() == Map::<u64, V>::empty(),
    ;

    fn is_empty(&self) -> (r: bool)
        ensures
            r == self.contents().dom().is_empty(),
    ;

    fn len(&self) -> (r: usize)
        ensures
            r == self.contents().len(),
    ;

    fn contains_key(&self, k: u64) -> (r: bool)
        ensures
            r == self.contents().contains_key(k),
    ;
}

/// The read-only strategy: a shard that will never be mutated again, so it can
/// hand out borrowed references to its values.
pub trait ImmutableInnerMap<V>: InnerMap<V> {
    fn get(&self, k: u64) -> (r: Option<&V>)
        ensures
            match r {
                Some(v) => self.contents().contains_key(k) && *v == self.contents()[k],
                None => !self.contents().contains_key(k),
            },
    ;
}

/// The mutable strategy: full insert/remove/clear access through exclusive
/// borrows, with lookups returning values by copy rather than by reference.
pub trait MutableInnerMap<V>: InnerMap<V> {
    fn get(&self, k: u64) -> (r: Option<V>) where V: Copy
        ensures
            match r {
                Some(v) => self.contents().contains_key(k) && v == self.contents()[k],
                None => !self.contents().contains_key(k),
            },
    ;

    fn insert(&mut self, k: u64, v: V) -> (r: Option<V>)
        ensures
            final(self).contents() == old(self).contents().insert(k, v),
            match r {
                Some(p) => old(self).contents().contains_key(k) && p == old(self).contents()[k],
                None => !old(self).contents().contains_key(k),
            },
    ;

    fn remove(&mut self, k: u64) -> (r: Option<V>)
        ensures
            final(self).contents() == old(self).contents().remove(k),
            match r {
                Some(p) => old(self).contents().contains_key(k) && p == old(self).contents()[k],
                None => !old(self).contents().contains_key(k),
            },
    ;

    fn clear(&mut self)
        ensures
            final(self).contents() == Map::<u64, V>::empty(),
    ;
}

/// The plain strategy's shard: an unsynchronized table, read-only here, so
/// `get` can return references that live as long as the shard does.
pub struct PlainShard<V> {
    table: HashMap<u64, V>,
}

/// The mutable strategy's shard: a table that is read and written only through
/// exclusive access, so mutation is race-free by construction; lookups return
/// owned copies, never references into the table.
pub struct MutShard<V> {
    table: HashMap<u64, V>,
}

impl<V> InnerMap<V> for PlainShard<V> {
    closed spec fn contents(&self) -> Map<u64, V> {
        self.table@
    }

    proof fn lemma_contents_finite(&self) {
    }

    fn empty() -> (r: Self) {
        PlainShard { table: HashMap::new() }
    }

    fn is_empty(&self) -> (r: bool) {
        self.table.is_empty()
    }

    fn len(&self) -> (r: usize) {
        self.table.len()
    }

    fn contains_key(&self, k: u64) -> (r: bool) {
        self.table.contains_key(&k)
    }
}

impl<V> ImmutableInnerMap<V> for PlainShard<V> {
    fn get(&self, k: u64) -> (r: Option<&V>) {
        self.table.get(&k)
    }
}

impl<V> InnerMap<V> for MutShard<V> {
    closed spec fn contents(&self) -> Map<u64, V> {
        self.table@
    }

    proof fn lemma_contents_finite(&self) {
    }

    fn empty() -> (r: Self) {
        MutShard { table: HashMap::new() }
    }

    fn is_empty(&self) -> (r: bool) {
        self.table.is_empty()
    }

    fn len(&self) -> (r: usize) {
        self.table.len()
    }

    fn contains_key(&self, k: u64) -> (r: bool) {
        self.table.contains_key(&k)
    }
}

impl<V> MutableInnerMap<V> for MutShard<V> {
    fn get(&self, k: u64) -> (r: Option<V>) where V: Copy {
        match self.table.get(&k) {
            Some(v) => Some(*v),
            None => None,
        }
    }

    fn insert(&mut self, k: u64, v: V) -> (r: Option<V>) {
        self.table.insert(k, v)
    }

    fn remove(&mut self, k: u64) -> (r: Option<V>) {
        self.table.remove(&k)
    }

    fn clear(&mut self) {
        self.table.clear()
    }
}

impl<V> MutShard<V> {
    /// Surrender this shard's interior table unchanged, reshaped as a shard of
    /// the read-only strategy: no entry is rehashed, copied or moved between
    /// shards.
    pub fn into_plain(self) -> (r: PlainShard<V>)
        ensures
            r.contents() == self.contents(),
    {
        PlainShard { table: self.table }
    }
}

} // verus!
