//! A map from outlets to outlets that keeps its entries in insertion order.

use crate::graph::OutletId;
use vstd::prelude::*;

verus! {

/// The value that `entries` holds for `key`.
pub open spec fn lookup(entries: Seq<(OutletId, OutletId)>, key: OutletId) -> Option<OutletId>
    decreases entries.len(),
{
    if entries.len() == 0 {
        None
    } else if entries.last().0 == key {
        Some(entries.last().1)
    } else {
        lookup(entries.drop_last(), key)
    }
}

/// No key occurs twice.
pub open spec fn distinct_keys(entries: Seq<(OutletId, OutletId)>) -> bool {
    forall|i: int, j: int|
        0 <= i < entries.len() && 0 <= j < entries.len() && i != j ==> (#[trigger] entries[i]).0 != (
        #[trigger] entries[j]).0
}

/// The entry `e` with its value replaced by `value` where its key is `key`.
pub open spec fn replaced(e: (OutletId, OutletId), key: OutletId, value: OutletId) -> (
    OutletId,
    OutletId,
) {
    if e.0 == key {
        (key, value)
    } else {
        e
    }
}

/// The entries after `key` is set to `value`: the entry of `key` is
/// replaced where it stands, or a new entry comes last.
pub open spec fn inserted(entries: Seq<(OutletId, OutletId)>, key: OutletId, value: OutletId) -> Seq<
    (OutletId, OutletId),
> {
    if lookup(entries, key) is Some {
        Seq::new(entries.len(), |i: int| replaced(entries[i], key, value))
    } else {
        entries.push((key, value))
    }
}

pub proof fn lemma_lookup_some(entries: Seq<(OutletId, OutletId)>, key: OutletId)
    ensures
        match lookup(entries, key) {
            Some(v) => exists|i: int|
                0 <= i < entries.len() && #[trigger] entries[i] == (key, v),
            None => forall|i: int| 0 <= i < entries.len() ==> (#[trigger] entries[i]).0 != key,
        },
    decreases entries.len(),
{
    if entries.len() == 0 {
    } else if entries.last().0 == key {
        assert(entries[entries.len() - 1] == (key, entries.last().1));
    } else {
        let rest = entries.drop_last();
        lemma_lookup_some(rest, key);
        match lookup(rest, key) {
            Some(v) => {
                let i = choose|i: int| 0 <= i < rest.len() && #[trigger] rest[i] == (key, v);
                assert(entries[i] == (key, v));
            },
            None => {
                assert forall|i: int| 0 <= i < entries.len() implies (#[trigger] entries[i]).0
                    != key by {
                    if i < rest.len() {
                        assert(rest[i] == entries[i]);
                    }
                }
            },
        }
    }
}

/// With distinct keys, every entry is what `lookup` finds for its key.
pub proof fn lemma_lookup_entry(entries: Seq<(OutletId, OutletId)>, i: int)
    requires
        distinct_keys(entries),
        0 <= i < entries.len(),
    ensures
        lookup(entries, entries[i].0) == Some(entries[i].1),
    decreases entries.len(),
{
    if i == entries.len() - 1 {
    } else {
        let rest = entries.drop_last();
        assert(entries[entries.len() - 1].0 != entries[i].0);
        assert forall|a: int, b: int|
            0 <= a < rest.len() && 0 <= b < rest.len() && a != b implies (#[trigger] rest[a]).0 != (
        #[trigger] rest[b]).0 by {
            assert(rest[a] == entries[a] && rest[b] == entries[b]);
        }
        assert(rest[i] == entries[i]);
        lemma_lookup_entry(rest, i);
    }
}

/// Setting a key keeps the keys distinct, gives the key its value and
/// leaves every other key as it was.
pub proof fn lemma_inserted(entries: Seq<(OutletId, OutletId)>, key: OutletId, value: OutletId)
    requires
        distinct_keys(entries),
    ensures
        distinct_keys(inserted(entries, key, value)),
        lookup(inserted(entries, key, value), key) == Some(value),
        forall|k: OutletId|
            k != key ==> lookup(inserted(entries, key, value), k) == lookup(entries, k),
{
    let after = inserted(entries, key, value);
    lemma_lookup_some(entries, key);
    if lookup(entries, key) is Some {
        let v = lookup(entries, key)->0;
        let i = choose|i: int| 0 <= i < entries.len() && #[trigger] entries[i] == (key, v);
        assert forall|a: int, b: int|
            0 <= a < after.len() && 0 <= b < after.len() && a != b implies (#[trigger] after[a]).0
            != (#[trigger] after[b]).0 by {
            assert(after[a].0 == entries[a].0 && after[b].0 == entries[b].0);
        }
        assert(after[i] == (key, value));
        lemma_lookup_entry(after, i);
        assert forall|k: OutletId| k != key implies lookup(after, k) == lookup(entries, k) by {
            lemma_lookup_some(entries, k);
            lemma_lookup_some(after, k);
            match lookup(entries, k) {
                Some(w) => {
                    let j = choose|j: int|
                        0 <= j < entries.len() && #[trigger] entries[j] == (k, w);
                    assert(after[j] == (k, w));
                    lemma_lookup_entry(after, j);
                },
                None => {
                    if lookup(after, k) is Some {
                        let w = lookup(after, k)->0;
                        let j = choose|j: int| 0 <= j < after.len() && #[trigger] after[j] == (k, w);
                        assert(entries[j].0 == k);
                    }
                },
            }
        }
    } else {
        assert(after.drop_last() =~= entries);
        assert forall|a: int, b: int|
            0 <= a < after.len() && 0 <= b < after.len() && a != b implies (#[trigger] after[a]).0
            != (#[trigger] after[b]).0 by {
            if a < entries.len() && b < entries.len() {
                assert(after[a] == entries[a] && after[b] == entries[b]);
            } else {
                let other = if a < entries.len() {
                    a
                } else {
                    b
                };
                assert(after[other] == entries[other]);
            }
        }
    }
}

/// A map from outlets to outlets. It holds one entry for each key, in the
/// order in which the keys were first inserted.
#[derive(Debug)]
pub struct OutletMap {
    entries: Vec<(OutletId, OutletId)>,
}

impl View for OutletMap {
    type V = Seq<(OutletId, OutletId)>;

    closed spec fn view(&self) -> Seq<(OutletId, OutletId)> {
        self.entries@
    }
}

impl Clone for OutletMap {
    fn clone(&self) -> (r: OutletMap)
        ensures
            r@ == self@,
    {
        proof {
            use_type_invariant(self);
        }
        OutletMap { entries: vstd::slice::slice_to_vec(self.entries.as_slice()) }
    }
}

impl OutletMap {
    #[verifier::type_invariant]
    spec fn inv(&self) -> bool {
        distinct_keys(self.entries@)
    }

    pub fn new() -> (r: OutletMap)
        ensures
            r@ == Seq::<(OutletId, OutletId)>::empty(),
    {
        OutletMap { entries: Vec::new() }
    }

    pub fn len(&self) -> (r: usize)
        ensures
            r == self@.len(),
            distinct_keys(self@),
    {
        proof {
            use_type_invariant(self);
        }
        self.entries.len()
    }

    /// The entry at position `i` of the insertion order.
    pub fn entry(&self, i: usize) -> (r: (OutletId, OutletId))
        requires
            i < self@.len(),
        ensures
            r == self@[i as int],
            lookup(self@, r.0) == Some(r.1),
    {
        proof {
            use_type_invariant(self);
            lemma_lookup_entry(self.entries@, i as int);
        }
        self.entries[i]
    }

    /// The value held for `key`.
    pub fn get(&self, key: OutletId) -> (r: Option<OutletId>)
        ensures
            r == lookup(self@, key),
    {
        let mut i: usize = self.entries.len();
        assert(self.entries@.take(i as int) =~= self.entries@);
        while i > 0
            invariant
                i <= self.entries@.len(),
                lookup(self.entries@, key) == lookup(self.entries@.take(i as int), key),
            decreases i,
        {
            let e = self.entries[i - 1];
            proof {
                let prefix = self.entries@.take(i as int);
                assert(prefix.last() == e);
                assert(prefix.drop_last() =~= self.entries@.take(i as int - 1));
            }
            if e.0 == key {
                return Some(e.1);
            }
            i -= 1;
        }
        None
    }

    pub fn contains_key(&self, key: OutletId) -> (r: bool)
        ensures
            r == lookup(self@, key) is Some,
    {
        self.get(key).is_some()
    }

    /// Sets the value of `key`.
    pub fn insert(&mut self, key: OutletId, value: OutletId)
        ensures
            final(self)@ == inserted(old(self)@, key, value),
            distinct_keys(final(self)@),
            lookup(final(self)@, key) == Some(value),
            forall|k: OutletId| k != key ==> lookup(final(self)@, k) == lookup(old(self)@, k),
    {
        proof {
            use_type_invariant(&*self);
            lemma_inserted(self.entries@, key, value);
            lemma_lookup_some(self.entries@, key);
        }
        let ghost before = self.entries@;
        let n = self.entries.len();
        let mut fresh: Vec<(OutletId, OutletId)> = Vec::new();
        let mut found = false;
        let mut i: usize = 0;
        while i < n
            invariant
                i <= n,
                n == before.len(),
                self.entries@ == before,
                fresh@.len() == i,
                forall|j: int| 0 <= j < i ==> fresh@[j] == replaced(before[j], key, value),
                found <==> exists|j: int| 0 <= j < i && (#[trigger] before[j]).0 == key,
            decreases n - i,
        {
            let e = self.entries[i];
            if e.0 == key {
                fresh.push((key, value));
                found = true;
            } else {
                fresh.push(e);
            }
            i += 1;
        }
        if !found {
            fresh.push((key, value));
        }
        proof {
            assert(fresh@ =~= inserted(before, key, value));
        }
        self.entries = fresh;
    }
}

} // verus!
