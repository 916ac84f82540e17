//! A least-recently-used cache without a linked list.
//!
//! Key–value pairs live in a hash map.  Recency is kept in a deque of keys:
//! every access appends the key, so a key may appear several times, and a
//! second map counts, per key, how many stale appearances are waiting to be
//! pruned.  Pruning drops, for each key, everything but its most recent
//! appearance.  The abstraction is [`LRUCache::contents`] (the map) together
//! with [`LRUCache::recency`] (the keys from least to most recently used):
//! an insert into a full cache evicts exactly the front of `recency`.

use vstd::prelude::*;
use vstd::seq_lib::group_filter_ensures;
use vstd::seq_lib::group_to_multiset_ensures;
use std::collections::HashMap;
use std::collections::VecDeque;

verus! {

broadcast use
    group_to_multiset_ensures,
    group_filter_ensures,
    Seq::filter_distributes_over_add,
    vstd::multiset::group_multiset_axioms,
    vstd::multiset::group_multiset_properties,
    vstd::std_specs::hash::group_hash_axioms,
;

/// How often `k` appears in `s`.
pub open spec fn occ(s: Seq<i32>, k: i32) -> nat {
    s.to_multiset().count(k)
}

/// Everything different from `b`: the predicate used to drop a key.
pub open spec fn ne_pred(b: i32) -> spec_fn(i32) -> bool {
    |x: i32| x != b
}

/// `s` without every appearance of `b`.
pub open spec fn without(s: Seq<i32>, b: i32) -> Seq<i32> {
    s.filter(ne_pred(b))
}

/// `s` with, for every key, all but its last appearance removed: the order
/// of most recent appearances.
pub open spec fn keep_last(s: Seq<i32>) -> Seq<i32>
    decreases s.len(),
{
    if s.len() == 0 {
        Seq::empty()
    } else {
        without(keep_last(s.drop_last()), s.last()).push(s.last())
    }
}

/// `s` with `k` moved to (or appended at) the back: what an access to `k`
/// does to the recency order.
pub open spec fn move_to_back(s: Seq<i32>, k: i32) -> Seq<i32> {
    without(s, k).push(k)
}

/// `keep_last` keeps exactly the keys of `s`, once each.
proof fn lemma_keep_last_elems(s: Seq<i32>)
    ensures
        keep_last(s).no_duplicates(),
        forall|x: i32| keep_last(s).contains(x) <==> s.contains(x),
    decreases s.len(),
{
    if s.len() != 0 {
        let rest = s.drop_last();
        let b = s.last();
        lemma_keep_last_elems(rest);
        let kept = without(keep_last(rest), b);
        assert(keep_last(s) == kept.push(b));
        assert forall|x: i32| keep_last(s).contains(x) implies s.contains(x) by {
            if x != b {
                assert(kept.contains(x)) by {
                    let t = choose|t: int| 0 <= t < keep_last(s).len() && keep_last(s)[t] == x;
                    assert(keep_last(s)[keep_last(s).len() - 1] == b);
                    assert(t < kept.len());
                    assert(kept[t] == x);
                }
                let i = choose|i: int| 0 <= i < kept.len() && kept[i] == x;
                lemma_filter_source(keep_last(rest), ne_pred(b), i);
                assert(keep_last(rest).contains(x));
                assert(rest.contains(x));
                let j = choose|j: int| 0 <= j < rest.len() && rest[j] == x;
                assert(s[j] == rest[j]);
            } else {
                assert(s[s.len() - 1] == b);
            }
        }
        assert forall|x: i32| s.contains(x) implies keep_last(s).contains(x) by {
            if x == b {
                assert(keep_last(s).last() == b);
            } else {
                let i = choose|i: int| 0 <= i < s.len() && s[i] == x;
                assert(i < s.len() - 1) by {
                    assert(s[s.len() - 1] == b);
                }
                assert(rest[i] == s[i]);
                assert(rest.contains(x));
                assert(keep_last(rest).contains(x));
                let j = choose|j: int| 0 <= j < keep_last(rest).len() && keep_last(rest)[j] == x;
                assert(ne_pred(b)(keep_last(rest)[j]));
                assert(kept.contains(x)) by {
                    keep_last(rest).lemma_filter_contains(ne_pred(b), j);
                }
                let t = choose|t: int| 0 <= t < kept.len() && kept[t] == x;
                assert(keep_last(s)[t] == x);
            }
        }
        lemma_filter_nodup(keep_last(rest), ne_pred(b));
        assert(keep_last(s).no_duplicates()) by {
            assert(forall|t: int| 0 <= t < kept.len() ==> kept[t] == #[trigger] keep_last(s)[t]);
            assert(keep_last(s).last() == b);
            assert(forall|t: int| 0 <= t < kept.len() ==> ne_pred(b)(#[trigger] kept[t]));
        }
    }
}

/// A sequence without duplicates is already its own recency order.
proof fn lemma_keep_last_of_nodup(s: Seq<i32>)
    requires
        s.no_duplicates(),
    ensures
        keep_last(s) == s,
    decreases s.len(),
{
    if s.len() != 0 {
        let rest = s.drop_last();
        let b = s.last();
        assert(rest.no_duplicates());
        lemma_keep_last_of_nodup(rest);
        assert(!rest.contains(b)) by {
            if rest.contains(b) {
                let i = choose|i: int| 0 <= i < rest.len() && rest[i] == b;
                assert(s[i] == s[s.len() - 1]);
            }
        }
        lemma_without_absent(rest, b);
        assert(keep_last(s) =~= s);
    }
}

/// Removing an absent key changes nothing.
proof fn lemma_without_absent(s: Seq<i32>, b: i32)
    requires
        !s.contains(b),
    ensures
        without(s, b) == s,
    decreases s.len(),
{
    reveal(Seq::filter);
    if s.len() != 0 {
        assert(!s.drop_last().contains(b)) by {
            if s.drop_last().contains(b) {
                let i = choose|i: int| 0 <= i < s.len() - 1 && s.drop_last()[i] == b;
                assert(s[i] == b);
            }
        }
        lemma_without_absent(s.drop_last(), b);
        assert(s[s.len() - 1] != b) by {
            assert(s.contains(s[s.len() - 1]));
        }
        assert(without(s, b) =~= s);
    }
}

/// What removing a key does to a one-element sequence.
proof fn lemma_without_singleton(a: i32, b: i32)
    ensures
        a == b ==> without(seq![a], b) == Seq::<i32>::empty(),
        a != b ==> without(seq![a], b) == seq![a],
{
    reveal(Seq::filter);
    assert(seq![a].drop_last() =~= Seq::<i32>::empty());
    assert(without(Seq::<i32>::empty(), b) =~= Seq::<i32>::empty());
    assert(seq![a].last() == a);
    if a == b {
        assert(without(seq![a], b) =~= Seq::<i32>::empty());
    } else {
        assert(without(seq![a], b) =~= seq![a]);
    }
}

/// How `keep_last` consumes its first element: kept iff it never appears
/// again.
proof fn lemma_keep_last_front(s: Seq<i32>)
    requires
        s.len() > 0,
    ensures
        s.drop_first().contains(s.first()) ==> keep_last(s) == keep_last(s.drop_first()),
        !s.drop_first().contains(s.first()) ==> keep_last(s) == seq![s.first()] + keep_last(
            s.drop_first(),
        ),
    decreases s.len(),
{
    reveal(Seq::filter);
    let a = s.first();
    let rest = s.drop_first();
    if s.len() == 1 {
        assert(s.drop_last().len() == 0);
        assert(keep_last(s) == without(keep_last(s.drop_last()), a).push(a));
        assert(keep_last(s.drop_last()) =~= Seq::<i32>::empty());
        assert(without(Seq::<i32>::empty(), a) =~= Seq::<i32>::empty());
        assert(keep_last(s) =~= seq![a]);
        assert(keep_last(rest) =~= Seq::<i32>::empty());
        assert(keep_last(s) =~= seq![a] + keep_last(rest));
    } else {
        let b = s.last();
        let mid = s.drop_last();
        assert(mid.len() > 0);
        assert(mid.first() == a);
        assert(mid.drop_first() =~= rest.drop_last());
        lemma_keep_last_front(mid);
        assert(keep_last(s) == without(keep_last(mid), b).push(b));
        assert(keep_last(rest) == without(keep_last(rest.drop_last()), b).push(b));
        if rest.contains(a) {
            if mid.drop_first().contains(a) {
                assert(keep_last(mid) == keep_last(mid.drop_first()));
                assert(keep_last(mid) == keep_last(rest.drop_last()));
                assert(keep_last(s) =~= keep_last(rest));
            } else {
                assert(a == b) by {
                    let i = choose|i: int| 0 <= i < rest.len() && rest[i] == a;
                    if i < rest.len() - 1 {
                        assert(rest.drop_last()[i] == a);
                    }
                }
                assert(keep_last(mid) == seq![a] + keep_last(mid.drop_first()));
                assert(without(seq![a] + keep_last(rest.drop_last()), b) =~= without(
                    seq![a],
                    b,
                ) + without(keep_last(rest.drop_last()), b)) by {
                    Seq::filter_distributes_over_add(
                        seq![a],
                        keep_last(rest.drop_last()),
                        ne_pred(b),
                    );
                }
                lemma_without_singleton(a, b);
                assert(keep_last(s) =~= keep_last(rest));
            }
        } else {
            assert(!mid.drop_first().contains(a)) by {
                if mid.drop_first().contains(a) {
                    let i = choose|i: int|
                        0 <= i < mid.drop_first().len() && mid.drop_first()[i] == a;
                    assert(rest[i] == a);
                }
            }
            assert(a != b) by {
                assert(rest[rest.len() - 1] == b);
            }
            assert(keep_last(mid) == seq![a] + keep_last(mid.drop_first()));
            assert(without(seq![a] + keep_last(rest.drop_last()), b) =~= without(
                seq![a],
                b,
            ) + without(keep_last(rest.drop_last()), b)) by {
                Seq::filter_distributes_over_add(seq![a], keep_last(rest.drop_last()), ne_pred(b));
            }
            lemma_without_singleton(a, b);
            assert(keep_last(s) =~= seq![a] + keep_last(rest));
        }
    }
}

/// The cache.  The fields are public so that a caller can observe the
/// internal bookkeeping; the verified methods keep them consistent.
pub struct LRUCache {
    /// The key–value pairs.
    pub cache: HashMap<i32, i32>,
    /// Keys in order of access, possibly repeated; per key, the last
    /// appearance is its true position.
    pub keys_ordered_lru: VecDeque<i32>,
    /// Per key, how many stale appearances wait in the deque.
    pub keys_to_prune: HashMap<i32, usize>,
    /// The greatest number of pairs the cache may hold.
    pub capacity: usize,
}

impl LRUCache {
    /// The stale-appearance count of `k`.
    pub open spec fn pc(self, k: i32) -> nat {
        if self.keys_to_prune@.contains_key(k) {
            self.keys_to_prune@[k] as nat
        } else {
            0
        }
    }

    /// The internal invariant: every cached key appears in the deque exactly
    /// once more than its stale count, no other key appears at all, and the
    /// map never exceeds the capacity.
    pub open spec fn wf(self) -> bool {
        &&& self.capacity >= 1
        &&& self.cache@.len() <= self.capacity
        &&& forall|k: i32|
            self.keys_to_prune@.contains_key(k) ==> self.cache@.contains_key(k)
                && self.keys_to_prune@[k] >= 1
        &&& forall|k: i32|
            occ(self.keys_ordered_lru@, k) == (if self.cache@.contains_key(k) {
                1 + self.pc(k)
            } else {
                0
            })
    }

    /// The key–value pairs.
    pub open spec fn contents(self) -> Map<i32, i32> {
        self.cache@
    }

    /// The keys from least to most recently used.
    pub open spec fn recency(self) -> Seq<i32> {
        keep_last(self.keys_ordered_lru@)
    }

    /// An empty cache for up to `capacity` pairs.
    pub fn new(capacity: i32) -> (c: LRUCache)
        requires
            capacity >= 1,
        ensures
            c.wf(),
            c.capacity == capacity as usize,
            c.contents() == Map::<i32, i32>::empty(),
            c.recency() == Seq::<i32>::empty(),
            c.cache@.len() == 0,
            c.keys_ordered_lru@.len() == 0,
            c.keys_to_prune@.len() == 0,
    {
        let c = LRUCache {
            cache: HashMap::with_capacity(capacity as usize),
            keys_ordered_lru: VecDeque::with_capacity(capacity as usize),
            keys_to_prune: HashMap::with_capacity(capacity as usize),
            capacity: capacity as usize,
        };
        proof {
            assert forall|k: i32| occ(c.keys_ordered_lru@, k) == 0nat by {
                assert(!c.keys_ordered_lru@.contains(k));
            }
        }
        c
    }

    /// Appends `key` — which must be cached — to the deque and counts the
    /// appearance it makes stale: the recency order moves `key` to the back.
    fn update_key_order(&mut self, key: i32)
        requires
            old(self).wf(),
            old(self).contents().contains_key(key),
        ensures
            final(self).wf(),
            final(self).contents() == old(self).contents(),
            final(self).capacity == old(self).capacity,
            final(self).recency() == move_to_back(old(self).recency(), key),
    {
        let deque_len = self.keys_ordered_lru.len();
        self.keys_ordered_lru.push_back(key);
        let looked = self.keys_to_prune.get(&key);
        match looked {
            Some(counter) => {
                let c = *counter;
                proof {
                    assert(occ(old(self).keys_ordered_lru@, key) == 1 + c);
                    assert(old(self).keys_ordered_lru@.to_multiset().count(key) <= old(self).keys_ordered_lru@.to_multiset().len());
                }
                self.keys_to_prune.insert(key, c + 1);
            },
            None => {
                self.keys_to_prune.insert(key, 1);
            },
        }
        proof {
            assert forall|k: i32|
                occ(self.keys_ordered_lru@, k) == (if self.cache@.contains_key(k) {
                    1 + self.pc(k)
                } else {
                    0
                }) by {
                assert(self.keys_ordered_lru@ == old(self).keys_ordered_lru@.push(key));
                assert(self.keys_ordered_lru@.to_multiset() =~= old(
                    self,
                ).keys_ordered_lru@.to_multiset().insert(key));
                assert(occ(old(self).keys_ordered_lru@, k) == (if old(
                    self,
                ).cache@.contains_key(k) {
                    1 + old(self).pc(k)
                } else {
                    0
                }));
                if k == key {
                    assert(occ(self.keys_ordered_lru@, key) == occ(
                        old(self).keys_ordered_lru@,
                        key,
                    ) + 1);
                    assert(self.pc(key) == old(self).pc(key) + 1);
                } else {
                    assert(occ(self.keys_ordered_lru@, k) == occ(old(self).keys_ordered_lru@, k));
                    assert(self.pc(k) == old(self).pc(k));
                }
            }
            assert(self.recency() =~= move_to_back(old(self).recency(), key)) by {
                assert(self.keys_ordered_lru@.drop_last() =~= old(self).keys_ordered_lru@);
                assert(self.keys_ordered_lru@.last() == key);
            }
        }
    }

    /// The value of `key`, with `key` becoming the most recently used — or
    /// `-1`, and no change at all, if `key` is not cached.  (A stored `-1`
    /// and a miss are indistinguishable to the caller, as in any cache with
    /// an in-band miss value.)
    pub fn get(&mut self, key: i32) -> (r: i32)
        requires
            old(self).wf(),
        ensures
            final(self).wf(),
            final(self).contents() == old(self).contents(),
            final(self).capacity == old(self).capacity,
            old(self).contents().contains_key(key) ==> r == old(self).contents()[key] && final(self).recency() == move_to_back(old(self).recency(), key),
            !old(self).contents().contains_key(key) ==> r == -1 && *final(self) == *old(self),
    {
        let looked = self.cache.get(&key);
        match looked {
            Some(v) => {
                let value = *v;
                self.update_key_order(key);
                value
            },
            None => -1,
        }
    }

    /// Rebuilds the deque, dropping every stale appearance: afterwards the
    /// deque *is* the recency order and no stale counts remain.  Nothing the
    /// abstraction sees changes.
    fn prune(&mut self)
        requires
            old(self).wf(),
        ensures
            final(self).wf(),
            final(self).contents() == old(self).contents(),
            final(self).capacity == old(self).capacity,
            final(self).keys_ordered_lru@ == old(self).recency(),
            final(self).keys_to_prune@ == Map::<i32, usize>::empty(),
            final(self).recency() == old(self).recency(),
    {
        let ghost orig = old(self).keys_ordered_lru@;
        let mut kept: VecDeque<i32> = VecDeque::new();
        proof {
            assert forall|k: i32| occ(kept@, k) == 0nat by {
                assert(!kept@.contains(k));
            }
        }
        while self.keys_ordered_lru.len() > 0
            invariant
                self.cache == old(self).cache,
                self.capacity == old(self).capacity,
                self.capacity >= 1,
                self.cache@.len() <= self.capacity,
                forall|k: i32|
                    self.keys_to_prune@.contains_key(k) ==> self.cache@.contains_key(k)
                        && self.keys_to_prune@[k] >= 1,
                forall|k: i32|
                    #![trigger occ(self.keys_ordered_lru@, k)]
                    self.cache@.contains_key(k) && self.keys_to_prune@.contains_key(k) ==> occ(
                        self.keys_ordered_lru@,
                        k,
                    ) == 1 + self.keys_to_prune@[k] && occ(kept@, k) == 0,
                forall|k: i32|
                    #![trigger occ(self.keys_ordered_lru@, k)]
                    self.cache@.contains_key(k) && !self.keys_to_prune@.contains_key(k) ==> occ(
                        self.keys_ordered_lru@,
                        k,
                    ) + occ(kept@, k) == 1,
                forall|k: i32|
                    #![trigger occ(self.keys_ordered_lru@, k)]
                    !self.cache@.contains_key(k) ==> occ(self.keys_ordered_lru@, k) == 0 && occ(
                        kept@,
                        k,
                    ) == 0,
                kept@ + keep_last(self.keys_ordered_lru@) =~= keep_last(orig),
                kept@.no_duplicates(),
            decreases self.keys_ordered_lru@.len(),
        {
            let ghost entry = self.keys_ordered_lru@;
            let key = self.keys_ordered_lru.pop_front().unwrap();
            let ghost before = seq![key] + self.keys_ordered_lru@;
            proof {
                assert(before =~= entry);
                assert(before.drop_first() =~= self.keys_ordered_lru@);
                assert(before.first() == key);
                assert(before.to_multiset() =~= self.keys_ordered_lru@.to_multiset().insert(
                    key,
                )) by {
                    assert(before.remove(0) =~= self.keys_ordered_lru@);
                }
                lemma_keep_last_front(before);
                assert(before.contains(key)) by {
                    assert(before[0] == key);
                }
                assert(occ(entry, key) == occ(before, key));
                assert(occ(before, key) >= 1);
                assert(self.cache@.contains_key(key)) by {
                    if !self.cache@.contains_key(key) {
                        assert(occ(entry, key) == 0);
                    }
                }
            }
            let looked = self.keys_to_prune.get(&key);
            match looked {
                Some(counter) => {
                    let count = *counter;
                    proof {
                        assert(occ(before, key) == 1 + count);
                        assert(occ(self.keys_ordered_lru@, key) == count);
                        assert(self.keys_ordered_lru@.contains(key)) by {
                            assert(self.keys_ordered_lru@.to_multiset().count(key) > 0);
                        }
                        assert(before.drop_first().contains(before.first()));
                        assert(keep_last(before) == keep_last(self.keys_ordered_lru@));
                    }
                    if count == 1 {
                        self.keys_to_prune.remove(&key);
                    } else {
                        self.keys_to_prune.insert(key, count - 1);
                    }
                    proof {
                        assert forall|k: i32| #![trigger occ(self.keys_ordered_lru@, k)]
                            k != key ==> occ(self.keys_ordered_lru@, k) == occ(entry, k) by {
                            if k != key {
                                assert(entry.to_multiset()
                                    =~= self.keys_ordered_lru@.to_multiset().insert(key));
                            }
                        }
                        assert(occ(self.keys_ordered_lru@, key) == count);
                        assert(keep_last(entry) == keep_last(self.keys_ordered_lru@));
                        assert(kept@ + keep_last(self.keys_ordered_lru@) =~= keep_last(orig));
                    }
                },
                None => {
                    proof {
                        assert(occ(before, key) == 1);
                        assert(occ(self.keys_ordered_lru@, key) == 0);
                        assert(!self.keys_ordered_lru@.contains(key)) by {
                            if self.keys_ordered_lru@.contains(key) {
                                assert(occ(self.keys_ordered_lru@, key) > 0);
                            }
                        }
                        assert(!before.drop_first().contains(before.first()));
                        assert(keep_last(before) == seq![key] + keep_last(
                            self.keys_ordered_lru@,
                        ));
                        assert(!kept@.contains(key)) by {
                            if kept@.contains(key) {
                                assert(occ(kept@, key) > 0);
                            }
                        }
                    }
                    let ghost kept_before = kept@;
                    kept.push_back(key);
                    proof {
                        assert forall|k: i32| #![trigger occ(self.keys_ordered_lru@, k)]
                            k != key ==> occ(self.keys_ordered_lru@, k) == occ(entry, k) && occ(
                                kept@,
                                k,
                            ) == occ(kept_before, k) by {
                            if k != key {
                                assert(entry.to_multiset()
                                    =~= self.keys_ordered_lru@.to_multiset().insert(key));
                                assert(kept@.to_multiset() =~= kept_before.to_multiset().insert(
                                    key,
                                ));
                            }
                        }
                        assert(occ(self.keys_ordered_lru@, key) == 0);
                        assert(occ(kept_before, key) == 0);
                        assert(occ(kept@, key) == 1) by {
                            assert(kept@.to_multiset() =~= kept_before.to_multiset().insert(key));
                        }
                        assert(kept@.no_duplicates()) by {
                            assert(kept@.drop_last() =~= kept_before);
                            assert(forall|t: int|
                                0 <= t < kept_before.len() ==> kept_before[t] == #[trigger] kept@[t]);
                            assert(kept@[kept@.len() - 1] == key);
                        }
                        assert(kept@ + keep_last(self.keys_ordered_lru@) =~= kept_before + (seq![
                            key,
                        ] + keep_last(self.keys_ordered_lru@)));
                        assert(keep_last(entry) == seq![key] + keep_last(self.keys_ordered_lru@));
                        assert(kept@ + keep_last(self.keys_ordered_lru@) =~= keep_last(orig));
                    }
                },
            }
        }
        let ghost drained = self.keys_ordered_lru@;
        proof {
            assert(drained.len() == 0);
            assert(keep_last(drained) =~= Seq::<i32>::empty());
            assert(kept@ =~= keep_last(orig));
            assert forall|k: i32| occ(drained, k) == 0nat by {
                assert(drained.to_multiset().len() == 0);
            }
        }
        self.keys_ordered_lru = kept;
        proof {
            lemma_keep_last_elems(orig);
            assert(self.keys_to_prune@ =~= Map::<i32, usize>::empty()) by {
                assert forall|k: i32| !self.keys_to_prune@.contains_key(k) by {
                    if self.keys_to_prune@.contains_key(k) {
                        assert(occ(drained, k) == 1 + self.keys_to_prune@[k]);
                    }
                }
            }
            lemma_keep_last_of_nodup(kept@);
            assert forall|k: i32|
                occ(self.keys_ordered_lru@, k) == (if self.cache@.contains_key(k) {
                    1 + self.pc(k)
                } else {
                    0
                }) by {
                assert(self.pc(k) == 0);
                if self.cache@.contains_key(k) {
                    assert(occ(drained, k) + occ(kept@, k) == 1);
                    assert(occ(self.keys_ordered_lru@, k) == occ(kept@, k));
                } else {
                    assert(occ(drained, k) == 0 && occ(kept@, k) == 0);
                }
            }
        }
    }

    /// Stores `value` under `key`, making `key` the most recently used.  A
    /// new key entering a full cache evicts the least recently used key —
    /// the front of [`LRUCache::recency`] — first.
    pub fn put(&mut self, key: i32, value: i32)
        requires
            old(self).wf(),
        ensures
            final(self).wf(),
            final(self).capacity == old(self).capacity,
            old(self).contents().contains_key(key) ==> final(self).contents() == old(self).contents().insert(key, value) && final(self).recency() == move_to_back(
                old(self).recency(),
                key,
            ),
            !old(self).contents().contains_key(key) && old(self).contents().len() < old(self).capacity ==> final(self).contents() == old(self).contents().insert(key, value)
                && final(self).recency() == old(self).recency().push(key),
            !old(self).contents().contains_key(key) && old(self).contents().len() >= old(self).capacity ==> final(self).contents() == old(self).contents().remove(
                old(self).recency()[0],
            ).insert(key, value) && final(self).recency() == old(self).recency().drop_first().push(
                key,
            ),
    {
        if self.cache.contains_key(&key) {
            self.cache.insert(key, value);
            proof {
                assert(self.cache@ =~= old(self).cache@.insert(key, value));
                assert(self.cache@.len() == old(self).cache@.len()) by {
                    assert(self.cache@.dom() =~= old(self).cache@.dom());
                }
            }
            self.update_key_order(key);
        } else {
            self.prune();
            let ghost pruned = *self;
            if self.cache.len() >= self.capacity {
                proof {
                    lemma_keep_last_elems(old(self).keys_ordered_lru@);
                    assert(self.cache@.len() >= 1);
                    assert(self.cache@.dom().len() >= 1);
                    let some_key = self.cache@.dom().choose();
                    assert(self.cache@.dom().contains(some_key)) by {
                        if self.cache@.dom().len() > 0 {
                            vstd::set_lib::lemma_set_empty_equivalency_len(self.cache@.dom());
                        }
                    }
                    assert(occ(self.keys_ordered_lru@, some_key) == 1);
                    assert(self.keys_ordered_lru@.to_multiset().len() >= 1);
                    assert(self.keys_ordered_lru@.len() >= 1);
                }
                let popped = self.keys_ordered_lru.pop_front();
                let key_popped = match popped {
                    Some(k) => k,
                    None => {
                        proof {
                            assert(false);
                        }
                        0
                    },
                };
                let ghost mid = *self;
                proof {
                    assert(pruned.keys_ordered_lru@ =~= seq![key_popped]
                        + mid.keys_ordered_lru@);
                    assert(pruned.keys_ordered_lru@.to_multiset()
                        =~= mid.keys_ordered_lru@.to_multiset().insert(key_popped)) by {
                        assert(pruned.keys_ordered_lru@.remove(0) =~= mid.keys_ordered_lru@);
                    }
                    assert(pruned.cache@.contains_key(key_popped)) by {
                        assert(occ(pruned.keys_ordered_lru@, key_popped) >= 1);
                    }
                }
                self.cache.remove(&key_popped);
                proof {
                    assert(self.cache@ =~= pruned.cache@.remove(key_popped));
                    assert(self.cache@.len() == pruned.cache@.len() - 1);
                    assert forall|k: i32|
                        occ(self.keys_ordered_lru@, k) == (if self.cache@.contains_key(k) {
                            1nat
                        } else {
                            0nat
                        }) by {
                        lemma_keep_last_elems(old(self).keys_ordered_lru@);
                        lemma_nodup_occ(pruned.keys_ordered_lru@, k);
                        lemma_nodup_occ_drop(pruned.keys_ordered_lru@, k);
                        if k == key_popped {
                            assert(occ(pruned.keys_ordered_lru@, k) == 1);
                        }
                    }
                }
            }
            let ghost base = *self;
            self.cache.insert(key, value);
            self.keys_ordered_lru.push_back(key);
            proof {
                assert(self.cache@ =~= base.cache@.insert(key, value));
                assert(self.cache@.len() == base.cache@.len() + 1) by {
                    assert(self.cache@.dom() =~= base.cache@.dom().insert(key));
                    assert(!base.cache@.dom().contains(key));
                }
                assert(self.keys_ordered_lru@.drop_last() =~= base.keys_ordered_lru@);
                assert(self.keys_ordered_lru@.last() == key);
                assert(self.keys_ordered_lru@ == base.keys_ordered_lru@.push(key));
                assert(keep_last(self.keys_ordered_lru@) == without(
                    keep_last(base.keys_ordered_lru@),
                    key,
                ).push(key));

                // the deque held by `base` has no duplicates and no `key`
                lemma_keep_last_elems(old(self).keys_ordered_lru@);
                assert(pruned.keys_ordered_lru@.no_duplicates());
                assert forall|k: i32|
                    #![trigger occ(base.keys_ordered_lru@, k)]
                    occ(base.keys_ordered_lru@, k) == (if base.cache@.contains_key(k) {
                        1nat
                    } else {
                        0nat
                    }) by {
                    if !(old(self).contents().len() >= old(self).capacity) {
                        assert(occ(pruned.keys_ordered_lru@, k) == (
                        if pruned.cache@.contains_key(k) {
                            1 + pruned.pc(k)
                        } else {
                            0
                        }));
                    }
                }
                assert(!base.keys_ordered_lru@.contains(key)) by {
                    if base.keys_ordered_lru@.contains(key) {
                        assert(occ(base.keys_ordered_lru@, key) > 0);
                    }
                }
                assert(base.keys_ordered_lru@.no_duplicates()) by {
                    if old(self).contents().len() >= old(self).capacity {
                        assert(base.keys_ordered_lru@ =~= pruned.keys_ordered_lru@.drop_first());
                        assert forall|i: int, j: int|
                            0 <= i < j < base.keys_ordered_lru@.len() implies base.keys_ordered_lru@[i]
                            != base.keys_ordered_lru@[j] by {
                            assert(pruned.keys_ordered_lru@[i + 1] != pruned.keys_ordered_lru@[j
                                + 1]);
                        }
                    }
                }
                lemma_keep_last_of_nodup(base.keys_ordered_lru@);
                lemma_keep_last_of_nodup_helper(base.keys_ordered_lru@, key);
                assert(self.recency() == base.keys_ordered_lru@.push(key));

                assert(self.keys_to_prune@ == pruned.keys_to_prune@);
                assert forall|k: i32|
                    occ(self.keys_ordered_lru@, k) == (if self.cache@.contains_key(k) {
                        1 + self.pc(k)
                    } else {
                        0
                    }) by {
                    assert(self.keys_ordered_lru@.to_multiset()
                        =~= base.keys_ordered_lru@.to_multiset().insert(key));
                    assert(self.pc(k) == 0) by {
                        assert(!self.keys_to_prune@.contains_key(k));
                    }
                    if k == key {
                        assert(occ(self.keys_ordered_lru@, key) == occ(
                            base.keys_ordered_lru@,
                            key,
                        ) + 1);
                        assert(occ(base.keys_ordered_lru@, key) == 0);
                    } else {
                        assert(occ(self.keys_ordered_lru@, k) == occ(base.keys_ordered_lru@, k));
                    }
                }
                if !(old(self).contents().len() >= old(self).capacity) {
                    assert(base.keys_ordered_lru@ == old(self).recency());
                    assert(self.recency() =~= old(self).recency().push(key));
                } else {
                    assert(base.keys_ordered_lru@ =~= pruned.keys_ordered_lru@.drop_first());
                    assert(self.recency() =~= old(self).recency().drop_first().push(key));
                }
            }
        }
    }
}

/// Filtering keeps a sequence duplicate-free.
proof fn lemma_filter_nodup(s: Seq<i32>, p: spec_fn(i32) -> bool)
    requires
        s.no_duplicates(),
    ensures
        s.filter(p).no_duplicates(),
    decreases s.len(),
{
    reveal(Seq::filter);
    if s.len() != 0 {
        let rest = s.drop_last();
        let b = s.last();
        assert(rest.no_duplicates());
        lemma_filter_nodup(rest, p);
        assert(!rest.contains(b)) by {
            if rest.contains(b) {
                let i = choose|i: int| 0 <= i < rest.len() && rest[i] == b;
                assert(s[i] == s[s.len() - 1]);
            }
        }
        if p(b) {
            assert(s.filter(p) == rest.filter(p).push(b));
            assert(!rest.filter(p).contains(b)) by {
                if rest.filter(p).contains(b) {
                    let i = choose|i: int| 0 <= i < rest.filter(p).len() && rest.filter(p)[i] == b;
                    lemma_filter_source(rest, p, i);
                }
            }
            assert forall|i: int, j: int|
                0 <= i < j < s.filter(p).len() implies s.filter(p)[i] != s.filter(p)[j] by {
                if j < s.filter(p).len() - 1 {
                    assert(rest.filter(p)[i] != rest.filter(p)[j]);
                } else {
                    assert(s.filter(p)[j] == b);
                    assert(rest.filter(p).contains(rest.filter(p)[i]));
                }
            }
        } else {
            assert(s.filter(p) == rest.filter(p));
        }
    }
}

/// Every element of a filtered sequence comes from the source.
proof fn lemma_filter_source(s: Seq<i32>, p: spec_fn(i32) -> bool, i: int)
    requires
        0 <= i < s.filter(p).len(),
    ensures
        s.contains(s.filter(p)[i]),
    decreases s.len(),
{
    reveal(Seq::filter);
    if s.len() != 0 {
        let rest = s.drop_last();
        if p(s.last()) && i == s.filter(p).len() - 1 {
            assert(s[s.len() - 1] == s.filter(p)[i]);
        } else {
            lemma_filter_source(rest, p, i);
            let j = choose|j: int| 0 <= j < rest.len() && rest[j] == rest.filter(p)[i];
            assert(s[j] == s.filter(p)[i]);
        }
    }
}

/// In a duplicate-free sequence every key appears at most once.
proof fn lemma_nodup_occ(s: Seq<i32>, k: i32)
    requires
        s.no_duplicates(),
    ensures
        occ(s, k) <= 1,
        s.contains(k) ==> occ(s, k) == 1,
        !s.contains(k) ==> occ(s, k) == 0,
{
    s.lemma_multiset_has_no_duplicates();
    if s.contains(k) {
        assert(s.to_multiset().contains(k));
    }
    if !s.contains(k) {
        if occ(s, k) > 0 {
            assert(s.contains(k));
        }
    }
}

/// Dropping the first element of a duplicate-free sequence removes exactly
/// that key's appearance.
proof fn lemma_nodup_occ_drop(s: Seq<i32>, k: i32)
    requires
        s.no_duplicates(),
        s.len() > 0,
    ensures
        occ(s.drop_first(), k) == (if k == s[0] {
            (occ(s, k) - 1) as nat
        } else {
            occ(s, k)
        }),
{
    assert(s.remove(0) =~= s.drop_first());
}

/// Appending an absent key to a duplicate-free recency order keeps the
/// order and appends the key.
proof fn lemma_keep_last_of_nodup_helper(s: Seq<i32>, key: i32)
    requires
        !s.contains(key),
    ensures
        without(keep_last(s), key) == keep_last(s),
{
    lemma_keep_last_elems(s);
    assert(!keep_last(s).contains(key));
    lemma_without_absent(keep_last(s), key);
}


} // verus!
