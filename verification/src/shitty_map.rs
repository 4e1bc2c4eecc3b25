//! A size-adaptive associative container.
//!
//! The container starts empty, stores up to [`INLINE_CAP`] entries as a
//! linearly scanned sequence of pairs, and permanently promotes to an
//! ordered tree map once an insertion would exceed that threshold.  Keys are
//! unique across the whole container, and once promoted the container never
//! returns to the inline representation, even if removals shrink it.

use std::collections::BTreeMap;

use vstd::laws_cmp::obeys_cmp;
use vstd::prelude::*;
use vstd::std_specs::cmp::OrdSpec;

verus! {

use core::cmp::Ordering;

/// How many entries the inline representation holds before an insertion of a
/// fresh key promotes the container to the tree representation.
pub const INLINE_CAP: usize = 10;

/// A presence-only specialization of [`ShittyMap`].
pub type ShittySet<T> = ShittyMap<T, ()>;

/// A size-adaptive associative container with unique keys.
pub enum ShittyMap<K, V> {
    /// No entries.
    Empty,
    /// Up to [`INLINE_CAP`] entries, linearly scanned, in insertion order
    /// (removals swap the last entry into the gap).
    Inline(Vec<(K, V)>),
    /// Arbitrarily many entries in an ordered tree keyed by the total order
    /// on `K`; the container never leaves this state.
    Overflow(BTreeMap<K, V>),
}

/// No two pairs of the sequence carry the same key.
pub open spec fn unique_keys<K, V>(s: Seq<(K, V)>) -> bool {
    forall|i: int, j: int|
        #![trigger s[i], s[j]]
        0 <= i < j < s.len() ==> s[i].0 != s[j].0
}

/// The map that a sequence of key/value pairs denotes; later pairs win,
/// though the container only ever builds sequences with unique keys.
pub open spec fn pairs_map<K, V>(s: Seq<(K, V)>) -> Map<K, V>
    decreases s.len(),
{
    if s.len() == 0 {
        Map::empty()
    } else {
        pairs_map(s.drop_last()).insert(s.last().0, s.last().1)
    }
}

/// What [`pairs_map`] contains: exactly the keys of the sequence, and, when
/// the keys are unique, each bound to the value its pair carries.
pub proof fn lemma_pairs_map_char<K, V>(s: Seq<(K, V)>)
    ensures
        pairs_map(s).dom().finite(),
        forall|i: int| 0 <= i < s.len() ==> pairs_map(s).contains_key((#[trigger] s[i]).0),
        forall|k: K| #[trigger]
            pairs_map(s).contains_key(k) ==> exists|i: int|
                0 <= i < s.len() && (#[trigger] s[i]).0 == k,
        unique_keys(s) ==> forall|i: int|
            0 <= i < s.len() ==> pairs_map(s)[(#[trigger] s[i]).0] == s[i].1,
        unique_keys(s) ==> pairs_map(s).dom().len() == s.len(),
    decreases s.len(),
{
    if s.len() == 0 {
        assert(pairs_map(s).dom() =~= Set::<K>::empty());
    } else {
        let t = s.drop_last();
        lemma_pairs_map_char(t);
        assert forall|i: int| 0 <= i < s.len() implies pairs_map(s).contains_key(
            (#[trigger] s[i]).0,
        ) by {
            if i < s.len() - 1 {
                assert(t[i] == s[i]);
            }
        }
        assert forall|k: K| #[trigger] pairs_map(s).contains_key(k) implies exists|i: int|
            0 <= i < s.len() && (#[trigger] s[i]).0 == k by {
            if k == s.last().0 {
                assert(0 <= s.len() - 1 < s.len() && s[s.len() - 1].0 == k);
            } else {
                let i = choose|i: int| 0 <= i < t.len() && (#[trigger] t[i]).0 == k;
                assert(s[i] == t[i]);
            }
        }
        if unique_keys(s) {
            assert(unique_keys(t)) by {
                assert forall|i: int, j: int|
                    #![trigger t[i], t[j]]
                    0 <= i < j < t.len() implies t[i].0 != t[j].0 by {
                    assert(s[i] == t[i] && s[j] == t[j]);
                }
            }
            assert forall|i: int| 0 <= i < s.len() implies pairs_map(s)[(#[trigger] s[i]).0]
                == s[i].1 by {
                if i < s.len() - 1 {
                    assert(s[i] == t[i]);
                    assert(s[i].0 != s.last().0);
                }
            }
            assert(!pairs_map(t).contains_key(s.last().0)) by {
                if pairs_map(t).contains_key(s.last().0) {
                    let i = choose|i: int|
                        0 <= i < t.len() && (#[trigger] t[i]).0 == s.last().0;
                    assert(s[i] == t[i]);
                    assert(s[i].0 != s[s.len() - 1].0);
                }
            }
            assert(pairs_map(s).dom().len() == s.len());
        }
    }
}

/// Membership after the container's mutations: however a container's map
/// view was reached by inserts and removes, storing `value` under `key`
/// makes `key` a member bound to `value`, dropping `key` removes its
/// membership, and neither touches the membership or value of any other
/// key.  Together with the `insert`/`remove`/`contains_key`/`get` contracts,
/// which update and query exactly this view, membership always reflects the
/// operations performed.
pub proof fn lemma_membership<K, V>(m: Map<K, V>, key: K, value: V, other: K)
    ensures
        m.insert(key, value).contains_key(key),
        m.insert(key, value)[key] == value,
        !m.remove(key).contains_key(key),
        other != key ==> m.insert(key, value).contains_key(other) == m.contains_key(other),
        other != key ==> m.insert(key, value).contains_key(other) ==> m.insert(key, value)[other]
            == m[other],
        other != key ==> m.remove(key).contains_key(other) == m.contains_key(other),
        other != key ==> m.remove(key).contains_key(other) ==> m.remove(key)[other] == m[other],
{
}

/// Replacing the value of the pair at index `i` keeps the keys unique and
/// denotes the old map with that pair's key rebound to the new value.
proof fn lemma_pairs_map_update<K, V>(before: Seq<(K, V)>, i: int, value: V)
    requires
        unique_keys(before),
        0 <= i < before.len(),
    ensures
        unique_keys(before.update(i, (before[i].0, value))),
        pairs_map(before.update(i, (before[i].0, value))) == pairs_map(before).insert(
            before[i].0,
            value,
        ),
{
    let key = before[i].0;
    let after = before.update(i, (key, value));
    lemma_pairs_map_char(before);
    lemma_pairs_map_char(after);
    assert(unique_keys(after)) by {
        assert forall|a: int, b: int|
            #![trigger after[a], after[b]]
            0 <= a < b < after.len() implies after[a].0 != after[b].0 by {
            assert(before[a].0 == after[a].0 && before[b].0 == after[b].0);
        }
    }
    assert(pairs_map(after) =~= pairs_map(before).insert(key, value)) by {
        assert forall|k: K| #[trigger] pairs_map(after).contains_key(k) implies pairs_map(
            before,
        ).insert(key, value).contains_key(k) by {
            let a = choose|a: int| 0 <= a < after.len() && (#[trigger] after[a]).0 == k;
            assert(before[a].0 == k);
        }
        assert forall|k: K| pairs_map(before).insert(key, value).contains_key(
            k,
        ) implies #[trigger] pairs_map(after).contains_key(k) by {
            if k == key {
                assert(after[i].0 == k);
            } else {
                let a = choose|a: int| 0 <= a < before.len() && (#[trigger] before[a]).0 == k;
                assert(after[a].0 == k);
            }
        }
        assert forall|k: K| #[trigger] pairs_map(after).contains_key(k) implies pairs_map(
            after,
        )[k] == pairs_map(before).insert(key, value)[k] by {
            let a = choose|a: int| 0 <= a < after.len() && (#[trigger] after[a]).0 == k;
            assert(pairs_map(after)[k] == after[a].1);
            if a == i {
                assert(k == key);
            } else {
                assert(after[a] == before[a]);
                assert(k != key) by {
                    assert(after[i].0 == key);
                }
                assert(pairs_map(before)[k] == before[a].1);
            }
        }
    }
}

/// The key type's comparison obeys its specification, forms a lawful total
/// order, and reports `Equal` exactly on equal values.  Every ordinary `Ord`
/// key type (integers, tuples of integers, and the like) satisfies this.
pub open spec fn valid_key_type<K: Ord>() -> bool {
    &&& obeys_cmp::<K>()
    &&& forall|x: K, y: K| (#[trigger] x.cmp_spec(&y)) == Ordering::Equal <==> x == y
}

/// A valid key type's executable `cmp` agrees with `cmp_spec`.
proof fn lemma_key_laws<K: Ord>()
    requires
        valid_key_type::<K>(),
    ensures
        K::obeys_cmp_spec(),
{
    reveal(vstd::laws_cmp::obeys_cmp_ord);
}

impl<K, V> ShittyMap<K, V> {
    /// The container is well formed: the inline representation never holds
    /// more than [`INLINE_CAP`] pairs, and its keys are unique.
    pub open spec fn wf(self) -> bool {
        match self {
            ShittyMap::Empty => true,
            ShittyMap::Inline(data) => data@.len() <= INLINE_CAP && unique_keys(data@),
            ShittyMap::Overflow(_) => true,
        }
    }

    /// An empty container.
    pub fn new() -> (r: Self)
        ensures
            r.wf(),
            r@ == Map::<K, V>::empty(),
            r is Empty,
    {
        Self::Empty
    }

    /// The index of the pair carrying `key`, by linear scan.
    fn find_index(data: &Vec<(K, V)>, key: &K) -> (r: Option<usize>) where K: Ord
        requires
            valid_key_type::<K>(),
        ensures
            match r {
                Some(i) => i < data@.len() && data@[i as int].0 == *key,
                None => forall|i: int| 0 <= i < data@.len() ==> (#[trigger] data@[i]).0 != *key,
            },
    {
        proof {
            lemma_key_laws::<K>();
        }
        let mut i: usize = 0;
        while i < data.len()
            invariant
                valid_key_type::<K>(),
                K::obeys_cmp_spec(),
                i <= data@.len(),
                forall|j: int| 0 <= j < i ==> (#[trigger] data@[j]).0 != *key,
            decreases data@.len() - i,
        {
            match key.cmp(&data[i].0) {
                Ordering::Equal => {
                    return Some(i);
                },
                _ => {},
            }
            i += 1;
        }
        None
    }

    /// The value stored under `key`, if any.
    pub fn get(&self, key: &K) -> (r: Option<&V>) where K: Ord
        requires
            valid_key_type::<K>(),
            self.wf(),
        ensures
            match r {
                Some(v) => self@.contains_key(*key) && *v == self@[*key],
                None => !self@.contains_key(*key),
            },
    {
        match self {
            ShittyMap::Empty => None,
            ShittyMap::Inline(data) => {
                proof {
                    lemma_pairs_map_char(data@);
                }
                match Self::find_index(data, key) {
                    Some(i) => Some(&data[i].1),
                    None => None,
                }
            },
            ShittyMap::Overflow(map) => map.get(key),
        }
    }

    /// Whether `key` is currently a member.
    pub fn contains_key(&self, key: &K) -> (r: bool) where K: Ord
        requires
            valid_key_type::<K>(),
            self.wf(),
        ensures
            r == self@.contains_key(*key),
    {
        self.get(key).is_some()
    }

    /// The number of entries, per the current representation.
    pub fn len(&self) -> (r: usize) where K: Ord
        requires
            valid_key_type::<K>(),
            self.wf(),
        ensures
            r as nat == self@.dom().len(),
    {
        match self {
            ShittyMap::Empty => {
                proof {
                    assert(self@.dom() =~= Set::<K>::empty());
                }
                0
            },
            ShittyMap::Inline(data) => {
                proof {
                    lemma_pairs_map_char(data@);
                }
                data.len()
            },
            ShittyMap::Overflow(map) => map.len(),
        }
    }
}

impl<K, V> ShittyMap<K, V> {
    /// Move every inline pair into a fresh tree map.
    fn promote(data: Vec<(K, V)>) -> (m: BTreeMap<K, V>) where K: Ord
        requires
            valid_key_type::<K>(),
            unique_keys(data@),
        ensures
            m@ == pairs_map(data@),
    {
        let ghost orig = data@;
        let mut data = data;
        let mut m: BTreeMap<K, V> = BTreeMap::new();
        let ghost mut j: int = 0;
        proof {
            assert(orig.skip(0) =~= orig);
            assert(orig.take(0) =~= Seq::<(K, V)>::empty());
        }
        while data.len() > 0
            invariant
                valid_key_type::<K>(),
                0 <= j <= orig.len(),
                data@ == orig.skip(j),
                m@ == pairs_map(orig.take(j)),
            decreases data@.len(),
        {
            let pair = data.remove(0);
            proof {
                assert(orig.skip(j)[0] == orig[j]);
                assert(orig.skip(j).remove(0) =~= orig.skip(j + 1));
            }
            m.insert(pair.0, pair.1);
            proof {
                assert(orig.take(j + 1).drop_last() =~= orig.take(j));
                assert(orig.take(j + 1).last() == orig[j]);
                assert(m@ == pairs_map(orig.take(j + 1)));
                j = j + 1;
            }
        }
        proof {
            assert(orig.take(j) =~= orig);
        }
        m
    }

    /// Store `value` under `key`.  An existing entry has its value replaced
    /// and handed back; a fresh key is added, promoting the container to the
    /// tree representation when the inline sequence is already full.
    pub fn insert(&mut self, key: K, value: V) -> (r: Option<V>) where K: Ord
        requires
            valid_key_type::<K>(),
            old(self).wf(),
        ensures
            final(self).wf(),
            final(self)@ == old(self)@.insert(key, value),
            r == if old(self)@.contains_key(key) {
                Some(old(self)@[key])
            } else {
                None::<V>
            },
            (*old(self)) is Empty ==> (*final(self)) is Inline,
            (*old(self)) is Inline ==> if !old(self)@.contains_key(key) && old(self)@.dom().len()
                == INLINE_CAP {
                (*final(self)) is Overflow
            } else {
                (*final(self)) is Inline
            },
            (*old(self)) is Overflow ==> (*final(self)) is Overflow,
            (*old(self)) is Empty ==> final(self)->Inline_0@ == seq![(key, value)],
            (*old(self)) is Inline && !old(self)@.contains_key(key) && old(self)@.dom().len()
                < INLINE_CAP ==> final(self)->Inline_0@ == old(self)->Inline_0@.push(
                (key, value),
            ),
            (*old(self)) is Inline && old(self)@.contains_key(key)
                ==> final(self)->Inline_0@.map_values(|p: (K, V)| p.0)
                == old(self)->Inline_0@.map_values(|p: (K, V)| p.0),
    {
        let mut taken = ShittyMap::Empty;
        core::mem::swap(self, &mut taken);
        match taken {
            ShittyMap::Empty => {
                let mut v: Vec<(K, V)> = Vec::new();
                v.push((key, value));
                *self = ShittyMap::Inline(v);
                proof {
                    assert(v@ =~= seq![(key, value)]);
                    assert(v@.drop_last() =~= Seq::<(K, V)>::empty());
                    assert(pairs_map(Seq::<(K, V)>::empty()) =~= Map::<K, V>::empty());
                    assert(pairs_map(v@) =~= Map::<K, V>::empty().insert(key, value));
                }
                None
            },
            ShittyMap::Inline(mut data) => {
                proof {
                    lemma_pairs_map_char(data@);
                }
                match Self::find_index(&data, &key) {
                    Some(i) => {
                        let ghost before = data@;
                        let mut tmp = value;
                        core::mem::swap(&mut data[i].1, &mut tmp);
                        proof {
                            assert(data@ =~= before.update(
                                i as int,
                                (before[i as int].0, value),
                            ));
                            lemma_pairs_map_update(before, i as int, value);
                            assert(data@.map_values(|p: (K, V)| p.0) =~= before.map_values(
                                |p: (K, V)| p.0,
                            ));
                        }
                        *self = ShittyMap::Inline(data);
                        Some(tmp)
                    },
                    None => {
                        if data.len() < INLINE_CAP {
                            let ghost before = data@;
                            data.push((key, value));
                            proof {
                                assert(data@.drop_last() =~= before);
                                assert(unique_keys(data@)) by {
                                    assert forall|a: int, b: int|
                                        #![trigger data@[a], data@[b]]
                                        0 <= a < b < data@.len() implies data@[a].0
                                        != data@[b].0 by {
                                        if b < data@.len() - 1 {
                                            assert(before[a] == data@[a] && before[b]
                                                == data@[b]);
                                        } else {
                                            assert(before[a] == data@[a]);
                                        }
                                    }
                                }
                            }
                            *self = ShittyMap::Inline(data);
                            None
                        } else {
                            let mut m = Self::promote(data);
                            m.insert(key, value);
                            *self = ShittyMap::Overflow(m);
                            None
                        }
                    },
                }
            },
            ShittyMap::Overflow(mut map) => {
                let r = map.insert(key, value);
                *self = ShittyMap::Overflow(map);
                r
            },
        }
    }

    /// Drop the entry stored under `key`, handing its value back.  The
    /// inline representation swaps its last pair into the gap; the tree
    /// representation stays a tree even when it becomes empty.
    pub fn remove(&mut self, key: &K) -> (r: Option<V>) where K: Ord
        requires
            valid_key_type::<K>(),
            old(self).wf(),
        ensures
            final(self).wf(),
            final(self)@ == old(self)@.remove(*key),
            r == if old(self)@.contains_key(*key) {
                Some(old(self)@[*key])
            } else {
                None::<V>
            },
            (*old(self)) is Empty ==> (*final(self)) is Empty,
            (*old(self)) is Inline ==> (*final(self)) is Inline,
            (*old(self)) is Overflow ==> (*final(self)) is Overflow,
    {
        let mut taken = ShittyMap::Empty;
        core::mem::swap(self, &mut taken);
        match taken {
            ShittyMap::Empty => {
                proof {
                    assert(Map::<K, V>::empty().remove(*key) =~= Map::<K, V>::empty());
                }
                *self = ShittyMap::Empty;
                None
            },
            ShittyMap::Inline(mut data) => {
                proof {
                    lemma_pairs_map_char(data@);
                }
                match Self::find_index(&data, key) {
                    Some(i) => {
                        let ghost before = data@;
                        let pair = data.swap_remove(i);
                        proof {
                            lemma_pairs_map_char(data@);
                            assert(unique_keys(data@)) by {
                                assert forall|a: int, b: int|
                                    #![trigger data@[a], data@[b]]
                                    0 <= a < b < data@.len() implies data@[a].0
                                    != data@[b].0 by {
                                    let ua = if a == i {
                                        before.len() - 1
                                    } else {
                                        a
                                    };
                                    let ub = if b == i {
                                        before.len() - 1
                                    } else {
                                        b
                                    };
                                    assert(data@[a] == before[ua] && data@[b] == before[ub]);
                                }
                            }
                            assert(pairs_map(data@) =~= pairs_map(before).remove(*key)) by {
                                assert forall|k: K| #[trigger]
                                    pairs_map(data@).contains_key(k) implies pairs_map(
                                    before,
                                ).remove(*key).contains_key(k) by {
                                    let a = choose|a: int|
                                        0 <= a < data@.len() && (#[trigger] data@[a]).0 == k;
                                    let ua = if a == i {
                                        before.len() - 1
                                    } else {
                                        a
                                    };
                                    assert(before[ua] == data@[a]);
                                    assert(before[i as int].0 == *key);
                                    assert(k != *key);
                                }
                                assert forall|k: K|
                                    pairs_map(before).remove(*key).contains_key(
                                        k,
                                    ) implies #[trigger] pairs_map(data@).contains_key(k) by {
                                    let a = choose|a: int|
                                        0 <= a < before.len() && (#[trigger] before[a]).0 == k;
                                    if a == before.len() - 1 && i < before.len() - 1 {
                                        assert(data@[i as int] == before[a]);
                                    } else if a != i {
                                        assert(data@[a] == before[a]);
                                    }
                                }
                                assert forall|k: K| #[trigger]
                                    pairs_map(data@).contains_key(k) implies pairs_map(data@)[k]
                                    == pairs_map(before).remove(*key)[k] by {
                                    let a = choose|a: int|
                                        0 <= a < data@.len() && (#[trigger] data@[a]).0 == k;
                                    let ua = if a == i {
                                        before.len() - 1
                                    } else {
                                        a
                                    };
                                    assert(before[ua] == data@[a]);
                                    assert(pairs_map(data@)[k] == data@[a].1);
                                    assert(pairs_map(before)[k] == before[ua].1);
                                    assert(before[i as int].0 == *key && k != *key);
                                }
                            }
                            assert(pairs_map(before)[*key] == before[i as int].1);
                        }
                        *self = ShittyMap::Inline(data);
                        Some(pair.1)
                    },
                    None => {
                        proof {
                            assert(pairs_map(data@).remove(*key) =~= pairs_map(data@)) by {
                                if pairs_map(data@).contains_key(*key) {
                                    let a = choose|a: int|
                                        0 <= a < data@.len() && (#[trigger] data@[a]).0 == *key;
                                }
                            }
                        }
                        *self = ShittyMap::Inline(data);
                        None
                    },
                }
            },
            ShittyMap::Overflow(mut map) => {
                let r = map.remove(key);
                *self = ShittyMap::Overflow(map);
                r
            },
        }
    }
}

/// A mutable borrow of the value of the pair at index `i`.
fn pair_value_mut<'a, K, V>(data: &'a mut Vec<(K, V)>, i: usize) -> (v: &'a mut V)
    requires
        i < old(data)@.len(),
    ensures
        *v == old(data)@[i as int].1,
        final(data)@ == old(data)@.update(i as int, (old(data)@[i as int].0, *final(v))),
{
    proof {
        assert(old(data)@.update(i as int, (old(data)@[i as int].0, old(data)@[i as int].1))
            =~= old(data)@);
    }
    &mut data[i].1
}

/// Relies on `BTreeMap::get_mut`: hands out a mutable borrow of the value
/// stored under `key`, which its documentation promises to find whenever the
/// key is in the map.
#[verifier::external_body]
fn btree_get_mut<'a, K: Ord, V>(m: &'a mut BTreeMap<K, V>, key: &K) -> (v: &'a mut V)
    requires
        obeys_cmp::<K>(),
        old(m)@.contains_key(*key),
    ensures
        *v == old(m)@[*key],
        final(m)@ == old(m)@.insert(*key, *final(v)),
{
    m.get_mut(key).unwrap()
}

impl<K, V> ShittyMap<K, V> {
    /// A mutable borrow of the value stored under `key`, if any.
    pub fn get_mut(&mut self, key: &K) -> (r: Option<&mut V>) where K: Ord
        requires
            valid_key_type::<K>(),
            old(self).wf(),
        ensures
            final(self).wf(),
            (*old(self)) is Empty <==> (*final(self)) is Empty,
            (*old(self)) is Inline <==> (*final(self)) is Inline,
            (*old(self)) is Overflow <==> (*final(self)) is Overflow,
            match r {
                Some(v) => old(self)@.contains_key(*key) && *v == old(self)@[*key]
                    && final(self)@ == old(self)@.insert(*key, *final(v)),
                None => !old(self)@.contains_key(*key) && final(self)@ == old(self)@,
            },
    {
        match self {
            ShittyMap::Empty => None,
            ShittyMap::Inline(data) => {
                proof {
                    lemma_pairs_map_char(data@);
                }
                match Self::find_index(data, key) {
                    Some(i) => {
                        let ghost before = data@;
                        let v = pair_value_mut(data, i);
                        proof {
                            lemma_pairs_map_update(before, i as int, *final(v));
                        }
                        Some(v)
                    },
                    None => None,
                }
            },
            ShittyMap::Overflow(map) => {
                if map.contains_key(key) {
                    Some(btree_get_mut(map, key))
                } else {
                    None
                }
            },
        }
    }

    /// A mutable borrow of the value stored under `key`, creating it from
    /// `val_fn` first when the key is absent.  The factory runs at most
    /// once, and only when the key is absent.
    pub fn get_or_create<F>(&mut self, key: K, val_fn: F) -> (r: &mut V) where
        K: Ord + Copy,
        F: FnOnce() -> V,

        requires
            valid_key_type::<K>(),
            old(self).wf(),
            !old(self)@.contains_key(key) ==> call_requires(val_fn, ()),
        ensures
            final(self).wf(),
            old(self)@.contains_key(key) ==> *r == old(self)@[key],
            !old(self)@.contains_key(key) ==> call_ensures(val_fn, (), *r),
            final(self)@ == old(self)@.insert(key, *final(r)),
            (*old(self)) is Empty ==> (*final(self)) is Inline,
            (*old(self)) is Inline ==> if !old(self)@.contains_key(key) && old(self)@.dom().len()
                == INLINE_CAP {
                (*final(self)) is Overflow
            } else {
                (*final(self)) is Inline
            },
            (*old(self)) is Overflow ==> (*final(self)) is Overflow,
    {
        let present = self.contains_key(&key);
        if !present {
            let v = val_fn();
            self.insert(key, v);
        }
        match self.get_mut(&key) {
            Some(v) => v,
            None => vstd::pervasive::unreached(),
        }
    }

    /// A mutable borrow of the value stored under `key`, creating it from
    /// the fallible `val_fn` first when the key is absent.  The factory runs
    /// at most once, and only when the key is absent; when it fails, its
    /// error is handed back and the container is left exactly as it was.
    pub fn get_or_create_result<F, E>(&mut self, key: K, val_fn: F) -> (r: Result<&mut V, E>) where
        K: Ord + Copy,
        F: FnOnce() -> Result<V, E>,

        requires
            valid_key_type::<K>(),
            old(self).wf(),
            !old(self)@.contains_key(key) ==> call_requires(val_fn, ()),
        ensures
            match r {
                Ok(v) => {
                    &&& final(self).wf()
                    &&& old(self)@.contains_key(key) ==> *v == old(self)@[key]
                    &&& !old(self)@.contains_key(key) ==> call_ensures(
                        val_fn,
                        (),
                        Result::<V, E>::Ok(*v),
                    )
                    &&& final(self)@ == old(self)@.insert(key, *final(v))
                    &&& (*old(self)) is Empty ==> (*final(self)) is Inline
                    &&& (*old(self)) is Inline ==> if !old(self)@.contains_key(key) && old(
                        self,
                    )@.dom().len() == INLINE_CAP {
                        (*final(self)) is Overflow
                    } else {
                        (*final(self)) is Inline
                    }
                    &&& (*old(self)) is Overflow ==> (*final(self)) is Overflow
                },
                Err(e) => {
                    &&& *final(self) == *old(self)
                    &&& call_ensures(val_fn, (), Result::<V, E>::Err(e))
                },
            },
    {
        let present = self.contains_key(&key);
        if !present {
            let v = match val_fn() {
                Ok(v) => v,
                Err(e) => {
                    return Err(e);
                },
            };
            self.insert(key, v);
        }
        match self.get_mut(&key) {
            Some(v) => Ok(v),
            None => vstd::pervasive::unreached(),
        }
    }
}

impl<K, V> View for ShittyMap<K, V> {
    type V = Map<K, V>;

    /// The finite map the container denotes.
    open spec fn view(&self) -> Map<K, V> {
        match *self {
            ShittyMap::Empty => Map::empty(),
            ShittyMap::Inline(data) => pairs_map(data@),
            ShittyMap::Overflow(m) => m@,
        }
    }
}

/// Relies on `BTreeMap::keys`, which its documentation promises to yield
/// the map's keys in ascending order: collects them into a vector of
/// borrows, strictly ascending, one per key of the map.
#[verifier::external_body]
fn btree_keys_vec<'a, K: Ord, V>(m: &'a BTreeMap<K, V>) -> (r: Vec<&'a K>)
    requires
        obeys_cmp::<K>(),
    ensures
        r@.len() == m@.dom().len(),
        forall|i: int| 0 <= i < r@.len() ==> m@.dom().contains(*(#[trigger] r@[i])),
        forall|i: int, j: int|
            #![trigger r@[i], r@[j]]
            0 <= i < j < r@.len() ==> (*r@[i]).cmp_spec(&*r@[j]) == Ordering::Less,
        forall|k: K|
            m@.dom().contains(k) ==> exists|i: int| 0 <= i < r@.len() && *(#[trigger] r@[i]) == k,
{
    m.keys().collect()
}

/// A finite, non-restartable walk over the keys of a [`ShittyMap`]: in
/// insertion order over the inline representation, in ascending key order
/// over the tree representation.
pub enum ShittyKeys<'a, K, V> {
    /// Nothing to yield.
    Empty,
    /// A walk over the borrowed inline pairs.
    Inline { entries: &'a Vec<(K, V)>, index: usize },
    /// A walk over the tree's keys, gathered ascending.
    Overflow { keys: Vec<&'a K>, index: usize },
}

impl<'a, K, V> ShittyKeys<'a, K, V> {
    /// The keys not yet yielded, in the order they will come.
    pub open spec fn remaining(self) -> Seq<K> {
        match self {
            ShittyKeys::Empty => Seq::empty(),
            ShittyKeys::Inline { entries, index } => entries@.skip(index as int).map_values(
                |p: (K, V)| p.0,
            ),
            ShittyKeys::Overflow { keys, index } => keys@.skip(index as int).map_values(
                |k: &K| *k,
            ),
        }
    }

    /// The walk's position never passes the end.
    pub open spec fn wf(self) -> bool {
        match self {
            ShittyKeys::Empty => true,
            ShittyKeys::Inline { entries, index } => index <= entries@.len(),
            ShittyKeys::Overflow { keys, index } => index <= keys@.len(),
        }
    }

    /// The next key of the walk, or nothing once it is exhausted.
    pub fn next(&mut self) -> (r: Option<&'a K>)
        requires
            old(self).wf(),
        ensures
            final(self).wf(),
            match r {
                Some(k) => old(self).remaining().len() > 0 && *k == old(self).remaining()[0]
                    && final(self).remaining() == old(self).remaining().drop_first(),
                None => old(self).remaining().len() == 0 && final(self).remaining() == old(
                    self,
                ).remaining(),
            },
    {
        match self {
            ShittyKeys::Empty => None,
            ShittyKeys::Inline { entries, index } => {
                let e: &'a Vec<(K, V)> = *entries;
                if *index < e.len() {
                    let ghost pre = *index as int;
                    let k = &e[*index].0;
                    *index += 1;
                    proof {
                        assert(e@.skip(pre).map_values(|p: (K, V)| p.0)[0] == e@[pre].0);
                        assert(e@.skip(pre + 1) =~= e@.skip(pre).drop_first());
                        assert(e@.skip(pre + 1).map_values(|p: (K, V)| p.0) =~= e@.skip(
                            pre,
                        ).map_values(|p: (K, V)| p.0).drop_first());
                    }
                    Some(k)
                } else {
                    proof {
                        assert(e@.skip(*index as int).map_values(|p: (K, V)| p.0).len() == 0);
                    }
                    None
                }
            },
            ShittyKeys::Overflow { keys, index } => {
                if *index < keys.len() {
                    let ghost pre = *index as int;
                    let k: &'a K = keys[*index];
                    *index += 1;
                    proof {
                        assert(keys@.skip(pre).map_values(|q: &K| *q)[0] == *keys@[pre]);
                        assert(keys@.skip(pre + 1) =~= keys@.skip(pre).drop_first());
                        assert(keys@.skip(pre + 1).map_values(|q: &K| *q) =~= keys@.skip(
                            pre,
                        ).map_values(|q: &K| *q).drop_first());
                    }
                    Some(k)
                } else {
                    proof {
                        assert(keys@.skip(*index as int).map_values(|q: &K| *q).len() == 0);
                    }
                    None
                }
            },
        }
    }
}

impl<K, V> ShittyMap<K, V> {
    /// A walk over the container's keys: every current key exactly once, in
    /// insertion order while inline, in strictly ascending key order once
    /// promoted.
    pub fn keys<'a>(&'a self) -> (it: ShittyKeys<'a, K, V>) where K: Ord
        requires
            valid_key_type::<K>(),
            self.wf(),
        ensures
            it.wf(),
            it.remaining().no_duplicates(),
            it.remaining().len() == self@.dom().len(),
            forall|i: int|
                0 <= i < it.remaining().len() ==> self@.dom().contains(
                    #[trigger] it.remaining()[i],
                ),
            forall|k: K|
                self@.dom().contains(k) ==> exists|i: int|
                    0 <= i < it.remaining().len() && (#[trigger] it.remaining()[i]) == k,
            (*self) is Inline ==> it.remaining() == self->Inline_0@.map_values(|p: (K, V)| p.0),
            (*self) is Overflow ==> forall|i: int, j: int|
                #![trigger it.remaining()[i], it.remaining()[j]]
                0 <= i < j < it.remaining().len() ==> (it.remaining()[i]).cmp_spec(
                    &it.remaining()[j],
                ) == Ordering::Less,
    {
        match self {
            ShittyMap::Empty => {
                proof {
                    assert(self@.dom() =~= Set::<K>::empty());
                }
                ShittyKeys::Empty
            },
            ShittyMap::Inline(data) => {
                proof {
                    lemma_pairs_map_char(data@);
                    assert(data@.skip(0) =~= data@);
                    let rem = data@.map_values(|p: (K, V)| p.0);
                    assert forall|k: K| self@.dom().contains(k) implies exists|i: int|
                        0 <= i < rem.len() && (#[trigger] rem[i]) == k by {
                        let a = choose|a: int|
                            0 <= a < data@.len() && (#[trigger] data@[a]).0 == k;
                        assert(rem[a] == k);
                    }
                    assert(rem.no_duplicates()) by {
                        assert forall|a: int, b: int|
                            0 <= a < rem.len() && 0 <= b < rem.len() && a != b implies #[trigger]
                        rem[a] != #[trigger] rem[b] by {
                            if a < b {
                                assert(data@[a].0 != data@[b].0);
                            } else {
                                assert(data@[b].0 != data@[a].0);
                            }
                        }
                    }
                }
                ShittyKeys::Inline { entries: data, index: 0 }
            },
            ShittyMap::Overflow(map) => {
                let kv = btree_keys_vec(map);
                proof {
                    assert(kv@.skip(0) =~= kv@);
                    let rem = kv@.map_values(|q: &K| *q);
                    assert forall|k: K| self@.dom().contains(k) implies exists|i: int|
                        0 <= i < rem.len() && (#[trigger] rem[i]) == k by {
                        let a = choose|a: int| 0 <= a < kv@.len() && *(#[trigger] kv@[a]) == k;
                        assert(rem[a] == k);
                    }
                    assert(rem.no_duplicates()) by {
                        assert forall|a: int, b: int|
                            0 <= a < rem.len() && 0 <= b < rem.len() && a != b implies #[trigger]
                        rem[a] != #[trigger] rem[b] by {
                            let x = if a < b {
                                a
                            } else {
                                b
                            };
                            let y = if a < b {
                                b
                            } else {
                                a
                            };
                            assert((*kv@[x]).cmp_spec(&*kv@[y]) == Ordering::Less);
                            if rem[a] == rem[b] {
                                assert(*kv@[x] == *kv@[y]);
                                assert((*kv@[x]).cmp_spec(&*kv@[y]) == Ordering::Equal);
                            }
                        }
                    }
                }
                ShittyKeys::Overflow { keys: kv, index: 0 }
            },
        }
    }
}

impl<K, V> Default for ShittyMap<K, V> {
    /// An empty container.
    fn default() -> (r: Self)
        ensures
            r.wf(),
            r@ == Map::<K, V>::empty(),
            r is Empty,
    {
        Self::Empty
    }
}

} // verus!
