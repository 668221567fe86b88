//! Identifiers of game objects and a small verified map keyed by them.

use vstd::prelude::*;

verus! {

/// Identifier of a game object (player, card, zone, stack item).
///
/// It holds the 64-bit form of an ECS entity handle.
#[derive(Clone, Copy, PartialEq, Eq, Structural, Debug, Hash)]
pub struct EntityId(pub u64);

/// A map from entity identifiers to values that remembers insertion order.
///
/// Each key occurs at most once in `entries`; the order of `entries` is the
/// order in which keys were first inserted.
pub struct EntityMap<V> {
    pub entries: Vec<(EntityId, V)>,
}

/// No key occurs twice in `s`.
pub open spec fn keys_unique<V>(s: Seq<(EntityId, V)>) -> bool {
    forall|i: int, j: int|
        0 <= i < s.len() && 0 <= j < s.len() && i != j ==> #[trigger] s[i].0 != #[trigger] s[j].0
}

/// Some entry of `s` has key `k`.
pub open spec fn seq_has_key<V>(s: Seq<(EntityId, V)>, k: EntityId) -> bool {
    exists|i: int| 0 <= i < s.len() && #[trigger] s[i].0 == k
}

/// The index of the entry of `s` with key `k`, when there is one.
pub open spec fn seq_key_index<V>(s: Seq<(EntityId, V)>, k: EntityId) -> int {
    choose|i: int| 0 <= i < s.len() && #[trigger] s[i].0 == k
}

/// The map that an association list stands for.
pub open spec fn seq_to_map<V>(s: Seq<(EntityId, V)>) -> Map<EntityId, V> {
    Map::new(|k: EntityId| seq_has_key(s, k), |k: EntityId| s[seq_key_index(s, k)].1)
}

/// The keys of an association list, in order.
pub open spec fn seq_keys<V>(s: Seq<(EntityId, V)>) -> Seq<EntityId> {
    s.map_values(|e: (EntityId, V)| e.0)
}

/// In a list whose keys are unique, the entry found for a key is the one at `i`.
pub proof fn lemma_key_index_unique<V>(s: Seq<(EntityId, V)>, i: int)
    requires
        keys_unique(s),
        0 <= i < s.len(),
    ensures
        seq_has_key(s, s[i].0),
        seq_key_index(s, s[i].0) == i,
{
    let k = s[i].0;
    assert(s[i].0 == k);
    let j = seq_key_index(s, k);
    assert(0 <= j < s.len() && s[j].0 == k);
}

impl<V> EntityMap<V> {
    /// The map view of the entries.
    pub open spec fn view(&self) -> Map<EntityId, V> {
        seq_to_map(self.entries@)
    }

    /// Well-formedness: no key occurs twice.
    pub open spec fn wf(&self) -> bool {
        keys_unique(self.entries@)
    }

    /// Keys in insertion order.
    pub open spec fn key_seq(&self) -> Seq<EntityId> {
        seq_keys(self.entries@)
    }

    /// An empty map.
    pub fn new() -> (m: Self)
        ensures
            m.wf(),
            m@ == Map::<EntityId, V>::empty(),
            m.entries@.len() == 0,
    {
        let m = EntityMap { entries: Vec::new() };
        assert(m@ =~= Map::<EntityId, V>::empty());
        m
    }

    /// Number of keys.
    pub fn len(&self) -> (n: usize)
        requires
            self.wf(),
        ensures
            n == self.entries@.len(),
            n == self@.dom().len(),
    {
        proof {
            self.lemma_dom_len();
        }
        self.entries.len()
    }

    /// The domain of a well-formed map has as many keys as there are entries.
    pub proof fn lemma_dom_len(&self)
        requires
            self.wf(),
        ensures
            self@.dom().finite(),
            self@.dom().len() == self.entries@.len(),
        decreases self.entries@.len(),
    {
        let s = self.entries@;
        let keys = seq_keys(s);
        assert forall|i: int, j: int| 0 <= i < keys.len() && 0 <= j < keys.len() && i != j
            implies keys[i] != keys[j] by {
            assert(s[i].0 != s[j].0);
        }
        assert(keys.no_duplicates());
        assert(self@.dom() =~= keys.to_set()) by {
            assert forall|k: EntityId| self@.dom().contains(k) implies keys.to_set().contains(k) by {
                let i = seq_key_index(s, k);
                assert(keys[i] == k);
            }
            assert forall|k: EntityId| keys.to_set().contains(k) implies self@.dom().contains(k) by {
                let i = choose|i: int| 0 <= i < keys.len() && keys[i] == k;
                assert(s[i].0 == k);
            }
        }
        keys.unique_seq_to_set();
    }

    /// Position of `key` in `entries`, if present.
    pub fn find(&self, key: EntityId) -> (r: Option<usize>)
        requires
            self.wf(),
        ensures
            match r {
                Some(i) => i < self.entries@.len() && self.entries@[i as int].0 == key
                    && seq_key_index(self.entries@, key) == i,
                None => !self@.dom().contains(key),
            },
            r is Some <==> self@.dom().contains(key),
    {
        let mut i: usize = 0;
        while i < self.entries.len()
            invariant
                self.wf(),
                i <= self.entries@.len(),
                forall|j: int| 0 <= j < i ==> self.entries@[j].0 != key,
            decreases self.entries@.len() - i,
        {
            if self.entries[i].0 == key {
                proof {
                    lemma_key_index_unique(self.entries@, i as int);
                }
                return Some(i);
            }
            i = i + 1;
        }
        None
    }

    /// Whether `key` has a value.
    pub fn contains_key(&self, key: EntityId) -> (b: bool)
        requires
            self.wf(),
        ensures
            b == self@.dom().contains(key),
    {
        self.find(key).is_some()
    }

    /// The value stored for `key`.
    pub fn get(&self, key: EntityId) -> (r: Option<&V>)
        requires
            self.wf(),
        ensures
            match r {
                Some(v) => self@.dom().contains(key) && *v == self@[key],
                None => !self@.dom().contains(key),
            },
    {
        match self.find(key) {
            Some(i) => Some(&self.entries[i].1),
            None => None,
        }
    }

    /// Removes every key.
    pub fn clear(&mut self)
        ensures
            final(self).wf(),
            final(self)@ == Map::<EntityId, V>::empty(),
            final(self).entries@.len() == 0,
    {
        self.entries.clear();
        assert(self@ =~= Map::<EntityId, V>::empty());
    }

    /// Removes `key` and its value; the other entries keep their order.
    pub fn remove(&mut self, key: EntityId) -> (r: Option<V>)
        requires
            old(self).wf(),
        ensures
            final(self).wf(),
            final(self)@ == old(self)@.remove(key),
            match r {
                Some(v) => old(self)@.dom().contains(key) && v == old(self)@[key],
                None => !old(self)@.dom().contains(key),
            },
    {
        let ghost s0 = self.entries@;
        match self.find(key) {
            Some(i) => {
                let (_, v) = self.entries.remove(i);
                proof {
                    let s1 = self.entries@;
                    assert(s1 =~= s0.remove(i as int));
                    assert(keys_unique(s1)) by {
                        assert forall|a: int, b: int|
                            0 <= a < s1.len() && 0 <= b < s1.len() && a != b implies s1[a].0 != s1[b].0 by {
                            let a0 = if a < i { a } else { a + 1 };
                            let b0 = if b < i { b } else { b + 1 };
                            assert(s0[a0].0 != s0[b0].0);
                        }
                    }
                    assert forall|k: EntityId| #![auto] seq_has_key(s1, k) == (seq_has_key(s0, k) && k != key) by {
                        if seq_has_key(s0, k) && k != key {
                            let j = seq_key_index(s0, k);
                            if j < i {
                                assert(s1[j].0 == k);
                            } else {
                                assert(j != i);
                                assert(s1[j - 1].0 == k);
                            }
                        }
                        if seq_has_key(s1, k) {
                            let j = seq_key_index(s1, k);
                            let j0 = if j < i { j } else { j + 1 };
                            assert(s0[j0].0 == k);
                            if k == key {
                                assert(j0 != i);
                                assert(s0[j0].0 != s0[i as int].0);
                            }
                        }
                    }
                    assert(self@ =~= old(self)@.remove(key)) by {
                        assert forall|k: EntityId| seq_has_key(s1, k) implies
                            #[trigger] seq_to_map(s1)[k] == old(self)@.remove(key)[k] by {
                            let j = seq_key_index(s1, k);
                            lemma_key_index_unique(s1, j);
                            let j0 = if j < i { j } else { j + 1 };
                            assert(s0[j0] == s1[j]);
                            lemma_key_index_unique(s0, j0);
                        }
                    }
                }
                Some(v)
            },
            None => {
                assert(self@ =~= old(self)@.remove(key));
                None
            },
        }
    }

    /// Stores `value` for `key`, replacing any earlier value. A new key goes last.
    pub fn insert(&mut self, key: EntityId, value: V)
        requires
            old(self).wf(),
        ensures
            final(self).wf(),
            final(self)@ == old(self)@.insert(key, value),
            old(self)@.dom().contains(key) ==> final(self).key_seq() == old(self).key_seq(),
            !old(self)@.dom().contains(key) ==> final(self).key_seq() == old(self).key_seq().push(key),
    {
        let ghost s0 = self.entries@;
        match self.find(key) {
            Some(i) => {
                self.entries.set(i, (key, value));
                proof {
                    let s1 = self.entries@;
                    assert(keys_unique(s1)) by {
                        assert forall|a: int, b: int|
                            0 <= a < s1.len() && 0 <= b < s1.len() && a != b implies s1[a].0 != s1[b].0 by {
                            assert(s0[a].0 != s0[b].0);
                        }
                    }
                    assert forall|k: EntityId| #![auto] seq_has_key(s1, k) == seq_has_key(s0, k) by {
                        if seq_has_key(s0, k) {
                            let j = seq_key_index(s0, k);
                            assert(s1[j].0 == k);
                        }
                        if seq_has_key(s1, k) {
                            let j = seq_key_index(s1, k);
                            assert(s0[j].0 == k);
                        }
                    }
                    assert forall|k: EntityId| seq_has_key(s1, k) implies
                        #[trigger] s1[seq_key_index(s1, k)].1 == s0.update(i as int, (key, value))[seq_key_index(s1, k)].1 by {
                    }
                    assert(self@ =~= old(self)@.insert(key, value)) by {
                        assert forall|k: EntityId| seq_has_key(s1, k) implies
                            #[trigger] seq_to_map(s1)[k] == old(self)@.insert(key, value)[k] by {
                            let j = seq_key_index(s1, k);
                            lemma_key_index_unique(s1, j);
                            if k != key {
                                lemma_key_index_unique(s0, j);
                            }
                        }
                    }
                    assert(seq_keys(s1) =~= seq_keys(s0));
                }
            }
            None => {
                self.entries.push((key, value));
                proof {
                    let s1 = self.entries@;
                    assert(keys_unique(s1)) by {
                        assert forall|a: int, b: int|
                            0 <= a < s1.len() && 0 <= b < s1.len() && a != b implies s1[a].0 != s1[b].0 by {
                            if a < s0.len() && b < s0.len() {
                                assert(s0[a].0 != s0[b].0);
                            } else if a < s0.len() {
                                assert(s0[a].0 != key);
                            } else if b < s0.len() {
                                assert(s0[b].0 != key);
                            }
                        }
                    }
                    assert(self@ =~= old(self)@.insert(key, value)) by {
                        assert forall|k: EntityId| #![auto] seq_has_key(s1, k) == (seq_has_key(s0, k) || k == key) by {
                            if seq_has_key(s0, k) {
                                let j = seq_key_index(s0, k);
                                assert(s1[j].0 == k);
                            }
                            if k == key {
                                assert(s1[s0.len() as int].0 == k);
                            }
                            if seq_has_key(s1, k) && k != key {
                                let j = seq_key_index(s1, k);
                                assert(s0[j].0 == k);
                            }
                        }
                        assert forall|k: EntityId| seq_has_key(s1, k) implies
                            #[trigger] seq_to_map(s1)[k] == old(self)@.insert(key, value)[k] by {
                            let j = seq_key_index(s1, k);
                            lemma_key_index_unique(s1, j);
                            if k != key {
                                lemma_key_index_unique(s0, j);
                            }
                        }
                    }
                    assert(seq_keys(s1) =~= seq_keys(s0).push(key));
                }
            }
        }
    }
}

/// A key is in the map exactly when it is among the keys in order.
pub proof fn lemma_key_seq_contains<V>(m: EntityMap<V>, k: EntityId)
    ensures
        m@.dom().contains(k) <==> m.key_seq().contains(k),
{
    let s = m.entries@;
    if m@.dom().contains(k) {
        let i = seq_key_index(s, k);
        assert(m.key_seq()[i] == k);
    }
    if m.key_seq().contains(k) {
        let i = choose|i: int| 0 <= i < m.key_seq().len() && m.key_seq()[i] == k;
        assert(s[i].0 == k);
    }
}

impl<V> EntityMap<V> {
    /// Replaces the value of the `i`-th entry, returning the old value; the
    /// keys and their order stay.
    pub fn replace_at(&mut self, i: usize, value: V) -> (r: V)
        requires
            old(self).wf(),
            i < old(self).entries@.len(),
        ensures
            final(self).wf(),
            r == old(self).entries@[i as int].1,
            final(self).entries@ == old(self).entries@.update(i as int, (old(self).entries@[i as int].0, value)),
            final(self)@ == old(self)@.insert(old(self).entries@[i as int].0, value),
            final(self).key_seq() == old(self).key_seq(),
    {
        let ghost s0 = self.entries@;
        let (k, v) = self.entries.remove(i);
        self.entries.insert(i, (k, value));
        proof {
            let s1 = self.entries@;
            assert(s1 =~= s0.update(i as int, (k, value)));
            assert(keys_unique(s1)) by {
                assert forall|a: int, b: int|
                    0 <= a < s1.len() && 0 <= b < s1.len() && a != b implies s1[a].0 != s1[b].0 by {
                    assert(s0[a].0 != s0[b].0);
                }
            }
            assert forall|kk: EntityId| #![auto] seq_has_key(s1, kk) == seq_has_key(s0, kk) by {
                if seq_has_key(s0, kk) {
                    let j = seq_key_index(s0, kk);
                    assert(s1[j].0 == kk);
                }
                if seq_has_key(s1, kk) {
                    let j = seq_key_index(s1, kk);
                    assert(s0[j].0 == kk);
                }
            }
            lemma_key_index_unique(s1, i as int);
            assert(self@ =~= old(self)@.insert(k, value)) by {
                assert forall|kk: EntityId| seq_has_key(s1, kk) implies
                    #[trigger] seq_to_map(s1)[kk] == old(self)@.insert(k, value)[kk] by {
                    let j = seq_key_index(s1, kk);
                    lemma_key_index_unique(s1, j);
                    lemma_key_index_unique(s0, j);
                }
            }
            assert(seq_keys(s1) =~= seq_keys(s0));
        }
        v
    }
}

impl<V: Copy> EntityMap<V> {
    /// Gives every key the value `value`; keys and their order stay.
    pub fn set_all(&mut self, value: V)
        requires
            old(self).wf(),
        ensures
            final(self).wf(),
            final(self)@ == Map::new(|k: EntityId| old(self)@.dom().contains(k), |k: EntityId| value),
            final(self).key_seq() == old(self).key_seq(),
    {
        let ghost s0 = self.entries@;
        let mut i: usize = 0;
        while i < self.entries.len()
            invariant
                i <= self.entries@.len(),
                self.entries@.len() == s0.len(),
                forall|j: int| 0 <= j < s0.len() ==> #[trigger] self.entries@[j].0 == s0[j].0,
                forall|j: int| 0 <= j < i ==> #[trigger] self.entries@[j].1 == value,
            decreases self.entries@.len() - i,
        {
            let k = self.entries[i].0;
            self.entries.set(i, (k, value));
            i = i + 1;
        }
        proof {
            let s1 = self.entries@;
            assert(keys_unique(s1)) by {
                assert forall|a: int, b: int| 0 <= a < s1.len() && 0 <= b < s1.len() && a != b implies s1[a].0 != s1[b].0 by {
                    assert(s0[a].0 != s0[b].0);
                }
            }
            assert forall|k: EntityId| #![auto] seq_has_key(s1, k) == seq_has_key(s0, k) by {
                if seq_has_key(s0, k) {
                    let j = seq_key_index(s0, k);
                    assert(s1[j].0 == k);
                }
                if seq_has_key(s1, k) {
                    let j = seq_key_index(s1, k);
                    assert(s0[j].0 == k);
                }
            }
            assert(self@ =~= Map::new(|k: EntityId| old(self)@.dom().contains(k), |k: EntityId| value));
            assert(seq_keys(s1) =~= seq_keys(s0));
        }
    }
}

/// The sequence stored for `k`, or the empty sequence.
pub open spec fn seq_at<T>(m: Map<EntityId, Vec<T>>, k: EntityId) -> Seq<T> {
    if m.dom().contains(k) {
        m[k]@
    } else {
        Seq::empty()
    }
}

impl<T> EntityMap<Vec<T>> {
    /// Appends `x` to the list stored for `key`, starting a list when there is
    /// none. Other keys keep their lists.
    pub fn push_to(&mut self, key: EntityId, x: T)
        requires
            old(self).wf(),
        ensures
            final(self).wf(),
            final(self)@.dom() == old(self)@.dom().insert(key),
            final(self)@[key]@ == seq_at(old(self)@, key).push(x),
            forall|k: EntityId| k != key && old(self)@.dom().contains(k) ==> #[trigger] final(self)@[k] == old(self)@[k],
            old(self)@.dom().contains(key) ==> final(self).key_seq() == old(self).key_seq(),
            !old(self)@.dom().contains(key) ==> final(self).key_seq() == old(self).key_seq().push(key),
    {
        let ghost s0 = self.entries@;
        match self.find(key) {
            Some(i) => {
                let (k, mut v) = self.entries.remove(i);
                let ghost vold = v@;
                v.push(x);
                self.entries.insert(i, (k, v));
                proof {
                    let s1 = self.entries@;
                    assert forall|j: int| 0 <= j < s1.len() && j != i implies #[trigger] s1[j] == s0[j] by {}
                    assert(s1[i as int].0 == key);
                    assert(s0[i as int].1@ == vold);
                    assert(keys_unique(s1)) by {
                        assert forall|a: int, b: int|
                            0 <= a < s1.len() && 0 <= b < s1.len() && a != b implies s1[a].0 != s1[b].0 by {
                            assert(s0[a].0 != s0[b].0);
                        }
                    }
                    assert forall|kk: EntityId| #![auto] seq_has_key(s1, kk) == seq_has_key(s0, kk) by {
                        if seq_has_key(s0, kk) {
                            let j = seq_key_index(s0, kk);
                            assert(s1[j].0 == kk);
                        }
                        if seq_has_key(s1, kk) {
                            let j = seq_key_index(s1, kk);
                            assert(s0[j].0 == kk);
                        }
                    }
                    lemma_key_index_unique(s1, i as int);
                    lemma_key_index_unique(s0, i as int);
                    assert(self@.dom() =~= old(self)@.dom().insert(key));
                    assert forall|kk: EntityId| kk != key && old(self)@.dom().contains(kk) implies #[trigger] self@[kk] == old(self)@[kk] by {
                        let j = seq_key_index(s1, kk);
                        lemma_key_index_unique(s1, j);
                        lemma_key_index_unique(s0, j);
                    }
                    assert(seq_keys(s1) =~= seq_keys(s0));
                }
            },
            None => {
                let mut v: Vec<T> = Vec::new();
                v.push(x);
                self.entries.push((key, v));
                proof {
                    let s1 = self.entries@;
                    assert(keys_unique(s1)) by {
                        assert forall|a: int, b: int|
                            0 <= a < s1.len() && 0 <= b < s1.len() && a != b implies s1[a].0 != s1[b].0 by {
                            if a < s0.len() && b < s0.len() {
                                assert(s0[a].0 != s0[b].0);
                            } else if a < s0.len() {
                                assert(s0[a].0 != key);
                            } else if b < s0.len() {
                                assert(s0[b].0 != key);
                            }
                        }
                    }
                    assert forall|kk: EntityId| #![auto] seq_has_key(s1, kk) == (seq_has_key(s0, kk) || kk == key) by {
                        if seq_has_key(s0, kk) {
                            let j = seq_key_index(s0, kk);
                            assert(s1[j].0 == kk);
                        }
                        if kk == key {
                            assert(s1[s0.len() as int].0 == kk);
                        }
                        if seq_has_key(s1, kk) && kk != key {
                            let j = seq_key_index(s1, kk);
                            assert(s0[j].0 == kk);
                        }
                    }
                    assert(self@.dom() =~= old(self)@.dom().insert(key));
                    lemma_key_index_unique(s1, s0.len() as int);
                    assert(self@[key]@ =~= seq_at(old(self)@, key).push(x));
                    assert forall|kk: EntityId| kk != key && old(self)@.dom().contains(kk) implies #[trigger] self@[kk] == old(self)@[kk] by {
                        let j = seq_key_index(s1, kk);
                        lemma_key_index_unique(s1, j);
                        lemma_key_index_unique(s0, j);
                    }
                    assert(seq_keys(s1) =~= seq_keys(s0).push(key));
                }
            },
        }
    }
}

/// Every value of the map is `true`.
pub open spec fn all_true(m: Map<EntityId, bool>) -> bool {
    forall|k: EntityId| m.dom().contains(k) ==> #[trigger] m[k]
}

impl EntityMap<bool> {
    /// Whether every value is `true`.
    pub fn all_values_true(&self) -> (b: bool)
        requires
            self.wf(),
        ensures
            b == all_true(self@),
    {
        let mut i: usize = 0;
        while i < self.entries.len()
            invariant
                self.wf(),
                i <= self.entries@.len(),
                forall|j: int| 0 <= j < i ==> #[trigger] self.entries@[j].1,
            decreases self.entries@.len() - i,
        {
            if !self.entries[i].1 {
                proof {
                    lemma_key_index_unique(self.entries@, i as int);
                    assert(!self@[self.entries@[i as int].0]);
                }
                return false;
            }
            i = i + 1;
        }
        proof {
            assert forall|k: EntityId| self@.dom().contains(k) implies #[trigger] self@[k] by {
                let j = seq_key_index(self.entries@, k);
                assert(self.entries@[j].1);
            }
        }
        true
    }
}

/// The placeholder identifier (`Entity::PLACEHOLDER` in the ECS), used before a
/// real object is known.
///
/// Trusted: the value is `Entity::PLACEHOLDER.to_bits()`, which the ECS source
/// builds from index `u32::MAX` and generation 1, packed as
/// `generation << 32 | index`.
#[verifier::external_body]
pub(crate) fn placeholder_entity() -> (e: EntityId)
    ensures
        e.0 == 0x1_FFFF_FFFFu64,
{
    EntityId(bevy::ecs::entity::Entity::PLACEHOLDER.to_bits())
}

/// Whether `v` holds `e`.
pub fn vec_contains(v: &Vec<EntityId>, e: EntityId) -> (b: bool)
    ensures
        b == v@.contains(e),
{
    let mut i: usize = 0;
    while i < v.len()
        invariant
            i <= v@.len(),
            forall|j: int| 0 <= j < i ==> v@[j] != e,
        decreases v@.len() - i,
    {
        if v[i] == e {
            return true;
        }
        i = i + 1;
    }
    false
}

/// The first position of `e` in `s`, or `None` when it does not occur.
pub open spec fn first_index_of(s: Seq<EntityId>, e: EntityId) -> Option<nat> {
    if s.contains(e) {
        Some((choose|i: int| 0 <= i < s.len() && s[i] == e && forall|j: int| 0 <= j < i ==> s[j] != e) as nat)
    } else {
        None
    }
}

/// The first position of `e` in `v`.
pub fn vec_position(v: &Vec<EntityId>, e: EntityId) -> (r: Option<usize>)
    ensures
        match r {
            Some(i) => i < v@.len() && v@[i as int] == e && forall|j: int| 0 <= j < i ==> v@[j] != e,
            None => !v@.contains(e),
        },
        r matches Some(i) ==> first_index_of(v@, e) == Some(i as nat),
        r is None ==> first_index_of(v@, e) is None,
{
    let mut i: usize = 0;
    while i < v.len()
        invariant
            i <= v@.len(),
            forall|j: int| 0 <= j < i ==> v@[j] != e,
        decreases v@.len() - i,
    {
        if v[i] == e {
            proof {
                let k = choose|k: int| 0 <= k < v@.len() && v@[k] == e && forall|j: int| 0 <= j < k ==> v@[j] != e;
                assert(k == i) by {
                    if k < i {
                        assert(v@[k] != e);
                    }
                    if k > i {
                        assert(v@[i as int] != e);
                    }
                }
            }
            return Some(i);
        }
        i = i + 1;
    }
    None
}

/// The first position of `e` in the slice `v`.
pub fn slice_position(v: &[EntityId], e: EntityId) -> (r: Option<usize>)
    ensures
        match r {
            Some(i) => i < v@.len() && v@[i as int] == e && forall|j: int| 0 <= j < i ==> v@[j] != e,
            None => !v@.contains(e),
        },
        r matches Some(i) ==> first_index_of(v@, e) == Some(i as nat),
        r is None ==> first_index_of(v@, e) is None,
{
    let mut i: usize = 0;
    while i < v.len()
        invariant
            i <= v@.len(),
            forall|j: int| 0 <= j < i ==> v@[j] != e,
        decreases v@.len() - i,
    {
        if v[i] == e {
            proof {
                let k = choose|k: int| 0 <= k < v@.len() && v@[k] == e && forall|j: int| 0 <= j < k ==> v@[j] != e;
                assert(k == i) by {
                    if k < i {
                        assert(v@[k] != e);
                    }
                    if k > i {
                        assert(v@[i as int] != e);
                    }
                }
            }
            return Some(i);
        }
        i = i + 1;
    }
    None
}

/// Adds `e` to `v` unless it is already there.
pub fn vec_push_unique(v: &mut Vec<EntityId>, e: EntityId)
    ensures
        old(v)@.contains(e) ==> final(v)@ == old(v)@,
        !old(v)@.contains(e) ==> final(v)@ == old(v)@.push(e),
{
    if !vec_contains(v, e) {
        v.push(e);
    }
}

/// Removes every occurrence of `e` from `v`, keeping the order of the rest.
pub fn vec_remove_all(v: &mut Vec<EntityId>, e: EntityId)
    ensures
        final(v)@ == old(v)@.filter(|x: EntityId| x != e),
{
    let ghost pred = |x: EntityId| x != e;
    let mut kept: Vec<EntityId> = Vec::new();
    let mut i: usize = 0;
    while i < v.len()
        invariant
            pred == (|x: EntityId| x != e),
            i <= v@.len(),
            kept@ == v@.take(i as int).filter(pred),
        decreases v@.len() - i,
    {
        let x = v[i];
        proof {
            assert(v@.take(i + 1) =~= v@.take(i as int).push(x));
            v@.take(i as int).lemma_filter_push(x, pred);
        }
        if x != e {
            kept.push(x);
        }
        i = i + 1;
    }
    assert(v@.take(v@.len() as int) =~= v@);
    *v = kept;
}

/// A copy of a list of identifiers.
pub fn copy_ids(v: &Vec<EntityId>) -> (r: Vec<EntityId>)
    ensures
        r@ == v@,
{
    let mut r: Vec<EntityId> = Vec::new();
    let mut i: usize = 0;
    while i < v.len()
        invariant
            i <= v@.len(),
            r@ == v@.take(i as int),
        decreases v@.len() - i,
    {
        r.push(v[i]);
        i = i + 1;
        assert(r@ =~= v@.take(i as int));
    }
    assert(v@.take(v@.len() as int) =~= v@);
    r
}

/// The lists of a map of vectors, by their views.
pub open spec fn vec_lists<T>(m: Map<EntityId, Vec<T>>) -> Map<EntityId, Seq<T>> {
    Map::new(|k: EntityId| m.dom().contains(k), |k: EntityId| m[k]@)
}

/// `m` without the keys of `keys`.
pub open spec fn without_keys<V>(m: Map<EntityId, V>, keys: Seq<EntityId>) -> Map<EntityId, V> {
    Map::new(|k: EntityId| m.dom().contains(k) && !keys.contains(k), |k: EntityId| m[k])
}

impl<V> EntityMap<V> {
    /// Removes every key of `keys`.
    pub fn remove_keys(&mut self, keys: &Vec<EntityId>)
        requires
            old(self).wf(),
        ensures
            final(self).wf(),
            final(self)@ == without_keys(old(self)@, keys@),
    {
        let mut i: usize = 0;
        assert(without_keys(old(self)@, keys@.take(0)) =~= old(self)@);
        while i < keys.len()
            invariant
                self.wf(),
                i <= keys@.len(),
                self@ == without_keys(old(self)@, keys@.take(i as int)),
            decreases keys@.len() - i,
        {
            let k = keys[i];
            let _ = self.remove(k);
            proof {
                let t0 = keys@.take(i as int);
                let t1 = keys@.take(i + 1);
                assert(t1 =~= t0.push(k));
                assert forall|x: EntityId| #[trigger] t1.contains(x) == (t0.contains(x) || x == k) by {
                    if t0.contains(x) {
                        let j = choose|j: int| 0 <= j < t0.len() && t0[j] == x;
                        assert(t1[j] == x);
                    }
                    if x == k {
                        assert(t1[i as int] == x);
                    }
                    if t1.contains(x) && x != k {
                        let j = choose|j: int| 0 <= j < t1.len() && t1[j] == x;
                        assert(t0[j] == x);
                    }
                }
                assert(self@ =~= without_keys(old(self)@, t1));
            }
            i = i + 1;
        }
        assert(keys@.take(keys@.len() as int) =~= keys@);
    }
}

impl<T> EntityMap<Vec<T>> {
    /// Removes the keys whose lists are empty.
    pub fn retain_nonempty(&mut self)
        requires
            old(self).wf(),
        ensures
            final(self).wf(),
            final(self)@ == Map::new(
                |k: EntityId| old(self)@.dom().contains(k) && old(self)@[k]@.len() > 0,
                |k: EntityId| old(self)@[k],
            ),
    {
        let mut empty: Vec<EntityId> = Vec::new();
        let mut i: usize = 0;
        while i < self.entries.len()
            invariant
                self.wf(),
                i <= self.entries@.len(),
                forall|k: EntityId| #[trigger] empty@.contains(k) <==> exists|j: int|
                    0 <= j < i && self.entries@[j].0 == k && self.entries@[j].1@.len() == 0,
            decreases self.entries@.len() - i,
        {
            let ghost e0 = empty@;
            if self.entries[i].1.len() == 0 {
                empty.push(self.entries[i].0);
            }
            proof {
                assert forall|k: EntityId| #[trigger] empty@.contains(k) <==> exists|j: int|
                    0 <= j < i + 1 && self.entries@[j].0 == k && self.entries@[j].1@.len() == 0 by {
                    if empty@.contains(k) {
                        let w = choose|w: int| 0 <= w < empty@.len() && empty@[w] == k;
                        if w < e0.len() {
                            assert(e0[w] == k);
                            assert(e0.contains(k));
                        } else {
                            assert(self.entries@[i as int].0 == k);
                        }
                    }
                    if exists|j: int| 0 <= j < i + 1 && self.entries@[j].0 == k && self.entries@[j].1@.len() == 0 {
                        let j = choose|j: int| 0 <= j < i + 1 && self.entries@[j].0 == k && self.entries@[j].1@.len() == 0;
                        if j < i {
                            assert(e0.contains(k));
                            let w = choose|w: int| 0 <= w < e0.len() && e0[w] == k;
                            assert(empty@[w] == k);
                        } else {
                            assert(empty@[empty@.len() - 1] == k);
                        }
                    }
                }
            }
            i = i + 1;
        }
        let ghost before = self@;
        proof {
            assert forall|k: EntityId| #[trigger] empty@.contains(k) <==> (before.dom().contains(k) && before[k]@.len() == 0) by {
                if empty@.contains(k) {
                    let j = choose|j: int| 0 <= j < self.entries@.len() && self.entries@[j].0 == k && self.entries@[j].1@.len() == 0;
                    lemma_key_index_unique(self.entries@, j);
                }
                if before.dom().contains(k) && before[k]@.len() == 0 {
                    let j = seq_key_index(self.entries@, k);
                    assert(self.entries@[j].0 == k && self.entries@[j].1@.len() == 0);
                }
            }
        }
        self.remove_keys(&empty);
        assert(self@ =~= Map::new(
            |k: EntityId| before.dom().contains(k) && before[k]@.len() > 0,
            |k: EntityId| before[k],
        ));
    }
}

/// `s` with `x` added at the end unless it is already there.
pub open spec fn add_unique<T>(s: Seq<T>, x: T) -> Seq<T> {
    if s.contains(x) {
        s
    } else {
        s.push(x)
    }
}

/// The list stored for `k`, or the empty list.
pub open spec fn list_or_empty<T>(m: Map<EntityId, Seq<T>>, k: EntityId) -> Seq<T> {
    if m.dom().contains(k) {
        m[k]
    } else {
        Seq::empty()
    }
}

/// The list stored for `k`, if any.
pub open spec fn list_opt<T>(m: Map<EntityId, Seq<T>>, k: EntityId) -> Option<Seq<T>> {
    if m.dom().contains(k) {
        Some(m[k])
    } else {
        None
    }
}

/// The keys in order hold no key twice.
pub proof fn lemma_key_seq_unique<V>(m: EntityMap<V>, i: int, j: int)
    requires
        m.wf(),
        0 <= i < m.entries@.len(),
        0 <= j < m.entries@.len(),
        i != j,
    ensures
        m.key_seq()[i] != m.key_seq()[j],
{
    assert(m.entries@[i].0 != m.entries@[j].0);
}

/// What `push_to` does, described on the lists.
pub proof fn lemma_push_to_lists<T>(old_m: Map<EntityId, Vec<T>>, new_m: Map<EntityId, Vec<T>>, key: EntityId, x: T)
    requires
        new_m.dom() == old_m.dom().insert(key),
        new_m[key]@ == seq_at(old_m, key).push(x),
        forall|k: EntityId| k != key && old_m.dom().contains(k) ==> #[trigger] new_m[k] == old_m[k],
    ensures
        vec_lists(new_m) == vec_lists(old_m).insert(key, list_or_empty(vec_lists(old_m), key).push(x)),
{
    assert(vec_lists(new_m) =~= vec_lists(old_m).insert(key, list_or_empty(vec_lists(old_m), key).push(x)));
}

/// The distinct values of `m`, each once, in the order in which they first
/// occur among the entries.
pub fn distinct_values(m: &EntityMap<EntityId>) -> (r: Vec<EntityId>)
    requires
        m.wf(),
    ensures
        r@.no_duplicates(),
        r@.to_set() == m@.values(),
{
    let mut r: Vec<EntityId> = Vec::new();
    let mut i: usize = 0;
    while i < m.entries.len()
        invariant
            m.wf(),
            i <= m.entries@.len(),
            r@.no_duplicates(),
            forall|x: EntityId| r@.contains(x) <==> exists|j: int| 0 <= j < i && #[trigger] m.entries@[j].1 == x,
        decreases m.entries@.len() - i,
    {
        let v = m.entries[i].1;
        let ghost before = r@;
        vec_push_unique(&mut r, v);
        proof {
            assert forall|x: EntityId| r@.contains(x) <==> exists|j: int| 0 <= j < i + 1 && #[trigger] m.entries@[j].1 == x by {
                if r@.contains(x) {
                    let t = choose|t: int| 0 <= t < r@.len() && r@[t] == x;
                    if t < before.len() {
                        assert(before[t] == x);
                        assert(before.contains(x));
                    } else {
                        assert(m.entries@[i as int].1 == x);
                    }
                }
                if exists|j: int| 0 <= j < i + 1 && #[trigger] m.entries@[j].1 == x {
                    let j = choose|j: int| 0 <= j < i + 1 && #[trigger] m.entries@[j].1 == x;
                    if j < i {
                        assert(before.contains(x));
                        let t = choose|t: int| 0 <= t < before.len() && before[t] == x;
                        assert(r@[t] == x);
                    } else if before.contains(v) {
                        assert(r@ == before);
                    } else {
                        assert(r@[before.len() as int] == x);
                    }
                }
            }
            if !before.contains(v) {
                assert forall|a: int, b: int| 0 <= a < r@.len() && 0 <= b < r@.len() && a != b implies r@[a] != r@[b] by {
                    if a == before.len() {
                        assert(before[b] == r@[b]);
                    }
                    if b == before.len() {
                        assert(before[a] == r@[a]);
                    }
                }
            }
        }
        i = i + 1;
    }
    proof {
        assert forall|x: EntityId| r@.to_set().contains(x) <==> m@.values().contains(x) by {
            if r@.contains(x) {
                let j = choose|j: int| 0 <= j < m.entries@.len() && #[trigger] m.entries@[j].1 == x;
                lemma_key_index_unique(m.entries@, j);
                assert(m@.contains_key(m.entries@[j].0) && m@[m.entries@[j].0] == x);
            }
            if m@.values().contains(x) {
                let k = choose|k: EntityId| m@.contains_key(k) && m@[k] == x;
                let j = seq_key_index(m.entries@, k);
                assert(m.entries@[j].1 == x);
            }
        }
        assert(r@.to_set() =~= m@.values());
    }
    r
}

} // verus!
