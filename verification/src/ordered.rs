//! Maps and sets that keep their keys in ascending order.
use crate::text::{self, Placement};
use vstd::prelude::*;

verus! {

/// Keys with a strict total order.
pub trait Key: View + Sized {
    /// Whether one key comes before another.
    spec fn precedes(left: Self::V, right: Self::V) -> bool;

    /// No key comes before itself.
    proof fn irreflexive(key: Self::V)
        ensures
            !Self::precedes(key, key),
    ;

    /// The order is transitive.
    proof fn transitive(first: Self::V, second: Self::V, third: Self::V)
        requires
            Self::precedes(first, second),
            Self::precedes(second, third),
        ensures
            Self::precedes(first, third),
    ;

    /// Of two different keys one comes before the other.
    proof fn total(left: Self::V, right: Self::V)
        ensures
            Self::precedes(left, right) || left == right || Self::precedes(right, left),
    ;

    /// Compares two keys.
    fn place(&self, other: &Self) -> (placement: Placement)
        ensures
            match placement {
                Placement::Before => Self::precedes(self@, other@),
                Placement::Same => self@ == other@,
                Placement::After => Self::precedes(other@, self@),
            },
    ;
}

impl Key for String {
    open spec fn precedes(left: Seq<char>, right: Seq<char>) -> bool {
        text::text_before(left, right)
    }

    proof fn irreflexive(key: Seq<char>) {
        text::lemma_text_irreflexive(key);
    }

    proof fn transitive(first: Seq<char>, second: Seq<char>, third: Seq<char>) {
        text::lemma_text_transitive(first, second, third);
    }

    proof fn total(left: Seq<char>, right: Seq<char>) {
        text::lemma_text_total(left, right);
    }

    fn place(&self, other: &String) -> (placement: Placement) {
        text::order(self.as_str(), other.as_str())
    }
}

/// The name of a model at its provider.
#[derive(Debug)]
pub struct ModelKey {
    /// The provider's name.
    pub provider: String,
    /// The model's name.
    pub model: String,
}

/// The contents of a [`ModelKey`].
#[verifier::ext_equal]
pub struct ModelKeyView {
    /// The provider's name.
    pub provider: Seq<char>,
    /// The model's name.
    pub model: Seq<char>,
}

impl View for ModelKey {
    type V = ModelKeyView;

    open spec fn view(&self) -> ModelKeyView {
        ModelKeyView { provider: self.provider@, model: self.model@ }
    }
}

impl ModelKey {
    /// A copy of the key.
    pub fn copied(&self) -> (copy: ModelKey)
        ensures
            copy@ == self@,
    {
        ModelKey { provider: self.provider.clone(), model: self.model.clone() }
    }
}

impl Key for ModelKey {
    open spec fn precedes(left: ModelKeyView, right: ModelKeyView) -> bool {
        text::text_before(left.provider, right.provider) || (left.provider == right.provider
            && text::text_before(left.model, right.model))
    }

    proof fn irreflexive(key: ModelKeyView) {
        text::lemma_text_irreflexive(key.provider);
        text::lemma_text_irreflexive(key.model);
    }

    proof fn transitive(first: ModelKeyView, second: ModelKeyView, third: ModelKeyView) {
        if text::text_before(first.provider, second.provider) {
            if text::text_before(second.provider, third.provider) {
                text::lemma_text_transitive(first.provider, second.provider, third.provider);
            }
        } else if !text::text_before(second.provider, third.provider) {
            text::lemma_text_transitive(first.model, second.model, third.model);
        }
    }

    proof fn total(left: ModelKeyView, right: ModelKeyView) {
        text::lemma_text_total(left.provider, right.provider);
        text::lemma_text_total(left.model, right.model);
    }

    fn place(&self, other: &ModelKey) -> (placement: Placement) {
        match text::order(self.provider.as_str(), other.provider.as_str()) {
            Placement::Same => text::order(self.model.as_str(), other.model.as_str()),
            placement => placement,
        }
    }
}

/// Whether the keys stand in ascending order, none twice.
pub open spec fn ascending<K: Key>(keys: Seq<K::V>) -> bool {
    forall|i: int, j: int|
        0 <= i < j < keys.len() ==> K::precedes(#[trigger] keys[i], #[trigger] keys[j])
}

/// A map that keeps its entries in the order of their keys.
#[derive(Debug)]
pub struct OrderedMap<K: Key, T> {
    /// The entries, ascending by key.
    pub entries: Vec<(K, T)>,
}

/// The keys of a list of entries.
pub open spec fn entry_keys<K: Key, T>(entries: Seq<(K, T)>) -> Seq<K::V> {
    entries.map_values(|entry: (K, T)| entry.0@)
}

impl<K: Key, T> OrderedMap<K, T> {
    /// The keys, in order.
    pub open spec fn keys(self) -> Seq<K::V> {
        entry_keys(self.entries@)
    }

    /// The keys stand in ascending order.
    pub open spec fn well_formed(self) -> bool {
        ascending::<K>(self.keys())
    }

    /// Whether the map has an entry for a key.
    pub open spec fn has(self, key: K::V) -> bool {
        self.keys().contains(key)
    }

    /// The value of a key that the map has.
    pub open spec fn value(self, key: K::V) -> T {
        self.entries@[self.keys().index_of(key)].1
    }
}

impl<K: Key, T> View for OrderedMap<K, T> {
    type V = Map<K::V, T>;

    open spec fn view(&self) -> Map<K::V, T> {
        Map::new(|key: K::V| self.has(key), |key: K::V| self.value(key))
    }
}

/// In ascending order a key has one position.
pub proof fn lemma_ascending_position<K: Key>(keys: Seq<K::V>, i: int, j: int)
    requires
        ascending::<K>(keys),
        0 <= i < keys.len(),
        0 <= j < keys.len(),
        keys[i] == keys[j],
    ensures
        i == j,
{
    K::irreflexive(keys[i]);
}

/// Ascending lists with the same members are equal.
pub proof fn lemma_ascending_unique<K: Key>(left: Seq<K::V>, right: Seq<K::V>)
    requires
        ascending::<K>(left),
        ascending::<K>(right),
        forall|key: K::V| #[trigger] left.contains(key) <==> right.contains(key),
    ensures
        left == right,
    decreases left.len(),
{
    if left.len() == 0 {
        if right.len() > 0 {
            assert(right.contains(right[0]));
            assert(left.contains(right[0]));
        }
        assert(left =~= right);
    } else {
        assert(left.contains(left[0]));
        assert(right.contains(left[0]));
        assert(right.contains(right[0]));
        assert(left.contains(right[0]));
        let i = choose|i: int| 0 <= i < left.len() && left[i] == right[0];
        let j = choose|j: int| 0 <= j < right.len() && right[j] == left[0];
        if i > 0 && j > 0 {
            assert(K::precedes(left[0], left[i]));
            assert(K::precedes(right[0], right[j]));
            K::transitive(left[0], right[0], left[0]);
            K::irreflexive(left[0]);
        }
        assert(left[0] == right[0]);
        let left_rest = left.drop_first();
        let right_rest = right.drop_first();
        assert forall|key: K::V| #[trigger] left_rest.contains(key) <==> right_rest.contains(
            key,
        ) by {
            if left_rest.contains(key) {
                let p = choose|p: int| 0 <= p < left_rest.len() && left_rest[p] == key;
                assert(left[p + 1] == key);
                assert(left.contains(key));
                let q = choose|q: int| 0 <= q < right.len() && right[q] == key;
                if q == 0 {
                    lemma_ascending_position::<K>(left, 0, p + 1);
                }
                assert(right_rest[q - 1] == key);
            }
            if right_rest.contains(key) {
                let p = choose|p: int| 0 <= p < right_rest.len() && right_rest[p] == key;
                assert(right[p + 1] == key);
                assert(right.contains(key));
                assert(left.contains(key));
                let q = choose|q: int| 0 <= q < left.len() && left[q] == key;
                if q == 0 {
                    lemma_ascending_position::<K>(right, 0, p + 1);
                }
                assert(left_rest[q - 1] == key);
            }
        }
        lemma_ascending_unique::<K>(left_rest, right_rest);
        assert(left =~= seq![left[0]] + left_rest);
        assert(right =~= seq![right[0]] + right_rest);
    }
}

/// The members of a set in ascending order.
pub open spec fn sorted<K: Key>(members: Set<K::V>) -> Seq<K::V> {
    choose|keys: Seq<K::V>| #[trigger]
        ascending::<K>(keys) && forall|key: K::V| #[trigger]
            keys.contains(key) <==> members.contains(key)
}

/// An ascending list of the members of a set is the set in ascending order.
pub proof fn lemma_sorted<K: Key>(keys: Seq<K::V>, members: Set<K::V>)
    requires
        ascending::<K>(keys),
        forall|key: K::V| #[trigger] keys.contains(key) <==> members.contains(key),
    ensures
        keys == sorted::<K>(members),
{
    let found = sorted::<K>(members);
    assert(ascending::<K>(found) && forall|key: K::V| #[trigger]
        found.contains(key) <==> members.contains(key));
    assert forall|key: K::V| #[trigger] keys.contains(key) <==> found.contains(key) by {
        assert(found.contains(key) <==> members.contains(key));
    }
    lemma_ascending_unique::<K>(keys, found);
}

spec fn inserted<K: Key>(keys: Seq<K::V>, key: K::V) -> Seq<K::V>
    decreases keys.len(),
{
    if keys.len() == 0 || K::precedes(keys.last(), key) {
        keys.push(key)
    } else {
        inserted::<K>(keys.drop_last(), key).push(keys.last())
    }
}

proof fn lemma_inserted<K: Key>(keys: Seq<K::V>, key: K::V)
    requires
        ascending::<K>(keys),
        !keys.contains(key),
    ensures
        ascending::<K>(inserted::<K>(keys, key)),
        forall|k: K::V| #[trigger]
            inserted::<K>(keys, key).contains(k) <==> keys.contains(k) || k == key,
    decreases keys.len(),
{
    let more = inserted::<K>(keys, key);
    if keys.len() == 0 || K::precedes(keys.last(), key) {
        assert forall|i: int, j: int| 0 <= i < j < more.len() implies K::precedes(
            #[trigger] more[i],
            #[trigger] more[j],
        ) by {
            if j == keys.len() && i < keys.len() - 1 {
                K::transitive(keys[i], keys.last(), key);
            }
        }
        assert forall|k: K::V| #[trigger] more.contains(k) <==> keys.contains(k) || k == key by {
            if keys.contains(k) {
                let i = choose|i: int| 0 <= i < keys.len() && keys[i] == k;
                assert(more[i] == k);
            }
            assert(more[keys.len() as int] == key);
        }
    } else {
        let shorter = keys.drop_last();
        let last = keys.last();
        assert(!shorter.contains(key)) by {
            if shorter.contains(key) {
                let i = choose|i: int| 0 <= i < shorter.len() && shorter[i] == key;
                assert(keys[i] == key);
            }
        }
        lemma_inserted::<K>(shorter, key);
        let front = inserted::<K>(shorter, key);
        assert(keys[keys.len() - 1] == last);
        K::total(last, key);
        assert(K::precedes(key, last));
        assert forall|i: int| 0 <= i < front.len() implies K::precedes(
            #[trigger] front[i],
            last,
        ) by {
            assert(front.contains(front[i]));
            if front[i] != key {
                let p = choose|p: int| 0 <= p < shorter.len() && shorter[p] == front[i];
                assert(keys[p] == front[i]);
            }
        }
        assert forall|k: K::V| #[trigger] more.contains(k) <==> keys.contains(k) || k == key by {
            if more.contains(k) {
                let i = choose|i: int| 0 <= i < more.len() && more[i] == k;
                if i < front.len() {
                    assert(front[i] == k);
                    assert(front.contains(k));
                    if k != key {
                        let p = choose|p: int| 0 <= p < shorter.len() && shorter[p] == k;
                        assert(keys[p] == k);
                    }
                } else {
                    assert(keys[keys.len() - 1] == k);
                }
            }
            if keys.contains(k) {
                let i = choose|i: int| 0 <= i < keys.len() && keys[i] == k;
                if i < shorter.len() {
                    assert(shorter[i] == k);
                    assert(front.contains(k));
                    let p = choose|p: int| 0 <= p < front.len() && front[p] == k;
                    assert(more[p] == k);
                } else {
                    assert(more[front.len() as int] == k);
                }
            }
            if k == key {
                assert(front.contains(k));
                let p = choose|p: int| 0 <= p < front.len() && front[p] == k;
                assert(more[p] == k);
            }
        }
    }
}

/// Every finite set of keys can be listed in ascending order.
pub proof fn lemma_sorted_exists<K: Key>(members: Set<K::V>)
    requires
        members.finite(),
    ensures
        ascending::<K>(sorted::<K>(members)),
        forall|key: K::V| #[trigger]
            sorted::<K>(members).contains(key) <==> members.contains(key),
    decreases members.len(),
{
    if members.len() == 0 {
        let none = Seq::<K::V>::empty();
        assert(ascending::<K>(none));
        assert(members =~= Set::empty());
        lemma_sorted::<K>(none, members);
    } else {
        let key = members.choose();
        let rest = members.remove(key);
        lemma_sorted_exists::<K>(rest);
        lemma_inserted::<K>(sorted::<K>(rest), key);
        lemma_sorted::<K>(inserted::<K>(sorted::<K>(rest), key), members);
    }
}

impl<K: Key, T> OrderedMap<K, T> {
    /// The keys are the domain in ascending order.
    pub proof fn lemma_keys_sorted(self)
        requires
            self.well_formed(),
        ensures
            self.keys() == sorted::<K>(self@.dom()),
    {
        lemma_sorted::<K>(self.keys(), self@.dom());
    }

    /// The value of a key is that of the entry that holds it.
    pub proof fn lemma_entry(self, index: int)
        requires
            self.well_formed(),
            0 <= index < self.entries@.len(),
        ensures
            self@.dom().contains(self.entries@[index].0@),
            self@[self.entries@[index].0@] == self.entries@[index].1,
    {
        let keys = self.keys();
        let key = self.entries@[index].0@;
        assert(keys[index] == key);
        assert(keys.contains(key));
        let found = keys.index_of(key);
        assert(keys[found] == key);
        lemma_ascending_position::<K>(keys, index, found);
    }

    /// A map without entries.
    pub fn new() -> (map: OrderedMap<K, T>)
        ensures
            map.well_formed(),
            map.entries@.len() == 0,
            map@ == Map::<K::V, T>::empty(),
    {
        let map = OrderedMap { entries: Vec::new() };
        assert(map@ =~= Map::<K::V, T>::empty());
        map
    }

    /// How many entries the map has.
    pub fn len(&self) -> (count: usize)
        requires
            self.well_formed(),
        ensures
            count == self.entries@.len(),
            count == self@.dom().len(),
            self@.dom().finite(),
    {
        proof {
            let keys = self.keys();
            assert(keys.no_duplicates()) by {
                assert forall|i: int, j: int|
                    0 <= i < keys.len() && 0 <= j < keys.len() && i != j implies keys[i]
                    != keys[j] by {
                    if keys[i] == keys[j] {
                        lemma_ascending_position::<K>(keys, i, j);
                    }
                }
            }
            keys.unique_seq_to_set();
            assert(self@.dom() =~= keys.to_set());
        }
        self.entries.len()
    }

    /// Where a key stands, or where it would stand, and whether it is there.
    fn find(&self, key: &K) -> (place: (usize, bool))
        requires
            self.well_formed(),
        ensures
            place.0 <= self.entries@.len(),
            place.1 == self.has(key@),
            place.1 ==> place.0 < self.entries@.len() && self.entries@[place.0 as int].0@ == key@,
            forall|i: int|
                0 <= i < place.0 ==> K::precedes(#[trigger] self.keys()[i], key@),
            !place.1 ==> forall|i: int|
                place.0 <= i < self.entries@.len() ==> K::precedes(
                    key@,
                    #[trigger] self.keys()[i],
                ),
    {
        let ghost keys = self.keys();
        let mut index: usize = 0;
        while index < self.entries.len()
            invariant
                index <= self.entries.len(),
                self.well_formed(),
                keys == self.keys(),
                forall|i: int| 0 <= i < index ==> K::precedes(#[trigger] keys[i], key@),
            decreases self.entries.len() - index,
        {
            assert(keys[index as int] == self.entries@[index as int].0@);
            match self.entries[index].0.place(key) {
                Placement::Before => {
                    index = index + 1;
                },
                Placement::Same => {
                    assert(self.has(key@));
                    return (index, true);
                },
                Placement::After => {
                    proof {
                        assert forall|i: int| index <= i < keys.len() implies K::precedes(
                            key@,
                            #[trigger] keys[i],
                        ) by {
                            if i > index {
                                K::transitive(key@, keys[index as int], keys[i]);
                            }
                        }
                        self.lemma_absent(key@, index as int);
                    }
                    return (index, false);
                },
            }
        }
        proof {
            self.lemma_absent(key@, index as int);
        }
        (index, false)
    }

    proof fn lemma_absent(self, key: K::V, place: int)
        requires
            forall|i: int| 0 <= i < place ==> K::precedes(#[trigger] self.keys()[i], key),
            forall|i: int|
                place <= i < self.keys().len() ==> K::precedes(key, #[trigger] self.keys()[i]),
        ensures
            !self.has(key),
    {
        if self.has(key) {
            let i = choose|i: int| 0 <= i < self.keys().len() && self.keys()[i] == key;
            K::irreflexive(key);
        }
    }

    /// The value of a key.
    pub fn get(&self, key: &K) -> (value: Option<&T>)
        requires
            self.well_formed(),
        ensures
            match value {
                Some(found) => self@.dom().contains(key@) && *found == self@[key@],
                None => !self@.dom().contains(key@),
            },
    {
        let (index, present) = self.find(key);
        if present {
            proof {
                self.lemma_entry(index as int);
            }
            Some(&self.entries[index].1)
        } else {
            None
        }
    }

    /// Whether the map has the key.
    pub fn contains_key(&self, key: &K) -> (present: bool)
        requires
            self.well_formed(),
        ensures
            present == self@.dom().contains(key@),
    {
        self.find(key).1
    }

    /// Gives a key a value, in place of the one it may have.
    pub fn insert(&mut self, key: K, value: T)
        requires
            old(self).well_formed(),
        ensures
            final(self).well_formed(),
            final(self)@ == old(self)@.insert(key@, value),
    {
        let _ = self.put(key, value);
    }

    /// Gives a key a value and returns the position of its entry.
    fn put(&mut self, key: K, value: T) -> (position: usize)
        requires
            old(self).well_formed(),
        ensures
            final(self).well_formed(),
            final(self)@ == old(self)@.insert(key@, value),
            position < final(self).entries@.len(),
            final(self).entries@[position as int].0@ == key@,
    {
        let (index, present) = self.find(&key);
        let ghost before = *self;
        let ghost old_keys = self.keys();
        let ghost name = key@;
        if present {
            let _ = self.entries.remove(index);
        }
        let ghost middle = self.entries@;
        let ghost middle_keys = entry_keys(middle);
        proof {
            if present {
                assert(middle_keys =~= old_keys.remove(index as int));
                assert(old_keys[index as int] == name);
                assert forall|i: int| index <= i < middle_keys.len() implies K::precedes(
                    name,
                    #[trigger] middle_keys[i],
                ) by {
                    assert(middle_keys[i] == old_keys[i + 1]);
                    assert(K::precedes(old_keys[index as int], old_keys[i + 1]));
                }
                assert forall|i: int| 0 <= i < index implies K::precedes(
                    #[trigger] middle_keys[i],
                    name,
                ) by {
                    assert(middle_keys[i] == old_keys[i]);
                }
                assert(ascending::<K>(middle_keys)) by {
                    assert forall|i: int, j: int| 0 <= i < j < middle_keys.len() implies K::precedes(
                        #[trigger] middle_keys[i],
                        #[trigger] middle_keys[j],
                    ) by {
                        let p = if i < index {
                            i
                        } else {
                            i + 1
                        };
                        let q = if j < index {
                            j
                        } else {
                            j + 1
                        };
                        assert(middle_keys[i] == old_keys[p]);
                        assert(middle_keys[j] == old_keys[q]);
                        assert(K::precedes(old_keys[p], old_keys[q]));
                    }
                }
            } else {
                assert(middle_keys =~= old_keys);
            }
        }
        self.entries.insert(index, (key, value));
        proof {
            let after = *self;
            let keys = after.keys();
            assert(keys =~= middle_keys.insert(index as int, name));
            assert(ascending::<K>(keys)) by {
                assert forall|i: int, j: int| 0 <= i < j < keys.len() implies K::precedes(
                    #[trigger] keys[i],
                    #[trigger] keys[j],
                ) by {
                    let p = if i < index {
                        i
                    } else {
                        i - 1
                    };
                    let q = if j < index {
                        j
                    } else {
                        j - 1
                    };
                    if i != index {
                        assert(keys[i] == middle_keys[p]);
                    }
                    if j != index {
                        assert(keys[j] == middle_keys[q]);
                    }
                }
            }
            assert(after@ =~= before@.insert(name, value)) by {
                assert forall|k: K::V| #[trigger]
                    after@.dom().contains(k) <==> before@.insert(name, value).dom().contains(k) by {
                    if after.has(k) {
                        let i = choose|i: int| 0 <= i < keys.len() && keys[i] == k;
                        if i != index {
                            let p = if i < index {
                                i
                            } else {
                                i - 1
                            };
                            assert(keys[i] == middle_keys[p]);
                            let o = if present && p >= index {
                                p + 1
                            } else {
                                p
                            };
                            assert(middle_keys[p] == old_keys[o]);
                            assert(before.has(k));
                        }
                    }
                    if before.has(k) && k != name {
                        let o = choose|o: int| 0 <= o < old_keys.len() && old_keys[o] == k;
                        let p = if present && o > index {
                            o - 1
                        } else {
                            o
                        };
                        assert(middle_keys[p] == k);
                        let i = if p < index {
                            p
                        } else {
                            p + 1
                        };
                        assert(keys[i] == k);
                    }
                    if k == name {
                        assert(keys[index as int] == k);
                    }
                }
                assert forall|k: K::V| #[trigger] after@.dom().contains(k) implies after@[k]
                    == before@.insert(name, value)[k] by {
                    let i = choose|i: int| 0 <= i < keys.len() && keys[i] == k;
                    after.lemma_entry(i);
                    if i != index {
                        let p = if i < index {
                            i
                        } else {
                            i - 1
                        };
                        assert(keys[i] == middle_keys[p]);
                        let o = if present && p >= index {
                            p + 1
                        } else {
                            p
                        };
                        assert(middle_keys[p] == old_keys[o]);
                        before.lemma_entry(o);
                        if k == name {
                            lemma_ascending_position::<K>(keys, i, index as int);
                        }
                    }
                }
            }
        }
        index
    }

    /// Another value at a position is another value for that position's key.
    proof fn lemma_update(self, changed: OrderedMap<K, T>, index: int, value: T)
        requires
            self.well_formed(),
            0 <= index < self.entries@.len(),
            changed.entries@ == self.entries@.update(index, (self.entries@[index].0, value)),
        ensures
            changed.well_formed(),
            changed@ == self@.insert(self.entries@[index].0@, value),
    {
        let name = self.entries@[index].0@;
        let keys = self.keys();
        assert(changed.keys() =~= keys);
        assert(keys[index] == name);
        assert forall|k: K::V| #[trigger] changed@.dom().contains(k) implies changed@[k]
            == self@.insert(name, value)[k] by {
            let i = choose|i: int| 0 <= i < keys.len() && keys[i] == k;
            changed.lemma_entry(i);
            self.lemma_entry(i);
            if k == name {
                lemma_ascending_position::<K>(keys, i, index);
            }
        }
        assert(changed@ =~= self@.insert(name, value));
    }

    /// The value of a key, which is `default` where the map has none yet.
    pub fn entry(&mut self, key: K, default: T) -> (value: &mut T)
        requires
            old(self).well_formed(),
        ensures
            *value == (if old(self)@.dom().contains(key@) {
                old(self)@[key@]
            } else {
                default
            }),
            final(self).well_formed(),
            final(self)@ == old(self)@.insert(key@, *final(value)),
    {
        let (index, present) = self.find(&key);
        let position: usize = if present {
            proof {
                self.lemma_entry(index as int);
            }
            index
        } else {
            self.put(key, default)
        };
        proof {
            let middle = *self;
            middle.lemma_entry(position as int);
            assert forall|changed: OrderedMap<K, T>|
                #![trigger changed.well_formed()]
                #![trigger changed@]
                changed.entries@ == middle.entries@.update(
                    position as int,
                    changed.entries@[position as int],
                ) && changed.entries@[position as int].0
                    == middle.entries@[position as int].0 implies changed.well_formed() && changed@
                == middle@.insert(
                middle.entries@[position as int].0@,
                changed.entries@[position as int].1,
            ) by {
                middle.lemma_update(
                    changed,
                    position as int,
                    changed.entries@[position as int].1,
                );
            }
        }
        &mut self.entries[position].1
    }
}

/// Things that can be arranged: of some pairs one comes before the other, and where neither does
/// the two may stand either way.
pub trait Ranked: Sized {
    /// Whether this comes before the other.
    spec fn comes_before(self, other: Self) -> bool;

    /// Of two things at most one comes before the other.
    proof fn asymmetric(left: Self, right: Self)
        requires
            left.comes_before(right),
        ensures
            !right.comes_before(left),
    ;

    /// What does not come before a second does not come before what the second does not follow.
    proof fn chained(first: Self, second: Self, third: Self)
        requires
            !second.comes_before(first),
            !third.comes_before(second),
        ensures
            !third.comes_before(first),
    ;

    /// Compares the two.
    fn before(&self, other: &Self) -> (first: bool)
        ensures
            first == self.comes_before(*other),
    ;
}

/// An arranged list with one item more, which follows all that it does not come before.
pub open spec fn placed<T: Ranked>(items: Seq<T>, item: T) -> Seq<T>
    decreases items.len(),
{
    if items.len() == 0 || !item.comes_before(items.last()) {
        items.push(item)
    } else {
        placed(items.drop_last(), item).push(items.last())
    }
}

/// The items in their order. Where neither of two comes before the other, they stand as given.
pub open spec fn arranged<T: Ranked>(items: Seq<T>) -> Seq<T>
    decreases items.len(),
{
    if items.len() == 0 {
        Seq::empty()
    } else {
        placed(arranged(items.drop_last()), items.last())
    }
}

/// Whether no item comes before one that stands ahead of it.
pub open spec fn in_order<T: Ranked>(items: Seq<T>) -> bool {
    forall|i: int, j: int|
        0 <= i < j < items.len() ==> !(#[trigger] items[j]).comes_before(#[trigger] items[i])
}

/// The position of the item that is placed.
proof fn lemma_placed_at<T: Ranked>(items: Seq<T>, item: T, place: int)
    requires
        0 <= place <= items.len(),
        place == 0 || !item.comes_before(items[place - 1]),
        forall|j: int| place <= j < items.len() ==> item.comes_before(#[trigger] items[j]),
    ensures
        placed(items, item) == items.insert(place, item),
    decreases items.len(),
{
    if place < items.len() {
        assert(item.comes_before(items[items.len() - 1]));
        lemma_placed_at(items.drop_last(), item, place);
        assert(placed(items, item) =~= items.insert(place, item));
    } else {
        assert(placed(items, item) =~= items.insert(place, item));
    }
}

proof fn lemma_placed<T: Ranked>(items: Seq<T>, item: T)
    requires
        in_order(items),
    ensures
        in_order(placed(items, item)),
        placed(items, item).to_multiset() == items.to_multiset().insert(item),
        placed(items, item).len() == items.len() + 1,
        forall|other: T| #[trigger]
            placed(items, item).contains(other) <==> items.contains(other) || other == item,
    decreases items.len(),
{
    broadcast use vstd::seq_lib::group_to_multiset_ensures;

    let more = placed(items, item);
    if items.len() == 0 || !item.comes_before(items.last()) {
        assert forall|i: int, j: int| 0 <= i < j < more.len() implies !(
        #[trigger] more[j]).comes_before(#[trigger] more[i]) by {
            if j == items.len() && i < items.len() - 1 {
                T::chained(items[i], items[items.len() - 1], item);
            }
        }
        assert forall|other: T| #[trigger] more.contains(other) <==> items.contains(other) || other
            == item by {
            if items.contains(other) {
                let i = choose|i: int| 0 <= i < items.len() && items[i] == other;
                assert(more[i] == other);
            }
            assert(more[items.len() as int] == item);
        }
    } else {
        let shorter = items.drop_last();
        let last = items.last();
        assert(items[items.len() - 1] == last);
        lemma_placed(shorter, item);
        let front = placed(shorter, item);
        assert forall|i: int| 0 <= i < front.len() implies !last.comes_before(
            #[trigger] front[i],
        ) by {
            assert(front.contains(front[i]));
            if shorter.contains(front[i]) {
                let p = choose|p: int| 0 <= p < shorter.len() && shorter[p] == front[i];
                assert(items[p] == front[i]);
            } else {
                T::asymmetric(item, last);
            }
        }
        assert forall|i: int, j: int| 0 <= i < j < more.len() implies !(
        #[trigger] more[j]).comes_before(#[trigger] more[i]) by {
            assert(more[i] == front[i]);
            if j < front.len() {
                assert(more[j] == front[j]);
            }
        }
        assert(items =~= shorter.push(last));
        assert(more.to_multiset() =~= items.to_multiset().insert(item));
        assert forall|other: T| #[trigger] more.contains(other) <==> items.contains(other) || other
            == item by {
            if more.contains(other) {
                let i = choose|i: int| 0 <= i < more.len() && more[i] == other;
                if i < front.len() {
                    assert(front[i] == other);
                    assert(front.contains(other));
                    if other != item {
                        let p = choose|p: int| 0 <= p < shorter.len() && shorter[p] == other;
                        assert(items[p] == other);
                    }
                } else {
                    assert(items[items.len() - 1] == other);
                }
            }
            if items.contains(other) || other == item {
                if other == last && items.len() > 0 {
                    assert(more[front.len() as int] == other);
                } else {
                    if other != item {
                        let i = choose|i: int| 0 <= i < items.len() && items[i] == other;
                        assert(shorter[i] == other);
                    }
                    assert(front.contains(other));
                    let p = choose|p: int| 0 <= p < front.len() && front[p] == other;
                    assert(more[p] == other);
                }
            }
        }
    }
}

/// Arranging puts the items in order and neither adds nor loses one.
pub proof fn law_arranged<T: Ranked>(items: Seq<T>)
    ensures
        in_order(arranged(items)),
        arranged(items).to_multiset() == items.to_multiset(),
        arranged(items).len() == items.len(),
        forall|item: T| #[trigger] arranged(items).contains(item) <==> items.contains(item),
    decreases items.len(),
{
    broadcast use vstd::seq_lib::group_to_multiset_ensures;

    if items.len() > 0 {
        let shorter = items.drop_last();
        law_arranged(shorter);
        lemma_placed(arranged(shorter), items.last());
        assert(items =~= shorter.push(items.last()));
        assert forall|item: T| #[trigger] arranged(items).contains(item) <==> items.contains(
            item,
        ) by {
            assert(items[items.len() - 1] == items.last());
            if items.contains(item) && item != items.last() {
                let i = choose|i: int| 0 <= i < items.len() && items[i] == item;
                assert(shorter[i] == item);
                assert(shorter.contains(item));
            }
            if shorter.contains(item) {
                let i = choose|i: int| 0 <= i < shorter.len() && shorter[i] == item;
                assert(items[i] == item);
            }
            assert(arranged(shorter).contains(item) <==> shorter.contains(item));
        }
    } else {
        assert(arranged(items) =~= items);
    }
}

/// Arranges the items.
pub fn arrange<T: Ranked>(items: Vec<T>) -> (sorted: Vec<T>)
    ensures
        sorted@ == arranged(items@),
{
    let mut sorted: Vec<T> = Vec::new();
    let ghost all = items@;
    assert(all.take(0) =~= Seq::<T>::empty());
    for item in it: items
        invariant
            it.seq() == all,
            sorted@ == arranged(all.take(it.index())),
    {
        assert(all.take(it.index() + 1).drop_last() =~= all.take(it.index()));
        assert(all.take(it.index() + 1).last() == item);
        let mut place: usize = sorted.len();
        while place > 0 && item.before(&sorted[place - 1])
            invariant
                place <= sorted.len(),
                forall|j: int| place <= j < sorted@.len() ==> item.comes_before(
                    #[trigger] sorted@[j],
                ),
            decreases place,
        {
            place = place - 1;
        }
        proof {
            lemma_placed_at(sorted@, item, place as int);
        }
        sorted.insert(place, item);
    }
    assert(all.take(all.len() as int) =~= all);
    sorted
}

/// Models come in the order of their providers, and at one provider in that of their names.
pub proof fn law_model_order(left: ModelKeyView, right: ModelKeyView)
    ensures
        ModelKey::precedes(left, right) <==> if left.provider == right.provider {
            text::text_before(left.model, right.model)
        } else {
            text::text_before(left.provider, right.provider)
        },
{
    text::lemma_text_irreflexive(left.provider);
}

/// Names come in the order of texts.
pub proof fn law_name_order(left: Seq<char>, right: Seq<char>)
    ensures
        String::precedes(left, right) <==> text::text_before(left, right),
{
}

/// A map keeps its entries by ascending key, and gives each key the value that stands with it.
pub proof fn law_ascending_keys<K: Key, T>(map: OrderedMap<K, T>, i: int, j: int)
    requires
        map.well_formed(),
        0 <= i < j < map.entries@.len(),
    ensures
        K::precedes(map.entries@[i].0@, map.entries@[j].0@),
        map@.dom().contains(map.entries@[i].0@),
        map@[map.entries@[i].0@] == map.entries@[i].1,
{
    map.lemma_entry(i);
    assert(map.keys()[i] == map.entries@[i].0@);
    assert(map.keys()[j] == map.entries@[j].0@);
}

} // verus!
