//! A set of strings and a map keyed by service names, both kept in the order of
//! their strings.

use vstd::prelude::*;
use crate::text::{
    compare, lemma_precedes_asymmetric, lemma_precedes_total, lemma_precedes_transitive, precedes, texts, Order,
};

verus! {

/// Each string precedes those that follow it, so none occurs twice.
pub open spec fn ascending(items: Seq<Seq<char>>) -> bool {
    forall|i: int, j: int|
        0 <= i < j < items.len() ==> precedes(#[trigger] items[i], #[trigger] items[j])
}

/// Strings in ascending order are pairwise different.
pub proof fn lemma_ascending_distinct(items: Seq<Seq<char>>)
    requires
        ascending(items),
    ensures
        items.no_duplicates(),
{
    assert forall|i: int, j: int|
        0 <= i < items.len() && 0 <= j < items.len() && i != j implies items[i] != items[j] by {
        if i < j {
            lemma_precedes_asymmetric(items[i], items[j]);
        } else {
            lemma_precedes_asymmetric(items[j], items[i]);
        }
    }
}

/// The strings held fix the order in which they are held: two ascending
/// sequences of the same strings are the same sequence.
pub proof fn law_order_is_unique(a: Seq<Seq<char>>, b: Seq<Seq<char>>)
    requires
        ascending(a),
        ascending(b),
        a.to_set() == b.to_set(),
    ensures
        a == b,
    decreases a.len(),
{
    lemma_ascending_distinct(a);
    lemma_ascending_distinct(b);
    a.unique_seq_to_set();
    b.unique_seq_to_set();
    assert(a.len() == b.len());
    if a.len() > 0 {
        let n = a.len() - 1;
        assert(a.to_set().contains(a[n]));
        assert(b.to_set().contains(b[n]));
        assert(b.contains(a[n]));
        assert(a.contains(b[n]));
        let i = choose|i: int| 0 <= i < b.len() && b[i] == a[n];
        let j = choose|j: int| 0 <= j < a.len() && a[j] == b[n];
        if i < n && j < n {
            lemma_precedes_asymmetric(b[i], b[n]);
        }
        assert(a[n] == b[n]);
        let front = a.drop_last();
        let other = b.drop_last();
        assert forall|text: Seq<char>| front.to_set().contains(text) implies other.to_set().contains(text) by {
            assert(front.contains(text));
            let k = choose|k: int| 0 <= k < front.len() && front[k] == text;
            assert(a[k] == text);
            assert(a.to_set().contains(text));
            assert(b.contains(text));
            let l = choose|l: int| 0 <= l < b.len() && b[l] == text;
            assert(other[l] == text);
        }
        assert forall|text: Seq<char>| other.to_set().contains(text) implies front.to_set().contains(text) by {
            assert(other.contains(text));
            let k = choose|k: int| 0 <= k < other.len() && other[k] == text;
            assert(b[k] == text);
            assert(b.to_set().contains(text));
            assert(a.contains(text));
            let l = choose|l: int| 0 <= l < a.len() && a[l] == text;
            assert(front[l] == text);
        }
        assert(front.to_set() =~= other.to_set());
        law_order_is_unique(front, other);
        assert(a =~= front.push(a[n]));
        assert(b =~= other.push(b[n]));
    }
}

/// A longer front of a sequence holds one more element.
pub proof fn lemma_take_one_more<T>(items: Seq<T>, i: int)
    requires
        0 <= i < items.len(),
    ensures
        forall|item: T| #[trigger]
            items.take(i + 1).contains(item) <==> items.take(i).contains(item) || item == items[i],
{
    assert(items.take(i + 1) =~= items.take(i).push(items[i]));
    assert forall|item: T| #[trigger]
        items.take(i + 1).contains(item) <==> items.take(i).contains(item) || item == items[i] by {
        let front = items.take(i);
        let more = items.take(i + 1);
        if front.contains(item) {
            let j = choose|j: int| 0 <= j < front.len() && front[j] == item;
            assert(more[j] == item);
        }
        if more.contains(item) {
            let j = choose|j: int| 0 <= j < more.len() && more[j] == item;
            if j < i {
                assert(front[j] == item);
            }
        }
        assert(more[i] == items[i]);
    }
}

/// The strings of a finite set in ascending order.
pub open spec fn in_order(items: Set<Seq<char>>) -> Seq<Seq<char>> {
    choose|sorted: Seq<Seq<char>>| ascending(sorted) && #[trigger] sorted.to_set() == items
}

/// Ascending strings are their set in order.
pub proof fn lemma_in_order(items: Seq<Seq<char>>)
    requires
        ascending(items),
    ensures
        in_order(items.to_set()) == items,
{
    let sorted = in_order(items.to_set());
    law_order_is_unique(sorted, items);
}

/// Where `key` stands, or would stand, among ascending strings.
fn find(items: &Vec<String>, key: &str) -> (place: (usize, bool))
    requires
        ascending(texts(items@)),
    ensures
        place.0 <= items.len(),
        forall|i: int| 0 <= i < place.0 ==> precedes(#[trigger] texts(items@)[i], key@),
        place.1 ==> place.0 < items.len() && texts(items@)[place.0 as int] == key@,
        !place.1 ==> forall|i: int|
            place.0 <= i < items.len() ==> precedes(key@, #[trigger] texts(items@)[i]),
        place.1 <==> texts(items@).contains(key@),
{
    let mut at: usize = 0;
    while at < items.len()
        invariant
            at <= items.len(),
            ascending(texts(items@)),
            forall|i: int| 0 <= i < at ==> precedes(#[trigger] texts(items@)[i], key@),
        decreases items.len() - at,
    {
        match compare(items[at].as_str(), key) {
            Order::Before => {},
            Order::Same => {
                assert(texts(items@)[at as int] == key@);
                return (at, true);
            },
            Order::After => {
                proof {
                    let all = texts(items@);
                    assert forall|i: int| at <= i < all.len() implies precedes(key@, #[trigger] all[i]) by {
                        assert(precedes(key@, all[at as int]));
                        if at < i {
                            lemma_precedes_transitive(key@, all[at as int], all[i]);
                        }
                    }
                    lemma_absent(all, key@, at as int);
                }
                return (at, false);
            },
        }
        at = at + 1;
    }
    proof {
        lemma_absent(texts(items@), key@, at as int);
    }
    (at, false)
}

/// A string with smaller strings up to some place and larger ones from there on
/// is not among them.
proof fn lemma_absent(items: Seq<Seq<char>>, key: Seq<char>, at: int)
    requires
        0 <= at <= items.len(),
        forall|i: int| 0 <= i < at ==> precedes(#[trigger] items[i], key),
        forall|i: int| at <= i < items.len() ==> precedes(key, #[trigger] items[i]),
    ensures
        !items.contains(key),
{
    if items.contains(key) {
        let i = choose|i: int| 0 <= i < items.len() && items[i] == key;
        lemma_precedes_asymmetric(key, key);
    }
}

/// Putting a string at its place keeps the order.
proof fn lemma_insert_ascending(items: Seq<Seq<char>>, key: Seq<char>, at: int)
    requires
        ascending(items),
        0 <= at <= items.len(),
        forall|i: int| 0 <= i < at ==> precedes(#[trigger] items[i], key),
        forall|i: int| at <= i < items.len() ==> precedes(key, #[trigger] items[i]),
    ensures
        ascending(items.insert(at, key)),
{
    let longer = items.insert(at, key);
    assert forall|i: int, j: int| 0 <= i < j < longer.len() implies precedes(
        #[trigger] longer[i],
        #[trigger] longer[j],
    ) by {
        if i < at {
            assert(longer[i] == items[i]);
        } else if i > at {
            assert(longer[i] == items[i - 1]);
        }
        if j < at {
            assert(longer[j] == items[j]);
        } else if j > at {
            assert(longer[j] == items[j - 1]);
        }
    }
}

/// There is a place for every string that is not among ascending strings.
proof fn lemma_place(items: Seq<Seq<char>>, key: Seq<char>) -> (at: int)
    requires
        ascending(items),
        !items.contains(key),
    ensures
        0 <= at <= items.len(),
        forall|i: int| 0 <= i < at ==> precedes(#[trigger] items[i], key),
        forall|i: int| at <= i < items.len() ==> precedes(key, #[trigger] items[i]),
    decreases items.len(),
{
    if items.len() == 0 {
        0
    } else {
        let front = items.drop_last();
        assert forall|i: int| 0 <= i < front.len() implies front[i] != key by {
            assert(front[i] == items[i]);
        }
        let at = lemma_place(front, key);
        let last = items.last();
        assert(items.contains(last));
        lemma_precedes_total(last, key);
        assert forall|i: int| 0 <= i < front.len() implies #[trigger] items[i] == front[i] by {}
        if precedes(last, key) {
            if at < front.len() {
                assert(precedes(key, front[at]));
                assert(precedes(items[at], items[items.len() - 1]));
                lemma_precedes_transitive(key, items[at], last);
                lemma_precedes_asymmetric(key, last);
            }
            items.len() as int
        } else {
            at
        }
    }
}

/// The strings of a finite set in order are ascending, and are those of the set.
pub proof fn lemma_in_order_of(items: Set<Seq<char>>)
    requires
        items.finite(),
    ensures
        ascending(in_order(items)),
        in_order(items).to_set() == items,
        in_order(items).len() == items.len(),
    decreases items.len(),
{
    if items.len() == 0 {
        let none = Seq::<Seq<char>>::empty();
        assert(none.to_set() =~= items);
        lemma_in_order(none);
    } else {
        let key = items.choose();
        let rest = items.remove(key);
        lemma_in_order_of(rest);
        let sorted = in_order(rest);
        assert(!sorted.contains(key)) by {
            assert(!sorted.to_set().contains(key));
        }
        let at = lemma_place(sorted, key);
        lemma_insert_ascending(sorted, key, at);
        lemma_insert_members(sorted, at, key);
        assert(rest.insert(key) =~= items);
        lemma_in_order(sorted.insert(at, key));
    }
    let sorted = in_order(items);
    lemma_ascending_distinct(sorted);
    sorted.unique_seq_to_set();
}

/// A set of peer addresses, held in ascending order.
#[derive(Debug)]
pub struct PeerSet {
    items: Vec<String>,
}

impl View for PeerSet {
    type V = Set<Seq<char>>;

    open spec fn view(&self) -> Set<Seq<char>> {
        self.items().to_set()
    }
}

impl PeerSet {
    /// The addresses are their set in order, none twice.
    pub proof fn lemma_items(&self)
        requires
            self.wf(),
        ensures
            self.items() == in_order(self@),
            self.items().no_duplicates(),
            self@.finite(),
            self@.len() == self.items().len(),
    {
        lemma_in_order(self.items());
        lemma_ascending_distinct(self.items());
        self.items().unique_seq_to_set();
    }

    /// The addresses in the order in which they are held.
    pub closed spec fn items(&self) -> Seq<Seq<char>> {
        texts(self.items@)
    }

    /// The addresses are held in ascending order.
    pub open spec fn wf(&self) -> bool {
        ascending(self.items())
    }

    /// The empty set.
    pub fn new() -> (set: PeerSet)
        ensures
            set.wf(),
            set@ == Set::<Seq<char>>::empty(),
            set.items() == Seq::<Seq<char>>::empty(),
    {
        let set = PeerSet { items: Vec::new() };
        assert(set.items() =~= Seq::<Seq<char>>::empty());
        assert(set@ =~= Set::<Seq<char>>::empty());
        set
    }

    /// The number of addresses.
    pub fn len(&self) -> (count: usize)
        requires
            self.wf(),
        ensures
            count == self.items().len(),
            count == self@.len(),
    {
        proof {
            self.lemma_items();
        }
        self.items.len()
    }

    /// The address at a place in the ascending order.
    pub fn item(&self, at: usize) -> (item: &String)
        requires
            at < self.items().len(),
        ensures
            item@ == self.items()[at as int],
    {
        &self.items[at]
    }

    /// Adds an address, unless it is held already.
    pub fn insert(&mut self, item: String)
        requires
            old(self).wf(),
        ensures
            final(self).wf(),
            final(self)@ == old(self)@.insert(item@),
    {
        let ghost before = self.items();
        let ghost text = item@;
        let (at, found) = find(&self.items, item.as_str());
        if found {
            assert(before.to_set().contains(text));
            assert(before.to_set() =~= before.to_set().insert(text));
        } else {
            proof {
                lemma_insert_ascending(before, text, at as int);
            }
            self.items.insert(at, item);
            let ghost after = self.items();
            assert(after =~= before.insert(at as int, text));
            proof {
                lemma_insert_members(before, at as int, text);
            }
        }
    }
}

/// The members of a sequence with one more element.
proof fn lemma_insert_members(items: Seq<Seq<char>>, at: int, item: Seq<char>)
    requires
        0 <= at <= items.len(),
    ensures
        items.insert(at, item).to_set() == items.to_set().insert(item),
{
    let longer = items.insert(at, item);
    assert forall|text: Seq<char>| longer.to_set().contains(text) == items.to_set().insert(
        item,
    ).contains(text) by {
        if longer.contains(text) {
            let i = choose|i: int| 0 <= i < longer.len() && longer[i] == text;
            if i < at {
                assert(items[i] == text);
            } else if i > at {
                assert(items[i - 1] == text);
            }
        }
        if items.contains(text) {
            let i = choose|i: int| 0 <= i < items.len() && items[i] == text;
            if i < at {
                assert(longer[i] == text);
            } else {
                assert(longer[i + 1] == text);
            }
        }
        assert(longer[at] == item);
    }
    assert(longer.to_set() =~= items.to_set().insert(item));
}

/// A map from service names, held in the ascending order of the names.
#[derive(Debug)]
pub struct ServiceMap<V> {
    keys: Vec<String>,
    values: Vec<V>,
}

impl<V> View for ServiceMap<V> {
    type V = Map<Seq<char>, V>;

    open spec fn view(&self) -> Map<Seq<char>, V> {
        Map::new(
            |key: Seq<char>| self.keys().contains(key),
            |key: Seq<char>| self.values()[self.keys().index_of(key)],
        )
    }
}

impl<V> ServiceMap<V> {
    /// The names in the order in which they are held.
    pub closed spec fn keys(&self) -> Seq<Seq<char>> {
        texts(self.keys@)
    }

    /// The values, each at the place of its name.
    pub closed spec fn values(&self) -> Seq<V> {
        self.values@
    }

    /// The names are held in ascending order, each with a value.
    pub open spec fn wf(&self) -> bool {
        &&& ascending(self.keys())
        &&& self.values().len() == self.keys().len()
    }

    /// The entry at a place is the one that the map gives for its name.
    pub proof fn lemma_entry(&self, at: int)
        requires
            self.wf(),
            0 <= at < self.keys().len(),
        ensures
            self@.contains_key(self.keys()[at]),
            self@[self.keys()[at]] == self.values()[at],
    {
        lemma_ascending_distinct(self.keys());
        assert(self.keys().contains(self.keys()[at]));
    }

    /// The names are the domain of the map, in order.
    pub proof fn lemma_domain(&self)
        requires
            self.wf(),
        ensures
            self.keys().to_set() == self@.dom(),
            self.keys() == in_order(self@.dom()),
            self@.dom().finite(),
            self@.dom().len() == self.keys().len(),
    {
        lemma_ascending_distinct(self.keys());
        self.keys().unique_seq_to_set();
        assert(self.keys().to_set() =~= self@.dom());
        lemma_in_order(self.keys());
    }

    /// The empty map.
    pub fn new() -> (map: ServiceMap<V>)
        ensures
            map.wf(),
            map@ == Map::<Seq<char>, V>::empty(),
            map.keys().len() == 0,
    {
        let map = ServiceMap { keys: Vec::new(), values: Vec::new() };
        assert(map@ =~= Map::<Seq<char>, V>::empty());
        map
    }

    /// The number of names.
    pub fn len(&self) -> (count: usize)
        requires
            self.wf(),
        ensures
            count == self.keys().len(),
            count == self@.dom().len(),
    {
        proof {
            self.lemma_domain();
        }
        self.keys.len()
    }

    /// The name at a place in the ascending order.
    pub fn key(&self, at: usize) -> (key: &String)
        requires
            at < self.keys().len(),
        ensures
            key@ == self.keys()[at as int],
    {
        &self.keys[at]
    }

    /// The value at the place of its name.
    pub fn value(&self, at: usize) -> (value: &V)
        requires
            at < self.values().len(),
        ensures
            *value == self.values()[at as int],
    {
        &self.values[at]
    }

    /// The value of a name.
    pub fn get(&self, key: &str) -> (value: Option<&V>)
        requires
            self.wf(),
        ensures
            match value {
                Some(value) => self@.contains_key(key@) && *value == self@[key@],
                None => !self@.contains_key(key@),
            },
    {
        let (at, found) = find(&self.keys, key);
        if found {
            proof {
                self.lemma_entry(at as int);
            }
            Some(&self.values[at])
        } else {
            None
        }
    }

    /// Sets the value of a name.
    pub fn insert(&mut self, key: String, value: V)
        requires
            old(self).wf(),
        ensures
            final(self).wf(),
            final(self)@ == old(self)@.insert(key@, value),
    {
        let ghost before = *self;
        let ghost name = key@;
        let (at, found) = find(&self.keys, key.as_str());
        if found {
            self.values.set(at, value);
            assert(self.keys() == before.keys());
            proof {
                lemma_ascending_distinct(before.keys());
                assert forall|k: Seq<char>| before@.contains_key(k) implies self@[k] == before@.insert(
                    name,
                    value,
                )[k] by {
                    let i = before.keys().index_of(k);
                    assert(before.keys()[i] == k);
                    if k == name {
                        assert(i == at);
                    }
                }
                assert(self@ =~= before@.insert(name, value));
            }
        } else {
            proof {
                lemma_insert_ascending(before.keys(), name, at as int);
                lemma_insert_members(before.keys(), at as int, name);
            }
            self.keys.insert(at, key);
            self.values.insert(at, value);
            proof {
                let keys = before.keys();
                let longer = keys.insert(at as int, name);
                assert(self.keys() =~= longer);
                assert(self.values() =~= before.values().insert(at as int, value));
                lemma_ascending_distinct(longer);
                lemma_ascending_distinct(keys);
                assert forall|k: Seq<char>| self@.contains_key(k) == before@.insert(
                    name,
                    value,
                ).contains_key(k) by {
                    assert(longer.to_set().contains(k) == keys.to_set().insert(name).contains(k));
                }
                assert forall|k: Seq<char>| self@.contains_key(k) implies self@[k] == before@.insert(
                    name,
                    value,
                )[k] by {
                    let i = longer.index_of(k);
                    assert(longer[i] == k);
                    assert(longer[at as int] == name);
                    if k != name {
                        let j = if i < at { i } else { i - 1 };
                        assert(keys[j] == k);
                        assert(keys.index_of(k) == j);
                    }
                }
                assert(self@ =~= before@.insert(name, value));
            }
        }
    }

    /// Takes the value of a name out of the map.
    pub fn remove(&mut self, key: &str) -> (value: Option<V>)
        requires
            old(self).wf(),
        ensures
            final(self).wf(),
            final(self)@ == old(self)@.remove(key@),
            match value {
                Some(value) => old(self)@.contains_key(key@) && value == old(self)@[key@],
                None => !old(self)@.contains_key(key@),
            },
    {
        let ghost before = *self;
        let (at, found) = find(&self.keys, key);
        if found {
            proof {
                before.lemma_entry(at as int);
                lemma_ascending_distinct(before.keys());
            }
            let _ = self.keys.remove(at);
            let value = self.values.remove(at);
            proof {
                let keys = before.keys();
                let shorter = keys.remove(at as int);
                assert(self.keys() =~= shorter);
                assert(self.values() =~= before.values().remove(at as int));
                assert forall|i: int, j: int| 0 <= i < j < shorter.len() implies precedes(
                    #[trigger] shorter[i],
                    #[trigger] shorter[j],
                ) by {
                    let k = if i < at { i } else { i + 1 };
                    let l = if j < at { j } else { j + 1 };
                    assert(precedes(keys[k], keys[l]));
                }
                lemma_ascending_distinct(shorter);
                assert forall|k: Seq<char>| self@.contains_key(k) == before@.remove(
                    key@,
                ).contains_key(k) by {
                    if shorter.contains(k) {
                        let i = shorter.index_of(k);
                        let j = if i < at { i } else { i + 1 };
                        assert(keys[j] == k);
                    }
                    if keys.contains(k) && k != key@ {
                        let j = keys.index_of(k);
                        assert(keys[j] == k);
                        let i = if j < at { j } else { j - 1 };
                        assert(shorter[i] == k);
                    }
                }
                assert forall|k: Seq<char>| self@.contains_key(k) implies self@[k] == before@.remove(
                    key@,
                )[k] by {
                    let i = shorter.index_of(k);
                    assert(shorter[i] == k);
                    let j = if i < at { i } else { i + 1 };
                    assert(keys[j] == k);
                    assert(keys.index_of(k) == j);
                }
                assert(self@ =~= before@.remove(key@));
            }
            Some(value)
        } else {
            assert(self@ =~= before@.remove(key@));
            None
        }
    }
}

} // verus!
