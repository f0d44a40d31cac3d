//! A map from strings, kept in the order of its keys.
//!
//! Entries stand sorted by key and no key stands twice, so that a map has one
//! form only, whatever the order in which it was filled.

use crate::text;
use vstd::prelude::*;
use vstd::string::*;

verus! {

/// A map from strings, kept in the order of its keys.
#[derive(Debug, PartialEq)]
pub struct KeyMap<V> {
    items: Vec<(String, V)>,
}

/// Whether the keys stand in order, each once.
pub open spec fn sorted_keys<V>(items: Seq<(String, V)>) -> bool {
    forall|i: int, j: int|
        0 <= i < j < items.len() ==> text::before(
            (#[trigger] items[i]).0@,
            (#[trigger] items[j]).0@,
        )
}

/// The entry with the given key, if there is one.
pub open spec fn holds_key<V>(items: Seq<(String, V)>, key: Seq<char>, i: int) -> bool {
    0 <= i < items.len() && items[i].0@ == key
}

/// The map that a list of entries stands for.
pub open spec fn map_of<V: View>(items: Seq<(String, V)>) -> Map<Seq<char>, V::V> {
    Map::new(
        |key: Seq<char>| exists|i: int| #[trigger] holds_key(items, key, i),
        |key: Seq<char>| items[choose|i: int| #[trigger] holds_key(items, key, i)].1@,
    )
}

/// An entry of sorted keys is what the map holds under its key.
proof fn lemma_map_at<V: View>(items: Seq<(String, V)>, i: int)
    requires
        sorted_keys(items),
        0 <= i < items.len(),
    ensures
        map_of(items).contains_key(items[i].0@),
        map_of(items)[items[i].0@] == items[i].1@,
{
    let key = items[i].0@;
    assert(holds_key(items, key, i));
    let j = choose|j: int| #[trigger] holds_key(items, key, j);
    assert(holds_key(items, key, j));
    if i < j {
        assert(text::before(items[i].0@, items[j].0@));
        text::lemma_before_irreflexive(key);
    } else if j < i {
        assert(text::before(items[j].0@, items[i].0@));
        text::lemma_before_irreflexive(key);
    }
}

/// A key between its neighbours in the order stands nowhere.
proof fn lemma_map_absent<V: View>(items: Seq<(String, V)>, key: Seq<char>)
    requires
        forall|i: int| 0 <= i < items.len() ==> (#[trigger] items[i]).0@ != key,
    ensures
        !map_of(items).contains_key(key),
{
    if map_of(items).contains_key(key) {
        let i = choose|i: int| #[trigger] holds_key(items, key, i);
        assert(holds_key(items, key, i));
        assert(items[i].0@ == key);
    }
}

/// What a map holds under a key is a value that was put in.
pub proof fn law_value_is_held<V: View>(map: KeyMap<V>, key: Seq<char>) -> (v: V)
    requires
        map@.contains_key(key),
    ensures
        map@[key] == v@,
{
    let i = choose|i: int| #[trigger] holds_key(map.items@, key, i);
    map.items@[i].1
}

/// Whether `list` holds the entries of `map` in the order of their keys.
pub open spec fn is_listing<T>(list: Seq<(Seq<char>, T)>, map: Map<Seq<char>, T>) -> bool {
    &&& forall|i: int, j: int|
        0 <= i < j < list.len() ==> text::before((#[trigger] list[i]).0, (#[trigger] list[j]).0)
    &&& forall|i: int|
        0 <= i < list.len() ==> map.contains_key((#[trigger] list[i]).0) && map[list[i].0]
            == list[i].1
    &&& forall|key: Seq<char>| #[trigger]
        map.contains_key(key) ==> exists|i: int|
            0 <= i < list.len() && (#[trigger] list[i]).0 == key
}

/// The entries of a map in the order of their keys.
pub open spec fn listing<T>(map: Map<Seq<char>, T>) -> Seq<(Seq<char>, T)> {
    choose|list: Seq<(Seq<char>, T)>| is_listing(list, map)
}

/// A map has one listing only.
pub proof fn law_listing_unique<T>(
    a: Seq<(Seq<char>, T)>,
    b: Seq<(Seq<char>, T)>,
    map: Map<Seq<char>, T>,
)
    requires
        is_listing(a, map),
        is_listing(b, map),
    ensures
        a == b,
    decreases a.len(),
{
    if a.len() == 0 {
        if b.len() > 0 {
            assert(map.contains_key(b[0].0));
        }
        assert(a =~= b);
    } else {
        let last = a.last();
        assert(map.contains_key(a[a.len() - 1].0));
        assert(b.len() > 0);
        assert(map.contains_key(b[b.len() - 1].0));
        let i = choose|i: int| 0 <= i < b.len() && (#[trigger] b[i]).0 == a.last().0;
        let j = choose|j: int| 0 <= j < a.len() && (#[trigger] a[j]).0 == b.last().0;
        if i < b.len() - 1 {
            // Each of the two last keys would come before the other.
            assert(text::before(b[i].0, b[b.len() - 1].0));
            if j < a.len() - 1 {
                assert(text::before(a[j].0, a[a.len() - 1].0));
                text::lemma_before_transitive(a.last().0, b.last().0, a.last().0);
            }
            text::lemma_before_irreflexive(a.last().0);
        }
        assert(a.last() == b.last());
        let rest = map.remove(last.0);
        lemma_listing_front(a, map);
        lemma_listing_front(b, map);
        law_listing_unique(a.drop_last(), b.drop_last(), rest);
        assert(a =~= a.drop_last().push(a.last()));
        assert(b =~= b.drop_last().push(b.last()));
    }
}

/// Where a key belongs in a list that is in order and does not hold it.
proof fn lemma_place<T>(list: Seq<(Seq<char>, T)>, key: Seq<char>) -> (p: int)
    requires
        forall|i: int, j: int|
            0 <= i < j < list.len() ==> text::before(
                (#[trigger] list[i]).0,
                (#[trigger] list[j]).0,
            ),
        forall|i: int| 0 <= i < list.len() ==> (#[trigger] list[i]).0 != key,
    ensures
        0 <= p <= list.len(),
        forall|i: int| 0 <= i < p ==> text::before((#[trigger] list[i]).0, key),
        forall|i: int| p <= i < list.len() ==> text::before(key, (#[trigger] list[i]).0),
    decreases list.len(),
{
    if list.len() == 0 {
        0
    } else {
        let last = list.last().0;
        text::lemma_before_total(last, key);
        assert(list[list.len() - 1].0 != key);
        if text::before(last, key) {
            assert forall|i: int| 0 <= i < list.len() implies text::before(
                (#[trigger] list[i]).0,
                key,
            ) by {
                if i < list.len() - 1 {
                    assert(text::before(list[i].0, list[list.len() - 1].0));
                    text::lemma_before_transitive(list[i].0, last, key);
                }
            }
            list.len() as int
        } else {
            let front = list.drop_last();
            assert forall|i: int, j: int| 0 <= i < j < front.len() implies text::before(
                (#[trigger] front[i]).0,
                (#[trigger] front[j]).0,
            ) by {
                assert(text::before(list[i].0, list[j].0));
            }
            assert forall|i: int| 0 <= i < front.len() implies (#[trigger] front[i]).0 != key by {
                assert(list[i].0 != key);
            }
            let p = lemma_place(front, key);
            assert forall|i: int| 0 <= i < p implies text::before((#[trigger] list[i]).0, key) by {
                assert(front[i] == list[i]);
            }
            assert forall|i: int| p <= i < list.len() implies text::before(
                key,
                (#[trigger] list[i]).0,
            ) by {
                if i < front.len() {
                    assert(front[i] == list[i]);
                }
            }
            p
        }
    }
}

/// A finite map has a listing, and `listing` is it.
pub proof fn law_listing_lists<T>(map: Map<Seq<char>, T>)
    requires
        map.dom().finite(),
    ensures
        is_listing(listing(map), map),
    decreases map.dom().len(),
{
    if map.dom().len() == 0 {
        assert forall|key: Seq<char>| !map.contains_key(key) by {
            assert(map.dom() =~= Set::empty());
        }
        assert(is_listing(Seq::<(Seq<char>, T)>::empty(), map));
    } else {
        let key = map.dom().choose();
        let rest = map.remove(key);
        let front = listing(rest);
        law_listing_lists(rest);
        assert forall|i: int| 0 <= i < front.len() implies (#[trigger] front[i]).0 != key by {
            assert(rest.contains_key(front[i].0));
        }
        let p = lemma_place(front, key);
        let list = front.insert(p, (key, map[key]));
        assert forall|i: int, j: int| 0 <= i < j < list.len() implies text::before(
            (#[trigger] list[i]).0,
            (#[trigger] list[j]).0,
        ) by {
            let a = if i < p { i } else { i - 1 };
            let b = if j < p { j } else { j - 1 };
            if i == p {
                assert(list[j] == front[b]);
            } else if j == p {
                assert(list[i] == front[a]);
            } else {
                assert(list[i] == front[a]);
                assert(list[j] == front[b]);
            }
        }
        assert forall|i: int| 0 <= i < list.len() implies map.contains_key((#[trigger] list[i]).0)
            && map[list[i].0] == list[i].1 by {
            if i != p {
                let a = if i < p { i } else { i - 1 };
                assert(list[i] == front[a]);
                assert(rest.contains_key(front[a].0));
            }
        }
        assert forall|k: Seq<char>| #[trigger] map.contains_key(k) implies exists|i: int|
            0 <= i < list.len() && (#[trigger] list[i]).0 == k by {
            if k == key {
                assert(list[p].0 == k);
            } else {
                assert(rest.contains_key(k));
                let a = choose|a: int| 0 <= a < front.len() && (#[trigger] front[a]).0 == k;
                let i = if a < p { a } else { a + 1 };
                assert(list[i] == front[a]);
            }
        }
        assert(is_listing(list, map));
    }
}

/// Two finite maps with one listing are the same.
pub proof fn law_listing_determines<T>(a: Map<Seq<char>, T>, b: Map<Seq<char>, T>)
    requires
        a.dom().finite(),
        b.dom().finite(),
        listing(a) == listing(b),
    ensures
        a == b,
{
    let list = listing(a);
    law_listing_lists(a);
    law_listing_lists(b);
    assert forall|key: Seq<char>|
        #![trigger a.dom().contains(key)]
        #![trigger b.dom().contains(key)]
        a.dom().contains(key) == b.dom().contains(key) && (a.dom().contains(key) ==> a[key]
            == b[key]) by {
        if a.contains_key(key) {
            let i = choose|i: int| 0 <= i < list.len() && (#[trigger] list[i]).0 == key;
            assert(b.contains_key(list[i].0) && b[list[i].0] == list[i].1);
            assert(a[list[i].0] == list[i].1);
        }
        if b.contains_key(key) {
            let i = choose|i: int| 0 <= i < list.len() && (#[trigger] list[i]).0 == key;
            assert(a.contains_key(list[i].0));
        }
    }
    assert(a =~= b);
}

/// What a list of entries stands for is a finite map.
proof fn lemma_map_finite<V: View>(items: Seq<(String, V)>)
    ensures
        map_of(items).dom().finite(),
{
    let keys = items.map_values(|e: (String, V)| e.0@);
    let held = keys.to_set();
    vstd::seq_lib::seq_to_set_is_finite(keys);
    assert forall|key: Seq<char>| map_of(items).dom().contains(key) implies held.contains(key) by {
        let i = choose|i: int| #[trigger] holds_key(items, key, i);
        assert(holds_key(items, key, i));
        assert(keys[i] == key);
    }
    vstd::set_lib::lemma_set_subset_finite(held, map_of(items).dom());
}

/// A map holds finitely many keys.
pub proof fn law_keys_are_finite<V: View>(map: KeyMap<V>)
    ensures
        map@.dom().finite(),
{
    lemma_map_finite(map.items@);
}

/// Without its last entry a listing lists the map without that key.
proof fn lemma_listing_front<T>(list: Seq<(Seq<char>, T)>, map: Map<Seq<char>, T>)
    requires
        is_listing(list, map),
        list.len() > 0,
    ensures
        is_listing(list.drop_last(), map.remove(list.last().0)),
{
    let front = list.drop_last();
    let key = list.last().0;
    let rest = map.remove(key);
    text::lemma_before_irreflexive(key);
    assert forall|i: int| 0 <= i < front.len() implies rest.contains_key((#[trigger] front[i]).0)
        && rest[front[i].0] == front[i].1 by {
        assert(front[i] == list[i]);
        assert(text::before(list[i].0, list[list.len() - 1].0));
    }
    assert forall|k: Seq<char>| #[trigger] rest.contains_key(k) implies exists|i: int|
        0 <= i < front.len() && (#[trigger] front[i]).0 == k by {
        assert(map.contains_key(k));
        let i = choose|i: int| 0 <= i < list.len() && (#[trigger] list[i]).0 == k;
        assert(front[i].0 == k);
    }
}

/// Sorted entries are the listing of the map they stand for.
proof fn lemma_items_list<V: View>(items: Seq<(String, V)>)
    requires
        sorted_keys(items),
    ensures
        listing(map_of(items)) == items.map_values(|e: (String, V)| (e.0@, e.1@)),
{
    let list = items.map_values(|e: (String, V)| (e.0@, e.1@));
    let map = map_of(items);
    assert forall|i: int| 0 <= i < list.len() implies map.contains_key((#[trigger] list[i]).0)
        && map[list[i].0] == list[i].1 by {
        lemma_map_at(items, i);
    }
    assert forall|i: int, j: int| 0 <= i < j < list.len() implies text::before(
        (#[trigger] list[i]).0,
        (#[trigger] list[j]).0,
    ) by {
        assert(text::before(items[i].0@, items[j].0@));
    }
    assert forall|key: Seq<char>| #[trigger] map.contains_key(key) implies exists|i: int|
        0 <= i < list.len() && (#[trigger] list[i]).0 == key by {
        let i = choose|i: int| #[trigger] holds_key(items, key, i);
        assert(holds_key(items, key, i));
        assert(list[i].0 == key);
    }
    assert(is_listing(list, map));
    law_listing_unique(listing(map), list, map);
}

/// Where a key stands among sorted keys, or where it would stand.
fn search<V>(items: &Vec<(String, V)>, key: &str) -> (r: (usize, bool))
    requires
        sorted_keys(items@),
    ensures
        r.0 <= items@.len(),
        forall|i: int| 0 <= i < r.0 ==> text::before((#[trigger] items@[i]).0@, key@),
        r.1 ==> r.0 < items@.len() && items@[r.0 as int].0@ == key@,
        !r.1 ==> forall|i: int|
            r.0 <= i < items@.len() ==> text::before(key@, (#[trigger] items@[i]).0@),
{
    let mut lo: usize = 0;
    let mut hi: usize = items.len();
    while lo < hi
        invariant
            sorted_keys(items@),
            lo <= hi <= items@.len(),
            forall|i: int| 0 <= i < lo ==> text::before((#[trigger] items@[i]).0@, key@),
            forall|i: int|
                hi <= i < items@.len() ==> !text::before((#[trigger] items@[i]).0@, key@),
        decreases hi - lo,
    {
        let mid: usize = lo + (hi - lo) / 2;
        if text::comes_before(items[mid].0.as_str(), key) {
            assert forall|i: int| 0 <= i < mid + 1 implies text::before(
                (#[trigger] items@[i]).0@,
                key@,
            ) by {
                if i < mid {
                    text::lemma_before_transitive(items@[i].0@, items@[mid as int].0@, key@);
                }
            }
            lo = mid + 1;
        } else {
            assert forall|i: int| mid <= i < items@.len() implies !text::before(
                (#[trigger] items@[i]).0@,
                key@,
            ) by {
                if mid < i && text::before(items@[i].0@, key@) {
                    text::lemma_before_transitive(items@[mid as int].0@, items@[i].0@, key@);
                }
            }
            hi = mid;
        }
    }
    if lo < items.len() && text::same(items[lo].0.as_str(), key) {
        (lo, true)
    } else {
        assert forall|i: int| lo <= i < items@.len() implies text::before(
            key@,
            (#[trigger] items@[i]).0@,
        ) by {
            text::lemma_before_total(items@[i].0@, key@);
            if items@[i].0@ == key@ {
                assert(lo < i);
                assert(text::before(items@[lo as int].0@, items@[i].0@));
            }
        }
        (lo, false)
    }
}

impl<V: View> View for KeyMap<V> {
    type V = Map<Seq<char>, V::V>;

    closed spec fn view(&self) -> Map<Seq<char>, V::V> {
        map_of(self.items@)
    }
}

impl<V> KeyMap<V> {
    #[verifier::type_invariant]
    closed spec fn well_formed(self) -> bool {
        sorted_keys(self.items@)
    }
}

impl<V: View> KeyMap<V> {
    /// The empty map.
    pub fn new() -> (r: Self)
        ensures
            r@ == Map::<Seq<char>, V::V>::empty(),
    {
        let r = KeyMap { items: Vec::new() };
        assert(map_of(r.items@) =~= Map::<Seq<char>, V::V>::empty());
        r
    }

    /// The number of entries.
    pub fn len(&self) -> (r: usize)
        ensures
            r == listing(self@).len(),
    {
        proof {
            use_type_invariant(self);
            lemma_items_list(self.items@);
        }
        self.items.len()
    }

    /// Whether there is no entry.
    pub fn is_empty(&self) -> (r: bool)
        ensures
            r == (self@ == Map::<Seq<char>, V::V>::empty()),
    {
        proof {
            use_type_invariant(self);
        }
        if self.items.len() == 0 {
            assert(self@ =~= Map::<Seq<char>, V::V>::empty());
            true
        } else {
            proof {
                lemma_map_at(self.items@, 0);
            }
            false
        }
    }

    /// The key of entry `i` in the order of keys.
    pub fn key_at(&self, i: usize) -> (r: &String)
        requires
            i < listing(self@).len(),
        ensures
            r@ == listing(self@)[i as int].0,
    {
        proof {
            use_type_invariant(self);
            lemma_items_list(self.items@);
        }
        &self.items[i].0
    }

    /// The value of entry `i` in the order of keys.
    pub fn value_at(&self, i: usize) -> (r: &V)
        requires
            i < listing(self@).len(),
        ensures
            r@ == listing(self@)[i as int].1,
    {
        proof {
            use_type_invariant(self);
            lemma_items_list(self.items@);
        }
        &self.items[i].1
    }

    /// Looks a key up.
    pub fn get(&self, key: &str) -> (r: Option<&V>)
        ensures
            match r {
                Some(v) => self@.contains_key(key@) && v@ == self@[key@],
                None => !self@.contains_key(key@),
            },
    {
        proof {
            use_type_invariant(self);
        }
        let (at, found) = search(&self.items, key);
        if found {
            proof {
                lemma_map_at(self.items@, at as int);
            }
            Some(&self.items[at].1)
        } else {
            proof {
                lemma_between(self.items@, at as int, key@);
            }
            None
        }
    }

    /// Puts a value under a key, in place of the one that stood there.
    pub fn insert(&mut self, key: String, value: V) -> (r: Option<V>)
        ensures
            final(self)@ == old(self)@.insert(key@, value@),
            match r {
                Some(v) => old(self)@.contains_key(key@) && v@ == old(self)@[key@],
                None => !old(self)@.contains_key(key@),
            },
    {
        proof {
            use_type_invariant(&*self);
        }
        let mut items: Vec<(String, V)> = Vec::new();
        std::mem::swap(&mut items, &mut self.items);
        let ghost before = items@;
        let ghost k = key@;
        let ghost v = value@;
        let (at, found) = search(&items, key.as_str());
        let mut replaced: Option<V> = None;
        if found {
            proof {
                lemma_map_at(before, at as int);
            }
            let (_, prev) = items.remove(at);
            replaced = Some(prev);
        } else {
            proof {
                lemma_between(before, at as int, k);
            }
        }
        items.insert(at, (key, value));
        proof {
            lemma_inserted(before, items@, at as int, found);
        }
        self.items = items;
        replaced
    }

    /// Takes the value under a key out.
    pub fn remove(&mut self, key: &str) -> (r: Option<V>)
        ensures
            final(self)@ == old(self)@.remove(key@),
            match r {
                Some(v) => old(self)@.contains_key(key@) && v@ == old(self)@[key@],
                None => !old(self)@.contains_key(key@),
            },
    {
        proof {
            use_type_invariant(&*self);
        }
        let mut items: Vec<(String, V)> = Vec::new();
        std::mem::swap(&mut items, &mut self.items);
        let ghost before = items@;
        let (at, found) = search(&items, key);
        let mut removed: Option<V> = None;
        if found {
            let (_, v) = items.remove(at);
            removed = Some(v);
            proof {
                lemma_map_at(before, at as int);
                lemma_removed(before, at as int);
            }
        } else {
            proof {
                lemma_between(before, at as int, key@);
                assert(map_of(before).remove(key@) =~= map_of(before));
            }
        }
        self.items = items;
        removed
    }
}

impl<V> KeyMap<V> {
    /// The entries in the order of their keys, with the values as they are held.
    pub closed spec fn entries(&self) -> Seq<(Seq<char>, V)> {
        self.items@.map_values(|e: (String, V)| (e.0@, e.1))
    }
}

impl<V: View + Clone> Clone for KeyMap<V> {
    fn clone(&self) -> (r: Self)
        ensures
            r.entries().len() == self.entries().len(),
            forall|i: int|
                0 <= i < self.entries().len() ==> {
                    &&& (#[trigger] r.entries()[i]).0 == self.entries()[i].0
                    &&& cloned::<V>(self.entries()[i].1, r.entries()[i].1)
                },
            (forall|a: V, b: V| #[trigger] cloned::<V>(a, b) ==> b@ == a@) ==> r@ == self@,
    {
        proof {
            use_type_invariant(self);
        }
        let mut items: Vec<(String, V)> = Vec::new();
        let mut i: usize = 0;
        while i < self.items.len()
            invariant
                i <= self.items@.len(),
                items@.len() == i,
                sorted_keys(self.items@),
                forall|j: int|
                    0 <= j < i ==> (#[trigger] items@[j]).0@ == self.items@[j].0@ && cloned::<V>(
                        self.items@[j].1,
                        items@[j].1,
                    ),
            decreases self.items@.len() - i,
        {
            items.push((self.items[i].0.clone(), self.items[i].1.clone()));
            i += 1;
        }
        let r = KeyMap { items };
        assert(r.entries().len() == self.entries().len());
        assert forall|j: int| 0 <= j < self.entries().len() implies {
            &&& (#[trigger] r.entries()[j]).0 == self.entries()[j].0
            &&& cloned::<V>(self.entries()[j].1, r.entries()[j].1)
        } by {
            assert(r.items@[j].0@ == self.items@[j].0@);
        }
        proof {
            if forall|a: V, b: V| #[trigger] cloned::<V>(a, b) ==> b@ == a@ {
                lemma_same_items(self.items@, r.items@);
            }
        }
        r
    }
}

/// Entries with the same keys and values stand for the same map.
proof fn lemma_same_items<V: View>(a: Seq<(String, V)>, b: Seq<(String, V)>)
    requires
        sorted_keys(a),
        sorted_keys(b),
        a.len() == b.len(),
        forall|i: int|
            0 <= i < a.len() ==> (#[trigger] b[i]).0@ == a[i].0@ && b[i].1@ == a[i].1@,
    ensures
        map_of(b) == map_of(a),
{
    let m = map_of(a);
    let n = map_of(b);
    assert forall|k: Seq<char>|
        #![trigger m.dom().contains(k)]
        #![trigger n.dom().contains(k)]
        m.dom().contains(k) == n.dom().contains(k) && (m.dom().contains(k) ==> m[k] == n[k]) by {
        if m.contains_key(k) {
            let i = choose|i: int| #[trigger] holds_key(a, k, i);
            assert(holds_key(a, k, i));
            assert(b[i].0@ == k);
            lemma_map_at(a, i);
            lemma_map_at(b, i);
        }
        if n.contains_key(k) {
            let i = choose|i: int| #[trigger] holds_key(b, k, i);
            assert(holds_key(b, k, i));
            assert(a[i].0@ == k);
            lemma_map_at(a, i);
        }
    }
    assert(m =~= n);
}

/// A key that its neighbours stand around is not among sorted keys.
proof fn lemma_between<V: View>(items: Seq<(String, V)>, at: int, key: Seq<char>)
    requires
        0 <= at <= items.len(),
        forall|i: int| 0 <= i < at ==> text::before((#[trigger] items[i]).0@, key),
        forall|i: int| at <= i < items.len() ==> text::before(key, (#[trigger] items[i]).0@),
    ensures
        !map_of(items).contains_key(key),
{
    assert forall|i: int| 0 <= i < items.len() implies (#[trigger] items[i]).0@ != key by {
        text::lemma_before_irreflexive(key);
        if i < at {
            assert(text::before(items[i].0@, key));
        } else {
            assert(text::before(key, items[i].0@));
        }
    }
    lemma_map_absent(items, key);
}

/// What inserting at the found place does to the map.
proof fn lemma_inserted<V: View>(
    before: Seq<(String, V)>,
    after: Seq<(String, V)>,
    at: int,
    found: bool,
)
    requires
        sorted_keys(before),
        0 <= at < after.len(),
        found ==> at < before.len() && before[at].0@ == after[at].0@ && after =~= before.update(
            at,
            after[at],
        ),
        !found ==> at <= before.len() && after =~= before.insert(at, after[at]),
        forall|i: int| 0 <= i < at ==> text::before((#[trigger] before[i]).0@, after[at].0@),
        !found ==> forall|i: int|
            at <= i < before.len() ==> text::before(after[at].0@, (#[trigger] before[i]).0@),
    ensures
        sorted_keys(after),
        map_of(after) == map_of(before).insert(after[at].0@, after[at].1@),
{
    let key = after[at].0@;
    assert forall|i: int, j: int| 0 <= i < j < after.len() implies text::before(
        (#[trigger] after[i]).0@,
        (#[trigger] after[j]).0@,
    ) by {
        let p = if found || i <= at { i } else { i - 1 };
        let q = if found || j <= at { j } else { j - 1 };
        if i != at && j != at {
            assert(after[i] == before[p]);
            assert(after[j] == before[q]);
        } else if i == at {
            if found {
                assert(text::before(before[at].0@, before[j].0@));
            } else {
                assert(after[j] == before[j - 1]);
            }
        } else {
            assert(after[i] == before[i]);
        }
    }
    let a = map_of(after);
    let b = map_of(before).insert(key, after[at].1@);
    lemma_map_at(after, at);
    assert forall|k: Seq<char>|
        #![trigger a.dom().contains(k)]
        #![trigger b.dom().contains(k)]
        a.dom().contains(k) == b.dom().contains(k) && (a.dom().contains(k) ==> a[k] == b[k]) by {
        if k != key {
            if a.contains_key(k) {
                let i = choose|i: int| #[trigger] holds_key(after, k, i);
                assert(holds_key(after, k, i));
                let p = if found || i < at { i } else { i - 1 };
                assert(before[p] == after[i]);
                lemma_map_at(after, i);
                lemma_map_at(before, p);
            }
            if map_of(before).contains_key(k) {
                let p = choose|p: int| #[trigger] holds_key(before, k, p);
                assert(holds_key(before, k, p));
                let i = if found || p < at { p } else { p + 1 };
                assert(after[i] == before[p]);
                lemma_map_at(after, i);
            }
        }
    }
    assert(a =~= b);
}

/// What removing an entry does to the map.
proof fn lemma_removed<V: View>(before: Seq<(String, V)>, at: int)
    requires
        sorted_keys(before),
        0 <= at < before.len(),
    ensures
        sorted_keys(before.remove(at)),
        map_of(before.remove(at)) == map_of(before).remove(before[at].0@),
{
    let after = before.remove(at);
    let key = before[at].0@;
    assert(sorted_keys(after)) by {
        assert forall|i: int, j: int| 0 <= i < j < after.len() implies text::before(
            (#[trigger] after[i]).0@,
            (#[trigger] after[j]).0@,
        ) by {
            let p = if i < at { i } else { i + 1 };
            let q = if j < at { j } else { j + 1 };
            assert(after[i] == before[p]);
            assert(after[j] == before[q]);
        }
    }
    let a = map_of(after);
    let b = map_of(before).remove(key);
    assert forall|k: Seq<char>|
        #![trigger a.dom().contains(k)]
        #![trigger b.dom().contains(k)]
        a.dom().contains(k) == b.dom().contains(k) && (a.dom().contains(k) ==> a[k] == b[k]) by {
        if a.contains_key(k) {
            let i = choose|i: int| #[trigger] holds_key(after, k, i);
            assert(holds_key(after, k, i));
            let p = if i < at { i } else { i + 1 };
            assert(before[p] == after[i]);
            lemma_map_at(after, i);
            lemma_map_at(before, p);
            if k == key {
                text::lemma_before_irreflexive(key);
                if p < at {
                    assert(text::before(before[p].0@, before[at].0@));
                } else {
                    assert(text::before(before[at].0@, before[p].0@));
                }
            }
        }
        if b.contains_key(k) {
            let p = choose|p: int| #[trigger] holds_key(before, k, p);
            assert(holds_key(before, k, p));
            let i = if p < at { p } else { p - 1 };
            assert(after[i] == before[p]);
            lemma_map_at(after, i);
        }
    }
    assert(a =~= b);
}

} // verus!
