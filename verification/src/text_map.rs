//! A map from text keys to values, kept as a list in ascending key order.

use vstd::prelude::*;
use crate::text::{
    lemma_text_lt_asymmetric, lemma_text_lt_irreflexive, lemma_text_lt_total,
    lemma_text_lt_transitive, text_eq, text_less, text_lt,
};

verus! {

/// One key with its value.
struct Entry<V> {
    key: String,
    value: V,
}

/// A map keyed by text. Its entries are held in strictly ascending key order,
/// so that every key occurs once and the order of the entries depends on
/// nothing but the keys.
pub struct TextMap<V> {
    items: Vec<Entry<V>>,
}

/// The keys of `pairs`, in order.
pub open spec fn keys_of<V>(pairs: Seq<(Seq<char>, V)>) -> Seq<Seq<char>> {
    Seq::new(pairs.len(), |i: int| pairs[i].0)
}

/// `keys` is strictly ascending.
pub open spec fn ascending(keys: Seq<Seq<char>>) -> bool {
    forall|i: int, j: int| 0 <= i < j < keys.len() ==> text_lt(#[trigger] keys[i], #[trigger] keys[j])
}

/// The map that a list of pairs with distinct keys stands for.
pub open spec fn map_of<V>(pairs: Seq<(Seq<char>, V)>) -> Map<Seq<char>, V> {
    Map::new(
        |k: Seq<char>| keys_of(pairs).contains(k),
        |k: Seq<char>| pairs[keys_of(pairs).index_of(k)].1,
    )
}

/// In an ascending list every key occurs once, and the map holds each pair.
pub proof fn lemma_map_of<V>(pairs: Seq<(Seq<char>, V)>)
    requires
        ascending(keys_of(pairs)),
    ensures
        keys_of(pairs).no_duplicates(),
        map_of(pairs).dom().finite(),
        map_of(pairs).dom() == keys_of(pairs).to_set(),
        map_of(pairs).len() == pairs.len(),
        forall|i: int|
            0 <= i < pairs.len() ==> map_of(pairs).contains_key(#[trigger] pairs[i].0) && map_of(
                pairs,
            )[pairs[i].0] == pairs[i].1,
        forall|k: Seq<char>| #[trigger]
            map_of(pairs).contains_key(k) ==> exists|i: int|
                0 <= i < pairs.len() && #[trigger] pairs[i].0 == k,
{
    let keys = keys_of(pairs);
    assert forall|i: int, j: int| 0 <= i < keys.len() && 0 <= j < keys.len() && i != j implies keys[i]
        != keys[j] by {
        if i < j {
            lemma_text_lt_asymmetric(keys[i], keys[j]);
        } else {
            lemma_text_lt_asymmetric(keys[j], keys[i]);
        }
    }
    assert forall|i: int| 0 <= i < pairs.len() implies map_of(pairs).contains_key(
        #[trigger] pairs[i].0,
    ) && map_of(pairs)[pairs[i].0] == pairs[i].1 by {
        assert(keys[i] == pairs[i].0);
        assert(keys.contains(pairs[i].0));
        let j = keys.index_of(pairs[i].0);
        assert(keys[j] == keys[i]);
        assert(j == i);
    }
    assert forall|k: Seq<char>| #[trigger] map_of(pairs).contains_key(k) implies exists|i: int|
        0 <= i < pairs.len() && #[trigger] pairs[i].0 == k by {
        let i = choose|i: int| 0 <= i < keys.len() && keys[i] == k;
        assert(pairs[i].0 == k);
    }
    assert(map_of(pairs).dom() =~= keys.to_set());
    vstd::seq_lib::seq_to_set_is_finite(keys);
    keys.unique_seq_to_set();
}

/// The members of a finite set of keys in ascending order.
pub open spec fn ordered(keys: Set<Seq<char>>) -> Seq<Seq<char>> {
    choose|s: Seq<Seq<char>>| ascending(s) && s.to_set() == keys
}

/// Two ascending lists with the same members are the same list.
pub proof fn lemma_ascending_unique(a: Seq<Seq<char>>, b: Seq<Seq<char>>)
    requires
        ascending(a),
        ascending(b),
        a.to_set() == b.to_set(),
    ensures
        a == b,
    decreases a.len(),
{
    lemma_ascending_distinct(a);
    lemma_ascending_distinct(b);
    a.unique_seq_to_set();
    b.unique_seq_to_set();
    if a.len() == 0 {
        assert(a =~= b);
    } else {
        let n = a.len() as int;
        let la = a[n - 1];
        let lb = b[n - 1];
        assert(a.to_set().contains(lb)) by {
            assert(b.contains(lb));
        }
        assert(b.to_set().contains(la)) by {
            assert(a.contains(la));
        }
        let i = choose|i: int| 0 <= i < a.len() && a[i] == lb;
        let j = choose|j: int| 0 <= j < b.len() && b[j] == la;
        if la != lb {
            assert(text_lt(a[i], a[n - 1]));
            assert(text_lt(b[j], b[n - 1]));
            lemma_text_lt_asymmetric(la, lb);
        }
        let a0 = a.drop_last();
        let b0 = b.drop_last();
        assert(ascending(a0)) by {
            assert forall|x: int, y: int| 0 <= x < y < a0.len() implies text_lt(
                #[trigger] a0[x],
                #[trigger] a0[y],
            ) by {
                assert(a0[x] == a[x] && a0[y] == a[y]);
            }
        }
        assert(ascending(b0)) by {
            assert forall|x: int, y: int| 0 <= x < y < b0.len() implies text_lt(
                #[trigger] b0[x],
                #[trigger] b0[y],
            ) by {
                assert(b0[x] == b[x] && b0[y] == b[y]);
            }
        }
        assert forall|k: Seq<char>| a0.to_set().contains(k) <==> b0.to_set().contains(k) by {
            if a0.contains(k) {
                let x = choose|x: int| 0 <= x < a0.len() && a0[x] == k;
                assert(a[x] == k);
                assert(a.contains(k));
                assert(b.to_set().contains(k));
                let y = choose|y: int| 0 <= y < b.len() && b[y] == k;
                assert(y != n - 1);
                assert(b0[y] == k);
            }
            if b0.contains(k) {
                let y = choose|y: int| 0 <= y < b0.len() && b0[y] == k;
                assert(b[y] == k);
                assert(b.contains(k));
                assert(a.to_set().contains(k));
                let x = choose|x: int| 0 <= x < a.len() && a[x] == k;
                assert(x != n - 1);
                assert(a0[x] == k);
            }
        }
        assert(a0.to_set() =~= b0.to_set());
        lemma_ascending_unique(a0, b0);
        assert(a =~= a0.push(la));
        assert(b =~= b0.push(lb));
    }
}

/// The members of an ascending list differ from each other.
pub proof fn lemma_ascending_distinct(keys: Seq<Seq<char>>)
    requires
        ascending(keys),
    ensures
        keys.no_duplicates(),
{
    assert forall|i: int, j: int| 0 <= i < keys.len() && 0 <= j < keys.len() && i != j implies keys[i]
        != keys[j] by {
        if i < j {
            lemma_text_lt_asymmetric(keys[i], keys[j]);
        } else {
            lemma_text_lt_asymmetric(keys[j], keys[i]);
        }
    }
}

/// `top` is the member of `keys` that comes last in key order.
pub open spec fn is_greatest(keys: Set<Seq<char>>, top: Seq<char>) -> bool {
    keys.contains(top) && forall|k: Seq<char>| #[trigger] keys.contains(k) ==> k == top || text_lt(k, top)
}

/// A finite set of keys that is not empty has a greatest member.
pub proof fn lemma_greatest_exists(keys: Set<Seq<char>>)
    requires
        keys.finite(),
        keys.len() > 0,
    ensures
        exists|top: Seq<char>| is_greatest(keys, top),
    decreases keys.len(),
{
    let x = keys.choose();
    let rest = keys.remove(x);
    if rest.len() == 0 {
        assert forall|k: Seq<char>| #[trigger] keys.contains(k) implies k == x || text_lt(k, x) by {
            if k != x {
                assert(rest.contains(k));
            }
        }
        assert(is_greatest(keys, x));
    } else {
        lemma_greatest_exists(rest);
        let m = choose|m: Seq<char>| is_greatest(rest, m);
        lemma_text_lt_total(m, x);
        if text_lt(m, x) {
            assert forall|k: Seq<char>| #[trigger] keys.contains(k) implies k == x || text_lt(k, x) by {
                if k != x {
                    assert(rest.contains(k));
                    if k != m {
                        lemma_text_lt_transitive(k, m, x);
                    }
                }
            }
            assert(is_greatest(keys, x));
        } else {
            assert forall|k: Seq<char>| #[trigger] keys.contains(k) implies k == m || text_lt(k, m) by {
                if k != x {
                    assert(rest.contains(k));
                }
            }
            assert(is_greatest(keys, m));
        }
    }
}

/// An ascending list of the members of a finite set, built from its greatest
/// member down.
pub open spec fn ascending_list(keys: Set<Seq<char>>) -> Seq<Seq<char>>
    decreases keys.len(),
    when keys.finite()
    via ascending_list_decreases
{
    if keys.len() == 0 {
        Seq::empty()
    } else {
        let top = choose|top: Seq<char>| is_greatest(keys, top);
        ascending_list(keys.remove(top)).push(top)
    }
}

#[via_fn]
proof fn ascending_list_decreases(keys: Set<Seq<char>>) {
    if keys.len() != 0 {
        lemma_greatest_exists(keys);
    }
}

proof fn lemma_ascending_list(keys: Set<Seq<char>>)
    requires
        keys.finite(),
    ensures
        ascending(ascending_list(keys)),
        ascending_list(keys).to_set() == keys,
    decreases keys.len(),
{
    let list = ascending_list(keys);
    if keys.len() == 0 {
        assert(list.to_set() =~= keys);
    } else {
        lemma_greatest_exists(keys);
        let top = choose|top: Seq<char>| is_greatest(keys, top);
        let rest = keys.remove(top);
        let below = ascending_list(rest);
        lemma_ascending_list(rest);
        assert(list == below.push(top));
        assert forall|i: int, j: int| 0 <= i < j < list.len() implies text_lt(
            #[trigger] list[i],
            #[trigger] list[j],
        ) by {
            assert(below.contains(list[i]));
            assert(rest.contains(list[i]));
            if j < below.len() {
                assert(list[j] == below[j]);
            } else {
                assert(keys.contains(list[i]));
            }
        }
        assert forall|k: Seq<char>| list.to_set().contains(k) <==> keys.contains(k) by {
            if list.contains(k) {
                let i = choose|i: int| 0 <= i < list.len() && list[i] == k;
                if i < below.len() {
                    assert(below.contains(k));
                    assert(rest.contains(k));
                }
            }
            if keys.contains(k) {
                if k == top {
                    assert(list[below.len() as int] == k);
                } else {
                    assert(rest.contains(k));
                    assert(below.to_set().contains(k));
                    let i = choose|i: int| 0 <= i < below.len() && below[i] == k;
                    assert(list[i] == k);
                }
            }
        }
        assert(list.to_set() =~= keys);
    }
}

/// The ordered list of a finite set is ascending and holds each member once.
pub proof fn lemma_ordered_finite(keys: Set<Seq<char>>)
    requires
        keys.finite(),
    ensures
        ascending(ordered(keys)),
        ordered(keys).to_set() == keys,
        ordered(keys).no_duplicates(),
        ordered(keys).len() == keys.len(),
        forall|k: Seq<char>| ordered(keys).contains(k) <==> keys.contains(k),
{
    lemma_ascending_list(keys);
    let list = ascending_list(keys);
    assert(ascending(list) && list.to_set() == keys);
    lemma_ascending_distinct(ordered(keys));
    ordered(keys).unique_seq_to_set();
}

/// An ascending list is the ordered list of its members.
pub proof fn lemma_ordered(keys: Seq<Seq<char>>)
    requires
        ascending(keys),
    ensures
        ordered(keys.to_set()) == keys,
{
    let chosen = ordered(keys.to_set());
    assert(ascending(chosen) && chosen.to_set() == keys.to_set());
    lemma_ascending_unique(chosen, keys);
}

/// The first `i + 1` of a list have the members of the first `i` and the one
/// at position `i`.
pub proof fn lemma_take_members(names: Seq<Seq<char>>, i: int)
    requires
        0 <= i < names.len(),
    ensures
        names.take(i + 1).to_set() == names.take(i).to_set().insert(names[i]),
{
    let a = names.take(i);
    let b = names.take(i + 1);
    assert forall|x: Seq<char>| b.to_set().contains(x) <==> a.to_set().insert(names[i]).contains(
        x,
    ) by {
        if b.contains(x) {
            let j = choose|j: int| 0 <= j < b.len() && b[j] == x;
            if j < i {
                assert(a[j] == x);
            }
        }
        if a.contains(x) {
            let j = choose|j: int| 0 <= j < a.len() && a[j] == x;
            assert(b[j] == x);
        }
        if x == names[i] {
            assert(b[i] == x);
        }
    }
    assert(b.to_set() =~= a.to_set().insert(names[i]));
}

impl<V> TextMap<V> {
    /// The entries in order, each key as text.
    pub closed spec fn pairs(&self) -> Seq<(Seq<char>, V)> {
        Seq::new(self.items@.len(), |i: int| (self.items@[i].key@, self.items@[i].value))
    }

    /// The keys in order.
    pub open spec fn keys(&self) -> Seq<Seq<char>> {
        keys_of(self.pairs())
    }

    /// The keys are strictly ascending.
    pub open spec fn wf(&self) -> bool {
        ascending(self.keys())
    }

    /// The map from each key to the value held for it.
    pub open spec fn entries(&self) -> Map<Seq<char>, V> {
        map_of(self.pairs())
    }

    /// The keys are the ordered list of the map's domain, and each position
    /// holds the pair that the map gives for its key.
    pub proof fn lemma_keys(&self)
        requires
            self.wf(),
        ensures
            self.keys() == ordered(self.entries().dom()),
            self.keys().no_duplicates(),
            self.entries().dom().finite(),
            self.entries().dom() == self.keys().to_set(),
            self.entries().len() == self.pairs().len(),
            forall|i: int|
                0 <= i < self.pairs().len() ==> self.entries().contains_key(
                    #[trigger] self.pairs()[i].0,
                ) && self.entries()[self.pairs()[i].0] == self.pairs()[i].1,
    {
        lemma_map_of(self.pairs());
        lemma_ordered(self.keys());
    }

    /// A map without entries.
    pub fn new() -> (r: Self)
        ensures
            r.wf(),
            r.pairs() == Seq::<(Seq<char>, V)>::empty(),
            r.entries() == Map::<Seq<char>, V>::empty(),
    {
        let r = TextMap { items: Vec::new() };
        proof {
            assert(r.pairs() =~= Seq::<(Seq<char>, V)>::empty());
            assert(r.entries() =~= Map::<Seq<char>, V>::empty());
        }
        r
    }

    /// The number of entries.
    pub fn len(&self) -> (r: usize)
        ensures
            r == self.pairs().len(),
            r == self.keys().len(),
    {
        self.items.len()
    }

    /// Whether the map has no entry.
    pub fn is_empty(&self) -> (r: bool)
        ensures
            r == (self.pairs().len() == 0),
    {
        self.items.len() == 0
    }

    /// The key of the entry at position `i`.
    pub fn key_at(&self, i: usize) -> (r: &String)
        requires
            i < self.pairs().len(),
        ensures
            r@ == self.pairs()[i as int].0,
            r@ == self.keys()[i as int],
    {
        &self.items[i].key
    }

    /// The value of the entry at position `i`.
    pub fn value_at(&self, i: usize) -> (r: &V)
        requires
            i < self.pairs().len(),
        ensures
            *r == self.pairs()[i as int].1,
    {
        &self.items[i].value
    }

    /// Where `key` stands or would stand, and whether it is there.
    fn position(&self, key: &str) -> (r: (usize, bool))
        requires
            self.wf(),
        ensures
            r.0 <= self.pairs().len(),
            forall|i: int| 0 <= i < r.0 ==> text_lt(#[trigger] self.keys()[i], key@),
            forall|i: int| r.0 < i < self.pairs().len() ==> text_lt(key@, #[trigger] self.keys()[i]),
            r.1 ==> r.0 < self.pairs().len() && self.keys()[r.0 as int] == key@,
            !r.1 ==> (r.0 < self.pairs().len() ==> text_lt(key@, self.keys()[r.0 as int])),
            r.1 == self.entries().contains_key(key@),
    {
        let mut i: usize = 0;
        while i < self.items.len() && text_less(self.items[i].key.as_str(), key)
            invariant
                i <= self.pairs().len(),
                self.pairs().len() == self.items@.len(),
                forall|j: int| 0 <= j < self.items@.len() ==> self.keys()[j] == self.items@[j].key@,
                forall|j: int| 0 <= j < i ==> text_lt(#[trigger] self.keys()[j], key@),
            decreases self.items@.len() - i,
        {
            i = i + 1;
        }
        let found = i < self.items.len() && text_eq(self.items[i].key.as_str(), key);
        proof {
            lemma_map_of(self.pairs());
            let keys = self.keys();
            if i < keys.len() {
                lemma_text_lt_total(keys[i as int], key@);
                assert forall|j: int| i < j < keys.len() implies text_lt(key@, #[trigger] keys[j]) by {
                    if keys[i as int] != key@ {
                        lemma_text_lt_transitive(key@, keys[i as int], keys[j]);
                    }
                }
            }
            if self.entries().contains_key(key@) {
                let j = choose|j: int| 0 <= j < self.pairs().len() && #[trigger] self.pairs()[j].0 == key@;
                assert(keys[j] == key@);
                lemma_text_lt_irreflexive(key@);
                assert(j == i);
            }
            if found {
                assert(self.pairs()[i as int].0 == key@);
            }
        }
        (i, found)
    }

    /// Whether `key` has an entry.
    pub fn contains_key(&self, key: &str) -> (r: bool)
        requires
            self.wf(),
        ensures
            r == self.entries().contains_key(key@),
    {
        self.position(key).1
    }

    /// The value held for `key`.
    pub fn get(&self, key: &str) -> (r: Option<&V>)
        requires
            self.wf(),
        ensures
            r is Some <==> self.entries().contains_key(key@),
            r is Some ==> *r->0 == self.entries()[key@],
    {
        let (i, found) = self.position(key);
        if found {
            proof {
                lemma_map_of(self.pairs());
                assert(self.pairs()[i as int].0 == key@);
            }
            Some(&self.items[i].value)
        } else {
            None
        }
    }

    /// Sets the value for `key`, in place of the one that was held for it.
    pub fn insert(&mut self, key: String, value: V)
        requires
            old(self).wf(),
        ensures
            final(self).wf(),
            final(self).entries() == old(self).entries().insert(key@, value),
    {
        let (i, found) = self.position(key.as_str());
        let ghost before = self.pairs();
        let ghost k = key@;
        if found {
            self.items.set(i, Entry { key, value });
            proof {
                let after = self.pairs();
                assert(after =~= before.update(i as int, (k, value)));
                assert(keys_of(after) =~= keys_of(before));
                lemma_map_of(before);
                lemma_map_of(after);
                lemma_update_entries(before, after, i as int, k, value);
            }
        } else {
            self.items.insert(i, Entry { key, value });
            proof {
                let after = self.pairs();
                assert(after =~= before.insert(i as int, (k, value)));
                lemma_insert_entries(before, after, i as int, k, value);
            }
        }
    }

    /// Takes the entry for `key` out and returns its value.
    pub fn remove(&mut self, key: &str) -> (r: Option<V>)
        requires
            old(self).wf(),
        ensures
            final(self).wf(),
            final(self).entries() == old(self).entries().remove(key@),
            r is Some <==> old(self).entries().contains_key(key@),
            r is Some ==> r->0 == old(self).entries()[key@],
    {
        let (i, found) = self.position(key);
        let ghost before = self.pairs();
        if found {
            let entry = self.items.remove(i);
            proof {
                let after = self.pairs();
                assert(after =~= before.remove(i as int));
                lemma_remove_entries(before, after, i as int);
                lemma_map_of(before);
                assert(before[i as int].0 == key@);
            }
            Some(entry.value)
        } else {
            proof {
                assert(self.entries() =~= self.entries().remove(key@));
            }
            None
        }
    }
}

/// Replacing the value at position `i` replaces it in the map.
proof fn lemma_update_entries<V>(
    before: Seq<(Seq<char>, V)>,
    after: Seq<(Seq<char>, V)>,
    i: int,
    k: Seq<char>,
    value: V,
)
    requires
        ascending(keys_of(before)),
        0 <= i < before.len(),
        before[i].0 == k,
        after == before.update(i, (k, value)),
    ensures
        ascending(keys_of(after)),
        map_of(after) == map_of(before).insert(k, value),
{
    assert(keys_of(after) =~= keys_of(before));
    lemma_map_of(before);
    lemma_map_of(after);
    assert forall|x: Seq<char>| map_of(after).contains_key(x) implies #[trigger] map_of(after)[x]
        == map_of(before).insert(k, value)[x] by {
        let j = choose|j: int| 0 <= j < after.len() && #[trigger] after[j].0 == x;
        assert(before[j].0 == x);
        assert(map_of(after)[after[j].0] == after[j].1);
        assert(map_of(before)[before[j].0] == before[j].1);
        if j != i {
            assert(after[j] == before[j]);
            lemma_text_lt_total(x, k);
            if j < i {
                lemma_text_lt_asymmetric(keys_of(before)[j], keys_of(before)[i]);
            } else {
                lemma_text_lt_asymmetric(keys_of(before)[i], keys_of(before)[j]);
            }
        } else {
            assert(after[i] == (k, value));
        }
    }
    assert(map_of(after) =~= map_of(before).insert(k, value));
}

/// Putting a new key at its place in the order adds it to the map.
proof fn lemma_insert_entries<V>(
    before: Seq<(Seq<char>, V)>,
    after: Seq<(Seq<char>, V)>,
    i: int,
    k: Seq<char>,
    value: V,
)
    requires
        ascending(keys_of(before)),
        0 <= i <= before.len(),
        forall|j: int| 0 <= j < i ==> text_lt(#[trigger] keys_of(before)[j], k),
        forall|j: int| i <= j < before.len() ==> text_lt(k, #[trigger] keys_of(before)[j]),
        after == before.insert(i, (k, value)),
    ensures
        ascending(keys_of(after)),
        map_of(after) == map_of(before).insert(k, value),
{
    let kb = keys_of(before);
    let ka = keys_of(after);
    assert forall|a: int, b: int| 0 <= a < b < ka.len() implies text_lt(
        #[trigger] ka[a],
        #[trigger] ka[b],
    ) by {
        let a0 = if a < i { a } else { a - 1 };
        let b0 = if b < i { b } else { b - 1 };
        if a != i {
            assert(ka[a] == kb[a0]);
        }
        if b != i {
            assert(ka[b] == kb[b0]);
        }
    }
    lemma_map_of(before);
    lemma_map_of(after);
    assert forall|x: Seq<char>| map_of(after).contains_key(x) <==> map_of(before).insert(
        k,
        value,
    ).contains_key(x) by {
        if map_of(after).contains_key(x) {
            let j = choose|j: int| 0 <= j < after.len() && #[trigger] after[j].0 == x;
            if j < i {
                assert(before[j].0 == x);
            } else if j > i {
                assert(before[j - 1].0 == x);
            }
        }
        if map_of(before).contains_key(x) {
            let j = choose|j: int| 0 <= j < before.len() && #[trigger] before[j].0 == x;
            if j < i {
                assert(after[j].0 == x);
            } else {
                assert(after[j + 1].0 == x);
            }
        }
        if x == k {
            assert(after[i].0 == x);
        }
    }
    assert forall|x: Seq<char>| map_of(after).contains_key(x) implies #[trigger] map_of(after)[x]
        == map_of(before).insert(k, value)[x] by {
        let j = choose|j: int| 0 <= j < after.len() && #[trigger] after[j].0 == x;
        if j < i {
            assert(before[j] == after[j]);
            assert(before[j].0 == x);
            lemma_text_lt_asymmetric(kb[j], k);
        } else if j > i {
            assert(before[j - 1] == after[j]);
            assert(before[j - 1].0 == x);
            lemma_text_lt_asymmetric(k, kb[j - 1]);
        }
    }
    assert(map_of(after) =~= map_of(before).insert(k, value));
}

/// Taking the entry at position `i` out removes its key from the map.
proof fn lemma_remove_entries<V>(before: Seq<(Seq<char>, V)>, after: Seq<(Seq<char>, V)>, i: int)
    requires
        ascending(keys_of(before)),
        0 <= i < before.len(),
        after == before.remove(i),
    ensures
        ascending(keys_of(after)),
        map_of(after) == map_of(before).remove(before[i].0),
{
    let kb = keys_of(before);
    let ka = keys_of(after);
    let k = before[i].0;
    assert forall|a: int, b: int| 0 <= a < b < ka.len() implies text_lt(
        #[trigger] ka[a],
        #[trigger] ka[b],
    ) by {
        let a0 = if a < i { a } else { a + 1 };
        let b0 = if b < i { b } else { b + 1 };
        assert(ka[a] == kb[a0]);
        assert(ka[b] == kb[b0]);
    }
    lemma_map_of(before);
    lemma_map_of(after);
    assert forall|x: Seq<char>| map_of(after).contains_key(x) <==> map_of(before).remove(
        k,
    ).contains_key(x) by {
        if map_of(after).contains_key(x) {
            let j = choose|j: int| 0 <= j < after.len() && #[trigger] after[j].0 == x;
            let j0 = if j < i { j } else { j + 1 };
            assert(before[j0].0 == x);
            assert(kb[j0] == x);
            assert(kb[i] == k);
            if j0 < i {
                lemma_text_lt_asymmetric(kb[j0], kb[i]);
            } else {
                lemma_text_lt_asymmetric(kb[i], kb[j0]);
            }
        }
        if map_of(before).remove(k).contains_key(x) {
            let j = choose|j: int| 0 <= j < before.len() && #[trigger] before[j].0 == x;
            if j < i {
                assert(after[j].0 == x);
            } else {
                assert(after[j - 1].0 == x);
            }
        }
    }
    assert forall|x: Seq<char>| map_of(after).contains_key(x) implies #[trigger] map_of(after)[x]
        == map_of(before).remove(k)[x] by {
        let j = choose|j: int| 0 <= j < after.len() && #[trigger] after[j].0 == x;
        let j0 = if j < i { j } else { j + 1 };
        assert(before[j0] == after[j]);
        assert(before[j0].0 == x);
    }
    assert(map_of(after) =~= map_of(before).remove(k));
}

} // verus!
