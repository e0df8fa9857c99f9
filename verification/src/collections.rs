//! A map and a set with texts as keys, kept in the order of the keys.

use vstd::prelude::*;
use crate::order::{
    chars_less, lemma_text_lt_irreflexive, lemma_text_lt_total, lemma_text_lt_transitive, text_lt,
};
use crate::text::chars_of;

verus! {

/// A key with its value.
pub struct Entry<V> {
    pub key: String,
    pub value: V,
}

/// A map from texts, in the order of its keys.
pub struct TextMap<V> {
    entries: Vec<Entry<V>>,
}

/// The keys of the entries rise.
pub open spec fn keys_rise<V>(s: Seq<Entry<V>>) -> bool {
    forall|i: int, j: int|
        0 <= i < j < s.len() ==> text_lt((#[trigger] s[i]).key@, (#[trigger] s[j]).key@)
}

/// One of the entries has the key.
pub open spec fn has_entry<V>(s: Seq<Entry<V>>, key: Seq<char>) -> bool {
    exists|i: int| 0 <= i < s.len() && (#[trigger] s[i]).key@ == key
}

/// Where the key stands among the entries.
pub open spec fn entry_at<V>(s: Seq<Entry<V>>, key: Seq<char>) -> int {
    choose|i: int| 0 <= i < s.len() && (#[trigger] s[i]).key@ == key
}

/// The map that the entries stand for.
pub open spec fn entry_map<V>(s: Seq<Entry<V>>) -> Map<Seq<char>, V> {
    Map::new(|k: Seq<char>| has_entry(s, k), |k: Seq<char>| s[entry_at(s, k)].value)
}

/// Rising keys are different.
proof fn lemma_entry_unique<V>(s: Seq<Entry<V>>, i: int)
    requires
        keys_rise(s),
        0 <= i < s.len(),
    ensures
        has_entry(s, s[i].key@),
        entry_at(s, s[i].key@) == i,
{
    let k = s[i].key@;
    assert(has_entry(s, k));
    let j = entry_at(s, k);
    lemma_text_lt_irreflexive(k);
    if i < j {
        assert(text_lt(s[i].key@, s[j].key@));
    } else if j < i {
        assert(text_lt(s[j].key@, s[i].key@));
    }
}

impl<V> View for TextMap<V> {
    type V = Map<Seq<char>, V>;

    closed spec fn view(&self) -> Map<Seq<char>, V> {
        entry_map(self.entries@)
    }
}

impl<V> TextMap<V> {
    #[verifier::type_invariant]
    spec fn inv(self) -> bool {
        keys_rise(self.entries@)
    }

    /// The entries in the order of their keys.
    pub closed spec fn listing(self) -> Seq<Entry<V>> {
        self.entries@
    }

    /// The empty map.
    pub fn new() -> (r: TextMap<V>)
        ensures
            r@ == Map::<Seq<char>, V>::empty(),
            r.listing() == Seq::<Entry<V>>::empty(),
    {
        let r = TextMap { entries: Vec::new() };
        assert(r@ =~= Map::<Seq<char>, V>::empty());
        r
    }

    /// The number of entries. The listing shows the map: its keys rise, and
    /// each stands in it with its value.
    pub fn len(&self) -> (r: usize)
        ensures
            r == self.listing().len(),
            keys_rise(self.listing()),
            self@ == entry_map(self.listing()),
            forall|i: int|
                0 <= i < self.listing().len() ==> self@.contains_key(
                    (#[trigger] self.listing()[i]).key@,
                ) && self@[self.listing()[i].key@] == self.listing()[i].value,
    {
        proof {
            use_type_invariant(self);
            assert forall|i: int| 0 <= i < self.listing().len() implies self@.contains_key(
                (#[trigger] self.listing()[i]).key@,
            ) && self@[self.listing()[i].key@] == self.listing()[i].value by {
                lemma_entry_unique(self.entries@, i);
            }
        }
        self.entries.len()
    }

    /// The entry at place `i` of the listing.
    pub fn at(&self, i: usize) -> (r: &Entry<V>)
        requires
            i < self.listing().len(),
        ensures
            *r == self.listing()[i as int],
    {
        &self.entries[i]
    }

    /// The entries in the order of their keys.
    pub fn into_entries(self) -> (r: Vec<Entry<V>>)
        ensures
            r@ == self.listing(),
    {
        self.entries
    }

    /// Where `key` stands, or would stand.
    fn search(&self, key: &str) -> (r: (bool, usize))
        ensures
            r.0 == has_entry(self.entries@, key@),
            r.1 <= self.entries@.len(),
            r.0 ==> r.1 < self.entries@.len() && self.entries@[r.1 as int].key@ == key@,
            !r.0 ==> forall|i: int|
                0 <= i < r.1 ==> text_lt((#[trigger] self.entries@[i]).key@, key@),
            !r.0 ==> forall|i: int|
                r.1 <= i < self.entries@.len() ==> text_lt(
                    key@,
                    (#[trigger] self.entries@[i]).key@,
                ),
    {
        proof {
            use_type_invariant(self);
        }
        let ghost s = self.entries@;
        let wanted = chars_of(key);
        let mut lo: usize = 0;
        let mut hi: usize = self.entries.len();
        while lo < hi
            invariant
                lo <= hi <= s.len(),
                s == self.entries@,
                wanted@ == key@,
                keys_rise(s),
                forall|i: int| 0 <= i < lo ==> text_lt((#[trigger] s[i]).key@, key@),
                forall|i: int| hi <= i < s.len() ==> text_lt(key@, (#[trigger] s[i]).key@),
            decreases hi - lo,
        {
            let mid: usize = lo + (hi - lo) / 2;
            let probe = chars_of(self.entries[mid].key.as_str());
            if chars_less(&probe, &wanted) {
                proof {
                    assert forall|i: int| 0 <= i < mid + 1 implies text_lt(
                        (#[trigger] s[i]).key@,
                        key@,
                    ) by {
                        if i < mid {
                            lemma_text_lt_transitive(s[i].key@, s[mid as int].key@, key@);
                        }
                    }
                }
                lo = mid + 1;
            } else if chars_less(&wanted, &probe) {
                proof {
                    assert forall|i: int| mid <= i < s.len() implies text_lt(
                        key@,
                        (#[trigger] s[i]).key@,
                    ) by {
                        if mid < i {
                            lemma_text_lt_transitive(key@, s[mid as int].key@, s[i].key@);
                        }
                    }
                }
                hi = mid;
            } else {
                proof {
                    lemma_text_lt_total(s[mid as int].key@, key@);
                }
                return (true, mid);
            }
        }
        proof {
            lemma_text_lt_irreflexive(key@);
        }
        (false, lo)
    }

    /// Whether the map has `key`.
    pub fn contains(&self, key: &str) -> (r: bool)
        ensures
            r == self@.contains_key(key@),
    {
        self.search(key).0
    }

    /// The value of `key`.
    pub fn get(&self, key: &str) -> (r: Option<&V>)
        ensures
            r is Some == self@.contains_key(key@),
            r matches Some(v) ==> *v == self@[key@],
    {
        let (found, i) = self.search(key);
        if found {
            proof {
                use_type_invariant(self);
                lemma_entry_unique(self.entries@, i as int);
            }
            Some(&self.entries[i].value)
        } else {
            None
        }
    }

    /// Gives `key` the value `value`.
    pub fn insert(&mut self, key: String, value: V)
        ensures
            final(self)@ == old(self)@.insert(key@, value),
    {
        proof {
            use_type_invariant(&*self);
        }
        let ghost s = self.entries@;
        let (found, i) = self.search(key.as_str());
        let ghost e = Entry { key, value };
        let mut entries: Vec<Entry<V>> = Vec::new();
        std::mem::swap(&mut entries, &mut self.entries);
        if found {
            entries[i] = Entry { key, value };
            proof {
                let t = s.update(i as int, e);
                assert(entries@ =~= t);
                assert(keys_rise(t));
                assert forall|k: Seq<char>| #[trigger] has_entry(t, k) == (has_entry(s, k) || k
                    == e.key@) by {
                    if has_entry(s, k) {
                        let j = entry_at(s, k);
                        assert(t[j].key@ == k);
                    }
                    if has_entry(t, k) {
                        let j = entry_at(t, k);
                        assert(s[j].key@ == k);
                    }
                }
                lemma_entry_unique(t, i as int);
                assert forall|k: Seq<char>| has_entry(s, k) && k != e.key@ implies t[entry_at(
                    t,
                    k,
                )].value == s[entry_at(s, k)].value by {
                    let j = entry_at(s, k);
                    assert(t[j].key@ == k);
                    lemma_entry_unique(t, j);
                }
                assert(entry_map(t) =~= entry_map(s).insert(e.key@, e.value));
            }
        } else {
            entries.insert(i, Entry { key, value });
            proof {
                let t = s.insert(i as int, e);
                assert(entries@ =~= t);
                assert(keys_rise(t)) by {
                    assert forall|a: int, b: int| 0 <= a < b < t.len() implies text_lt(
                        (#[trigger] t[a]).key@,
                        (#[trigger] t[b]).key@,
                    ) by {
                        if b < i {
                            assert(t[a] == s[a] && t[b] == s[b]);
                        } else if b == i {
                            assert(t[a] == s[a]);
                        } else if a < i {
                            assert(t[a] == s[a] && t[b] == s[b - 1]);
                        } else if a == i {
                            assert(t[b] == s[b - 1]);
                        } else {
                            assert(t[a] == s[a - 1] && t[b] == s[b - 1]);
                        }
                    }
                }
                assert(t[i as int] == e);
                lemma_entry_unique(t, i as int);
                assert forall|k: Seq<char>| has_entry(s, k) implies #[trigger] has_entry(t, k)
                    && t[entry_at(t, k)].value == s[entry_at(s, k)].value by {
                    let j = entry_at(s, k);
                    if j < i {
                        assert(t[j] == s[j]);
                        lemma_entry_unique(t, j);
                    } else {
                        assert(t[j + 1] == s[j]);
                        lemma_entry_unique(t, j + 1);
                    }
                }
                assert forall|k: Seq<char>| #[trigger] has_entry(t, k) implies has_entry(s, k) || k
                    == e.key@ by {
                    let j = entry_at(t, k);
                    if j < i {
                        assert(s[j].key@ == k);
                    } else if j > i {
                        assert(s[j - 1].key@ == k);
                    }
                }
                assert(entry_map(t) =~= entry_map(s).insert(e.key@, e.value));
            }
        }
        *self = TextMap { entries };
    }

    /// Takes `key` out of the map.
    pub fn remove(&mut self, key: &str) -> (r: Option<V>)
        ensures
            final(self)@ == old(self)@.remove(key@),
            r is Some == old(self)@.contains_key(key@),
            r matches Some(v) ==> v == old(self)@[key@],
    {
        proof {
            use_type_invariant(&*self);
        }
        let ghost s = self.entries@;
        let (found, i) = self.search(key);
        if !found {
            assert(entry_map(s).remove(key@) =~= entry_map(s));
            return None;
        }
        let mut entries: Vec<Entry<V>> = Vec::new();
        std::mem::swap(&mut entries, &mut self.entries);
        let entry = entries.remove(i);
        proof {
            lemma_entry_unique(s, i as int);
            let t = s.remove(i as int);
            assert(entries@ =~= t);
            assert(keys_rise(t));
            assert forall|k: Seq<char>| has_entry(s, k) && k != key@ implies #[trigger] has_entry(
                t,
                k,
            ) && t[entry_at(t, k)].value == s[entry_at(s, k)].value by {
                let j = entry_at(s, k);
                if j < i {
                    assert(t[j] == s[j]);
                    lemma_entry_unique(t, j);
                } else {
                    assert(t[j - 1] == s[j]);
                    lemma_entry_unique(t, j - 1);
                }
            }
            assert forall|k: Seq<char>| #[trigger] has_entry(t, k) implies has_entry(s, k) && k
                != key@ by {
                let j = entry_at(t, k);
                let o = if j < i { j } else { j + 1 };
                assert(s[o] == t[j]);
                lemma_entry_unique(s, o);
            }
            assert(entry_map(t) =~= entry_map(s).remove(key@));
        }
        *self = TextMap { entries };
        Some(entry.value)
    }
}

/// A set of texts.
pub struct TextSet {
    map: TextMap<()>,
}

impl View for TextSet {
    type V = Set<Seq<char>>;

    closed spec fn view(&self) -> Set<Seq<char>> {
        self.map@.dom()
    }
}

impl TextSet {
    /// The empty set.
    pub fn new() -> (r: TextSet)
        ensures
            r@ == Set::<Seq<char>>::empty(),
    {
        TextSet { map: TextMap::new() }
    }

    /// Whether the set holds `s`.
    pub fn contains(&self, s: &str) -> (r: bool)
        ensures
            r == self@.contains(s@),
    {
        self.map.contains(s)
    }

    /// Puts `s` into the set, and tells whether it is new there.
    pub fn insert(&mut self, s: String) -> (r: bool)
        ensures
            final(self)@ == old(self)@.insert(s@),
            r == !old(self)@.contains(s@),
    {
        let fresh = !self.map.contains(s.as_str());
        let ghost d = self.map@.dom();
        self.map.insert(s, ());
        assert(self.map@.dom() =~= d.insert(s@));
        fresh
    }

    /// Takes `s` out of the set.
    pub fn remove(&mut self, s: &str)
        ensures
            final(self)@ == old(self)@.remove(s@),
    {
        let ghost d = self.map@.dom();
        let _ = self.map.remove(s);
        assert(self.map@.dom() =~= d.remove(s@));
    }
}

} // verus!
