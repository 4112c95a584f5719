//! Maps from names to values, kept as a list of entries with distinct names.

use vstd::prelude::*;

verus! {

/// Names mapped to values; each name occurs once.
#[derive(Debug)]
pub struct NameMap<V: View> {
    entries: Vec<(String, V)>,
}

pub open spec fn keys_unique<V: View>(e: Seq<(String, V)>) -> bool {
    forall|i: int, j: int| 0 <= i < e.len() && 0 <= j < e.len() && i != j ==> #[trigger] e[i].0@
        != #[trigger] e[j].0@
}

/// The index of the entry whose name is `k`.
pub open spec fn key_index<V: View>(e: Seq<(String, V)>, k: Seq<char>) -> int {
    choose|i: int| 0 <= i < e.len() && e[i].0@ == k
}

pub open spec fn has_key<V: View>(e: Seq<(String, V)>, k: Seq<char>) -> bool {
    exists|i: int| 0 <= i < e.len() && e[i].0@ == k
}

pub open spec fn entries_map<V: View>(e: Seq<(String, V)>) -> Map<Seq<char>, V::V> {
    Map::new(|k: Seq<char>| has_key(e, k), |k: Seq<char>| e[key_index(e, k)].1.view())
}

proof fn lemma_entry<V: View>(e: Seq<(String, V)>, i: int)
    requires
        keys_unique(e),
        0 <= i < e.len(),
    ensures
        entries_map(e).contains_key(e[i].0@),
        entries_map(e)[e[i].0@] == e[i].1.view(),
{
    assert(has_key(e, e[i].0@));
    let j = key_index(e, e[i].0@);
    assert(e[j].0@ == e[i].0@);
}

impl<V: View> NameMap<V> {
    #[verifier::type_invariant]
    spec fn inv(&self) -> bool {
        keys_unique(self.entries@)
    }

    pub closed spec fn view(&self) -> Map<Seq<char>, V::V> {
        entries_map(self.entries@)
    }

    /// An empty map.
    pub fn new() -> (r: NameMap<V>)
        ensures
            r.view() == Map::<Seq<char>, V::V>::empty(),
    {
        let r = NameMap { entries: Vec::new() };
        assert(r.view() =~= Map::<Seq<char>, V::V>::empty());
        r
    }

    /// The number of entries.
    pub fn len(&self) -> (r: usize)
        ensures
            r == self.view().len(),
    {
        proof {
            use_type_invariant(self);
            self.lemma_len();
        }
        self.entries.len()
    }

    proof fn lemma_len(&self)
        requires
            keys_unique(self.entries@),
        ensures
            self.view().len() == self.entries@.len(),
        self.view().dom().finite(),
    {
        broadcast use vstd::seq_lib::seq_to_set_is_finite;
        let e = self.entries@;
        let keys = Seq::new(e.len(), |i: int| e[i].0@);
        assert(keys.no_duplicates());
        keys.unique_seq_to_set();
        assert(self.view().dom() =~= keys.to_set()) by {
            assert forall|k: Seq<char>| self.view().dom().contains(k) implies keys.to_set().contains(k) by {
                let i = key_index(e, k);
                assert(keys[i] == k);
            }
            assert forall|k: Seq<char>| keys.to_set().contains(k) implies self.view().dom().contains(k) by {
                let i = choose|i: int| 0 <= i < keys.len() && keys[i] == k;
                assert(has_key(e, k)) by { assert(e[i].0@ == k); }
            }
        }
    }

    /// The value of name `key`, if present.
    pub fn get(&self, key: &String) -> (r: Option<&V>)
        ensures
            match r {
                Some(v) => self.view().contains_key(key@) && self.view()[key@] == v.view(),
                None => !self.view().contains_key(key@),
            },
    {
        proof {
            use_type_invariant(self);
        }
        let mut i: usize = 0;
        while i < self.entries.len()
            invariant
                keys_unique(self.entries@),
                i <= self.entries.len(),
                forall|j: int| 0 <= j < i ==> self.entries@[j].0@ != key@,
            decreases self.entries.len() - i,
        {
            if self.entries[i].0 == *key {
                proof {
                    lemma_entry(self.entries@, i as int);
                }
                return Some(&self.entries[i].1);
            }
            i = i + 1;
        }
        None
    }

    /// Sets name `key` to `value`, replacing an earlier value of it.
    pub fn insert(&mut self, key: String, value: V)
        ensures
            final(self).view() == old(self).view().insert(key@, value.view()),
    {
        let mut taken = NameMap::<V>::new();
        core::mem::swap(self, &mut taken);
        proof {
            use_type_invariant(&taken);
        }
        let NameMap { entries: mut entries } = taken;
        let ghost e0 = entries@;
        let mut i: usize = 0;
        while i < entries.len()
            invariant
                entries@ == e0,
                e0 == old(self).entries@,
                keys_unique(e0),
                i <= entries.len(),
                forall|j: int| 0 <= j < i ==> e0[j].0@ != key@,
            decreases entries.len() - i,
        {
            if entries[i].0 == key {
                let ghost k = key@;
                let ghost v = value.view();
                entries.set(i, (key, value));
                proof {
                    let e1 = entries@;
                    assert(keys_unique(e1));
                    assert(entries_map(e1) =~= entries_map(e0).insert(k, v)) by {
                        assert forall|q: Seq<char>| #[trigger] has_key(e1, q) == has_key(e0, q) by {
                            if has_key(e1, q) {
                                let j = choose|j: int| 0 <= j < e1.len() && e1[j].0@ == q;
                                assert(e0[j].0@ == q);
                            }
                            if has_key(e0, q) {
                                let j = choose|j: int| 0 <= j < e0.len() && e0[j].0@ == q;
                                assert(e1[j].0@ == q);
                            }
                        }
                        assert forall|q: Seq<char>| has_key(e1, q) implies entries_map(e1)[q]
                            == entries_map(e0).insert(k, v)[q] by {
                            let j = key_index(e1, q);
                            lemma_entry(e1, j);
                            lemma_entry(e0, j);
                        }
                    }
                }
                *self = NameMap { entries };
                return ;
            }
            i = i + 1;
        }
        let ghost k = key@;
        let ghost v = value.view();
        entries.push((key, value));
        proof {
            let e1 = entries@;
            assert(keys_unique(e1));
            assert(entries_map(e1) =~= entries_map(e0).insert(k, v)) by {
                assert forall|q: Seq<char>| #[trigger] has_key(e1, q) == (has_key(e0, q) || q == k) by {
                    if has_key(e1, q) {
                        let j = choose|j: int| 0 <= j < e1.len() && e1[j].0@ == q;
                        if j < e0.len() {
                            assert(e0[j].0@ == q);
                        }
                    }
                    if has_key(e0, q) {
                        let j = choose|j: int| 0 <= j < e0.len() && e0[j].0@ == q;
                        assert(e1[j].0@ == q);
                    }
                    if q == k {
                        assert(e1[e0.len() as int].0@ == q);
                    }
                }
                assert forall|q: Seq<char>| has_key(e1, q) implies entries_map(e1)[q]
                    == entries_map(e0).insert(k, v)[q] by {
                    let j = key_index(e1, q);
                    lemma_entry(e1, j);
                    if j < e0.len() {
                        lemma_entry(e0, j);
                    }
                }
            }
        }
        *self = NameMap { entries };
    }
}

/// Values whose equality is equality of their views.
pub trait SameValue: View + Sized {
    fn same_value(&self, other: &Self) -> (r: bool)
        ensures
            r == (self.view() == other.view()),
    ;
}

impl SameValue for String {
    fn same_value(&self, other: &Self) -> (r: bool) {
        *self == *other
    }
}

impl<V: View + SameValue> NameMap<V> {
    /// Whether both maps hold the same names with the same values, whatever
    /// the order in which they were inserted.
    pub fn same_as(&self, other: &NameMap<V>) -> (r: bool)
        ensures
            r == (self.view() == other.view()),
    {
        proof {
            use_type_invariant(self);
            use_type_invariant(other);
            self.lemma_len();
            other.lemma_len();
        }
        if self.entries.len() != other.entries.len() {
            return false;
        }
        let mut i: usize = 0;
        while i < self.entries.len()
            invariant
                i <= self.entries.len(),
                keys_unique(self.entries@),
                forall|j: int|
                    0 <= j < i ==> #[trigger] other.view().contains_key(self.entries@[j].0@)
                        && other.view()[self.entries@[j].0@] == self.entries@[j].1.view(),
            decreases self.entries.len() - i,
        {
            proof {
                lemma_entry(self.entries@, i as int);
            }
            match other.get(&self.entries[i].0) {
                Some(v) => if !self.entries[i].1.same_value(v) {
                    return false;
                },
                None => {
                    return false;
                },
            }
            i = i + 1;
        }
        proof {
            let a = self.view();
            let b = other.view();
            assert(a.dom().subset_of(b.dom())) by {
                assert forall|k: Seq<char>| a.dom().contains(k) implies b.dom().contains(k) by {
                    let j = key_index(self.entries@, k);
                    assert(self.entries@[j].0@ == k);
                }
            }
            vstd::set_lib::lemma_subset_equality(a.dom(), b.dom());
            assert forall|k: Seq<char>| a.dom().contains(k) implies a[k] == b[k] by {
                let j = key_index(self.entries@, k);
                assert(self.entries@[j].0@ == k);
                lemma_entry(self.entries@, j);
            }
            assert(a =~= b);
        }
        true
    }
}

impl<V: View + SameValue> PartialEq for NameMap<V> {
    fn eq(&self, other: &NameMap<V>) -> (r: bool) {
        self.same_as(other)
    }
}

impl<V: View + SameValue> vstd::std_specs::cmp::PartialEqSpecImpl for NameMap<V> {
    open spec fn obeys_eq_spec() -> bool {
        true
    }

    open spec fn eq_spec(&self, other: &NameMap<V>) -> bool {
        self.view() == other.view()
    }
}

} // verus!
