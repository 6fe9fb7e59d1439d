//! A set of names, kept in the order in which they were added and
//! indexed by hash.

use vstd::prelude::*;
use vstd::string::*;
use vstd::std_specs::hash::DefaultHasherAdditionalSpecFns;
use vstd::utf8::encode_utf8;
use std::collections::hash_map::DefaultHasher;
use std::collections::HashMap;
use std::hash::Hasher;
use crate::text::{eq_ignore_ascii_case, same_ignoring_ascii_case, same_text, texts};

verus! {

/// The hash under which a name is filed.
pub open spec fn text_hash(s: Seq<char>) -> u64 {
    DefaultHasher::spec_finish(seq![encode_utf8(s)])
}

/// The hash under which `name` is filed.
fn hash_of(name: &str) -> (h: u64)
    ensures
        h == text_hash(name@),
{
    let mut state = DefaultHasher::new();
    state.write(name.as_bytes());
    assert(state@ =~= seq![encode_utf8(name@)]);
    state.finish()
}

/// The index files position `p` under the hash `h`.
pub open spec fn lists(index: Map<u64, Vec<usize>>, h: u64, p: usize) -> bool {
    index.dom().contains(h) && index[h]@.contains(p)
}

/// The index files every position of `items` under the hash of the name
/// that stands there.
pub open spec fn indexed(items: Seq<String>, index: Map<u64, Vec<usize>>) -> bool {
    forall|i: int| 0 <= i < items.len() ==> lists(index, text_hash(#[trigger] items[i]@), i as usize)
}

/// Files position `p` under the hash `h`.
fn index_add(index: &mut HashMap<u64, Vec<usize>>, h: u64, p: usize)
    ensures
        lists(final(index)@, h, p),
        forall|k: u64, q: usize| lists(old(index)@, k, q) ==> lists(final(index)@, k, q),
{
    broadcast use vstd::std_specs::hash::group_hash_axioms;

    let ghost before = index@;
    let mut bucket = match index.remove(&h) {
        Some(b) => b,
        None => Vec::new(),
    };
    let ghost filed = bucket@;
    bucket.push(p);
    assert(bucket@[filed.len() as int] == p);
    assert forall|q: usize| filed.contains(q) implies bucket@.contains(q) by {
        let j = choose|j: int| 0 <= j < filed.len() && filed[j] == q;
        assert(bucket@[j] == q);
    }
    index.insert(h, bucket);
    assert forall|k: u64, q: usize| lists(before, k, q) implies lists(index@, k, q) by {
        if k == h {
            assert(filed == before[h]@);
        }
    }
}

/// An index that files every position of `items`.
fn index_of_all(items: &Vec<String>) -> (index: HashMap<u64, Vec<usize>>)
    ensures
        indexed(items@, index@),
{
    let mut index: HashMap<u64, Vec<usize>> = HashMap::new();
    let mut i: usize = 0;
    while i < items.len()
        invariant
            i <= items@.len(),
            forall|j: int| 0 <= j < i ==> lists(index@, text_hash(#[trigger] items@[j]@), j as usize),
        decreases items@.len() - i,
    {
        let h = hash_of(items[i].as_str());
        index_add(&mut index, h, i);
        i += 1;
    }
    index
}

/// A set of names. The names stand in the order in which they were
/// added; an index by hash finds a name without walking the others.
pub struct NameSet {
    items: Vec<String>,
    index: HashMap<u64, Vec<usize>>,
}

impl View for NameSet {
    type V = Set<Seq<char>>;

    closed spec fn view(&self) -> Set<Seq<char>> {
        texts(self.items@).to_set()
    }
}

impl NameSet {
    #[verifier::type_invariant]
    spec fn well_formed(self) -> bool {
        texts(self.items@).no_duplicates() && indexed(self.items@, self.index@)
    }

    /// The names in the order in which they were added.
    pub closed spec fn order(&self) -> Seq<Seq<char>> {
        texts(self.items@)
    }

    /// An empty set.
    pub fn new() -> (r: Self)
        ensures
            r@ == Set::<Seq<char>>::empty(),
            r.order() == Seq::<Seq<char>>::empty(),
    {
        let r = NameSet { items: Vec::new(), index: HashMap::new() };
        assert(texts(r.items@) =~= Seq::<Seq<char>>::empty());
        assert(r@ =~= Set::<Seq<char>>::empty());
        r
    }

    /// The number of names.
    pub fn len(&self) -> (n: usize)
        ensures
            n == self.order().len(),
            self.order().no_duplicates(),
            self@ == self.order().to_set(),
            self@.finite(),
            n == self@.len(),
    {
        proof {
            use_type_invariant(self);
            texts(self.items@).unique_seq_to_set();
            vstd::seq_lib::seq_to_set_is_finite(texts(self.items@));
        }
        self.items.len()
    }

    /// Whether the set holds no name.
    pub fn is_empty(&self) -> (b: bool)
        ensures
            b == (self@ == Set::<Seq<char>>::empty()),
    {
        proof {
            if self.items@.len() > 0 {
                assert(texts(self.items@)[0] == self.items@[0]@);
                assert(self@.contains(self.items@[0]@));
            } else {
                assert(self@ =~= Set::<Seq<char>>::empty());
            }
        }
        self.items.len() == 0
    }

    /// The name at position `i` of the order.
    pub fn name_at(&self, i: usize) -> (name: &String)
        requires
            i < self.order().len(),
        ensures
            name@ == self.order()[i as int],
            self@.contains(name@),
    {
        assert(texts(self.items@)[i as int] == self.items@[i as int]@);
        &self.items[i]
    }

    fn find(&self, name: &str) -> (r: Option<usize>)
        ensures
            match r {
                Some(i) => i < self.items@.len() && self.items@[i as int]@ == name@,
                None => !self@.contains(name@),
            },
    {
        broadcast use vstd::std_specs::hash::group_hash_axioms;

        proof {
            use_type_invariant(self);
        }
        let h = hash_of(name);
        match self.index.get(&h) {
            None => {
                let n = self.items.len();
                proof {
                    if self@.contains(name@) {
                        let i = choose|i: int| 0 <= i < texts(self.items@).len() && texts(self.items@)[i] == name@;
                        assert(self.items@[i]@ == name@);
                        assert(lists(self.index@, text_hash(self.items@[i]@), i as usize));
                    }
                }
                None
            },
            Some(bucket) => {
                let n = self.items.len();
                let mut j: usize = 0;
                while j < bucket.len()
                    invariant
                        j <= bucket@.len(),
                        n == self.items@.len(),
                        forall|k: int| 0 <= k < j ==> !(bucket@[k] < n && self.items@[bucket@[k] as int]@ == name@),
                    decreases bucket@.len() - j,
                {
                    let p = bucket[j];
                    if p < n && same_text(self.items[p].as_str(), name) {
                        return Some(p);
                    }
                    j += 1;
                }
                proof {
                    if self@.contains(name@) {
                        let i = choose|i: int| 0 <= i < texts(self.items@).len() && texts(self.items@)[i] == name@;
                        assert(self.items@[i]@ == name@);
                        assert(lists(self.index@, text_hash(self.items@[i]@), i as usize));
                        assert(self.index@[h] == *bucket);
                        assert(bucket@.contains(i as usize));
                        let k = choose|k: int| 0 <= k < bucket@.len() && bucket@[k] == i as usize;
                        assert(!(bucket@[k] < n && self.items@[bucket@[k] as int]@ == name@));
                    }
                }
                None
            },
        }
    }

    /// The position of `name` in the order, if it is in the set.
    pub fn position(&self, name: &str) -> (r: Option<usize>)
        ensures
            match r {
                Some(i) => i < self.order().len() && self.order()[i as int] == name@,
                None => !self@.contains(name@),
            },
    {
        let found = self.find(name);
        proof {
            if let Some(i) = found {
                assert(texts(self.items@)[i as int] == name@);
            }
        }
        found
    }

    /// Whether `name` is in the set.
    pub fn contains(&self, name: &str) -> (b: bool)
        ensures
            b == self@.contains(name@),
    {
        let found = self.find(name);
        proof {
            if let Some(i) = found {
                assert(texts(self.items@)[i as int] == name@);
            }
        }
        found.is_some()
    }

    /// Adds `name`; tells whether it was new.
    pub fn insert(&mut self, name: String) -> (added: bool)
        ensures
            added == !old(self)@.contains(name@),
            final(self)@ == old(self)@.insert(name@),
            final(self).order() == (if added {
                old(self).order().push(name@)
            } else {
                old(self).order()
            }),
    {
        proof {
            use_type_invariant(&*self);
        }
        let ghost before = texts(self.items@);
        let ghost before_items = self.items@;
        let found = self.find(name.as_str());
        match found {
            Some(i) => {
                proof {
                    assert(before[i as int] == name@);
                    assert(self@.insert(name@) =~= self@);
                }
                false
            },
            None => {
                let h = hash_of(name.as_str());
                let mut taken = NameSet::new();
                core::mem::swap(self, &mut taken);
                let NameSet { mut items, mut index } = taken;
                let n = items.len();
                items.push(name);
                index_add(&mut index, h, n);
                proof {
                    assert(texts(items@) =~= before.push(name@));
                    assert(!before.contains(name@));
                    assert(texts(items@).no_duplicates());
                    assert(indexed(items@, index@)) by {
                        assert forall|i: int| 0 <= i < items@.len() implies lists(
                            index@,
                            text_hash(#[trigger] items@[i]@),
                            i as usize,
                        ) by {
                            if i < n {
                                assert(items@[i] == before_items[i]);
                                assert(lists(old(self).index@, text_hash(before_items[i]@), i as usize));
                            }
                        }
                    }
                    assert(texts(items@).to_set() =~= before.to_set().insert(name@)) by {
                        assert forall|k: Seq<char>| texts(items@).to_set().contains(k) <==> before.to_set().insert(name@).contains(k) by {
                            if before.contains(k) {
                                let j = choose|j: int| 0 <= j < before.len() && before[j] == k;
                                assert(texts(items@)[j] == k);
                            }
                            if k == name@ {
                                assert(texts(items@)[before.len() as int] == k);
                            }
                            if texts(items@).contains(k) {
                                let j = choose|j: int| 0 <= j < texts(items@).len() && texts(items@)[j] == k;
                                if j < before.len() {
                                    assert(before[j] == k);
                                }
                            }
                        }
                    }
                }
                *self = NameSet { items, index };
                true
            },
        }
    }

    /// Takes `name` out; tells whether it was there.
    pub fn remove(&mut self, name: &str) -> (removed: bool)
        ensures
            removed == old(self)@.contains(name@),
            final(self)@ == old(self)@.remove(name@),
    {
        proof {
            use_type_invariant(&*self);
        }
        let ghost before = texts(self.items@);
        let found = self.find(name);
        match found {
            Some(i) => {
                let mut taken = NameSet::new();
                core::mem::swap(self, &mut taken);
                let NameSet { mut items, index } = taken;
                items.remove(i);
                let index = index_of_all(&items);
                proof {
                    let after = texts(items@);
                    assert(after =~= before.remove(i as int));
                    assert(before[i as int] == name@);
                    assert(after.no_duplicates()) by {
                        assert forall|a: int, b: int| 0 <= a < after.len() && 0 <= b < after.len() && a != b implies after[a] != after[b] by {
                            let a0 = if a < i { a } else { a + 1 };
                            let b0 = if b < i { b } else { b + 1 };
                            assert(before[a0] != before[b0]);
                        }
                    }
                    assert(after.to_set() =~= before.to_set().remove(name@)) by {
                        assert forall|k: Seq<char>| after.to_set().contains(k) <==> before.to_set().remove(name@).contains(k) by {
                            if after.contains(k) {
                                let j = choose|j: int| 0 <= j < after.len() && after[j] == k;
                                let j0 = if j < i { j } else { j + 1 };
                                assert(before[j0] == k);
                                assert(before[j0] != before[i as int]);
                            }
                            if before.contains(k) && k != name@ {
                                let j = choose|j: int| 0 <= j < before.len() && before[j] == k;
                                let j1 = if j < i { j } else { j - 1 };
                                assert(after[j1] == k);
                            }
                        }
                    }
                }
                *self = NameSet { items, index };
                true
            },
            None => {
                proof {
                    assert(self@.remove(name@) =~= self@);
                }
                false
            },
        }
    }
}

/// A name is passed over when it matches a name of the skip set, the case
/// of ASCII letters aside.
pub open spec fn skipped_by(name: Seq<char>, skip: Set<Seq<char>>) -> bool {
    exists|s: Seq<char>| skip.contains(s) && same_ignoring_ascii_case(name, s)
}

/// Whether the skip set tells a scan to pass over `name`.
pub fn should_skip(name: &str, skip_dirs: &NameSet) -> (b: bool)
    ensures
        b == skipped_by(name@, skip_dirs@),
{
    let n = skip_dirs.len();
    let mut i: usize = 0;
    while i < n
        invariant
            i <= n,
            n == skip_dirs.order().len(),
            skip_dirs@ == skip_dirs.order().to_set(),
            forall|j: int| 0 <= j < i ==> !same_ignoring_ascii_case(name@, skip_dirs.order()[j]),
        decreases n - i,
    {
        let s = skip_dirs.name_at(i);
        if eq_ignore_ascii_case(name, s.as_str()) {
            return true;
        }
        i += 1;
    }
    proof {
        if skipped_by(name@, skip_dirs@) {
            let s = choose|s: Seq<char>| skip_dirs@.contains(s) && same_ignoring_ascii_case(name@, s);
            let j = choose|j: int| 0 <= j < skip_dirs.order().len() && skip_dirs.order()[j] == s;
            assert(!same_ignoring_ascii_case(name@, skip_dirs.order()[j]));
        }
    }
    false
}

} // verus!
