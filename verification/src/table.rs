//! The mapping from path to entry that the cache holds.
//!
//! Keys are compared as text. The keys stand in a set that is indexed by
//! hash, the entries beside them in the same order; the view of the
//! mapping is a `Map` from key text to entry.

use vstd::prelude::*;
use vstd::string::*;
use crate::entry::{DirEntry, DirEntryView};
use crate::names::NameSet;
use crate::path::{components, components_start_with, path_components, path_starts_with};
use crate::text::texts;

verus! {

/// One write for the mapping: a key with its entry.
pub struct Slot {
    /// The key to write under.
    pub key: String,
    /// The entry to store.
    pub entry: DirEntry,
    /// Whether the write yields to a directory that already stands under
    /// the key. A record that a listing makes for a child directory
    /// yields, so that it never replaces the record of the directory's
    /// own listing.
    pub yields: bool,
}

/// The mapping that a list of keys with their entries stands for; a later
/// pair replaces an earlier one with the same key.
pub open spec fn pairs_map(s: Seq<(Seq<char>, DirEntryView)>) -> Map<Seq<char>, DirEntryView>
    decreases s.len(),
{
    if s.len() == 0 {
        Map::empty()
    } else {
        pairs_map(s.drop_last()).insert(s.last().0, s.last().1)
    }
}

/// No key occurs in two pairs.
pub open spec fn distinct_keys(s: Seq<(Seq<char>, DirEntryView)>) -> bool {
    forall|i: int, j: int| 0 <= i < j < s.len() ==> s[i].0 != s[j].0
}

/// Some pair of `s` has the key `k`.
pub open spec fn has_key(s: Seq<(Seq<char>, DirEntryView)>, k: Seq<char>) -> bool {
    exists|i: int| 0 <= i < s.len() && (#[trigger] s[i]).0 == k
}

proof fn lemma_pairs_map_dom(s: Seq<(Seq<char>, DirEntryView)>)
    ensures
        pairs_map(s).dom().finite(),
        forall|k: Seq<char>| pairs_map(s).dom().contains(k) <==> has_key(s, k),
    decreases s.len(),
{
    if s.len() == 0 {
        assert forall|k: Seq<char>| pairs_map(s).dom().contains(k) <==> has_key(s, k) by {}
    } else {
        let t = s.drop_last();
        lemma_pairs_map_dom(t);
        assert forall|k: Seq<char>| pairs_map(s).dom().contains(k) <==> has_key(s, k) by {
            if has_key(s, k) {
                let i = choose|i: int| 0 <= i < s.len() && (#[trigger] s[i]).0 == k;
                if i < s.len() - 1 {
                    assert(t[i].0 == k);
                    assert(has_key(t, k));
                }
            }
            if pairs_map(s).dom().contains(k) {
                if k != s.last().0 {
                    assert(has_key(t, k));
                    let i = choose|i: int| 0 <= i < t.len() && (#[trigger] t[i]).0 == k;
                    assert(s[i].0 == k);
                } else {
                    assert(s[s.len() - 1].0 == k);
                }
            }
        }
    }
}

proof fn lemma_pairs_map_at(s: Seq<(Seq<char>, DirEntryView)>, i: int)
    requires
        distinct_keys(s),
        0 <= i < s.len(),
    ensures
        pairs_map(s).dom().contains(s[i].0),
        pairs_map(s)[s[i].0] == s[i].1,
    decreases s.len(),
{
    let t = s.drop_last();
    if i < s.len() - 1 {
        assert(distinct_keys(t)) by {
            assert forall|a: int, b: int| 0 <= a < b < t.len() implies t[a].0 != t[b].0 by {
                assert(s[a].0 != s[b].0);
            }
        }
        lemma_pairs_map_at(t, i);
        assert(t[i] == s[i]);
        assert(s[i].0 != s[s.len() - 1].0);
    }
}

proof fn lemma_pairs_map_len(s: Seq<(Seq<char>, DirEntryView)>)
    requires
        distinct_keys(s),
    ensures
        pairs_map(s).dom().finite(),
        pairs_map(s).dom().len() == s.len(),
    decreases s.len(),
{
    lemma_pairs_map_dom(s);
    if s.len() > 0 {
        let t = s.drop_last();
        assert(distinct_keys(t)) by {
            assert forall|a: int, b: int| 0 <= a < b < t.len() implies t[a].0 != t[b].0 by {
                assert(s[a].0 != s[b].0);
            }
        }
        lemma_pairs_map_len(t);
        lemma_pairs_map_dom(t);
        if has_key(t, s.last().0) {
            let i = choose|i: int| 0 <= i < t.len() && (#[trigger] t[i]).0 == s.last().0;
            assert(s[i].0 == s[s.len() - 1].0);
        }
        assert(!pairs_map(t).dom().contains(s.last().0));
    }
}

proof fn lemma_pairs_map_update(s: Seq<(Seq<char>, DirEntryView)>, i: int, e: DirEntryView)
    requires
        distinct_keys(s),
        0 <= i < s.len(),
    ensures
        distinct_keys(s.update(i, (s[i].0, e))),
        pairs_map(s.update(i, (s[i].0, e))) == pairs_map(s).insert(s[i].0, e),
{
    let u = s.update(i, (s[i].0, e));
    assert(distinct_keys(u)) by {
        assert forall|a: int, b: int| 0 <= a < b < u.len() implies u[a].0 != u[b].0 by {
            assert(s[a].0 != s[b].0);
        }
    }
    lemma_pairs_map_dom(s);
    lemma_pairs_map_dom(u);
    let want = pairs_map(s).insert(s[i].0, e);
    assert forall|k: Seq<char>| pairs_map(u).dom().contains(k) <==> want.dom().contains(k) by {
        if has_key(u, k) {
            let j = choose|j: int| 0 <= j < u.len() && (#[trigger] u[j]).0 == k;
            assert(s[j].0 == k);
        }
        if has_key(s, k) {
            let j = choose|j: int| 0 <= j < s.len() && (#[trigger] s[j]).0 == k;
            assert(u[j].0 == k);
        }
        if k == s[i].0 {
            assert(u[i].0 == k);
        }
    }
    assert forall|k: Seq<char>| pairs_map(u).dom().contains(k) implies pairs_map(u)[k] == want[k] by {
        assert(has_key(u, k));
        let j = choose|j: int| 0 <= j < u.len() && (#[trigger] u[j]).0 == k;
        lemma_pairs_map_at(u, j);
        lemma_pairs_map_at(s, j);
    }
    assert(pairs_map(u) =~= want);
}

/// The keys that lie at or below `p`.
pub open spec fn under(p: Seq<char>) -> Set<Seq<char>> {
    Set::new(|k: Seq<char>| path_starts_with(k, p))
}

/// The pairs of `s` whose keys do not lie at or below `p`, last pair first.
pub open spec fn kept_pairs(s: Seq<(Seq<char>, DirEntryView)>, p: Seq<char>) -> Seq<(Seq<char>, DirEntryView)>
    decreases s.len(),
{
    if s.len() == 0 {
        Seq::empty()
    } else if path_starts_with(s[0].0, p) {
        kept_pairs(s.drop_first(), p)
    } else {
        kept_pairs(s.drop_first(), p).push(s[0])
    }
}

proof fn lemma_kept_pairs(s: Seq<(Seq<char>, DirEntryView)>, p: Seq<char>)
    ensures
        forall|x: (Seq<char>, DirEntryView)| #[trigger]
            kept_pairs(s, p).contains(x) <==> s.contains(x) && !path_starts_with(x.0, p),
        distinct_keys(s) ==> distinct_keys(kept_pairs(s, p)),
    decreases s.len(),
{
    let f = kept_pairs(s, p);
    if s.len() == 0 {
    } else {
        let t = s.drop_first();
        let g = kept_pairs(t, p);
        lemma_kept_pairs(t, p);
        assert forall|x: (Seq<char>, DirEntryView)| #[trigger]
            f.contains(x) <==> s.contains(x) && !path_starts_with(x.0, p) by {
            if s.contains(x) {
                let i = choose|i: int| 0 <= i < s.len() && s[i] == x;
                if i > 0 {
                    assert(t[i - 1] == x);
                    assert(t.contains(x));
                }
            }
            if t.contains(x) {
                let i = choose|i: int| 0 <= i < t.len() && t[i] == x;
                assert(s[i + 1] == x);
            }
            if g.contains(x) {
                let j = choose|j: int| 0 <= j < g.len() && g[j] == x;
                assert(f[j] == x);
            }
            if f.contains(x) {
                let j = choose|j: int| 0 <= j < f.len() && f[j] == x;
                if j < g.len() {
                    assert(g[j] == x);
                    assert(g.contains(x));
                } else {
                    assert(x == s[0]);
                }
            }
            if !path_starts_with(s[0].0, p) {
                assert(f[g.len() as int] == s[0]);
            }
            assert(s[0] == s[0]);
        }
        if distinct_keys(s) {
            assert(distinct_keys(t)) by {
                assert forall|a: int, b: int| 0 <= a < b < t.len() implies t[a].0 != t[b].0 by {
                    assert(s[a + 1].0 != s[b + 1].0);
                }
            }
            assert forall|a: int, b: int| 0 <= a < b < f.len() implies f[a].0 != f[b].0 by {
                if b < g.len() {
                } else {
                    assert(g.contains(g[a]));
                    assert(t.contains(g[a]));
                    let i = choose|i: int| 0 <= i < t.len() && t[i] == g[a];
                    assert(s[i + 1].0 != s[0].0);
                }
            }
        }
    }
}

proof fn lemma_kept_map(s: Seq<(Seq<char>, DirEntryView)>, p: Seq<char>)
    requires
        distinct_keys(s),
    ensures
        distinct_keys(kept_pairs(s, p)),
        pairs_map(kept_pairs(s, p)) == pairs_map(s).remove_keys(under(p)),
{
    let f = kept_pairs(s, p);
    let want = pairs_map(s).remove_keys(under(p));
    lemma_kept_pairs(s, p);
    lemma_pairs_map_dom(s);
    lemma_pairs_map_dom(f);
    assert forall|k: Seq<char>| pairs_map(f).dom().contains(k) <==> want.dom().contains(k) by {
        if has_key(f, k) {
            let j = choose|j: int| 0 <= j < f.len() && (#[trigger] f[j]).0 == k;
            assert(f.contains(f[j]));
            assert(s.contains(f[j]));
            let i = choose|i: int| 0 <= i < s.len() && s[i] == f[j];
            assert(s[i].0 == k);
            assert(has_key(s, k));
            assert(!under(p).contains(k));
            assert(pairs_map(s).dom().contains(k));
            assert(want.dom().contains(k));
        }
        if want.dom().contains(k) {
            assert(pairs_map(s).dom().contains(k));
            assert(!under(p).contains(k));
            assert(has_key(s, k));
            let i = choose|i: int| 0 <= i < s.len() && (#[trigger] s[i]).0 == k;
            assert(s.contains(s[i]));
            assert(f.contains(s[i]));
            let j = choose|j: int| 0 <= j < f.len() && f[j] == s[i];
            assert(f[j].0 == k);
            assert(has_key(f, k));
        }
    }
    assert forall|k: Seq<char>| pairs_map(f).dom().contains(k) implies pairs_map(f)[k] == want[k] by {
        assert(has_key(f, k));
        let j = choose|j: int| 0 <= j < f.len() && (#[trigger] f[j]).0 == k;
        assert(f.contains(f[j]));
        assert(s.contains(f[j]));
        let i = choose|i: int| 0 <= i < s.len() && s[i] == f[j];
        lemma_pairs_map_at(f, j);
        lemma_pairs_map_at(s, i);
    }
    assert(pairs_map(f) =~= want);
}

/// The keys with the entries that stand beside them.
pub open spec fn paired(keys: Seq<Seq<char>>, entries: Seq<DirEntry>) -> Seq<(Seq<char>, DirEntryView)> {
    Seq::new(keys.len(), |i: int| (keys[i], entries[i]@))
}

proof fn lemma_paired_distinct(keys: Seq<Seq<char>>, entries: Seq<DirEntry>)
    requires
        keys.no_duplicates(),
    ensures
        distinct_keys(paired(keys, entries)),
{
}

/// A mapping from path to entry.
pub struct EntryMap {
    keys: NameSet,
    entries: Vec<DirEntry>,
}

impl View for Slot {
    type V = (Seq<char>, DirEntryView, bool);

    open spec fn view(&self) -> (Seq<char>, DirEntryView, bool) {
        (self.key@, self.entry@, self.yields)
    }
}

impl View for EntryMap {
    type V = Map<Seq<char>, DirEntryView>;

    closed spec fn view(&self) -> Map<Seq<char>, DirEntryView> {
        pairs_map(paired(self.keys.order(), self.entries@))
    }
}

impl EntryMap {
    #[verifier::type_invariant]
    spec fn well_formed(self) -> bool {
        self.keys.order().len() == self.entries@.len()
    }

    /// The keys in the order in which the mapping walks them.
    pub closed spec fn key_order(&self) -> Seq<Seq<char>> {
        self.keys.order()
    }

    /// An empty mapping.
    pub fn new() -> (r: Self)
        ensures
            r@ == Map::<Seq<char>, DirEntryView>::empty(),
            r.key_order().len() == 0,
    {
        EntryMap { keys: NameSet::new(), entries: Vec::new() }
    }

    /// The number of keys.
    pub fn len(&self) -> (n: usize)
        ensures
            self@.dom().finite(),
            n == self@.dom().len(),
            n == self.key_order().len(),
            self.key_order().no_duplicates(),
            forall|k: Seq<char>| self@.dom().contains(k) <==> self.key_order().contains(k),
    {
        let n = self.keys.len();
        proof {
            use_type_invariant(self);
            let ko = self.keys.order();
            let s = paired(ko, self.entries@);
            lemma_paired_distinct(ko, self.entries@);
            lemma_pairs_map_len(s);
            lemma_pairs_map_dom(s);
            assert forall|k: Seq<char>| self@.dom().contains(k) <==> ko.contains(k) by {
                if has_key(s, k) {
                    let i = choose|i: int| 0 <= i < s.len() && (#[trigger] s[i]).0 == k;
                    assert(ko[i] == k);
                }
                if ko.contains(k) {
                    let i = choose|i: int| 0 <= i < ko.len() && ko[i] == k;
                    assert(s[i].0 == k);
                }
            }
        }
        n
    }

    /// Whether the mapping holds no key.
    pub fn is_empty(&self) -> (b: bool)
        ensures
            b == (self@.dom().len() == 0),
            b == (self@ == Map::<Seq<char>, DirEntryView>::empty()),
            self@.dom().finite(),
    {
        let n = self.len();
        proof {
            if n > 0 {
                assert(self.key_order().contains(self.key_order()[0]));
            } else {
                assert(self@ =~= Map::<Seq<char>, DirEntryView>::empty());
            }
        }
        n == 0
    }

    /// Whether `key` is present.
    pub fn contains_key(&self, key: &str) -> (b: bool)
        ensures
            b == self@.dom().contains(key@),
    {
        let n = self.len();
        let m = self.keys.len();
        let found = self.keys.position(key);
        proof {
            if let Some(i) = found {
                assert(self.key_order()[i as int] == key@);
                assert(self.key_order().contains(key@));
            }
        }
        found.is_some()
    }

    /// The entry stored under `key`, if any.
    pub fn get(&self, key: &str) -> (r: Option<&DirEntry>)
        ensures
            match r {
                Some(e) => self@.dom().contains(key@) && e@ == self@[key@],
                None => !self@.dom().contains(key@),
            },
    {
        let n = self.len();
        let m = self.keys.len();
        proof {
            use_type_invariant(self);
        }
        match self.keys.position(key) {
            Some(i) => {
                proof {
                    lemma_paired_distinct(self.keys.order(), self.entries@);
                    lemma_pairs_map_at(paired(self.keys.order(), self.entries@), i as int);
                    assert(paired(self.keys.order(), self.entries@)[i as int].0 == key@);
                }
                Some(&self.entries[i])
            },
            None => None,
        }
    }

    /// The key at position `i` of the walking order.
    pub fn key_at(&self, i: usize) -> (k: &String)
        requires
            i < self.key_order().len(),
        ensures
            k@ == self.key_order()[i as int],
    {
        self.keys.name_at(i)
    }

    /// The entry at position `i` of the walking order.
    pub fn entry_at(&self, i: usize) -> (e: &DirEntry)
        requires
            i < self.key_order().len(),
        ensures
            self@.dom().contains(self.key_order()[i as int]),
            e@ == self@[self.key_order()[i as int]],
    {
        let n = self.keys.len();
        proof {
            use_type_invariant(self);
            lemma_paired_distinct(self.keys.order(), self.entries@);
            lemma_pairs_map_at(paired(self.keys.order(), self.entries@), i as int);
        }
        &self.entries[i]
    }

    /// Stores `entry` under `key`, replacing what was there.
    pub fn insert(&mut self, key: String, entry: DirEntry)
        ensures
            final(self)@ == old(self)@.insert(key@, entry@),
    {
        proof {
            use_type_invariant(&*self);
        }
        let n = self.keys.len();
        let ghost k = key@;
        let ghost e = entry@;
        let ghost before = paired(self.keys.order(), self.entries@);
        let found = self.keys.position(key.as_str());
        let mut taken = EntryMap::new();
        core::mem::swap(self, &mut taken);
        let EntryMap { mut keys, mut entries } = taken;
        proof {
            lemma_paired_distinct(keys.order(), entries@);
        }
        match found {
            Some(i) => {
                entries.set(i, entry);
                proof {
                    lemma_pairs_map_update(before, i as int, e);
                    assert(paired(keys.order(), entries@) =~= before.update(i as int, (before[i as int].0, e)));
                }
            },
            None => {
                keys.insert(key);
                entries.push(entry);
                proof {
                    let after = paired(keys.order(), entries@);
                    assert(after.drop_last() =~= before);
                    assert(after.last() == (k, e));
                }
            },
        }
        *self = EntryMap { keys, entries };
    }

    /// Removes `path` and every key that `path` is an ancestor of, measured
    /// in path components.
    pub fn remove_under(&mut self, path: &str)
        ensures
            final(self)@ == old(self)@.remove_keys(under(path@)),
    {
        proof {
            use_type_invariant(&*self);
        }
        let n = self.keys.len();
        let ghost before = paired(self.keys.order(), self.entries@);
        let base = components(path);
        let mut taken = EntryMap::new();
        core::mem::swap(self, &mut taken);
        let EntryMap { keys, mut entries } = taken;
        let mut kept_keys = NameSet::new();
        let mut kept_entries: Vec<DirEntry> = Vec::new();
        let mut i: usize = n;
        proof {
            lemma_paired_distinct(keys.order(), entries@);
            lemma_kept_map(before, path@);
            assert(before.skip(n as int) =~= Seq::empty());
            assert(paired(kept_keys.order(), kept_entries@) =~= Seq::empty());
        }
        while i > 0
            invariant
                i <= n,
                n == before.len(),
                n == keys.order().len(),
                entries@.len() == i,
                forall|j: int| 0 <= j < i ==> before[j] == (keys.order()[j], (#[trigger] entries@[j])@),
                texts(base@) == path_components(path@),
                kept_keys.order().len() == kept_entries@.len(),
                paired(kept_keys.order(), kept_entries@) == kept_pairs(before.skip(i as int), path@),
                distinct_keys(before),
            decreases i,
        {
            let ghost kept_before = paired(kept_keys.order(), kept_entries@);
            let entry = entries.pop().unwrap();
            i -= 1;
            let key = keys.name_at(i);
            let kc = components(key.as_str());
            proof {
                assert(before.skip(i as int).drop_first() =~= before.skip(i + 1));
                assert(before.skip(i as int)[0] == before[i as int]);
                assert(before[i as int] == (key@, entry@));
                lemma_kept_pairs(before.skip(i + 1), path@);
            }
            if !components_start_with(&kc, &base) {
                let held = kept_keys.len();
                proof {
                    if kept_keys@.contains(key@) {
                        let j = choose|j: int| 0 <= j < kept_keys.order().len() && kept_keys.order()[j] == key@;
                        assert(kept_before[j].0 == key@);
                        assert(kept_before.contains(kept_before[j]));
                        let rest = before.skip(i + 1);
                        assert(rest.contains(kept_before[j]));
                        let t = choose|t: int| 0 <= t < rest.len() && rest[t] == kept_before[j];
                        assert(before[i + 1 + t].0 == before[i as int].0);
                    }
                }
                kept_keys.insert(key.clone());
                kept_entries.push(entry);
                assert(paired(kept_keys.order(), kept_entries@) =~= kept_before.push((key@, entry@)));
            }
        }
        proof {
            assert(before.skip(0) =~= before);
        }
        *self = EntryMap { keys: kept_keys, entries: kept_entries };
    }
}

} // verus!
