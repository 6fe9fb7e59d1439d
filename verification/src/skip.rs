//! Counts of the names that a scan passed over.

use vstd::prelude::*;
use vstd::string::*;
use crate::text::{decimal, push_decimal, same_text};

verus! {

/// A skipped name with the number of times it was passed over.
pub struct SkipCount {
    pub name: String,
    pub count: usize,
}

/// `a + b`, held at the largest `usize`.
pub open spec fn capped_sum(a: int, b: int) -> usize {
    if a + b > usize::MAX {
        usize::MAX
    } else {
        (a + b) as usize
    }
}

/// The position of `name` in the tally, if it was counted.
pub open spec fn tally_position(t: Seq<(Seq<char>, usize)>, name: Seq<char>) -> Option<int> {
    if exists|i: int| 0 <= i < t.len() && (#[trigger] t[i]).0 == name {
        Some(choose|i: int| 0 <= i < t.len() && (#[trigger] t[i]).0 == name)
    } else {
        None
    }
}

/// The count recorded for `name`; zero if it was never counted.
pub open spec fn tally_count(t: Seq<(Seq<char>, usize)>, name: Seq<char>) -> usize {
    match tally_position(t, name) {
        Some(i) => t[i].1,
        None => 0,
    }
}

/// The tally after `n` more sightings of `name`: its count grows in place,
/// or the name joins at the end.
pub open spec fn tally_add(t: Seq<(Seq<char>, usize)>, name: Seq<char>, n: usize) -> Seq<(Seq<char>, usize)> {
    match tally_position(t, name) {
        Some(i) => t.update(i, (name, capped_sum(t[i].1 as int, n as int))),
        None => t.push((name, n)),
    }
}

/// No name is counted twice.
pub open spec fn distinct_names(t: Seq<(Seq<char>, usize)>) -> bool {
    forall|i: int, j: int| 0 <= i < j < t.len() ==> t[i].0 != t[j].0
}

/// Puts `item` into a tally ordered by falling count, behind every item
/// whose count is at least as large.
pub open spec fn place_by_count(sorted: Seq<(Seq<char>, usize)>, item: (Seq<char>, usize)) -> Seq<(Seq<char>, usize)>
    decreases sorted.len(),
{
    if sorted.len() == 0 {
        seq![item]
    } else if sorted.last().1 >= item.1 {
        sorted.push(item)
    } else {
        place_by_count(sorted.drop_last(), item).push(sorted.last())
    }
}

/// The tally ordered by falling count; items with equal counts keep the
/// order in which they were first counted.
pub open spec fn by_falling_count(t: Seq<(Seq<char>, usize)>) -> Seq<(Seq<char>, usize)>
    decreases t.len(),
{
    if t.len() == 0 {
        Seq::empty()
    } else {
        place_by_count(by_falling_count(t.drop_last()), t.last())
    }
}

/// Counts never rise along `t`.
pub open spec fn falling(t: Seq<(Seq<char>, usize)>) -> bool {
    forall|i: int, j: int| 0 <= i < j < t.len() ==> t[i].1 >= t[j].1
}

proof fn lemma_place_by_count(sorted: Seq<(Seq<char>, usize)>, item: (Seq<char>, usize))
    requires
        falling(sorted),
    ensures
        falling(place_by_count(sorted, item)),
        place_by_count(sorted, item).to_multiset() == sorted.to_multiset().insert(item),
        place_by_count(sorted, item).len() == sorted.len() + 1,
    decreases sorted.len(),
{
    broadcast use vstd::seq_lib::group_to_multiset_ensures;

    let r = place_by_count(sorted, item);
    if sorted.len() == 0 {
        assert(r =~= Seq::<(Seq<char>, usize)>::empty().push(item));
        assert(sorted =~= Seq::<(Seq<char>, usize)>::empty());
    } else if sorted.last().1 >= item.1 {
    } else {
        let rest = sorted.drop_last();
        assert(falling(rest));
        lemma_place_by_count(rest, item);
        let inner = place_by_count(rest, item);
        assert(sorted =~= rest.push(sorted.last()));
        assert(falling(r)) by {
            assert forall|i: int, j: int| 0 <= i < j < r.len() implies r[i].1 >= r[j].1 by {
                if j == r.len() - 1 {
                    assert(inner.to_multiset().count(inner[i]) > 0);
                    if inner[i] == item {
                    } else {
                        assert(rest.to_multiset().count(inner[i]) > 0);
                        assert(rest.contains(inner[i]));
                        let k = choose|k: int| 0 <= k < rest.len() && rest[k] == inner[i];
                        assert(sorted[k].1 >= sorted[sorted.len() - 1].1);
                    }
                }
            }
        }
    }
}

/// Ordering by falling count rearranges the tally and leaves counts
/// falling.
pub proof fn lemma_by_falling_count(t: Seq<(Seq<char>, usize)>)
    ensures
        falling(by_falling_count(t)),
        by_falling_count(t).to_multiset() == t.to_multiset(),
        by_falling_count(t).len() == t.len(),
    decreases t.len(),
{
    broadcast use vstd::seq_lib::group_to_multiset_ensures;

    if t.len() == 0 {
    } else {
        lemma_by_falling_count(t.drop_last());
        lemma_place_by_count(by_falling_count(t.drop_last()), t.last());
        assert(t =~= t.drop_last().push(t.last()));
    }
}

/// One line of the report: two spaces, the count, ` × `, the name.
pub open spec fn report_line(item: (Seq<char>, usize)) -> Seq<char> {
    "  "@ + decimal(item.1 as nat) + " × "@ + item.0 + "\n"@
}

/// The lines of the report for `t`, one after the other.
pub open spec fn report_lines(t: Seq<(Seq<char>, usize)>) -> Seq<char>
    decreases t.len(),
{
    if t.len() == 0 {
        Seq::empty()
    } else {
        report_lines(t.drop_last()) + report_line(t.last())
    }
}

/// The report on a tally: a fixed sentence when nothing was skipped,
/// otherwise a heading and one line per name, largest count first.
pub open spec fn report_text(t: Seq<(Seq<char>, usize)>) -> Seq<char> {
    if t.len() == 0 {
        "(no directories skipped)"@
    } else {
        "Skip Statistics:\n"@ + report_lines(by_falling_count(t))
    }
}

/// `<[T]>::sort_by_key` of std, with the reversed count as the key, puts
/// the records in the order of falling count; the sort is stable, so
/// records with equal counts keep their order.
#[verifier::external_body]
fn sort_by_falling_count(v: &mut Vec<SkipCount>)
    ensures
        tally_of(final(v)@) == by_falling_count(tally_of(old(v)@)),
{
    v.sort_by_key(|item| std::cmp::Reverse(item.count));
}

/// How often each name was skipped, in the order of first sighting.
pub struct SkipStats {
    counts: Vec<SkipCount>,
}

/// The names and counts that a list of records holds.
pub open spec fn tally_of(c: Seq<SkipCount>) -> Seq<(Seq<char>, usize)> {
    Seq::new(c.len(), |i: int| (c[i].name@, c[i].count))
}

impl View for SkipStats {
    type V = Seq<(Seq<char>, usize)>;

    closed spec fn view(&self) -> Seq<(Seq<char>, usize)> {
        tally_of(self.counts@)
    }
}

impl SkipStats {
    #[verifier::type_invariant]
    spec fn well_formed(self) -> bool {
        distinct_names(self@)
    }

    /// A tally with no name in it.
    pub fn new() -> (r: Self)
        ensures
            r@ == Seq::<(Seq<char>, usize)>::empty(),
    {
        let r = SkipStats { counts: Vec::new() };
        assert(r@ =~= Seq::<(Seq<char>, usize)>::empty());
        r
    }

    /// A copy of the tally.
    pub fn duplicate(&self) -> (r: Self)
        ensures
            r@ == self@,
    {
        proof {
            use_type_invariant(self);
        }
        let counts = self.copy_counts();
        SkipStats { counts }
    }

    /// The number of names counted.
    pub fn len(&self) -> (n: usize)
        ensures
            n == self@.len(),
            distinct_names(self@),
    {
        proof {
            use_type_invariant(self);
        }
        self.counts.len()
    }

    /// Whether no name was counted.
    pub fn is_empty(&self) -> (b: bool)
        ensures
            b == (self@.len() == 0),
    {
        self.counts.len() == 0
    }

    /// The name at position `i`.
    pub fn name_at(&self, i: usize) -> (name: &String)
        requires
            i < self@.len(),
        ensures
            name@ == self@[i as int].0,
    {
        &self.counts[i].name
    }

    /// The count at position `i`.
    pub fn count_at(&self, i: usize) -> (count: usize)
        requires
            i < self@.len(),
        ensures
            count == self@[i as int].1,
    {
        self.counts[i].count
    }

    fn find(&self, name: &str) -> (r: Option<usize>)
        ensures
            r is Some ==> tally_position(self@, name@) == Some(r->0 as int),
            r is None ==> tally_position(self@, name@) is None,
            r is Some ==> r->0 < self@.len() && self@[r->0 as int].0 == name@,
    {
        proof {
            use_type_invariant(self);
        }
        let mut i: usize = 0;
        while i < self.counts.len()
            invariant
                i <= self.counts@.len(),
                self@.len() == self.counts@.len(),
                distinct_names(self@),
                forall|j: int| 0 <= j < i ==> (#[trigger] self@[j]).0 != name@,
            decreases self.counts@.len() - i,
        {
            if same_text(self.counts[i].name.as_str(), name) {
                proof {
                    assert(self@[i as int].0 == name@);
                    let at = choose|k: int| 0 <= k < self@.len() && (#[trigger] self@[k]).0 == name@;
                    if at < i {
                        assert(self@[at].0 != self@[i as int].0);
                    } else if at > i {
                        assert(self@[i as int].0 != self@[at].0);
                    }
                }
                return Some(i);
            }
            i += 1;
        }
        None
    }

    /// The count recorded for `name`; zero if it was never counted.
    pub fn count(&self, name: &str) -> (n: usize)
        ensures
            n == tally_count(self@, name@),
    {
        match self.find(name) {
            Some(i) => self.counts[i].count,
            None => 0,
        }
    }

    /// Counts `n` more sightings of `name`.
    pub fn add(&mut self, name: &str, n: usize)
        ensures
            final(self)@ == tally_add(old(self)@, name@, n),
    {
        proof {
            use_type_invariant(&*self);
        }
        let ghost before = self@;
        let found = self.find(name);
        let mut counts: Vec<SkipCount> = Vec::new();
        core::mem::swap(&mut self.counts, &mut counts);
        assert(tally_of(counts@) == before);
        match found {
            Some(i) => {
                let c = counts[i].count;
                let sum = if c > usize::MAX - n {
                    usize::MAX
                } else {
                    c + n
                };
                counts.set(i, SkipCount { name: String::from_str(name), count: sum });
            },
            None => {
                counts.push(SkipCount { name: String::from_str(name), count: n });
            },
        }
        proof {
            let after = tally_of(counts@);
            assert(after =~= tally_add(before, name@, n));
            assert(distinct_names(after)) by {
                assert forall|a: int, b: int| 0 <= a < b < after.len() implies after[a].0 != after[b].0 by {
                    if b < before.len() {
                        assert(before[a].0 != before[b].0);
                    } else {
                        assert(before[a].0 == after[a].0);
                    }
                }
            }
        }
        self.counts = counts;
    }

    /// A copy of the records.
    fn copy_counts(&self) -> (counts: Vec<SkipCount>)
        ensures
            tally_of(counts@) == self@,
    {
        let mut counts: Vec<SkipCount> = Vec::new();
        let mut i: usize = 0;
        while i < self.counts.len()
            invariant
                i <= self.counts@.len(),
                counts@.len() == i,
                forall|j: int|
                    0 <= j < i ==> counts@[j].name@ == self.counts@[j].name@ && counts@[j].count == self.counts@[j].count,
            decreases self.counts@.len() - i,
        {
            counts.push(SkipCount { name: self.counts[i].name.clone(), count: self.counts[i].count });
            i += 1;
        }
        assert(tally_of(counts@) =~= self@);
        counts
    }

    /// The report on what was skipped.
    pub fn report(&self) -> (text: String)
        ensures
            text@ == report_text(self@),
    {
        if self.counts.len() == 0 {
            return String::from_str("(no directories skipped)");
        }
        let mut ordered = self.copy_counts();
        sort_by_falling_count(&mut ordered);
        let ghost sorted = by_falling_count(self@);
        let mut text = String::from_str("Skip Statistics:\n");
        let mut i: usize = 0;
        assert(sorted.take(0) =~= Seq::<(Seq<char>, usize)>::empty());
        assert(text@ =~= "Skip Statistics:\n"@ + report_lines(sorted.take(0)));
        while i < ordered.len()
            invariant
                i <= ordered@.len(),
                sorted == tally_of(ordered@),
                text@ == "Skip Statistics:\n"@ + report_lines(sorted.take(i as int)),
            decreases ordered@.len() - i,
        {
            let ghost head = text@;
            text.append("  ");
            push_decimal(&mut text, ordered[i].count);
            text.append(" × ");
            text.append(ordered[i].name.as_str());
            text.append("\n");
            proof {
                assert(sorted.take(i + 1).drop_last() =~= sorted.take(i as int));
                assert(sorted.take(i + 1).last() == sorted[i as int]);
                assert(sorted[i as int] == (ordered@[i as int].name@, ordered@[i as int].count));
                assert(text@ =~= head + report_line(sorted[i as int]));
                assert(text@ =~= "Skip Statistics:\n"@ + (report_lines(sorted.take(i as int)) + report_line(sorted[i as int])));
            }
            i += 1;
        }
        assert(sorted.take(i as int) =~= sorted);
        text
    }
}

} // verus!
