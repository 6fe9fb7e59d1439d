//! The content hash of a directory: a 64-bit digest of its path, its
//! time stamp, its children's names and the hashes of its child
//! directories. Because the hashes of the children enter the hash of the
//! parent, a change anywhere below a directory shows in its hash.

use vstd::prelude::*;
use vstd::string::*;
use vstd::bytes::{lemma_auto_spec_u64_to_from_le_bytes, spec_u64_from_le_bytes, spec_u64_to_le_bytes, u64_to_le_bytes};
use vstd::multiset::Multiset;
use vstd::relations::{sorted_by, total_ordering};
use vstd::seq_lib::{commutative_foldl, lemma_fold_left_permutation, lemma_sorted_unique};
use vstd::std_specs::hash::DefaultHasherAdditionalSpecFns;
use vstd::utf8::{encode_utf8, encode_utf8_decode_utf8};
use std::collections::hash_map::DefaultHasher;
use std::hash::Hasher;
use crate::entry::Timestamp;
use crate::order::{
    lemma_sorted_names, lemma_text_le_antisymmetric, lemma_text_le_total, lemma_text_le_transitive,
    lemma_text_order_total, sorted_copy, sorted_names, text_le, text_order,
};
use crate::path::{child_name, child_name_in};
use crate::text::{lowercase_text, texts};

verus! {

/// The paths and hashes of a list, as plain values.
pub open spec fn pair_views(v: Seq<(String, u64)>) -> Seq<(Seq<char>, u64)> {
    Seq::new(v.len(), |i: int| (v[i].0@, v[i].1))
}

/// A pair comes no later than another: by name, and by hash among equal
/// names.
pub open spec fn pair_le(a: (Seq<char>, u64), b: (Seq<char>, u64)) -> bool {
    if a.0 == b.0 {
        a.1 <= b.1
    } else {
        text_le(a.0, b.0)
    }
}

/// The order of pairs as a relation.
pub open spec fn pair_order() -> spec_fn((Seq<char>, u64), (Seq<char>, u64)) -> bool {
    |a: (Seq<char>, u64), b: (Seq<char>, u64)| pair_le(a, b)
}

/// The order of pairs is a total order.
pub proof fn lemma_pair_order_total()
    ensures
        total_ordering(pair_order()),
{
    let r = pair_order();
    assert forall|x: (Seq<char>, u64)| #[trigger] r(x, x) by {}
    assert forall|x: (Seq<char>, u64), y: (Seq<char>, u64)| #[trigger] r(x, y) && #[trigger] r(y, x) implies x
        == y by {
        if x.0 != y.0 {
            lemma_text_le_antisymmetric(x.0, y.0);
        }
    }
    assert forall|x: (Seq<char>, u64), y: (Seq<char>, u64), z: (Seq<char>, u64)| #[trigger] r(x, y) && #[trigger] r(
        y,
        z,
    ) implies r(x, z) by {
        if x.0 == y.0 || y.0 == z.0 {
            if x.0 == z.0 && x.0 != y.0 {
                lemma_text_le_antisymmetric(x.0, y.0);
            }
        } else {
            lemma_text_le_transitive(x.0, y.0, z.0);
            if x.0 == z.0 {
                lemma_text_le_antisymmetric(x.0, y.0);
            }
        }
    }
    assert forall|x: (Seq<char>, u64), y: (Seq<char>, u64)| #[trigger] r(x, y) || #[trigger] r(y, x) by {
        lemma_text_le_total(x.0, y.0);
    }
}

/// The pairs in ascending order.
pub open spec fn sorted_pairs(pairs: Seq<(Seq<char>, u64)>) -> Seq<(Seq<char>, u64)> {
    pairs.sort_by(pair_order())
}

/// `<[(String, u64)]>::sort` rearranges the pairs into ascending order,
/// where pairs are ordered by their strings and, among equal strings, by
/// their numbers.
#[verifier::external_body]
fn sort_pairs(v: &mut Vec<(String, u64)>)
    ensures
        pair_views(final(v)@).to_multiset() == pair_views(old(v)@).to_multiset(),
        sorted_by(pair_views(final(v)@), pair_order()),
{
    v.sort();
}

/// The names and hashes of the direct children of `p` among the paths of
/// `hashes`, in the order of `hashes`.
pub open spec fn direct_children(p: Seq<char>, hashes: Seq<(Seq<char>, u64)>) -> Seq<(Seq<char>, u64)>
    decreases hashes.len(),
{
    if hashes.len() == 0 {
        Seq::empty()
    } else {
        let before = direct_children(p, hashes.drop_last());
        match child_name_in(hashes.last().0, p) {
            Some(name) => before.push((name, hashes.last().1)),
            None => before,
        }
    }
}

/// What hashing a text feeds to the digest: its UTF-8 bytes, then a byte
/// that no text contains.
pub open spec fn text_writes(s: Seq<char>) -> Seq<Seq<u8>> {
    seq![encode_utf8(s), seq![0xffu8]]
}

/// What hashing a list of names feeds to the digest.
pub open spec fn names_writes(names: Seq<Seq<char>>) -> Seq<Seq<u8>>
    decreases names.len(),
{
    if names.len() == 0 {
        Seq::empty()
    } else {
        names_writes(names.drop_last()) + text_writes(names.last())
    }
}

/// What hashing the hashes of a list of pairs feeds to the digest: eight
/// bytes each, least significant first.
pub open spec fn hashes_writes(pairs: Seq<(Seq<char>, u64)>) -> Seq<Seq<u8>>
    decreases pairs.len(),
{
    if pairs.len() == 0 {
        Seq::empty()
    } else {
        hashes_writes(pairs.drop_last()).push(spec_u64_to_le_bytes(pairs.last().1))
    }
}

/// Everything that the content hash feeds to the digest, in order: the
/// path in lower case, the seconds of the time stamp, the number of
/// children, the children's names in ascending order, and the hashes of
/// the child directories in ascending order of their names.
pub open spec fn hash_writes(p: Seq<char>, secs: i64, children: Seq<Seq<char>>, hashes: Seq<(Seq<char>, u64)>) -> Seq<
    Seq<u8>,
> {
    text_writes(lowercase_text(p)).push(spec_u64_to_le_bytes(secs as u64)).push(
        spec_u64_to_le_bytes(children.len() as u64),
    ) + names_writes(sorted_names(children)) + hashes_writes(sorted_pairs(direct_children(p, hashes)))
}

/// The content hash.
pub open spec fn content_hash(p: Seq<char>, secs: i64, children: Seq<Seq<char>>, hashes: Seq<(Seq<char>, u64)>) -> u64 {
    DefaultHasher::spec_finish(hash_writes(p, secs, children, hashes))
}

fn absorb_text(state: &mut DefaultHasher, s: &str)
    ensures
        final(state)@ == old(state)@ + text_writes(s@),
{
    state.write(s.as_bytes());
    let mut end: Vec<u8> = Vec::new();
    end.push(0xffu8);
    state.write(end.as_slice());
    assert(end@ =~= seq![0xffu8]);
    assert(state@ =~= old(state)@ + text_writes(s@));
}

fn absorb_word(state: &mut DefaultHasher, x: u64)
    ensures
        final(state)@ == old(state)@.push(spec_u64_to_le_bytes(x)),
{
    let bytes = u64_to_le_bytes(x);
    state.write(bytes.as_slice());
}

/// The content hash of the directory at `path`, observed at `modified`,
/// with the children `children`, where `child_hashes` holds the hashes of
/// directories that were hashed before.
pub fn compute_content_hash(
    path: &str,
    modified: Timestamp,
    children: &Vec<String>,
    child_hashes: &Vec<(String, u64)>,
) -> (hash: u64)
    ensures
        hash == content_hash(path@, modified.secs, texts(children@), pair_views(child_hashes@)),
{
    let mut state = DefaultHasher::new();
    let lower = path.to_lowercase();
    absorb_text(&mut state, lower.as_str());
    absorb_word(&mut state, #[verifier::truncate] (modified.secs as u64));
    absorb_word(&mut state, children.len() as u64);
    assert(state@ =~= text_writes(lowercase_text(path@)).push(spec_u64_to_le_bytes(modified.secs as u64)).push(
        spec_u64_to_le_bytes(children@.len() as u64),
    ));
    let ghost head = state@;

    let sorted = sorted_copy(children, false);
    let ghost names = texts(sorted@);
    let mut i: usize = 0;
    assert(names.take(0) =~= Seq::<Seq<char>>::empty());
    assert(state@ =~= head + names_writes(names.take(0)));
    while i < sorted.len()
        invariant
            i <= sorted@.len(),
            names == texts(sorted@),
            state@ == head + names_writes(names.take(i as int)),
        decreases sorted@.len() - i,
    {
        let ghost before = state@;
        absorb_text(&mut state, sorted[i].as_str());
        proof {
            assert(names.take(i + 1).drop_last() =~= names.take(i as int));
            assert(names.take(i + 1).last() == sorted@[i as int]@);
            assert(state@ =~= head + (names_writes(names.take(i as int)) + text_writes(names[i as int])));
        }
        i += 1;
    }
    assert(names.take(i as int) =~= names);
    let ghost mid = state@;

    let ghost all = pair_views(child_hashes@);
    let mut pairs: Vec<(String, u64)> = Vec::new();
    let mut j: usize = 0;
    assert(all.take(0) =~= Seq::<(Seq<char>, u64)>::empty());
    assert(pair_views(pairs@) =~= Seq::<(Seq<char>, u64)>::empty());
    while j < child_hashes.len()
        invariant
            j <= child_hashes@.len(),
            all == pair_views(child_hashes@),
            pair_views(pairs@) == direct_children(path@, all.take(j as int)),
        decreases child_hashes@.len() - j,
    {
        let ghost before = pair_views(pairs@);
        proof {
            assert(all.take(j + 1).drop_last() =~= all.take(j as int));
            assert(all.take(j + 1).last() == all[j as int]);
        }
        match child_name(child_hashes[j].0.as_str(), path) {
            Some(name) => {
                let ghost n = name@;
                pairs.push((name, child_hashes[j].1));
                assert(pair_views(pairs@) =~= before.push((n, all[j as int].1)));
            },
            None => {},
        }
        j += 1;
    }
    assert(all.take(j as int) =~= all);
    sort_pairs(&mut pairs);
    proof {
        lemma_pair_order_total();
        let want = direct_children(path@, all);
        want.lemma_sort_by_ensures(pair_order());
        lemma_sorted_unique(pair_views(pairs@), sorted_pairs(want), pair_order());
    }
    let ghost ordered = pair_views(pairs@);
    let mut k: usize = 0;
    assert(ordered.take(0) =~= Seq::<(Seq<char>, u64)>::empty());
    assert(state@ =~= mid + hashes_writes(ordered.take(0)));
    while k < pairs.len()
        invariant
            k <= pairs@.len(),
            ordered == pair_views(pairs@),
            state@ == mid + hashes_writes(ordered.take(k as int)),
        decreases pairs@.len() - k,
    {
        absorb_word(&mut state, pairs[k].1);
        proof {
            assert(ordered.take(k + 1).drop_last() =~= ordered.take(k as int));
            assert(ordered.take(k + 1).last() == ordered[k as int]);
            assert(state@ =~= mid + hashes_writes(ordered.take(k as int)).push(spec_u64_to_le_bytes(ordered[k as int].1)));
        }
        k += 1;
    }
    assert(ordered.take(k as int) =~= ordered);
    state.finish()
}

/// The digest tells the two inputs apart: it does not map them, if they
/// differ, to one value. A 64-bit digest cannot do so for all pairs of
/// inputs.
pub open spec fn digest_separates(a: Seq<Seq<u8>>, b: Seq<Seq<u8>>) -> bool {
    a != b ==> DefaultHasher::spec_finish(a) != DefaultHasher::spec_finish(b)
}

/// The content hash depends on its arguments alone; of the children it
/// takes in which names occur and how often, not their order.
pub proof fn lemma_content_hash_is_pure(
    p: Seq<char>,
    secs: i64,
    c1: Seq<Seq<char>>,
    c2: Seq<Seq<char>>,
    hashes: Seq<(Seq<char>, u64)>,
)
    requires
        c1.to_multiset() == c2.to_multiset(),
    ensures
        content_hash(p, secs, c1, hashes) == content_hash(p, secs, c2, hashes),
{
    lemma_sorted_names(c1);
    lemma_sorted_names(c2);
    lemma_text_order_total();
    lemma_sorted_unique(sorted_names(c1), sorted_names(c2), text_order());
}

proof fn lemma_names_writes(names: Seq<Seq<char>>)
    ensures
        names_writes(names).len() == 2 * names.len(),
        forall|i: int| 0 <= i < names.len() ==> #[trigger] names_writes(names)[2 * i] == encode_utf8(names[i]),
    decreases names.len(),
{
    if names.len() > 0 {
        lemma_names_writes(names.drop_last());
        assert forall|i: int| 0 <= i < names.len() implies #[trigger] names_writes(names)[2 * i] == encode_utf8(
            names[i],
        ) by {
            if i < names.len() - 1 {
                assert(names_writes(names.drop_last())[2 * i] == encode_utf8(names.drop_last()[i]));
            }
        }
    }
}

proof fn lemma_hashes_writes(pairs: Seq<(Seq<char>, u64)>)
    ensures
        hashes_writes(pairs).len() == pairs.len(),
        forall|i: int| 0 <= i < pairs.len() ==> #[trigger] hashes_writes(pairs)[i] == spec_u64_to_le_bytes(pairs[i].1),
    decreases pairs.len(),
{
    if pairs.len() > 0 {
        lemma_hashes_writes(pairs.drop_last());
        assert forall|i: int| 0 <= i < pairs.len() implies #[trigger] hashes_writes(pairs)[i] == spec_u64_to_le_bytes(
            pairs[i].1,
        ) by {
            if i < pairs.len() - 1 {
                assert(hashes_writes(pairs.drop_last())[i] == spec_u64_to_le_bytes(pairs.drop_last()[i].1));
            }
        }
    }
}

/// The content hash sees the children: when a name is added, removed or
/// renamed, so that the names that occur change, the hash changes too,
/// unless the digest maps the two inputs to one value.
pub proof fn lemma_content_hash_sees_children(
    p: Seq<char>,
    secs: i64,
    c1: Seq<Seq<char>>,
    c2: Seq<Seq<char>>,
    hashes: Seq<(Seq<char>, u64)>,
)
    requires
        c1.to_multiset() != c2.to_multiset(),
        c1.len() <= usize::MAX,
        c2.len() <= usize::MAX,
        digest_separates(hash_writes(p, secs, c1, hashes), hash_writes(p, secs, c2, hashes)),
    ensures
        content_hash(p, secs, c1, hashes) != content_hash(p, secs, c2, hashes),
{
    let w1 = hash_writes(p, secs, c1, hashes);
    let w2 = hash_writes(p, secs, c2, hashes);
    let s1 = sorted_names(c1);
    let s2 = sorted_names(c2);
    lemma_sorted_names(c1);
    lemma_sorted_names(c2);
    lemma_names_writes(s1);
    lemma_names_writes(s2);
    lemma_auto_spec_u64_to_from_le_bytes();
    if w1 == w2 {
        assert(w1[3] == spec_u64_to_le_bytes(c1.len() as u64));
        assert(w2[3] == spec_u64_to_le_bytes(c2.len() as u64));
        assert(spec_u64_from_le_bytes(spec_u64_to_le_bytes(c1.len() as u64)) == c1.len() as u64);
        assert(spec_u64_from_le_bytes(spec_u64_to_le_bytes(c2.len() as u64)) == c2.len() as u64);
        assert(c1.len() == c2.len());
        assert forall|i: int| 0 <= i < s1.len() implies s1[i] == s2[i] by {
            assert(w1[4 + 2 * i] == names_writes(s1)[2 * i]);
            assert(w2[4 + 2 * i] == names_writes(s2)[2 * i]);
            encode_utf8_decode_utf8(s1[i]);
            encode_utf8_decode_utf8(s2[i]);
        }
        assert(s1 =~= s2);
        assert(false);
    }
}

/// The hashes of a list of pairs, as a bag.
pub open spec fn hash_bag(pairs: Seq<(Seq<char>, u64)>) -> Multiset<u64>
    decreases pairs.len(),
{
    if pairs.len() == 0 {
        Multiset::empty()
    } else {
        hash_bag(pairs.drop_last()).insert(pairs.last().1)
    }
}

proof fn lemma_hash_bag_is_fold(pairs: Seq<(Seq<char>, u64)>)
    ensures
        hash_bag(pairs) == pairs.fold_left(
            Multiset::<u64>::empty(),
            |acc: Multiset<u64>, x: (Seq<char>, u64)| acc.insert(x.1),
        ),
    decreases pairs.len(),
{
    if pairs.len() > 0 {
        lemma_hash_bag_is_fold(pairs.drop_last());
    }
}

proof fn lemma_hash_bag_of_rearranged(a: Seq<(Seq<char>, u64)>, b: Seq<(Seq<char>, u64)>)
    requires
        a.to_multiset() == b.to_multiset(),
    ensures
        hash_bag(a) == hash_bag(b),
{
    let f = |acc: Multiset<u64>, x: (Seq<char>, u64)| acc.insert(x.1);
    assert(commutative_foldl(f)) by {
        assert forall|x: (Seq<char>, u64), y: (Seq<char>, u64), v: Multiset<u64>| #[trigger] f(f(v, x), y) == f(
            f(v, y),
            x,
        ) by {
            assert(v.insert(x.1).insert(y.1) =~= v.insert(y.1).insert(x.1));
        }
    }
    lemma_fold_left_permutation(a, b, f, Multiset::<u64>::empty());
    lemma_hash_bag_is_fold(a);
    lemma_hash_bag_is_fold(b);
}

proof fn lemma_hash_bag_of_equal_hashes(a: Seq<(Seq<char>, u64)>, b: Seq<(Seq<char>, u64)>)
    requires
        a.len() == b.len(),
        forall|i: int| 0 <= i < a.len() ==> a[i].1 == b[i].1,
    ensures
        hash_bag(a) == hash_bag(b),
    decreases a.len(),
{
    if a.len() > 0 {
        lemma_hash_bag_of_equal_hashes(a.drop_last(), b.drop_last());
    }
}

proof fn lemma_hash_bag_after_update(a: Seq<(Seq<char>, u64)>, j: int, x: (Seq<char>, u64))
    requires
        0 <= j < a.len(),
    ensures
        hash_bag(a.update(j, x)).count(x.1) == hash_bag(a).count(x.1) + (if a[j].1 == x.1 {
            0int
        } else {
            1int
        }),
    decreases a.len(),
{
    let u = a.update(j, x);
    if j == a.len() - 1 {
        assert(u.drop_last() =~= a.drop_last());
    } else {
        assert(u.drop_last() =~= a.drop_last().update(j, x));
        lemma_hash_bag_after_update(a.drop_last(), j, x);
    }
}

proof fn lemma_direct_children_after_update(p: Seq<char>, hashes: Seq<(Seq<char>, u64)>, i: int, h2: u64) -> (j: int)
    requires
        0 <= i < hashes.len(),
        child_name_in(hashes[i].0, p) is Some,
    ensures
        0 <= j < direct_children(p, hashes).len(),
        direct_children(p, hashes)[j].1 == hashes[i].1,
        direct_children(p, hashes.update(i, (hashes[i].0, h2))) == direct_children(p, hashes).update(
            j,
            (direct_children(p, hashes)[j].0, h2),
        ),
    decreases hashes.len(),
{
    let changed = hashes.update(i, (hashes[i].0, h2));
    if i == hashes.len() - 1 {
        assert(changed.drop_last() =~= hashes.drop_last());
        let j = direct_children(p, hashes.drop_last()).len() as int;
        assert(direct_children(p, changed) =~= direct_children(p, hashes).update(
            j,
            (direct_children(p, hashes)[j].0, h2),
        ));
        j
    } else {
        assert(changed.drop_last() =~= hashes.drop_last().update(i, (hashes[i].0, h2)));
        let j = lemma_direct_children_after_update(p, hashes.drop_last(), i, h2);
        assert(direct_children(p, changed) =~= direct_children(p, hashes).update(
            j,
            (direct_children(p, hashes)[j].0, h2),
        ));
        j
    }
}

/// The content hash sees the hashes of the child directories: when the
/// hash recorded for a direct child changes, the hash of the parent
/// changes too, unless the digest maps the two inputs to one value. So a
/// change anywhere below a directory reaches the hash of the directory.
pub proof fn lemma_content_hash_sees_child_hash(
    p: Seq<char>,
    secs: i64,
    children: Seq<Seq<char>>,
    hashes: Seq<(Seq<char>, u64)>,
    i: int,
    h2: u64,
)
    requires
        0 <= i < hashes.len(),
        child_name_in(hashes[i].0, p) is Some,
        h2 != hashes[i].1,
        digest_separates(
            hash_writes(p, secs, children, hashes),
            hash_writes(p, secs, children, hashes.update(i, (hashes[i].0, h2))),
        ),
    ensures
        content_hash(p, secs, children, hashes) != content_hash(
            p,
            secs,
            children,
            hashes.update(i, (hashes[i].0, h2)),
        ),
{
    let changed = hashes.update(i, (hashes[i].0, h2));
    let w1 = hash_writes(p, secs, children, hashes);
    let w2 = hash_writes(p, secs, children, changed);
    let a1 = direct_children(p, hashes);
    let a2 = direct_children(p, changed);
    let s1 = sorted_pairs(a1);
    let s2 = sorted_pairs(a2);
    let j = lemma_direct_children_after_update(p, hashes, i, h2);
    lemma_pair_order_total();
    a1.lemma_sort_by_ensures(pair_order());
    a2.lemma_sort_by_ensures(pair_order());
    lemma_hash_bag_of_rearranged(a1, s1);
    lemma_hash_bag_of_rearranged(a2, s2);
    lemma_hash_bag_after_update(a1, j, (a1[j].0, h2));
    lemma_hashes_writes(s1);
    lemma_hashes_writes(s2);
    lemma_names_writes(sorted_names(children));
    lemma_auto_spec_u64_to_from_le_bytes();
    a1.to_multiset_ensures();
    a2.to_multiset_ensures();
    s1.to_multiset_ensures();
    s2.to_multiset_ensures();
    if w1 == w2 {
        let at = 4 + 2 * sorted_names(children).len();
        assert(s1.len() == s2.len());
        assert forall|k: int| 0 <= k < s1.len() implies s1[k].1 == s2[k].1 by {
            assert(w1[at + k] == hashes_writes(s1)[k]);
            assert(w2[at + k] == hashes_writes(s2)[k]);
            assert(spec_u64_from_le_bytes(spec_u64_to_le_bytes(s1[k].1)) == s1[k].1);
            assert(spec_u64_from_le_bytes(spec_u64_to_le_bytes(s2[k].1)) == s2[k].1);
        }
        lemma_hash_bag_of_equal_hashes(s1, s2);
        assert(false);
    }
}

} // verus!
