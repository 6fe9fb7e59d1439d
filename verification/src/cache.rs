//! The in-memory cache: the mapping from path to entry, the writes that
//! wait to enter it, and what is known of the snapshot it came from.

use vstd::prelude::*;
use vstd::string::*;
use crate::entry::{DirEntry, DirEntryView, Timestamp, USNJournalState};
use crate::error::PTreeError;
use crate::skip::{report_text, tally_add, SkipStats};
use crate::store::{
    append_record, frame, lemma_append_keeps_records, lemma_appended_record_reads_back,
    lemma_saved_payloads_read_back, readable_payloads, record_at, OffsetTable, RkyvCacheIndex,
};
use crate::path::{is_absolute, join, path_is_absolute, path_join, path_starts_with, starts_with};
use crate::table::{under, EntryMap, Slot};
use crate::text::{option_text, texts, trim, trimmed};

verus! {

/// The default number of waiting writes at which they enter the mapping.
pub const DEFAULT_FLUSH_THRESHOLD: usize = 5000;

/// A write as plain values: its key, its entry, and whether it yields to
/// a directory that already stands under the key.
pub type Write = (Seq<char>, DirEntryView, bool);

/// The writes of a list of slots, as plain values.
pub open spec fn slot_views(s: Seq<Slot>) -> Seq<Write> {
    Seq::new(s.len(), |i: int| (s[i].key@, s[i].entry@, s[i].yields))
}

/// The mapping after one write entered it: the entry stands under the
/// key, replacing what was there; but a write that yields leaves a
/// directory that already stands under the key as it is.
pub open spec fn entered(m: Map<Seq<char>, DirEntryView>, w: Write) -> Map<Seq<char>, DirEntryView> {
    if w.2 && m.dom().contains(w.0) && m[w.0].is_dir {
        m
    } else {
        m.insert(w.0, w.1)
    }
}

/// The mapping after the writes `w` entered it in order.
pub open spec fn apply_writes(m: Map<Seq<char>, DirEntryView>, w: Seq<Write>) -> Map<
    Seq<char>,
    DirEntryView,
>
    decreases w.len(),
{
    if w.len() == 0 {
        m
    } else {
        entered(apply_writes(m, w.drop_last()), w.last())
    }
}

/// Whether a write stays when `p` is removed: its key does not lie at or
/// below `p`.
pub open spec fn outside_of(p: Seq<char>) -> spec_fn(Write) -> bool {
    |w: Write| !path_starts_with(w.0, p)
}

/// The writes of `w` whose keys do not lie at or below `p`, in their
/// order.
pub open spec fn writes_outside(w: Seq<Write>, p: Seq<char>) -> Seq<Write> {
    w.filter(outside_of(p))
}

/// The mapping after the loads `w` entered it in order, each only where
/// its key was still free.
pub open spec fn apply_loads(m: Map<Seq<char>, DirEntryView>, w: Seq<Write>) -> Map<
    Seq<char>,
    DirEntryView,
>
    decreases w.len(),
{
    if w.len() == 0 {
        m
    } else {
        let before = apply_loads(m, w.drop_last());
        if before.dom().contains(w.last().0) {
            before
        } else {
            before.insert(w.last().0, w.last().1)
        }
    }
}

/// Every child that an entry names has an entry of its own at the joined
/// path.
pub open spec fn children_present(m: Map<Seq<char>, DirEntryView>) -> bool {
    forall|k: Seq<char>, i: int|
        m.dom().contains(k) && 0 <= i < m[k].children.len() ==> m.dom().contains(
            #[trigger] path_join(k, m[k].children[i]),
        )
}

/// Each write of `w` finds the entries of the children it names: they
/// are in the mapping already, or an earlier write of `w` brings them.
pub open spec fn writes_supported(m: Map<Seq<char>, DirEntryView>, w: Seq<Write>) -> bool {
    forall|j: int, i: int|
        0 <= j < w.len() && 0 <= i < w[j].1.children.len() ==> apply_writes(m, w.take(j)).dom().contains(
            #[trigger] path_join(w[j].0, w[j].1.children[i]),
        )
}

/// A write whose children are present keeps every child present.
pub proof fn lemma_write_keeps_children_present(m: Map<Seq<char>, DirEntryView>, k: Seq<char>, e: DirEntryView)
    requires
        children_present(m),
        forall|i: int| 0 <= i < e.children.len() ==> m.dom().contains(#[trigger] path_join(k, e.children[i])),
    ensures
        children_present(m.insert(k, e)),
{
    let after = m.insert(k, e);
    assert forall|q: Seq<char>, i: int| after.dom().contains(q) && 0 <= i < after[q].children.len() implies after.dom().contains(
        #[trigger] path_join(q, after[q].children[i]),
    ) by {
        if q == k {
            assert(m.dom().contains(path_join(k, e.children[i])));
        } else {
            assert(m.dom().contains(path_join(q, m[q].children[i])));
        }
    }
}

/// In a cache where every child has its entry, writes that find their
/// children leave a cache where every child has its entry: once a scan
/// has handed over all it found and the waiting writes have entered the
/// mapping, no name in any entry's children is without an entry.
pub proof fn lemma_writes_keep_children_present(m: Map<Seq<char>, DirEntryView>, w: Seq<Write>)
    requires
        children_present(m),
        writes_supported(m, w),
    ensures
        children_present(apply_writes(m, w)),
    decreases w.len(),
{
    if w.len() > 0 {
        let head = w.drop_last();
        assert(writes_supported(m, head)) by {
            assert forall|j: int, i: int| 0 <= j < head.len() && 0 <= i < head[j].1.children.len() implies apply_writes(
                m,
                head.take(j),
            ).dom().contains(#[trigger] path_join(head[j].0, head[j].1.children[i])) by {
                assert(head.take(j) =~= w.take(j));
                assert(apply_writes(m, w.take(j)).dom().contains(path_join(w[j].0, w[j].1.children[i])));
            }
        }
        lemma_writes_keep_children_present(m, head);
        let last = w.len() - 1;
        assert(w.take(last) =~= head);
        assert forall|i: int| 0 <= i < w.last().1.children.len() implies apply_writes(m, head).dom().contains(
            #[trigger] path_join(w.last().0, w.last().1.children[i]),
        ) by {
            assert(apply_writes(m, w.take(last)).dom().contains(path_join(w[last].0, w[last].1.children[i])));
        }
        if entered(apply_writes(m, head), w.last()) != apply_writes(m, head) {
            lemma_write_keeps_children_present(apply_writes(m, head), w.last().0, w.last().1);
        }
    }
}

/// The record of a directory's own listing stays: once a write that
/// does not yield has put a directory under a key, and every later write
/// under that key yields, the mapping holds that directory under the key
/// in the end, whatever else is written in between and in whatever order
/// the writes of several workers arrive.
pub proof fn lemma_listed_directory_stays(m: Map<Seq<char>, DirEntryView>, w: Seq<Write>, j: int)
    requires
        0 <= j < w.len(),
        !w[j].2,
        w[j].1.is_dir,
        forall|k: int| j < k < w.len() && (#[trigger] w[k]).0 == w[j].0 ==> w[k].2,
    ensures
        apply_writes(m, w).dom().contains(w[j].0),
        apply_writes(m, w)[w[j].0] == w[j].1,
    decreases w.len(),
{
    if j < w.len() - 1 {
        let head = w.drop_last();
        assert(head[j] == w[j]);
        assert forall|k: int| j < k < head.len() && (#[trigger] head[k]).0 == head[j].0 implies head[k].2 by {
            assert(head[k] == w[k]);
        }
        lemma_listed_directory_stays(m, head, j);
        assert(w[w.len() - 1] == w.last());
    }
}

/// What is a directory stays a directory: where every write under a key
/// brings a directory, and a directory stood under the key before if
/// anything did, a directory stands under the key in the end if anything
/// does. So a child directory that is never listed is still recorded as
/// a directory.
pub proof fn lemma_directory_stays_directory(m: Map<Seq<char>, DirEntryView>, w: Seq<Write>, d: Seq<char>)
    requires
        m.dom().contains(d) ==> m[d].is_dir,
        forall|k: int| 0 <= k < w.len() && (#[trigger] w[k]).0 == d ==> w[k].1.is_dir,
    ensures
        apply_writes(m, w).dom().contains(d) ==> apply_writes(m, w)[d].is_dir,
    decreases w.len(),
{
    if w.len() > 0 {
        let head = w.drop_last();
        assert forall|k: int| 0 <= k < head.len() && (#[trigger] head[k]).0 == d implies head[k].1.is_dir by {
            assert(head[k] == w[k]);
        }
        lemma_directory_stays_directory(m, head, d);
        assert(w[w.len() - 1] == w.last());
    }
}

/// Writes that come one batch after the other act as one sequence of
/// writes.
pub proof fn lemma_writes_in_batches(
    m: Map<Seq<char>, DirEntryView>,
    a: Seq<Write>,
    b: Seq<Write>,
)
    ensures
        apply_writes(m, a + b) == apply_writes(apply_writes(m, a), b),
    decreases b.len(),
{
    if b.len() == 0 {
        assert(a + b =~= a);
    } else {
        lemma_writes_in_batches(m, a, b.drop_last());
        assert((a + b).drop_last() =~= a + b.drop_last());
        assert((a + b).last() == b.last());
    }
}

/// A batch of writes that finds its children after an earlier batch did
/// so extends the earlier batch to a longer sequence that finds its
/// children. So the batches that a scan hands over, each finding its
/// children in what came before, add up to one such sequence.
pub proof fn lemma_supported_in_batches(
    m: Map<Seq<char>, DirEntryView>,
    a: Seq<Write>,
    b: Seq<Write>,
)
    requires
        writes_supported(m, a),
        writes_supported(apply_writes(m, a), b),
    ensures
        writes_supported(m, a + b),
{
    let w = a + b;
    assert forall|j: int, i: int| 0 <= j < w.len() && 0 <= i < w[j].1.children.len() implies apply_writes(
        m,
        w.take(j),
    ).dom().contains(#[trigger] path_join(w[j].0, w[j].1.children[i])) by {
        if j < a.len() {
            assert(w.take(j) =~= a.take(j));
            assert(w[j] == a[j]);
            assert(apply_writes(m, a.take(j)).dom().contains(path_join(a[j].0, a[j].1.children[i])));
        } else {
            let k = j - a.len();
            assert(w.take(j) =~= a + b.take(k));
            assert(w[j] == b[k]);
            lemma_writes_in_batches(m, a, b.take(k));
            assert(apply_writes(apply_writes(m, a), b.take(k)).dom().contains(path_join(b[k].0, b[k].1.children[i])));
        }
    }
}

/// Whether a write waits or enters the mapping at once, after the next
/// flush the mapping is the one that all writes entered in order.
pub proof fn lemma_add_then_flush(c: DiskCacheView, w: Write)
    ensures
        apply_writes(after_add(c, w).entries, after_add(c, w).pending_writes) == apply_writes(
            c.entries,
            c.pending_writes.push(w),
        ),
{
}

/// The mapping after writes holds every key that was written.
pub proof fn lemma_writes_bring_keys(m: Map<Seq<char>, DirEntryView>, w: Seq<Write>, j: int)
    requires
        0 <= j < w.len(),
    ensures
        apply_writes(m, w).dom().contains(w[j].0),
    decreases w.len(),
{
    if j < w.len() - 1 {
        lemma_writes_bring_keys(m, w.drop_last(), j);
    }
}

/// Removing a path takes away exactly the keys at or below it, measured
/// in path components: a key that merely begins with the same characters,
/// as `/foobar` does for `/foo`, stays with its entry.
pub proof fn lemma_remove_spares_other_keys(m: Map<Seq<char>, DirEntryView>, p: Seq<char>, q: Seq<char>)
    requires
        m.dom().contains(q),
    ensures
        path_starts_with(q, p) ==> !m.remove_keys(under(p)).dom().contains(q),
        !path_starts_with(q, p) ==> m.remove_keys(under(p)).dom().contains(q) && m.remove_keys(under(p))[q] == m[q],
{
}

/// What was removed stays removed: once `p` is removed, no key at or
/// below `p` is in the mapping, and none comes back when the writes that
/// still wait enter it.
pub proof fn lemma_removed_stays_removed(
    m: Map<Seq<char>, DirEntryView>,
    w: Seq<Write>,
    p: Seq<char>,
    q: Seq<char>,
)
    requires
        path_starts_with(q, p),
    ensures
        !apply_writes(m.remove_keys(under(p)), writes_outside(w, p)).dom().contains(q),
    decreases w.len(),
{
    reveal(Seq::filter);
    if w.len() > 0 {
        lemma_removed_stays_removed(m, w.drop_last(), p, q);
        if outside_of(p)(w.last()) {
            let kept = writes_outside(w, p);
            assert(kept.drop_last() =~= writes_outside(w.drop_last(), p));
            assert(kept.last() == w.last());
        }
    }
}

/// The entries of a mapping, listed by the keys `keys`.
pub open spec fn listed_entries(m: Map<Seq<char>, DirEntryView>, keys: Seq<Seq<char>>) -> Seq<Write> {
    Seq::new(keys.len(), |i: int| (keys[i], m[keys[i]], false))
}

/// Loading every entry of a mapping into an empty mapping gives the
/// mapping back: a cache that was saved, opened again and loaded in full
/// holds the entries that it held before, whatever the order of the
/// records.
pub proof fn lemma_loading_restores(m: Map<Seq<char>, DirEntryView>, keys: Seq<Seq<char>>)
    requires
        keys.no_duplicates(),
        forall|k: Seq<char>| m.dom().contains(k) <==> keys.contains(k),
    ensures
        apply_loads(Map::empty(), listed_entries(m, keys)) == m,
{
    let n = keys.len() as int;
    lemma_loading_prefix(m, keys, n);
    let full = keys.take(n);
    let loaded = listed_entries(m, keys).take(n);
    assert(full =~= keys);
    assert(loaded =~= listed_entries(m, keys));
    let got = apply_loads(Map::empty(), loaded);
    assert(got =~= m) by {
        assert forall|k: Seq<char>| got.dom().contains(k) <==> m.dom().contains(k) by {
            assert(got.dom().contains(k) <==> full.contains(k));
        }
        assert forall|k: Seq<char>| got.dom().contains(k) implies got[k] == m[k] by {
            assert(got.dom().contains(k) <==> full.contains(k));
        }
    }
}

/// The entries that payloads decode to, each under its own path.
pub open spec fn decoded_entries(payloads: Seq<Seq<u8>>, decode: spec_fn(Seq<u8>) -> DirEntryView) -> Seq<
    Write,
> {
    Seq::new(payloads.len(), |i: int| (decode(payloads[i]).path, decode(payloads[i]), false))
}

/// A snapshot gives back the mapping it was saved from. Let every entry
/// stand under its own path, let the data hold for every key a record
/// with the encoded entry, and let decoding undo encoding. Then reading
/// all records, decoding them and loading them into an empty mapping
/// gives the mapping that was saved, in whatever order the keys are
/// walked.
pub proof fn lemma_snapshot_round_trip(
    m: Map<Seq<char>, DirEntryView>,
    keys: Seq<Seq<char>>,
    offsets: Map<Seq<char>, u64>,
    data: Seq<u8>,
    encode: spec_fn(DirEntryView) -> Seq<u8>,
    decode: spec_fn(Seq<u8>) -> DirEntryView,
)
    requires
        keys.no_duplicates(),
        forall|k: Seq<char>| m.dom().contains(k) <==> keys.contains(k),
        forall|k: Seq<char>| m.dom().contains(k) ==> (#[trigger] m[k]).path == k,
        forall|e: DirEntryView| decode(#[trigger] encode(e)) == e,
        forall|i: int| 0 <= i < keys.len() ==> record_at(data, (#[trigger] offsets[keys[i]]) as int) == Some(encode(m[keys[i]])),
    ensures
        apply_loads(Map::empty(), decoded_entries(readable_payloads(keys, offsets, data), decode)) == m,
{
    let payloads = Seq::new(keys.len(), |i: int| encode(m[keys[i]]));
    lemma_saved_payloads_read_back(keys, offsets, data, payloads);
    assert(decoded_entries(payloads, decode) =~= listed_entries(m, keys)) by {
        assert forall|i: int| 0 <= i < keys.len() implies decoded_entries(payloads, decode)[i] == listed_entries(m, keys)[i] by {
            assert(keys.contains(keys[i]));
            assert(m[keys[i]].path == keys[i]);
        }
    }
    lemma_loading_restores(m, keys);
}

proof fn lemma_loading_prefix(m: Map<Seq<char>, DirEntryView>, keys: Seq<Seq<char>>, n: int)
    requires
        keys.no_duplicates(),
        0 <= n <= keys.len(),
    ensures
        forall|k: Seq<char>|
            apply_loads(Map::empty(), listed_entries(m, keys).take(n)).dom().contains(k) <==> keys.take(n).contains(k),
        forall|k: Seq<char>|
            keys.take(n).contains(k) ==> apply_loads(Map::empty(), listed_entries(m, keys).take(n))[k] == m[k],
    decreases n,
{
    let w = listed_entries(m, keys).take(n);
    if n == 0 {
        assert(w =~= Seq::empty());
    } else {
        lemma_loading_prefix(m, keys, n - 1);
        assert(w.drop_last() =~= listed_entries(m, keys).take(n - 1));
        assert(w.last() == (keys[n - 1], m[keys[n - 1]], false));
        let before = apply_loads(Map::empty(), w.drop_last());
        let shorter = keys.take(n - 1);
        let longer = keys.take(n);
        let fresh = keys[n - 1];
        assert(!shorter.contains(fresh)) by {
            if shorter.contains(fresh) {
                let j = choose|j: int| 0 <= j < shorter.len() && shorter[j] == fresh;
                assert(keys[j] == keys[n - 1]);
            }
        }
        assert forall|k: Seq<char>| apply_loads(Map::empty(), w).dom().contains(k) <==> longer.contains(k) by {
            if shorter.contains(k) {
                let j = choose|j: int| 0 <= j < shorter.len() && shorter[j] == k;
                assert(longer[j] == k);
            }
            if k == fresh {
                assert(longer[n - 1] == k);
            }
            if longer.contains(k) {
                let j = choose|j: int| 0 <= j < longer.len() && longer[j] == k;
                if j < n - 1 {
                    assert(shorter[j] == k);
                }
            }
        }
        assert forall|k: Seq<char>| longer.contains(k) implies apply_loads(Map::empty(), w)[k] == m[k] by {
            let j = choose|j: int| 0 <= j < longer.len() && longer[j] == k;
            if j < n - 1 {
                assert(shorter[j] == k);
            }
        }
    }
}

/// The process-wide directory index.
pub struct DiskCache {
    /// Entry of each known path.
    pub entries: EntryMap,
    /// When the cache was last saved.
    pub last_scan: Timestamp,
    /// Root of the current session's scan.
    pub root: String,
    /// Root of the most recent successful scan.
    pub last_scanned_root: String,
    /// Writes that have not entered `entries` yet, oldest first.
    pub pending_writes: Vec<Slot>,
    /// Number of waiting writes at which they enter `entries`.
    pub flush_threshold: usize,
    /// Whether hidden entries are marked when the tree is drawn.
    pub show_hidden: bool,
    /// How often each name was passed over.
    pub skip_stats: SkipStats,
    /// Whether the cache was opened from a snapshot.
    pub has_persisted_snapshot: bool,
    /// Number of entries in that snapshot.
    pub persisted_entry_count: usize,
}

/// What a `DiskCache` holds, as plain values.
pub struct DiskCacheView {
    pub entries: Map<Seq<char>, DirEntryView>,
    pub last_scan: Timestamp,
    pub root: Seq<char>,
    pub last_scanned_root: Seq<char>,
    pub pending_writes: Seq<Write>,
    pub flush_threshold: usize,
    pub show_hidden: bool,
    pub skip_stats: Seq<(Seq<char>, usize)>,
    pub has_persisted_snapshot: bool,
    pub persisted_entry_count: usize,
}

impl View for DiskCache {
    type V = DiskCacheView;

    open spec fn view(&self) -> DiskCacheView {
        DiskCacheView {
            entries: self.entries@,
            last_scan: self.last_scan,
            root: self.root@,
            last_scanned_root: self.last_scanned_root@,
            pending_writes: slot_views(self.pending_writes@),
            flush_threshold: self.flush_threshold,
            show_hidden: self.show_hidden,
            skip_stats: self.skip_stats@,
            has_persisted_snapshot: self.has_persisted_snapshot,
            persisted_entry_count: self.persisted_entry_count,
        }
    }
}

/// The cache after one more write was handed to it: the write waits, and
/// once the number of waiting writes reaches the threshold they all enter
/// the mapping.
pub open spec fn after_add(c: DiskCacheView, w: Write) -> DiskCacheView {
    let waiting = c.pending_writes.push(w);
    if waiting.len() >= c.flush_threshold {
        DiskCacheView { entries: apply_writes(c.entries, waiting), pending_writes: Seq::empty(), ..c }
    } else {
        DiskCacheView { pending_writes: waiting, ..c }
    }
}

/// The display form of `name`: marked with ` [H]` when marks are asked for
/// and the entry at `path` is hidden.
pub open spec fn display_name(
    entries: Map<Seq<char>, DirEntryView>,
    name: Seq<char>,
    path: Seq<char>,
    show_hidden: bool,
) -> Seq<char> {
    if show_hidden && entries.dom().contains(path) && entries[path].is_hidden {
        name + " [H]"@
    } else {
        name
    }
}

/// The payloads given for the entries, as plain values.
pub open spec fn payload_views(p: Seq<Vec<u8>>) -> Seq<Seq<u8>> {
    Seq::new(p.len(), |i: int| p[i]@)
}

/// The data stream that holds one record per payload, in order.
pub open spec fn frames_of(p: Seq<Seq<u8>>) -> Seq<u8>
    decreases p.len(),
{
    if p.len() == 0 {
        Seq::empty()
    } else {
        frames_of(p.drop_last()) + frame(p.last())
    }
}

/// Every payload can be framed: its length fits in a `u32`.
pub open spec fn all_framable(p: Seq<Seq<u8>>) -> bool {
    forall|i: int| 0 <= i < p.len() ==> (#[trigger] p[i]).len() <= u32::MAX
}

impl DiskCache {
    /// A cache that holds nothing and was never saved, dated `now`.
    pub fn new_empty(now: Timestamp) -> (r: Self)
        ensures
            r@ == (DiskCacheView {
                entries: Map::empty(),
                last_scan: now,
                root: Seq::empty(),
                last_scanned_root: Seq::empty(),
                pending_writes: Seq::empty(),
                flush_threshold: DEFAULT_FLUSH_THRESHOLD,
                show_hidden: false,
                skip_stats: Seq::empty(),
                has_persisted_snapshot: false,
                persisted_entry_count: 0,
            }),
    {
        let r = DiskCache {
            entries: EntryMap::new(),
            last_scan: now,
            root: String::new(),
            last_scanned_root: String::new(),
            pending_writes: Vec::new(),
            flush_threshold: DEFAULT_FLUSH_THRESHOLD,
            show_hidden: false,
            skip_stats: SkipStats::new(),
            has_persisted_snapshot: false,
            persisted_entry_count: 0,
        };
        assert(r@.pending_writes =~= Seq::empty());
        r
    }

    /// Opens the cache from what was found on disk: the index of the
    /// snapshot if it exists and could be read, and whether the data
    /// exists. With both, the cache takes over the settings of the index
    /// and counts its records but holds no entry yet; otherwise it is
    /// empty and dated `now`.
    pub fn open(snapshot: Option<&RkyvCacheIndex>, data_exists: bool, now: Timestamp) -> (r: Self)
        ensures
            match (if data_exists {
                snapshot
            } else {
                None
            }) {
                Some(index) => r@ == (DiskCacheView {
                    entries: Map::empty(),
                    last_scan: index.last_scan,
                    root: index.root@,
                    last_scanned_root: index.last_scanned_root@,
                    pending_writes: Seq::empty(),
                    flush_threshold: DEFAULT_FLUSH_THRESHOLD,
                    show_hidden: false,
                    skip_stats: index.skip_stats@,
                    has_persisted_snapshot: true,
                    persisted_entry_count: index.offsets@.dom().len() as usize,
                }),
                None => r@ == (DiskCacheView {
                    entries: Map::empty(),
                    last_scan: now,
                    root: Seq::empty(),
                    last_scanned_root: Seq::empty(),
                    pending_writes: Seq::empty(),
                    flush_threshold: DEFAULT_FLUSH_THRESHOLD,
                    show_hidden: false,
                    skip_stats: Seq::empty(),
                    has_persisted_snapshot: false,
                    persisted_entry_count: 0,
                }),
            },
    {
        match snapshot {
            Some(index) => {
                if data_exists {
                    Self::load_from_lazy_cache(index)
                } else {
                    Self::new_empty(now)
                }
            },
            None => Self::new_empty(now),
        }
    }

    /// The cache that stands for a snapshot whose entries are not loaded.
    fn load_from_lazy_cache(index: &RkyvCacheIndex) -> (r: Self)
        ensures
            r@ == (DiskCacheView {
                entries: Map::empty(),
                last_scan: index.last_scan,
                root: index.root@,
                last_scanned_root: index.last_scanned_root@,
                pending_writes: Seq::empty(),
                flush_threshold: DEFAULT_FLUSH_THRESHOLD,
                show_hidden: false,
                skip_stats: index.skip_stats@,
                has_persisted_snapshot: true,
                persisted_entry_count: index.offsets@.dom().len() as usize,
            }),
    {
        let r = DiskCache {
            entries: EntryMap::new(),
            last_scan: index.last_scan,
            root: index.root.clone(),
            last_scanned_root: index.last_scanned_root.clone(),
            pending_writes: Vec::new(),
            flush_threshold: DEFAULT_FLUSH_THRESHOLD,
            show_hidden: false,
            skip_stats: index.skip_stats.duplicate(),
            has_persisted_snapshot: true,
            persisted_entry_count: index.offsets.len(),
        };
        assert(r@.pending_writes =~= Seq::empty());
        r
    }

    /// Whether the cache was opened from a snapshot.
    pub fn has_cache_snapshot(&self) -> (b: bool)
        ensures
            b == self@.has_persisted_snapshot,
    {
        self.has_persisted_snapshot
    }

    /// The number of entries to report: that of the snapshot while no
    /// entry is loaded, else that of the mapping.
    pub fn entry_count_hint(&self) -> (n: usize)
        ensures
            self@.entries.dom().finite(),
            n == (if self@.entries.dom().len() == 0 {
                self@.persisted_entry_count
            } else {
                self@.entries.dom().len() as usize
            }),
    {
        if self.entries.is_empty() {
            self.persisted_entry_count
        } else {
            self.entries.len()
        }
    }

    /// Moves every waiting write into the mapping, oldest first.
    pub fn flush_pending_writes(&mut self)
        ensures
            final(self)@ == (DiskCacheView {
                entries: apply_writes(old(self)@.entries, old(self)@.pending_writes),
                pending_writes: Seq::empty(),
                ..old(self)@
            }),
    {
        let mut waiting: Vec<Slot> = Vec::new();
        core::mem::swap(&mut self.pending_writes, &mut waiting);
        let ghost writes = slot_views(waiting@);
        let ghost start = self.entries@;
        let ghost before = old(self)@;
        assert(writes.take(0) =~= Seq::empty());
        assert(slot_views(self.pending_writes@) =~= Seq::empty());
        for slot in it: waiting
            invariant
                slot_views(it.seq()) == writes,
                self.entries@ == apply_writes(start, writes.take(it.index() as int)),
                self@ == (DiskCacheView { entries: self.entries@, pending_writes: Seq::empty(), ..before }),
        {
            assert(writes.take(it.index() + 1).drop_last() =~= writes.take(it.index() as int));
            assert(writes.take(it.index() + 1).last() == writes[it.index() as int]);
            assert(writes[it.index() as int] == (slot.key@, slot.entry@, slot.yields));
            let stands = if slot.yields {
                match self.entries.get(slot.key.as_str()) {
                    Some(held) => held.is_dir,
                    None => false,
                }
            } else {
                false
            };
            if !stands {
                self.entries.insert(slot.key, slot.entry);
            }
        }
        assert(writes.take(writes.len() as int) =~= writes);
    }

    /// Hands one write to the cache as it is. It waits; once the number
    /// of waiting writes reaches the threshold they all enter the mapping.
    pub fn add_write(&mut self, write: Slot)
        ensures
            final(self)@ == after_add(old(self)@, write@),
    {
        let ghost before = self@;
        let ghost w = write@;
        self.pending_writes.push(write);
        assert(slot_views(self.pending_writes@) =~= before.pending_writes.push(w));
        if self.pending_writes.len() >= self.flush_threshold {
            self.flush_pending_writes();
        }
    }

    /// Hands one write to the cache that replaces whatever stands under
    /// `path`. It waits; once the number of waiting writes reaches the
    /// threshold they all enter the mapping.
    pub fn buffer_entry(&mut self, path: String, entry: DirEntry)
        ensures
            final(self)@ == after_add(old(self)@, (path@, entry@, false)),
    {
        self.add_write(Slot { key: path, entry, yields: false });
    }

    /// Adds or replaces the entry of `path`, by way of the waiting writes.
    pub fn add_entry(&mut self, path: String, entry: DirEntry)
        ensures
            final(self)@ == after_add(old(self)@, (path@, entry@, false)),
    {
        self.buffer_entry(path, entry);
    }

    /// The entry of `path` in the mapping. Waiting writes and the
    /// snapshot are not looked at.
    pub fn get_entry(&self, path: &str) -> (r: Option<&DirEntry>)
        ensures
            match r {
                Some(e) => self@.entries.dom().contains(path@) && e@ == self@.entries[path@],
                None => !self@.entries.dom().contains(path@),
            },
    {
        self.entries.get(path)
    }

    /// The paths among `paths` that the mapping does not hold yet, in
    /// order: those that a lazy load has to fetch.
    pub fn paths_to_load(&self, paths: &Vec<String>) -> (r: Vec<String>)
        ensures
            texts(r@) == texts(paths@).filter(|p: Seq<char>| !self@.entries.dom().contains(p)),
    {
        let mut r: Vec<String> = Vec::new();
        let ghost all = texts(paths@);
        let ghost absent = |p: Seq<char>| !self@.entries.dom().contains(p);
        let mut i: usize = 0;
        assert(all.take(0) =~= Seq::<Seq<char>>::empty());
        while i < paths.len()
            invariant
                i <= paths@.len(),
                all == texts(paths@),
                absent == |p: Seq<char>| !self@.entries.dom().contains(p),
                texts(r@) == all.take(i as int).filter(absent),
            decreases paths@.len() - i,
        {
            let ghost before = texts(r@);
            proof {
                reveal(Seq::filter);
                assert(all.take(i + 1).drop_last() =~= all.take(i as int));
                assert(all.take(i + 1).last() == all[i as int]);
            }
            if !self.entries.contains_key(paths[i].as_str()) {
                r.push(paths[i].clone());
                assert(texts(r@) =~= before.push(all[i as int]));
            }
            i += 1;
        }
        assert(all.take(i as int) =~= all);
        r
    }

    /// Takes over entries fetched from the snapshot: each enters the
    /// mapping under its key unless that key is already held.
    pub fn load_entries_lazy(&mut self, loaded: Vec<Slot>)
        ensures
            final(self)@ == (DiskCacheView {
                entries: apply_loads(old(self)@.entries, slot_views(loaded@)),
                ..old(self)@
            }),
    {
        let ghost loads = slot_views(loaded@);
        let ghost start = self.entries@;
        let ghost before = self@;
        assert(loads.take(0) =~= Seq::empty());
        for slot in it: loaded
            invariant
                slot_views(it.seq()) == loads,
                self.entries@ == apply_loads(start, loads.take(it.index() as int)),
                self@ == (DiskCacheView { entries: self.entries@, ..before }),
        {
            assert(loads.take(it.index() + 1).drop_last() =~= loads.take(it.index() as int));
            assert(loads.take(it.index() + 1).last() == loads[it.index() as int]);
            assert(loads[it.index() as int] == (slot.key@, slot.entry@, slot.yields));
            if !self.entries.contains_key(slot.key.as_str()) {
                self.entries.insert(slot.key, slot.entry);
            }
        }
        assert(loads.take(loads.len() as int) =~= loads);
    }

    /// Takes over every entry of the snapshot, as `load_entries_lazy`
    /// does for some.
    pub fn load_all_entries_lazy(&mut self, loaded: Vec<Slot>)
        ensures
            final(self)@ == (DiskCacheView {
                entries: apply_loads(old(self)@.entries, slot_views(loaded@)),
                ..old(self)@
            }),
    {
        self.load_entries_lazy(loaded);
    }

    /// The display form of `name` for the entry at `path`.
    pub fn format_name(&self, name: &str, path: &str, show_hidden: bool) -> (text: String)
        ensures
            text@ == display_name(self@.entries, name@, path@, show_hidden),
    {
        if !show_hidden {
            return String::from_str(name);
        }
        match self.get_entry(path) {
            Some(entry) => {
                if entry.is_hidden {
                    String::from_str(name).concat(" [H]")
                } else {
                    String::from_str(name)
                }
            },
            None => String::from_str(name),
        }
    }

    /// Counts one more sighting of a name that was passed over.
    pub fn record_skip(&mut self, dir_name: &str)
        ensures
            final(self)@ == (DiskCacheView { skip_stats: tally_add(old(self)@.skip_stats, dir_name@, 1), ..old(self)@ }),
    {
        self.skip_stats.add(dir_name, 1);
    }

    /// The report on what was passed over.
    pub fn get_skip_report(&self) -> (text: String)
        ensures
            text@ == report_text(self@.skip_stats),
    {
        self.skip_stats.report()
    }

    /// Builds the snapshot of the mapping from the encoded entries:
    /// `payloads` holds one payload per entry, in the walking order of the
    /// mapping. The data holds one record per entry in that order, the
    /// index holds where each record starts and the settings of the cache.
    /// The count of payloads must match and every payload must fit a
    /// record; otherwise nothing is built.
    pub fn save_as_rkyv_mmap(&self, payloads: &Vec<Vec<u8>>) -> (r: Result<(RkyvCacheIndex, Vec<u8>), PTreeError>)
        ensures
            self@.entries.dom().finite(),
            r is Ok <==> payloads@.len() == self@.entries.dom().len() && all_framable(payload_views(payloads@)),
            r is Err ==> r->Err_0 is Serialization,
            r is Ok ==> ({
                let index = r->Ok_0.0;
                let data = r->Ok_0.1;
                let keys = self.entries.key_order();
                &&& data@ == frames_of(payload_views(payloads@))
                &&& index.offsets.key_order() == keys
                &&& index.offsets@.dom() == self@.entries.dom()
                &&& forall|i: int|
                    0 <= i < keys.len() ==> (#[trigger] index.offsets@[keys[i]]) == frames_of(
                        payload_views(payloads@).take(i),
                    ).len()
                &&& forall|i: int|
                    0 <= i < keys.len() ==> record_at(data@, (#[trigger] index.offsets@[keys[i]]) as int) == Some(
                        payloads@[i]@,
                    )
                &&& index.last_scan == self@.last_scan
                &&& index.root@ == self@.root
                &&& index.last_scanned_root@ == self@.last_scanned_root
                &&& index.skip_stats@ == self@.skip_stats
            }),
    {
        let n = self.entries.len();
        let ghost keys = self.entries.key_order();
        let ghost ps = payload_views(payloads@);
        if payloads.len() != n {
            return Err(PTreeError::Serialization(String::from_str("one payload per entry is needed")));
        }
        let mut offsets = OffsetTable::new();
        let mut data: Vec<u8> = Vec::new();
        let mut i: usize = 0;
        assert(ps.take(0) =~= Seq::<Seq<u8>>::empty());
        assert(keys.take(0) =~= Seq::<Seq<char>>::empty());
        while i < n
            invariant
                i <= n,
                n == keys.len(),
                n == payloads@.len(),
                keys == self.entries.key_order(),
                keys.no_duplicates(),
                self@.entries.dom().finite(),
                n == self@.entries.dom().len(),
                ps == payload_views(payloads@),
                data@ == frames_of(ps.take(i as int)),
                offsets.key_order() == keys.take(i as int),
                forall|j: int| 0 <= j < i ==> offsets@.dom().contains(#[trigger] keys[j]),
                forall|j: int| 0 <= j < i ==> (#[trigger] offsets@[keys[j]]) == frames_of(ps.take(j)).len(),
                forall|j: int| 0 <= j < i ==> record_at(data@, (#[trigger] offsets@[keys[j]]) as int) == Some(ps[j]),
                forall|j: int| 0 <= j < i ==> (#[trigger] ps[j]).len() <= u32::MAX,
            decreases n - i,
        {
            let key = self.entries.key_at(i);
            let ghost before = data@;
            let ghost table = offsets@;
            let m = offsets.len();
            let size = data.len();
            proof {
                assert(ps.take(i + 1).drop_last() =~= ps.take(i as int));
                assert(ps.take(i + 1).last() == ps[i as int]);
                assert(ps[i as int] == payloads@[i as int]@);
                assert(keys.take(i + 1) =~= keys.take(i as int).push(keys[i as int]));
                if table.dom().contains(keys[i as int]) {
                    let j = choose|j: int| 0 <= j < keys.take(i as int).len() && keys.take(i as int)[j] == keys[i as int];
                    assert(keys[j] == keys[i as int]);
                }
            }
            match append_record(&mut data, payloads[i].as_slice()) {
                Err(e) => {
                    assert(!all_framable(ps));
                    return Err(e);
                },
                Ok(offset) => {
                    offsets.insert(key.clone(), offset);
                    proof {
                        lemma_appended_record_reads_back(before, ps[i as int]);
                        assert forall|j: int| 0 <= j < i + 1 implies record_at(data@, (#[trigger] offsets@[keys[j]]) as int)
                            == Some(ps[j]) by {
                            if j < i {
                                assert(keys[j] != keys[i as int]);
                                assert(table.dom().contains(keys[j]));
                                assert(offsets@[keys[j]] == table[keys[j]]);
                                assert(record_at(before, table[keys[j]] as int) == Some(ps[j]));
                                lemma_append_keeps_records(before, frame(ps[i as int]), table[keys[j]] as int);
                            } else {
                                assert(offsets@[keys[j]] == offset);
                                assert(offset as int == size);
                            }
                        }
                        assert forall|j: int| 0 <= j < i + 1 implies (#[trigger] offsets@[keys[j]]) == frames_of(
                            ps.take(j),
                        ).len() by {
                            if j < i {
                                assert(keys[j] != keys[i as int]);
                                assert(table.dom().contains(keys[j]));
                                assert(offsets@[keys[j]] == table[keys[j]]);
                            } else {
                                assert(offsets@[keys[j]] == offset);
                                assert(offset as int == size);
                            }
                        }
                    }
                },
            }
            i += 1;
        }
        let m = offsets.len();
        proof {
            assert(ps.take(i as int) =~= ps);
            assert(keys.take(i as int) =~= keys);
            assert(offsets@.dom() =~= self@.entries.dom()) by {
                assert forall|k: Seq<char>| offsets@.dom().contains(k) <==> self@.entries.dom().contains(k) by {
                    if keys.contains(k) {
                        let j = choose|j: int| 0 <= j < keys.len() && keys[j] == k;
                        assert(offsets@.dom().contains(keys[j]));
                    }
                }
            }
        }
        let index = RkyvCacheIndex {
            offsets,
            last_scan: self.last_scan,
            root: self.root.clone(),
            last_scanned_root: self.last_scanned_root.clone(),
            usn_state: USNJournalState {  },
            skip_stats: self.skip_stats.duplicate(),
        };
        Ok((index, data))
    }

    /// Saves the cache: the waiting writes enter the mapping, the cache
    /// counts as one with a snapshot of as many entries as it holds, and
    /// the snapshot is built as `save_as_rkyv_mmap` does.
    pub fn save(&mut self, payloads: &Vec<Vec<u8>>) -> (r: Result<(RkyvCacheIndex, Vec<u8>), PTreeError>)
        ensures
            final(self)@.entries.dom().finite(),
            final(self)@ == (DiskCacheView {
                entries: apply_writes(old(self)@.entries, old(self)@.pending_writes),
                pending_writes: Seq::empty(),
                has_persisted_snapshot: true,
                persisted_entry_count: final(self)@.entries.dom().len() as usize,
                ..old(self)@
            }),
            r is Ok <==> payloads@.len() == final(self)@.entries.dom().len() && all_framable(payload_views(payloads@)),
            r is Err ==> r->Err_0 is Serialization,
            r is Ok ==> ({
                let index = r->Ok_0.0;
                let data = r->Ok_0.1;
                let keys = final(self).entries.key_order();
                &&& data@ == frames_of(payload_views(payloads@))
                &&& index.offsets.key_order() == keys
                &&& index.offsets@.dom() == final(self)@.entries.dom()
                &&& forall|i: int|
                    0 <= i < keys.len() ==> record_at(data@, (#[trigger] index.offsets@[keys[i]]) as int) == Some(
                        payloads@[i]@,
                    )
                &&& index.last_scan == final(self)@.last_scan
                &&& index.root@ == final(self)@.root
                &&& index.last_scanned_root@ == final(self)@.last_scanned_root
                &&& index.skip_stats@ == final(self)@.skip_stats
            }),
    {
        self.flush_pending_writes();
        self.has_persisted_snapshot = true;
        self.persisted_entry_count = self.entries.len();
        self.save_as_rkyv_mmap(payloads)
    }

    /// Removes `path` and every key that `path` is an ancestor of,
    /// measured in path components; every other key keeps its entry.
    /// Waiting writes for the removed keys are dropped, so that none of
    /// them brings back later what was removed; the other writes go on
    /// waiting, in their order.
    pub fn remove_entry(&mut self, path: &str)
        ensures
            final(self)@ == (DiskCacheView {
                entries: old(self)@.entries.remove_keys(under(path@)),
                pending_writes: writes_outside(old(self)@.pending_writes, path@),
                ..old(self)@
            }),
    {
        let mut waiting: Vec<Slot> = Vec::new();
        core::mem::swap(&mut self.pending_writes, &mut waiting);
        let ghost writes = slot_views(waiting@);
        let ghost stays = outside_of(path@);
        let mut kept: Vec<Slot> = Vec::new();
        proof {
            assert(writes.take(0) =~= Seq::empty());
            assert(slot_views(kept@) =~= Seq::empty());
            reveal(Seq::filter);
        }
        for slot in it: waiting
            invariant
                slot_views(it.seq()) == writes,
                stays == outside_of(path@),
                slot_views(kept@) == writes.take(it.index() as int).filter(stays),
        {
            let ghost i = it.index() as int;
            let ghost before = slot_views(kept@);
            proof {
                reveal(Seq::filter);
                assert(writes.take(i + 1).drop_last() =~= writes.take(i));
                assert(writes.take(i + 1).last() == writes[i]);
                assert(writes[i] == (slot.key@, slot.entry@, slot.yields));
            }
            if !starts_with(slot.key.as_str(), path) {
                kept.push(slot);
                assert(slot_views(kept@) =~= before.push(writes[i]));
            }
        }
        assert(writes.take(writes.len() as int) =~= writes);
        self.pending_writes = kept;
        self.entries.remove_under(path);
    }
}

/// The directory that `raw` names: `raw` without the white space around
/// it, if that is an absolute path.
pub open spec fn absolute_dir(raw: Seq<char>) -> Option<Seq<char>> {
    let t = trimmed(raw);
    if t.len() > 0 && path_is_absolute(t) {
        Some(t)
    } else {
        None
    }
}

/// The file that holds the cache inside the directory `dir`.
pub open spec fn cache_file_in(dir: Seq<char>) -> Seq<char> {
    path_join(dir, "ptree.dat"@)
}

/// The default place of the cache: under `ptree` in the directory that
/// `XDG_CACHE_HOME` names if that is absolute, else under `.cache/ptree`
/// in the home directory if that is absolute.
pub open spec fn default_cache_file(xdg_cache_home: Option<Seq<char>>, home: Option<Seq<char>>) -> Option<Seq<char>> {
    if xdg_cache_home is Some && absolute_dir(xdg_cache_home->0) is Some {
        Some(cache_file_in(path_join(absolute_dir(xdg_cache_home->0)->0, "ptree"@)))
    } else if home is Some && path_is_absolute(home->0) {
        Some(cache_file_in(path_join(path_join(home->0, ".cache"@), "ptree"@)))
    } else {
        None
    }
}

/// Reads a directory from the text of an environment variable: the text
/// without the white space around it, if that is an absolute path.
pub fn parse_absolute_dir(raw: &str) -> (r: Option<String>)
    ensures
        option_text(r) == absolute_dir(raw@),
{
    let t = trim(raw);
    if t.as_str().is_empty() {
        return None;
    }
    if is_absolute(t.as_str()) {
        Some(t)
    } else {
        None
    }
}

/// The default place of the cache file, from the values of the
/// environment variables `XDG_CACHE_HOME` and `HOME` where they are set.
/// Fails when neither names an absolute directory.
pub fn get_cache_path(xdg_cache_home: Option<&str>, home: Option<&str>) -> (r: Result<String, PTreeError>)
    ensures
        match default_cache_file(option_str(xdg_cache_home), option_str(home)) {
            Some(p) => r is Ok && r->Ok_0@ == p,
            None => r is Err && r->Err_0 is Cache,
        },
{
    if let Some(raw) = xdg_cache_home {
        if let Some(dir) = parse_absolute_dir(raw) {
            let base = join(dir.as_str(), "ptree");
            return Ok(join(base.as_str(), "ptree.dat"));
        }
    }
    if let Some(h) = home {
        if is_absolute(h) {
            let a = join(h, ".cache");
            let b = join(a.as_str(), "ptree");
            return Ok(join(b.as_str(), "ptree.dat"));
        }
    }
    Err(
        PTreeError::Cache(
            String::from_str(
                "Could not determine cache directory. Set XDG_CACHE_HOME or HOME to an absolute path.",
            ),
        ),
    )
}

/// The text of an optional string slice.
pub open spec fn option_str(o: Option<&str>) -> Option<Seq<char>> {
    match o {
        Some(s) => Some(s@),
        None => None,
    }
}

/// The place of the cache file: inside `custom_dir` when one is given,
/// else the default place.
pub fn get_cache_path_custom(custom_dir: Option<&str>, xdg_cache_home: Option<&str>, home: Option<&str>) -> (r:
    Result<String, PTreeError>)
    ensures
        match custom_dir {
            Some(dir) => r is Ok && r->Ok_0@ == cache_file_in(dir@),
            None => match default_cache_file(option_str(xdg_cache_home), option_str(home)) {
                Some(p) => r is Ok && r->Ok_0@ == p,
                None => r is Err && r->Err_0 is Cache,
            },
        },
{
    match custom_dir {
        Some(dir) => Ok(join(dir, "ptree.dat")),
        None => get_cache_path(xdg_cache_home, home),
    }
}

} // verus!
