//! The decisions of a scan: what the listing of one directory adds to the
//! cache and to the work queue, how a worker buffers what it found, how
//! work is handed out, and when a scan is needed at all.

use vstd::prelude::*;
use vstd::string::*;
use std::collections::VecDeque;
use crate::cache::{
    apply_writes, children_present, lemma_listed_directory_stays, lemma_supported_in_batches, lemma_writes_bring_keys,
    lemma_writes_keep_children_present, slot_views, writes_supported, DiskCache, DiskCacheView, Write,
};
use crate::cli::Args;
use crate::entry::{elapsed_seconds, DirEntry, DirEntryView, Timestamp};
use crate::error::PTreeError;
use crate::names::{should_skip, skipped_by, NameSet};
use crate::path::{entry_name, file_name_or_empty, join, path_join};
use crate::skip::{tally_add, SkipStats};
use crate::table::Slot;
use crate::text::{chars_of, option_text, same_text, texts};

verus! {

/// What kind of node a directory listing reports.
#[derive(Clone, Copy, Debug, PartialEq, Eq, Structural)]
pub enum NodeKind {
    /// A directory.
    Directory,
    /// A symbolic link.
    Symlink,
    /// A regular file.
    File,
    /// The listing could not tell.
    Unknown,
}

/// One child as the listing of its directory reports it.
#[derive(Debug)]
pub struct Listed {
    /// The child's name.
    pub name: String,
    /// The child's kind, read without following links.
    pub kind: NodeKind,
    /// Where a symbolic link points, if that could be read.
    pub target: Option<String>,
}

/// What the listing of one directory yields.
pub struct Expansion {
    /// Records for the cache: one per child that was kept and whose kind
    /// is known, in listing order, then the directory's own.
    pub entries: Vec<Slot>,
    /// Paths of the child directories that still have to be listed.
    pub queue: Vec<String>,
    /// Names that were passed over, in listing order.
    pub skipped: Vec<String>,
}

/// Whether the scan keeps the child: its name is not in the skip set.
pub open spec fn kept(item: Listed, skip: Set<Seq<char>>) -> bool {
    !skipped_by(item.name@, skip)
}

/// The record of a child: under the joined path, without children, a
/// directory where the listing says so, with the link target if it is a
/// symbolic link. The record of a child directory yields to the record
/// that the directory's own listing makes.
pub open spec fn child_record(dir: Seq<char>, item: Listed, now: Timestamp) -> Write {
    let path = path_join(dir, item.name@);
    (
        path,
        DirEntryView {
            path,
            name: file_name_or_empty(path),
            modified: now,
            content_hash: 0,
            children: Seq::empty(),
            symlink_target: if item.kind is Symlink {
                option_text(item.target)
            } else {
                None
            },
            is_hidden: false,
            is_dir: item.kind is Directory,
        },
        item.kind is Directory,
    )
}

/// The records of the children that are kept and whose kind is known.
pub open spec fn child_records(dir: Seq<char>, listing: Seq<Listed>, skip: Set<Seq<char>>, now: Timestamp) -> Seq<
    Write,
>
    decreases listing.len(),
{
    if listing.len() == 0 {
        Seq::empty()
    } else {
        let before = child_records(dir, listing.drop_last(), skip, now);
        let item = listing.last();
        if kept(item, skip) && !(item.kind is Unknown) {
            before.push(child_record(dir, item, now))
        } else {
            before
        }
    }
}

/// The names of the children that are kept, in listing order.
pub open spec fn kept_names(listing: Seq<Listed>, skip: Set<Seq<char>>) -> Seq<Seq<char>>
    decreases listing.len(),
{
    if listing.len() == 0 {
        Seq::empty()
    } else {
        let before = kept_names(listing.drop_last(), skip);
        if kept(listing.last(), skip) {
            before.push(listing.last().name@)
        } else {
            before
        }
    }
}

/// The names that are passed over, in listing order.
pub open spec fn skipped_names(listing: Seq<Listed>, skip: Set<Seq<char>>) -> Seq<Seq<char>>
    decreases listing.len(),
{
    if listing.len() == 0 {
        Seq::empty()
    } else {
        let before = skipped_names(listing.drop_last(), skip);
        if kept(listing.last(), skip) {
            before
        } else {
            before.push(listing.last().name@)
        }
    }
}

/// The paths of the kept child directories, in listing order. Symbolic
/// links are never among them.
pub open spec fn queued_dirs(dir: Seq<char>, listing: Seq<Listed>, skip: Set<Seq<char>>) -> Seq<Seq<char>>
    decreases listing.len(),
{
    if listing.len() == 0 {
        Seq::empty()
    } else {
        let before = queued_dirs(dir, listing.drop_last(), skip);
        let item = listing.last();
        if kept(item, skip) && item.kind is Directory {
            before.push(path_join(dir, item.name@))
        } else {
            before
        }
    }
}

/// The record of the listed directory itself.
pub open spec fn own_record(
    dir: Seq<char>,
    listing: Seq<Listed>,
    skip: Set<Seq<char>>,
    hidden: bool,
    now: Timestamp,
) -> Write {
    (
        dir,
        DirEntryView {
            path: dir,
            name: file_name_or_empty(dir),
            modified: now,
            content_hash: 0,
            children: kept_names(listing, skip),
            symlink_target: None,
            is_hidden: hidden,
            is_dir: true,
        },
        false,
    )
}

/// All records that the listing of `dir` yields: the children's, then the
/// directory's own.
pub open spec fn expansion_records(
    dir: Seq<char>,
    listing: Seq<Listed>,
    skip: Set<Seq<char>>,
    hidden: bool,
    now: Timestamp,
) -> Seq<Write> {
    child_records(dir, listing, skip, now).push(own_record(dir, listing, skip, hidden, now))
}

/// No name that the scan keeps is in the skip set, whatever the case of
/// its ASCII letters.
pub proof fn lemma_kept_names_not_skipped(listing: Seq<Listed>, skip: Set<Seq<char>>)
    ensures
        forall|i: int| 0 <= i < kept_names(listing, skip).len() ==> !skipped_by(#[trigger] kept_names(listing, skip)[i], skip),
    decreases listing.len(),
{
    if listing.len() > 0 {
        lemma_kept_names_not_skipped(listing.drop_last(), skip);
        let before = kept_names(listing.drop_last(), skip);
        let all = kept_names(listing, skip);
        assert forall|i: int| 0 <= i < all.len() implies !skipped_by(#[trigger] all[i], skip) by {
            if i < before.len() {
                assert(all[i] == before[i]);
            }
        }
    }
}

/// Every listed child is either kept or passed over, and only names that
/// match the skip set are passed over: the kept names and the names
/// passed over are as many as the listing holds, and each name passed
/// over is counted once, so that the counts of a directory with the
/// children `keep`, `.git` and `node_modules` under the skip set
/// `.git`, `node_modules` are one for each of the two.
pub proof fn lemma_listing_is_split(listing: Seq<Listed>, skip: Set<Seq<char>>)
    ensures
        kept_names(listing, skip).len() + skipped_names(listing, skip).len() == listing.len(),
        forall|i: int|
            0 <= i < skipped_names(listing, skip).len() ==> skipped_by(#[trigger] skipped_names(listing, skip)[i], skip),
    decreases listing.len(),
{
    if listing.len() > 0 {
        lemma_listing_is_split(listing.drop_last(), skip);
        let before = skipped_names(listing.drop_last(), skip);
        let all = skipped_names(listing, skip);
        assert forall|i: int| 0 <= i < all.len() implies skipped_by(#[trigger] all[i], skip) by {
            if i < before.len() {
                assert(all[i] == before[i]);
            }
        }
    }
}

/// Only directories are queued: every queued path is the joined path of
/// a kept child that the listing reports as a directory. A symbolic link
/// is never queued, whatever it points to, so a scan never walks through
/// one.
pub proof fn lemma_queue_holds_only_directories(dir: Seq<char>, listing: Seq<Listed>, skip: Set<Seq<char>>)
    ensures
        forall|i: int|
            0 <= i < queued_dirs(dir, listing, skip).len() ==> exists|j: int|
                0 <= j < listing.len() && kept(listing[j], skip) && listing[j].kind is Directory && (
                #[trigger] queued_dirs(dir, listing, skip)[i]) == path_join(dir, listing[j].name@),
    decreases listing.len(),
{
    if listing.len() > 0 {
        let rest = listing.drop_last();
        lemma_queue_holds_only_directories(dir, rest, skip);
        let before = queued_dirs(dir, rest, skip);
        let all = queued_dirs(dir, listing, skip);
        assert forall|i: int| 0 <= i < all.len() implies exists|j: int|
            0 <= j < listing.len() && kept(listing[j], skip) && listing[j].kind is Directory && (#[trigger] all[i])
                == path_join(dir, listing[j].name@) by {
            if i < before.len() {
                assert(all[i] == before[i]);
                let j = choose|j: int|
                    0 <= j < rest.len() && kept(rest[j], skip) && rest[j].kind is Directory && before[i] == path_join(
                        dir,
                        rest[j].name@,
                    );
                assert(listing[j] == rest[j]);
            } else {
                let j = listing.len() - 1;
                assert(listing[j] == listing.last());
            }
        }
    }
}

/// A first scan of a directory without children leaves one entry: in a
/// mapping that holds at most the root, after the records of the root's
/// empty listing the root is the only key, and it stands there as a
/// directory without children.
pub proof fn lemma_scan_of_empty_root(
    m: Map<Seq<char>, DirEntryView>,
    root: Seq<char>,
    skip: Set<Seq<char>>,
    hidden: bool,
    now: Timestamp,
)
    requires
        forall|k: Seq<char>| m.dom().contains(k) ==> k == root,
    ensures
        apply_writes(m, expansion_records(root, Seq::empty(), skip, hidden, now)).dom() == set![root],
        apply_writes(m, expansion_records(root, Seq::empty(), skip, hidden, now))[root].is_dir,
        apply_writes(m, expansion_records(root, Seq::empty(), skip, hidden, now))[root].children.len() == 0,
{
    let w = expansion_records(root, Seq::empty(), skip, hidden, now);
    let own = own_record(root, Seq::empty(), skip, hidden, now);
    assert(w.drop_last() =~= Seq::empty());
    assert(w.last() == own);
    assert(apply_writes(m, w.drop_last()) == m);
    let after = apply_writes(m, w);
    assert(after == m.insert(root, own.1));
    assert forall|k: Seq<char>| after.dom().contains(k) <==> set![root].contains(k) by {}
    assert(after.dom() =~= set![root]);
}

/// A first scan of a directory with one kept file leaves two entries: in
/// a mapping that holds at most the root, after the records of the
/// listing the keys are the root and the joined path of the file; the
/// root is a directory whose only child is the file's name, and the file
/// is no directory and has no children.
pub proof fn lemma_scan_of_single_file(
    m: Map<Seq<char>, DirEntryView>,
    root: Seq<char>,
    file: Listed,
    skip: Set<Seq<char>>,
    hidden: bool,
    now: Timestamp,
)
    requires
        forall|k: Seq<char>| m.dom().contains(k) ==> k == root,
        file.kind is File,
        kept(file, skip),
    ensures
        ({
            let after = apply_writes(m, expansion_records(root, seq![file], skip, hidden, now));
            let path = path_join(root, file.name@);
            &&& after.dom() == set![root, path]
            &&& after[root].is_dir
            &&& after[root].children == seq![file.name@]
            &&& path != root ==> !after[path].is_dir && after[path].children.len() == 0 && after[path].name
                == file_name_or_empty(path)
        }),
{
    let listing = seq![file];
    let w = expansion_records(root, listing, skip, hidden, now);
    assert(listing.drop_last() =~= Seq::<Listed>::empty());
    assert(listing.last() == file);
    reveal_with_fuel(child_records, 2);
    reveal_with_fuel(kept_names, 2);
    let cr = child_records(root, listing, skip, now);
    assert(cr =~= seq![child_record(root, file, now)]);
    assert(kept_names(listing, skip) =~= seq![file.name@]);
    let own = own_record(root, listing, skip, hidden, now);
    let child = child_record(root, file, now);
    let path = path_join(root, file.name@);
    assert(w.drop_last() =~= cr);
    assert(w.last() == own);
    assert(cr.drop_last() =~= Seq::empty());
    assert(cr.last() == child);
    assert(apply_writes(m, cr.drop_last()) == m);
    assert(apply_writes(m, cr) == m.insert(path, child.1));
    let after = apply_writes(m, w);
    assert(after == m.insert(path, child.1).insert(root, own.1));
    assert forall|k: Seq<char>| after.dom().contains(k) <==> set![root, path].contains(k) by {}
    assert(after.dom() =~= set![root, path]);
}

/// The listing tells the kind of every child that is kept.
pub open spec fn kinds_known(listing: Seq<Listed>, skip: Set<Seq<char>>) -> bool {
    forall|i: int| 0 <= i < listing.len() && kept(#[trigger] listing[i], skip) ==> !(listing[i].kind is Unknown)
}

/// Where the kinds are known, every kept name has its record, at the same
/// position and under the joined path; and no child's record names
/// children.
pub proof fn lemma_child_records(dir: Seq<char>, listing: Seq<Listed>, skip: Set<Seq<char>>, now: Timestamp)
    ensures
        forall|j: int|
            0 <= j < child_records(dir, listing, skip, now).len() ==> (#[trigger] child_records(
                dir,
                listing,
                skip,
                now,
            )[j]).1.children.len() == 0,
        kinds_known(listing, skip) ==> child_records(dir, listing, skip, now).len() == kept_names(listing, skip).len(),
        kinds_known(listing, skip) ==> forall|i: int|
            0 <= i < kept_names(listing, skip).len() ==> (#[trigger] child_records(dir, listing, skip, now)[i]).0
                == path_join(dir, kept_names(listing, skip)[i]),
    decreases listing.len(),
{
    if listing.len() > 0 {
        let rest = listing.drop_last();
        lemma_child_records(dir, rest, skip, now);
        if kinds_known(listing, skip) {
            assert(kinds_known(rest, skip)) by {
                assert forall|i: int| 0 <= i < rest.len() && kept(#[trigger] rest[i], skip) implies !(rest[i].kind is Unknown) by {
                    assert(rest[i] == listing[i]);
                }
            }
            assert(listing[listing.len() - 1] == listing.last());
        }
    }
}

/// The records of an expansion find the entries of the children they
/// name, provided the listing told the kind of every child that is kept:
/// only the directory's own record names children, and each of them has
/// a record that comes before it. A kept child of unknown kind is named
/// and has no record.
pub proof fn lemma_expansion_supported(
    m: Map<Seq<char>, DirEntryView>,
    dir: Seq<char>,
    listing: Seq<Listed>,
    skip: Set<Seq<char>>,
    hidden: bool,
    now: Timestamp,
)
    requires
        kinds_known(listing, skip),
    ensures
        writes_supported(m, expansion_records(dir, listing, skip, hidden, now)),
{
    let cr = child_records(dir, listing, skip, now);
    let w = expansion_records(dir, listing, skip, hidden, now);
    lemma_child_records(dir, listing, skip, now);
    assert forall|j: int, i: int| 0 <= j < w.len() && 0 <= i < w[j].1.children.len() implies apply_writes(
        m,
        w.take(j),
    ).dom().contains(#[trigger] path_join(w[j].0, w[j].1.children[i])) by {
        if j < cr.len() {
            assert(w[j] == cr[j]);
        } else {
            assert(w.take(j) =~= cr);
            assert(cr[i].0 == path_join(dir, kept_names(listing, skip)[i]));
            lemma_writes_bring_keys(m, cr, i);
        }
    }
}

/// A listed directory ends as a directory with the children of its
/// listing: where the stream of writes holds the record of the
/// directory's own listing, and every later write under the directory's
/// path yields, as the records do that listings make for child
/// directories, the mapping holds in the end a directory under that path
/// whose children are the kept names of the listing. This holds whatever
/// the order in which the records of several workers arrive.
pub proof fn lemma_listed_directory_keeps_its_listing(
    m: Map<Seq<char>, DirEntryView>,
    w: Seq<Write>,
    j: int,
    dir: Seq<char>,
    listing: Seq<Listed>,
    skip: Set<Seq<char>>,
    hidden: bool,
    now: Timestamp,
)
    requires
        0 <= j < w.len(),
        w[j] == own_record(dir, listing, skip, hidden, now),
        forall|k: int| j < k < w.len() && (#[trigger] w[k]).0 == dir ==> w[k].2,
    ensures
        apply_writes(m, w).dom().contains(dir),
        apply_writes(m, w)[dir].is_dir,
        apply_writes(m, w)[dir].children == kept_names(listing, skip),
{
    lemma_listed_directory_stays(m, w, j);
}

/// One listing that a scan worked through: the directory, what its
/// listing reported, whether it is hidden, and when it was observed.
pub struct Listing {
    pub dir: Seq<char>,
    pub children: Seq<Listed>,
    pub hidden: bool,
    pub observed: Timestamp,
}

/// All records that a scan yields from the listings it worked through,
/// listing after listing.
pub open spec fn scan_records(listings: Seq<Listing>, skip: Set<Seq<char>>) -> Seq<Write>
    decreases listings.len(),
{
    if listings.len() == 0 {
        Seq::empty()
    } else {
        scan_records(listings.drop_last(), skip) + expansion_records(
            listings.last().dir,
            listings.last().children,
            skip,
            listings.last().hidden,
            listings.last().observed,
        )
    }
}

/// A scan leaves no child without an entry: in a cache where every
/// named child had its entry before, after the records of any number of
/// listings entered the mapping in order, every name in any entry's
/// children has an entry at the joined path. The listings must have told
/// the kind of every child that was kept.
pub proof fn lemma_scan_keeps_children_present(
    m: Map<Seq<char>, DirEntryView>,
    listings: Seq<Listing>,
    skip: Set<Seq<char>>,
)
    requires
        children_present(m),
        forall|i: int| 0 <= i < listings.len() ==> kinds_known((#[trigger] listings[i]).children, skip),
    ensures
        writes_supported(m, scan_records(listings, skip)),
        children_present(apply_writes(m, scan_records(listings, skip))),
    decreases listings.len(),
{
    if listings.len() == 0 {
    } else {
        let before = listings.drop_last();
        let last = listings.last();
        assert forall|i: int| 0 <= i < before.len() implies kinds_known((#[trigger] before[i]).children, skip) by {
            assert(before[i] == listings[i]);
        }
        lemma_scan_keeps_children_present(m, before, skip);
        assert(listings[listings.len() - 1] == last);
        lemma_expansion_supported(
            apply_writes(m, scan_records(before, skip)),
            last.dir,
            last.children,
            skip,
            last.hidden,
            last.observed,
        );
        lemma_supported_in_batches(
            m,
            scan_records(before, skip),
            expansion_records(last.dir, last.children, skip, last.hidden, last.observed),
        );
    }
    lemma_writes_keep_children_present(m, scan_records(listings, skip));
}

/// Works out what the listing of the directory `dir` adds: the records to
/// store, the directories to list next and the names passed over.
/// `hidden` tells whether the system marks `dir` as hidden, `now` is the
/// time of observation.
pub fn expand_directory(dir: &str, listing: &Vec<Listed>, skip_dirs: &NameSet, hidden: bool, now: Timestamp) -> (r:
    Expansion)
    ensures
        slot_views(r.entries@) == expansion_records(dir@, listing@, skip_dirs@, hidden, now),
        texts(r.queue@) == queued_dirs(dir@, listing@, skip_dirs@),
        texts(r.skipped@) == skipped_names(listing@, skip_dirs@),
{
    let mut entries: Vec<Slot> = Vec::new();
    let mut queue: Vec<String> = Vec::new();
    let mut skipped: Vec<String> = Vec::new();
    let mut children: Vec<String> = Vec::new();
    let ghost skip = skip_dirs@;
    let mut i: usize = 0;
    proof {
        assert(listing@.take(0) =~= Seq::<Listed>::empty());
        assert(slot_views(entries@) =~= Seq::empty());
        assert(texts(queue@) =~= Seq::<Seq<char>>::empty());
        assert(texts(skipped@) =~= Seq::<Seq<char>>::empty());
        assert(texts(children@) =~= Seq::<Seq<char>>::empty());
    }
    while i < listing.len()
        invariant
            i <= listing@.len(),
            skip == skip_dirs@,
            slot_views(entries@) == child_records(dir@, listing@.take(i as int), skip, now),
            texts(queue@) == queued_dirs(dir@, listing@.take(i as int), skip),
            texts(skipped@) == skipped_names(listing@.take(i as int), skip),
            texts(children@) == kept_names(listing@.take(i as int), skip),
        decreases listing@.len() - i,
    {
        let item = &listing[i];
        let ghost entries0 = slot_views(entries@);
        let ghost queue0 = texts(queue@);
        let ghost skipped0 = texts(skipped@);
        let ghost children0 = texts(children@);
        proof {
            assert(listing@.take(i + 1).drop_last() =~= listing@.take(i as int));
            assert(listing@.take(i + 1).last() == listing@[i as int]);
        }
        if should_skip(item.name.as_str(), skip_dirs) {
            skipped.push(item.name.clone());
            assert(texts(skipped@) =~= skipped0.push(item.name@));
        } else {
            children.push(item.name.clone());
            assert(texts(children@) =~= children0.push(item.name@));
            let child_path = join(dir, item.name.as_str());
            match item.kind {
                NodeKind::Directory => {
                    queue.push(child_path.clone());
                    assert(texts(queue@) =~= queue0.push(child_path@));
                    entries.push(child_slot(child_path, None, now, true));
                    assert(slot_views(entries@) =~= entries0.push(child_record(dir@, *item, now)));
                },
                NodeKind::Symlink => {
                    let target = match &item.target {
                        Some(t) => Some(t.clone()),
                        None => None,
                    };
                    entries.push(child_slot(child_path, target, now, false));
                    assert(slot_views(entries@) =~= entries0.push(child_record(dir@, *item, now)));
                },
                NodeKind::File => {
                    entries.push(child_slot(child_path, None, now, false));
                    assert(slot_views(entries@) =~= entries0.push(child_record(dir@, *item, now)));
                },
                NodeKind::Unknown => {},
            }
        }
        i += 1;
    }
    assert(listing@.take(i as int) =~= listing@);
    let ghost entries0 = slot_views(entries@);
    let own = DirEntry {
        path: String::from_str(dir),
        name: entry_name(dir),
        modified: now,
        content_hash: 0,
        children,
        symlink_target: None,
        is_hidden: hidden,
        is_dir: true,
    };
    entries.push(Slot { key: String::from_str(dir), entry: own, yields: false });
    assert(slot_views(entries@) =~= entries0.push(own_record(dir@, listing@, skip, hidden, now)));
    Expansion { entries, queue, skipped }
}

/// The slot of a child at `path`.
fn child_slot(path: String, target: Option<String>, now: Timestamp, directory: bool) -> (r: Slot)
    ensures
        r.key@ == path@,
        r.yields == directory,
        r.entry@ == (DirEntryView {
            path: path@,
            name: file_name_or_empty(path@),
            modified: now,
            content_hash: 0,
            children: Seq::empty(),
            symlink_target: option_text(target),
            is_hidden: false,
            is_dir: directory,
        }),
{
    let name = entry_name(path.as_str());
    let entry = DirEntry {
        path: path.clone(),
        name,
        modified: now,
        content_hash: 0,
        children: Vec::new(),
        symlink_target: target,
        is_hidden: false,
        is_dir: directory,
    };
    assert(texts(entry.children@) =~= Seq::<Seq<char>>::empty());
    Slot { key: path, entry, yields: directory }
}

/// The number of paths that a worker takes from the queue at a time.
pub const BATCH_SIZE: usize = 10;

/// The number of records that a worker gathers before it hands them on.
pub const WORKER_BUFFER: usize = 500;

/// The size of the next batch from a queue of `len` paths.
pub open spec fn batch_len(len: nat) -> nat {
    if len < BATCH_SIZE {
        len
    } else {
        BATCH_SIZE as nat
    }
}

/// Takes the next batch from the front of the queue: up to ten paths, in
/// queue order. An empty batch tells the worker to stop.
pub fn take_batch(queue: &mut VecDeque<String>) -> (batch: Vec<String>)
    ensures
        batch@ == old(queue)@.take(batch_len(old(queue)@.len()) as int),
        final(queue)@ == old(queue)@.skip(batch_len(old(queue)@.len()) as int),
{
    let mut batch: Vec<String> = Vec::new();
    let ghost start = queue@;
    assert(start.skip(0) =~= start);
    assert(batch@ =~= start.take(0));
    while batch.len() < BATCH_SIZE && queue.len() > 0
        invariant
            batch@.len() <= BATCH_SIZE,
            batch@.len() <= start.len(),
            batch@ == start.take(batch@.len() as int),
            queue@ == start.skip(batch@.len() as int),
        decreases queue@.len(),
    {
        let ghost k = batch@.len() as int;
        match queue.pop_front() {
            Some(path) => {
                batch.push(path);
                assert(batch@ =~= start.take(k + 1));
                assert(queue@ =~= start.skip(k + 1));
            },
            None => {},
        }
    }
    batch
}

/// Puts the paths of `dirs` at the back of the queue, in order.
pub fn push_work(queue: &mut VecDeque<String>, dirs: Vec<String>)
    ensures
        final(queue)@ == old(queue)@ + dirs@,
{
    let ghost start = queue@;
    let ghost all = dirs@;
    assert(start + all.take(0) =~= start);
    for dir in it: dirs
        invariant
            it.seq() == all,
            queue@ == start + all.take(it.index() as int),
    {
        queue.push_back(dir);
        assert(start + all.take(it.index() + 1) =~= (start + all.take(it.index() as int)).push(all[it.index() as int]));
    }
    assert(all.take(all.len() as int) =~= all);
}

/// Claims the directory `path` for one worker: the path joins the set of
/// directories in progress unless it is already there. Only the worker
/// for which this answers `true` may list the directory.
pub fn try_acquire(in_progress: &mut NameSet, path: &str) -> (acquired: bool)
    ensures
        acquired == !old(in_progress)@.contains(path@),
        final(in_progress)@ == old(in_progress)@.insert(path@),
{
    in_progress.insert(String::from_str(path))
}

/// Gives the directory `path` back once it was listed, or could not be.
pub fn release(in_progress: &mut NameSet, path: &str)
    ensures
        final(in_progress)@ == old(in_progress)@.remove(path@),
{
    in_progress.remove(path);
}

/// Whether a directory taken from the queue is listed: always when the
/// scan has no filter; with a filter of changed names, when the
/// directory's name is in the filter or the directory is the root of the
/// scan.
pub open spec fn listed_under(filter: Option<Set<Seq<char>>>, path: Seq<char>, scan_root: Seq<char>) -> bool {
    match filter {
        Some(changed) => changed.contains(file_name_or_empty(path)) || path == scan_root,
        None => true,
    }
}

/// The names of an optional set.
pub open spec fn option_names(filter: Option<&NameSet>) -> Option<Set<Seq<char>>> {
    match filter {
        Some(set) => Some(set@),
        None => None,
    }
}

/// Whether the worker lists the directory `path` that it took from the
/// queue.
pub fn should_process(filter: Option<&NameSet>, path: &str, scan_root: &str) -> (b: bool)
    ensures
        b == listed_under(option_names(filter), path@, scan_root@),
{
    match filter {
        Some(changed) => {
            let name = entry_name(path);
            changed.contains(name.as_str()) || same_text(path, scan_root)
        },
        None => true,
    }
}

/// The buffer and what left it after one more record came in: the record
/// joins the buffer, and a buffer that has reached its size is handed on
/// whole.
pub open spec fn buffered(state: (Seq<Write>, Seq<Write>), record: Write) -> (Seq<Write>, Seq<Write>) {
    let grown = state.0.push(record);
    if grown.len() >= WORKER_BUFFER {
        (Seq::empty(), state.1 + grown)
    } else {
        (grown, state.1)
    }
}

/// The buffer and what left it after the records `records` came in, one
/// by one.
pub open spec fn buffered_all(buffer: Seq<Write>, records: Seq<Write>) -> (Seq<Write>, Seq<Write>)
    decreases records.len(),
{
    if records.len() == 0 {
        (buffer, Seq::empty())
    } else {
        buffered(buffered_all(buffer, records.drop_last()), records.last())
    }
}

/// Buffering loses nothing and keeps the order: what left the buffer,
/// followed by what is still in it, is what was in it followed by what
/// came in.
pub proof fn lemma_buffered_all_keeps_order(buffer: Seq<Write>, records: Seq<Write>)
    ensures
        buffered_all(buffer, records).1 + buffered_all(buffer, records).0 == buffer + records,
    decreases records.len(),
{
    if records.len() == 0 {
        assert(Seq::<Write>::empty() + buffer =~= buffer + records);
    } else {
        let before = buffered_all(buffer, records.drop_last());
        lemma_buffered_all_keeps_order(buffer, records.drop_last());
        let after = buffered(before, records.last());
        assert(after.1 + after.0 =~= (before.1 + before.0).push(records.last()));
        assert((buffer + records.drop_last()).push(records.last()) =~= buffer + records);
    }
}

/// The tally after each name of `names` was counted once.
pub open spec fn tally_names(t: Seq<(Seq<char>, usize)>, names: Seq<Seq<char>>) -> Seq<(Seq<char>, usize)>
    decreases names.len(),
{
    if names.len() == 0 {
        t
    } else {
        tally_add(tally_names(t, names.drop_last()), names.last(), 1)
    }
}

/// The tally after the counts of `part` were added to it, name by name.
pub open spec fn tally_merge(t: Seq<(Seq<char>, usize)>, part: Seq<(Seq<char>, usize)>) -> Seq<(Seq<char>, usize)>
    decreases part.len(),
{
    if part.len() == 0 {
        t
    } else {
        tally_add(tally_merge(t, part.drop_last()), part.last().0, part.last().1)
    }
}

/// Adds the counts of one worker to the shared tally.
pub fn merge_skip_counts(total: &mut SkipStats, part: &SkipStats)
    ensures
        final(total)@ == tally_merge(old(total)@, part@),
{
    let n = part.len();
    let ghost start = total@;
    let mut i: usize = 0;
    assert(part@.take(0) =~= Seq::<(Seq<char>, usize)>::empty());
    while i < n
        invariant
            i <= n,
            n == part@.len(),
            total@ == tally_merge(start, part@.take(i as int)),
        decreases n - i,
    {
        assert(part@.take(i + 1).drop_last() =~= part@.take(i as int));
        assert(part@.take(i + 1).last() == part@[i as int]);
        total.add(part.name_at(i).as_str(), part.count_at(i));
        i += 1;
    }
    assert(part@.take(i as int) =~= part@);
}

/// What one worker holds between two hand-overs.
pub struct ScanWorker {
    /// Records gathered and not handed on yet.
    pub entry_buffer: Vec<Slot>,
    /// Names passed over, with their counts.
    pub skip_buffer: SkipStats,
}

/// What a worker hands on after it took in an expansion.
pub struct WorkerOutput {
    /// Directories for the back of the work queue.
    pub to_queue: Vec<String>,
    /// Records for the cache.
    pub to_cache: Vec<Slot>,
}

impl ScanWorker {
    /// A worker that holds nothing.
    pub fn new() -> (r: Self)
        ensures
            slot_views(r.entry_buffer@) == Seq::<Write>::empty(),
            r.skip_buffer@ == Seq::<(Seq<char>, usize)>::empty(),
    {
        let r = ScanWorker { entry_buffer: Vec::new(), skip_buffer: SkipStats::new() };
        assert(slot_views(r.entry_buffer@) =~= Seq::<Write>::empty());
        r
    }

    /// Takes in what the listing of one directory yielded. The records
    /// pass through the buffer, the names passed over are counted, and the
    /// directories found go to the queue as they are.
    pub fn absorb(&mut self, expansion: Expansion) -> (out: WorkerOutput)
        ensures
            slot_views(final(self).entry_buffer@) == buffered_all(
                slot_views(old(self).entry_buffer@),
                slot_views(expansion.entries@),
            ).0,
            slot_views(out.to_cache@) == buffered_all(
                slot_views(old(self).entry_buffer@),
                slot_views(expansion.entries@),
            ).1,
            out.to_queue@ == expansion.queue@,
            final(self).skip_buffer@ == tally_names(old(self).skip_buffer@, texts(expansion.skipped@)),
    {
        let Expansion { entries, queue, skipped } = expansion;
        let ghost start = slot_views(self.entry_buffer@);
        let ghost records = slot_views(entries@);
        let ghost counts = self.skip_buffer@;
        let mut to_cache: Vec<Slot> = Vec::new();
        proof {
            assert(records.take(0) =~= Seq::empty());
            assert(slot_views(to_cache@) =~= Seq::empty());
        }
        for slot in it: entries
            invariant
                slot_views(it.seq()) == records,
                self.skip_buffer@ == counts,
                slot_views(self.entry_buffer@) == buffered_all(start, records.take(it.index() as int)).0,
                slot_views(to_cache@) == buffered_all(start, records.take(it.index() as int)).1,
        {
            let ghost i = it.index() as int;
            let ghost buffer0 = slot_views(self.entry_buffer@);
            let ghost cache0 = slot_views(to_cache@);
            proof {
                assert(records.take(i + 1).drop_last() =~= records.take(i));
                assert(records.take(i + 1).last() == records[i]);
                assert(records[i] == (slot.key@, slot.entry@, slot.yields));
            }
            self.entry_buffer.push(slot);
            assert(slot_views(self.entry_buffer@) =~= buffer0.push(records[i]));
            if self.entry_buffer.len() >= WORKER_BUFFER {
                let ghost grown = slot_views(self.entry_buffer@);
                to_cache.append(&mut self.entry_buffer);
                assert(slot_views(to_cache@) =~= cache0 + grown);
                assert(slot_views(self.entry_buffer@) =~= Seq::empty());
            }
        }
        assert(records.take(records.len() as int) =~= records);
        let ghost names = texts(skipped@);
        let mut j: usize = 0;
        assert(names.take(0) =~= Seq::<Seq<char>>::empty());
        while j < skipped.len()
            invariant
                j <= skipped@.len(),
                names == texts(skipped@),
                self.skip_buffer@ == tally_names(counts, names.take(j as int)),
                slot_views(self.entry_buffer@) == buffered_all(start, records).0,
            decreases skipped@.len() - j,
        {
            assert(names.take(j + 1).drop_last() =~= names.take(j as int));
            assert(names.take(j + 1).last() == skipped@[j as int]@);
            self.skip_buffer.add(skipped[j].as_str(), 1);
            j += 1;
        }
        assert(names.take(j as int) =~= names);
        WorkerOutput { to_queue: queue, to_cache }
    }

    /// Empties the worker when the queue has run dry: the records still
    /// buffered are for the cache, the counts for the shared tally.
    pub fn finish(&mut self) -> (out: (Vec<Slot>, SkipStats))
        ensures
            out.0@ == old(self).entry_buffer@,
            out.1@ == old(self).skip_buffer@,
            final(self).entry_buffer@.len() == 0,
            final(self).skip_buffer@.len() == 0,
    {
        let mut records: Vec<Slot> = Vec::new();
        let mut counts = SkipStats::new();
        core::mem::swap(&mut self.entry_buffer, &mut records);
        core::mem::swap(&mut self.skip_buffer, &mut counts);
        (records, counts)
    }
}

/// Whether the directory at `path` counts as hidden by its name: its
/// final component starts with a dot.
pub open spec fn dot_hidden(path: Seq<char>) -> bool {
    file_name_or_empty(path).len() > 0 && file_name_or_empty(path)[0] == '.'
}

/// Whether the directory at `path` counts as hidden by its name.
pub fn is_dot_hidden(path: &str) -> (b: bool)
    ensures
        b == dot_hidden(path@),
{
    let name = entry_name(path);
    let c = chars_of(name.as_str());
    c.len() > 0 && c[0] == '.'
}

/// Timings and totals of one run.
#[derive(Debug)]
pub struct DebugInfo {
    /// Whether no snapshot existed when the run began.
    pub is_first_run: bool,
    /// The root of the scan.
    pub scan_root: String,
    /// Whether the snapshot was used in place of a scan.
    pub cache_used: bool,
    /// Nanoseconds spent scanning.
    pub traversal_time: u128,
    /// Nanoseconds spent saving.
    pub save_time: u128,
    /// Nanoseconds spent taking the scan's results into the cache.
    pub cache_index_time: u128,
    /// Number of entries.
    pub total_dirs: usize,
    /// Number of children over all entries.
    pub total_files: usize,
    /// Number of workers.
    pub threads_used: usize,
}

/// The default number of seconds for which a snapshot counts as fresh.
pub const DEFAULT_CACHE_TTL: u64 = 3600;

/// The default bound on the number of workers for a scan that is not
/// forced.
pub const DEFAULT_MAX_THREADS: usize = 4;

/// How a run gets its tree.
#[derive(Clone, Copy, Debug, PartialEq, Eq, Structural)]
pub enum ScanMode {
    /// From the snapshot, without a scan.
    CacheHit,
    /// From a scan of the current directory.
    PartialRescan,
    /// From a scan of the whole filesystem.
    ForcedFull,
}

/// The lifetime of a snapshot in seconds.
pub open spec fn ttl_of(cache_ttl: Option<u64>) -> u64 {
    match cache_ttl {
        Some(t) => t,
        None => DEFAULT_CACHE_TTL,
    }
}

/// The mode of a run: the snapshot is used when there is one, the cache
/// is not switched off, no scan is forced, and fewer seconds than the
/// lifetime have passed since the last save. Otherwise a forced run scans
/// everything and any other run scans the current directory.
pub open spec fn mode_for(
    has_snapshot: bool,
    no_cache: bool,
    force: bool,
    cache_ttl: Option<u64>,
    now: Timestamp,
    last_scan: Timestamp,
) -> ScanMode {
    if !no_cache && !force && has_snapshot && elapsed_seconds(now, last_scan) < ttl_of(cache_ttl) {
        ScanMode::CacheHit
    } else if force {
        ScanMode::ForcedFull
    } else {
        ScanMode::PartialRescan
    }
}

/// Whole seconds from `then` to `now`, rounded toward zero.
pub fn seconds_between(now: Timestamp, then: Timestamp) -> (r: i128)
    ensures
        r == elapsed_seconds(now, then),
{
    let a: i128 = (now.secs as i128) * 1_000_000_000i128 + (now.nanos as i128);
    let b: i128 = (then.secs as i128) * 1_000_000_000i128 + (then.nanos as i128);
    let d: i128 = a - b;
    if d >= 0 {
        d / 1_000_000_000i128
    } else {
        let e: i128 = -d;
        -(e / 1_000_000_000i128)
    }
}

/// Decides how a run gets its tree.
pub fn choose_mode(
    has_snapshot: bool,
    no_cache: bool,
    force: bool,
    cache_ttl: Option<u64>,
    now: Timestamp,
    last_scan: Timestamp,
) -> (mode: ScanMode)
    ensures
        mode == mode_for(has_snapshot, no_cache, force, cache_ttl, now, last_scan),
{
    let ttl: u64 = match cache_ttl {
        Some(t) => t,
        None => DEFAULT_CACHE_TTL,
    };
    if !no_cache && !force && has_snapshot && seconds_between(now, last_scan) < ttl as i128 {
        ScanMode::CacheHit
    } else if force {
        ScanMode::ForcedFull
    } else {
        ScanMode::PartialRescan
    }
}

/// Where a scan starts: at the root of the filesystem when it is forced,
/// else at the current directory.
pub fn scan_root_for(force: bool, current_dir: &str) -> (root: String)
    ensures
        root@ == (if force {
            "/"@
        } else {
            current_dir@
        }),
{
    if force {
        String::from_str("/")
    } else {
        String::from_str(current_dir)
    }
}

/// The number of workers: the number asked for if one was; else the
/// number of cores, at least one, and for a scan that is not forced at
/// most four.
pub open spec fn threads_for(threads: Option<usize>, force: bool, cores: usize) -> usize {
    match threads {
        Some(n) => n,
        None => {
            let c = if cores < 1 {
                1usize
            } else {
                cores
            };
            if force || c < DEFAULT_MAX_THREADS {
                c
            } else {
                DEFAULT_MAX_THREADS
            }
        },
    }
}

/// The number of workers of a scan on a machine with `cores` cores.
pub fn worker_count(threads: Option<usize>, force: bool, cores: usize) -> (n: usize)
    ensures
        n == threads_for(threads, force, cores),
{
    match threads {
        Some(n) => n,
        None => {
            let c = if cores < 1 {
                1
            } else {
                cores
            };
            if force || c < DEFAULT_MAX_THREADS {
                c
            } else {
                DEFAULT_MAX_THREADS
            }
        },
    }
}

/// The number of children of the entries at the given keys, summed.
pub open spec fn children_sum(entries: Map<Seq<char>, DirEntryView>, keys: Seq<Seq<char>>) -> nat
    decreases keys.len(),
{
    if keys.len() == 0 {
        0
    } else {
        children_sum(entries, keys.drop_last()) + entries[keys.last()].children.len()
    }
}

/// A number held at the largest `usize`.
pub open spec fn capped(n: nat) -> usize {
    if n > usize::MAX {
        usize::MAX
    } else {
        n as usize
    }
}

/// The number of children over all entries of the cache, held at the
/// largest `usize`.
pub fn total_files(cache: &DiskCache) -> (n: usize)
    ensures
        n == capped(children_sum(cache@.entries, cache.entries.key_order())),
{
    let count = cache.entries.len();
    let ghost keys = cache.entries.key_order();
    let mut sum: usize = 0;
    let mut i: usize = 0;
    assert(keys.take(0) =~= Seq::<Seq<char>>::empty());
    while i < count
        invariant
            i <= count,
            count == keys.len(),
            keys == cache.entries.key_order(),
            sum == capped(children_sum(cache@.entries, keys.take(i as int))),
        decreases count - i,
    {
        let entry = cache.entries.entry_at(i);
        let more = entry.children.len();
        proof {
            assert(keys.take(i + 1).drop_last() =~= keys.take(i as int));
            assert(keys.take(i + 1).last() == keys[i as int]);
            assert(entry@.children.len() == more);
        }
        sum = if sum > usize::MAX - more {
            usize::MAX
        } else {
            sum + more
        };
        i += 1;
    }
    assert(keys.take(i as int) =~= keys);
    sum
}

/// What the driver does after the plan was made.
pub enum ScanPlan {
    /// The snapshot is fresh: nothing is scanned, and these are the
    /// totals to report.
    UseCache(DebugInfo),
    /// The tree is scanned from the cache's root by this many workers.
    Scan { threads: usize, is_first_run: bool },
}

/// The entry that stands for the root before it is listed.
pub open spec fn root_stub(root: Seq<char>, now: Timestamp) -> DirEntryView {
    DirEntryView {
        path: root,
        name: file_name_or_empty(root),
        modified: now,
        content_hash: 0,
        children: Seq::empty(),
        symlink_target: None,
        is_hidden: false,
        is_dir: true,
    }
}

/// The cache once a run has settled on its root: the root is recorded,
/// and on a first run the root gets an entry unless it has one.
pub open spec fn seeded(c: DiskCacheView, scan_root: Seq<char>, now: Timestamp) -> DiskCacheView {
    if !c.has_persisted_snapshot && !c.entries.dom().contains(scan_root) {
        DiskCacheView { root: scan_root, entries: c.entries.insert(scan_root, root_stub(scan_root, now)), ..c }
    } else {
        DiskCacheView { root: scan_root, ..c }
    }
}

/// Plans a run over the tree at `scan_root`. `root_exists` and
/// `root_is_dir` tell what the filesystem says of the root; a root that
/// is missing or no directory is refused before anything else happens.
/// Otherwise the cache records the root, and the plan is to use the
/// snapshot where the mode allows it, else to scan.
pub fn traverse_disk(
    cache: &mut DiskCache,
    args: &Args,
    scan_root: &str,
    root_exists: bool,
    root_is_dir: bool,
    now: Timestamp,
    cores: usize,
) -> (r: Result<ScanPlan, PTreeError>)
    ensures
        !(root_exists && root_is_dir) ==> r is Err && r->Err_0 is Traversal && final(cache)@ == old(cache)@,
        root_exists && root_is_dir ==> r is Ok && final(cache)@ == seeded(old(cache)@, scan_root@, now) && (match mode_for(
            old(cache)@.has_persisted_snapshot,
            args.no_cache,
            args.force,
            args.cache_ttl,
            now,
            old(cache)@.last_scan,
        ) {
            ScanMode::CacheHit => r->Ok_0 is UseCache && ({
                let info = r->Ok_0->UseCache_0;
                &&& !info.is_first_run
                &&& info.cache_used
                &&& info.scan_root@ == scan_root@
                &&& info.traversal_time == 0 && info.save_time == 0 && info.cache_index_time == 0
                &&& info.threads_used == 0
                &&& info.total_dirs == (if final(cache)@.entries.dom().len() == 0 {
                    final(cache)@.persisted_entry_count
                } else {
                    final(cache)@.entries.dom().len() as usize
                })
                &&& info.total_files == capped(children_sum(final(cache)@.entries, final(cache).entries.key_order()))
            }),
            _ => r->Ok_0 is Scan && r->Ok_0->threads == threads_for(args.threads, args.force, cores)
                && r->Ok_0->is_first_run == !old(cache)@.has_persisted_snapshot,
        }),
{
    if !root_exists {
        return Err(PTreeError::Traversal(String::from_str("Scan root does not exist: ").concat(scan_root)));
    }
    if !root_is_dir {
        return Err(PTreeError::Traversal(String::from_str("Scan root is not a directory: ").concat(scan_root)));
    }
    let is_first_run = !cache.has_cache_snapshot();
    cache.root = String::from_str(scan_root);
    if is_first_run && !cache.entries.contains_key(scan_root) {
        let root_entry = DirEntry {
            path: String::from_str(scan_root),
            name: entry_name(scan_root),
            modified: now,
            content_hash: 0,
            children: Vec::new(),
            symlink_target: None,
            is_hidden: false,
            is_dir: true,
        };
        assert(texts(root_entry.children@) =~= Seq::<Seq<char>>::empty());
        cache.entries.insert(String::from_str(scan_root), root_entry);
    }
    match choose_mode(!is_first_run, args.no_cache, args.force, args.cache_ttl, now, cache.last_scan) {
        ScanMode::CacheHit => {
            let total_dirs = cache.entry_count_hint();
            let files = total_files(cache);
            Ok(
                ScanPlan::UseCache(
                    DebugInfo {
                        is_first_run: false,
                        scan_root: cache.root.clone(),
                        cache_used: true,
                        traversal_time: 0,
                        save_time: 0,
                        cache_index_time: 0,
                        total_dirs,
                        total_files: files,
                        threads_used: 0,
                    },
                ),
            )
        },
        _ => Ok(ScanPlan::Scan { threads: worker_count(args.threads, args.force, cores), is_first_run }),
    }
}

/// Closes a scan: the waiting writes enter the mapping, the cache is
/// dated `now` and takes over the tally of the scan. Gives the totals of
/// the run; the time spent saving is not known yet and stands at zero.
pub fn complete_traversal(
    cache: &mut DiskCache,
    skip_stats: SkipStats,
    now: Timestamp,
    is_first_run: bool,
    threads: usize,
    traversal_time: u128,
    cache_index_time: u128,
) -> (info: DebugInfo)
    ensures
        final(cache)@ == (DiskCacheView {
            entries: apply_writes(old(cache)@.entries, old(cache)@.pending_writes),
            pending_writes: Seq::empty(),
            last_scan: now,
            skip_stats: skip_stats@,
            ..old(cache)@
        }),
        info.is_first_run == is_first_run,
        info.scan_root@ == final(cache)@.root,
        !info.cache_used,
        info.traversal_time == traversal_time,
        info.save_time == 0,
        info.cache_index_time == cache_index_time,
        info.threads_used == threads,
        final(cache)@.entries.dom().finite(),
        info.total_dirs == final(cache)@.entries.dom().len(),
        info.total_files == capped(children_sum(final(cache)@.entries, final(cache).entries.key_order())),
{
    cache.flush_pending_writes();
    cache.last_scan = now;
    cache.skip_stats = skip_stats;
    let files = total_files(cache);
    DebugInfo {
        is_first_run,
        scan_root: cache.root.clone(),
        cache_used: false,
        traversal_time,
        save_time: 0,
        cache_index_time,
        total_dirs: cache.entries.len(),
        total_files: files,
        threads_used: threads,
    }
}

} // verus!
