//! The record kept for one filesystem node, and the instant type it uses.

use vstd::prelude::*;
use vstd::string::*;
use vstd::std_specs::cmp::PartialEqSpecImpl;
use crate::text::{option_text, same_text, texts};

verus! {

/// An instant in UTC: whole seconds since the epoch and the nanoseconds
/// within that second.
#[derive(Clone, Copy, Debug, PartialEq, Eq, Structural)]
pub struct Timestamp {
    pub secs: i64,
    pub nanos: u32,
}

impl Timestamp {
    /// The instant as a count of nanoseconds since the epoch.
    pub open spec fn total_nanos(self) -> int {
        self.secs as int * 1_000_000_000 + self.nanos as int
    }
}

/// Whole seconds from `then` to `now`, rounded toward zero.
pub open spec fn elapsed_seconds(now: Timestamp, then: Timestamp) -> int {
    let d = now.total_nanos() - then.total_nanos();
    if d >= 0 {
        d / 1_000_000_000
    } else {
        -((-d) / 1_000_000_000)
    }
}

/// State of the change journal; nothing is recorded in it.
#[derive(Clone, Copy, Debug, PartialEq, Eq, Structural)]
pub struct USNJournalState {}

impl Default for USNJournalState {
    fn default() -> (r: Self)
        ensures
            r == (USNJournalState {  }),
    {
        USNJournalState {  }
    }
}

/// One filesystem node as seen by a scan.
#[derive(Debug)]
pub struct DirEntry {
    /// Absolute path of the node.
    pub path: String,
    /// Final component of `path`.
    pub name: String,
    /// When the node was observed.
    pub modified: Timestamp,
    /// Content hash of a directory; zero while unset.
    pub content_hash: u64,
    /// Names of the children, in the order they were listed.
    pub children: Vec<String>,
    /// Where the node points, if it is a symbolic link.
    pub symlink_target: Option<String>,
    /// Whether the node is marked hidden.
    pub is_hidden: bool,
    /// Whether the node is a directory.
    pub is_dir: bool,
}

/// What a `DirEntry` holds, as plain values.
pub struct DirEntryView {
    pub path: Seq<char>,
    pub name: Seq<char>,
    pub modified: Timestamp,
    pub content_hash: u64,
    pub children: Seq<Seq<char>>,
    pub symlink_target: Option<Seq<char>>,
    pub is_hidden: bool,
    pub is_dir: bool,
}

impl View for DirEntry {
    type V = DirEntryView;

    open spec fn view(&self) -> DirEntryView {
        DirEntryView {
            path: self.path@,
            name: self.name@,
            modified: self.modified,
            content_hash: self.content_hash,
            children: texts(self.children@),
            symlink_target: option_text(self.symlink_target),
            is_hidden: self.is_hidden,
            is_dir: self.is_dir,
        }
    }
}

/// A copy of every string in `v`.
pub fn clone_names(v: &Vec<String>) -> (r: Vec<String>)
    ensures
        texts(r@) == texts(v@),
{
    let mut r: Vec<String> = Vec::new();
    let mut i: usize = 0;
    while i < v.len()
        invariant
            i <= v.len(),
            r.len() == i,
            forall|j: int| 0 <= j < i ==> r@[j]@ == v@[j]@,
        decreases v.len() - i,
    {
        r.push(v[i].clone());
        i += 1;
    }
    assert(texts(r@) =~= texts(v@));
    r
}

impl Clone for DirEntry {
    fn clone(&self) -> (r: Self)
        ensures
            r@ == self@,
    {
        let symlink_target = match &self.symlink_target {
            Some(t) => Some(t.clone()),
            None => None,
        };
        DirEntry {
            path: self.path.clone(),
            name: self.name.clone(),
            modified: self.modified,
            content_hash: self.content_hash,
            children: clone_names(&self.children),
            symlink_target,
            is_hidden: self.is_hidden,
            is_dir: self.is_dir,
        }
    }
}

/// Whether two lists hold the same strings in the same order.
pub fn same_names(a: &Vec<String>, b: &Vec<String>) -> (r: bool)
    ensures
        r == (texts(a@) == texts(b@)),
{
    if a.len() != b.len() {
        assert(texts(a@).len() != texts(b@).len());
        return false;
    }
    let mut i: usize = 0;
    while i < a.len()
        invariant
            i <= a.len(),
            a.len() == b.len(),
            forall|j: int| 0 <= j < i ==> a@[j]@ == b@[j]@,
        decreases a.len() - i,
    {
        if !(a[i] == b[i]) {
            assert(texts(a@)[i as int] != texts(b@)[i as int]);
            return false;
        }
        i += 1;
    }
    assert(texts(a@) =~= texts(b@));
    true
}

impl PartialEq for DirEntry {
    fn eq(&self, other: &Self) -> (r: bool) {
        let targets = match &self.symlink_target {
            Some(a) => match &other.symlink_target {
                Some(b) => same_text(a.as_str(), b.as_str()),
                None => false,
            },
            None => other.symlink_target.is_none(),
        };
        let paths = self.path == other.path;
        let names = self.name == other.name;
        let times = self.modified.secs == other.modified.secs && self.modified.nanos == other.modified.nanos;
        let hashes = self.content_hash == other.content_hash;
        let children = same_names(&self.children, &other.children);
        let flags = self.is_hidden == other.is_hidden && self.is_dir == other.is_dir;
        paths && names && times && hashes && children && targets && flags
    }
}

impl PartialEqSpecImpl for DirEntry {
    open spec fn obeys_eq_spec() -> bool {
        true
    }

    open spec fn eq_spec(&self, other: &Self) -> bool {
        self@ == other@
    }
}

/// Whether a directory changed between two observations: its content
/// hashes differ.
pub fn has_directory_changed(old_entry: &DirEntry, new_entry: &DirEntry) -> (changed: bool)
    ensures
        changed == (old_entry@.content_hash != new_entry@.content_hash),
{
    old_entry.content_hash != new_entry.content_hash
}

} // verus!
