//! The persistent store: an index from path to byte offset, and a data
//! stream of length-prefixed records.
//!
//! Each record is four bytes that hold the payload's length as a
//! little-endian `u32`, followed by the payload. The index commits a
//! snapshot; a record that does not fit in the data is treated as absent.

use vstd::prelude::*;
use vstd::string::*;
use vstd::bytes::{
    lemma_auto_spec_u32_to_from_le_bytes, spec_u32_from_le_bytes, spec_u32_to_le_bytes, u32_from_le_bytes,
    u32_to_le_bytes,
};
use vstd::slice::slice_subrange;
use crate::entry::{Timestamp, USNJournalState};
use crate::error::PTreeError;
use crate::names::NameSet;
use crate::skip::SkipStats;

verus! {

/// The bytes of the record that carries `payload`.
pub open spec fn frame(payload: Seq<u8>) -> Seq<u8> {
    spec_u32_to_le_bytes(payload.len() as u32) + payload
}

/// The payload of the record that starts at `offset` in `data`, if a whole
/// record stands there.
pub open spec fn record_at(data: Seq<u8>, offset: int) -> Option<Seq<u8>> {
    if 0 <= offset && offset + 4 <= data.len() {
        let len = spec_u32_from_le_bytes(data.subrange(offset, offset + 4)) as int;
        if offset + 4 + len <= data.len() {
            Some(data.subrange(offset + 4, offset + 4 + len))
        } else {
            None
        }
    } else {
        None
    }
}

/// A record appended to `data` is read back at the offset where it began.
pub proof fn lemma_appended_record_reads_back(data: Seq<u8>, payload: Seq<u8>)
    requires
        payload.len() <= u32::MAX,
    ensures
        record_at(data + frame(payload), data.len() as int) == Some(payload),
{
    lemma_auto_spec_u32_to_from_le_bytes();
    let all = data + frame(payload);
    let at = data.len() as int;
    assert(spec_u32_to_le_bytes(payload.len() as u32).len() == 4);
    assert(all.subrange(at, at + 4) =~= spec_u32_to_le_bytes(payload.len() as u32));
    assert(all.subrange(at + 4, at + 4 + payload.len()) =~= payload);
}

/// Appending to the data leaves every record that could be read before
/// as it was.
pub proof fn lemma_append_keeps_records(data: Seq<u8>, more: Seq<u8>, offset: int)
    requires
        record_at(data, offset) is Some,
    ensures
        record_at(data + more, offset) == record_at(data, offset),
{
    let all = data + more;
    assert(all.subrange(offset, offset + 4) =~= data.subrange(offset, offset + 4));
    let len = spec_u32_from_le_bytes(data.subrange(offset, offset + 4)) as int;
    assert(all.subrange(offset + 4, offset + 4 + len) =~= data.subrange(offset + 4, offset + 4 + len));
}

/// Reads the payload of the record that starts at `offset`.
pub fn read_record<'a>(data: &'a [u8], offset: u64) -> (r: Option<&'a [u8]>)
    ensures
        match r {
            Some(p) => record_at(data@, offset as int) == Some(p@),
            None => record_at(data@, offset as int) is None,
        },
{
    let n = data.len();
    if n < 4 || offset > (n - 4) as u64 {
        return None;
    }
    let at = offset as usize;
    let len = u32_from_le_bytes(slice_subrange(data, at, at + 4));
    let rest = n - 4 - at;
    if (len as u64) > (rest as u64) {
        return None;
    }
    Some(slice_subrange(data, at + 4, at + 4 + len as usize))
}

/// Appends the record for `payload` to `data` and gives the offset at
/// which it starts; a payload too long for a `u32` length is refused and
/// `data` stays as it was.
pub fn append_record(data: &mut Vec<u8>, payload: &[u8]) -> (r: Result<u64, PTreeError>)
    ensures
        payload@.len() <= u32::MAX ==> r == Ok::<u64, PTreeError>(old(data)@.len() as u64) && final(data)@
            == old(data)@ + frame(payload@),
        payload@.len() > u32::MAX ==> r is Err && r->Err_0 is Serialization && final(data)@ == old(data)@,
{
    if payload.len() > u32::MAX as usize {
        return Err(PTreeError::Serialization(String::from_str("record longer than a 32-bit length")));
    }
    let offset = data.len() as u64;
    let ghost before = data@;
    let mut head = u32_to_le_bytes(payload.len() as u32);
    data.append(&mut head);
    let mut i: usize = 0;
    while i < payload.len()
        invariant
            i <= payload@.len(),
            data@ == before + spec_u32_to_le_bytes(payload@.len() as u32) + payload@.take(i as int),
        decreases payload@.len() - i,
    {
        data.push(payload[i]);
        assert(payload@.take(i + 1) =~= payload@.take(i as int).push(payload@[i as int]));
        i += 1;
    }
    assert(payload@.take(i as int) =~= payload@);
    assert(data@ =~= before + frame(payload@));
    Ok(offset)
}

/// The byte offset recorded for each path of a snapshot.
pub struct OffsetTable {
    paths: NameSet,
    offsets: Vec<u64>,
}

impl View for OffsetTable {
    type V = Map<Seq<char>, u64>;

    closed spec fn view(&self) -> Map<Seq<char>, u64> {
        Map::new(
            |k: Seq<char>| self.paths@.contains(k),
            |k: Seq<char>| self.offsets@[self.paths.order().index_of(k)],
        )
    }
}

impl OffsetTable {
    #[verifier::type_invariant]
    spec fn well_formed(self) -> bool {
        self.paths.order().len() == self.offsets@.len()
    }

    /// The paths in the order in which they were recorded.
    pub closed spec fn key_order(&self) -> Seq<Seq<char>> {
        self.paths.order()
    }

    /// A table without any path.
    pub fn new() -> (r: Self)
        ensures
            r@ == Map::<Seq<char>, u64>::empty(),
            r.key_order().len() == 0,
    {
        let r = OffsetTable { paths: NameSet::new(), offsets: Vec::new() };
        assert(r@ =~= Map::<Seq<char>, u64>::empty());
        r
    }

    /// The number of paths.
    pub fn len(&self) -> (n: usize)
        ensures
            n == self.key_order().len(),
            self.key_order().no_duplicates(),
            self@.dom() == self.key_order().to_set(),
            self@.dom().finite(),
            n == self@.dom().len(),
    {
        let n = self.paths.len();
        assert(self@.dom() =~= self.paths@);
        n
    }

    /// Whether the table holds no path.
    pub fn is_empty(&self) -> (b: bool)
        ensures
            b == (self@.dom().len() == 0),
            self@.dom().finite(),
    {
        self.len() == 0
    }

    /// The offset recorded for `path`, if any.
    pub fn get(&self, path: &str) -> (r: Option<u64>)
        ensures
            r == (if self@.dom().contains(path@) {
                Some(self@[path@])
            } else {
                None
            }),
    {
        proof {
            use_type_invariant(self);
        }
        let n = self.paths.len();
        match self.paths.position(path) {
            Some(i) => {
                proof {
                    self.paths.order().index_of_first_ensures(path@);
                    let j = self.paths.order().index_of(path@);
                    assert(self.paths.order()[j] == path@);
                    assert(self.paths.order().contains(path@));
                    if j != i {
                        assert(self.paths.order()[j] != self.paths.order()[i as int]);
                    }
                }
                Some(self.offsets[i])
            },
            None => None,
        }
    }

    /// The path at position `i` of the order.
    pub fn key_at(&self, i: usize) -> (k: &String)
        requires
            i < self.key_order().len(),
        ensures
            k@ == self.key_order()[i as int],
            self@.dom().contains(k@),
    {
        self.paths.name_at(i)
    }

    /// Records `offset` for `path`, replacing what was recorded before.
    pub fn insert(&mut self, path: String, offset: u64)
        ensures
            final(self)@ == old(self)@.insert(path@, offset),
            final(self).key_order() == (if old(self)@.dom().contains(path@) {
                old(self).key_order()
            } else {
                old(self).key_order().push(path@)
            }),
    {
        proof {
            use_type_invariant(&*self);
        }
        let ghost before = *self;
        let ghost k = path@;
        let n = self.paths.len();
        let found = self.paths.position(path.as_str());
        let mut taken = OffsetTable::new();
        core::mem::swap(self, &mut taken);
        let OffsetTable { mut paths, mut offsets } = taken;
        match found {
            Some(i) => {
                offsets.set(i, offset);
            },
            None => {
                paths.insert(path);
                offsets.push(offset);
            },
        }
        let ghost after = OffsetTable { paths, offsets };
        let m = paths.len();
        proof {
            let o0 = before.paths.order();
            let o1 = paths.order();
            assert(after@ =~= before@.insert(k, offset)) by {
                assert forall|q: Seq<char>| after@.dom().contains(q) implies after@[q] == before@.insert(k, offset)[q] by {
                    o1.index_of_first_ensures(q);
                    let j1 = o1.index_of(q);
                    assert(o1.contains(q));
                    assert(o1[j1] == q);
                    if q == k {
                        match found {
                            Some(i) => {
                                if j1 != i {
                                    assert(o1[j1] != o1[i as int]);
                                }
                            },
                            None => {
                                if j1 != o0.len() {
                                    assert(o1[j1] != o1[o0.len() as int]);
                                }
                            },
                        }
                    } else {
                        assert(o0.contains(q)) by {
                            if j1 < o0.len() {
                                assert(o0[j1] == q);
                            }
                        }
                        o0.index_of_first_ensures(q);
                        let j0 = o0.index_of(q);
                        assert(o0[j0] == q);
                        if j0 != j1 {
                            assert(o1[j0] == q);
                            assert(o1[j0] != o1[j1]);
                        }
                    }
                }
            }
        }
        *self = OffsetTable { paths, offsets };
    }
}

/// The header of a snapshot: where each record starts, and the settings
/// of the cache at the time of the save.
pub struct RkyvCacheIndex {
    /// Byte offset of each path's record in the data.
    pub offsets: OffsetTable,
    /// When the snapshot was saved.
    pub last_scan: Timestamp,
    /// Root of the session that saved it.
    pub root: String,
    /// Root of the most recent scan.
    pub last_scanned_root: String,
    /// State of the change journal.
    pub usn_state: USNJournalState,
    /// What the scan passed over.
    pub skip_stats: SkipStats,
}

impl RkyvCacheIndex {
    /// An index without records, dated `now`.
    pub fn new(now: Timestamp) -> (r: Self)
        ensures
            r.offsets@ == Map::<Seq<char>, u64>::empty(),
            r.offsets.key_order().len() == 0,
            r.last_scan == now,
            r.root@ == Seq::<char>::empty(),
            r.last_scanned_root@ == Seq::<char>::empty(),
            r.skip_stats@ == Seq::<(Seq<char>, usize)>::empty(),
    {
        RkyvCacheIndex {
            offsets: OffsetTable::new(),
            last_scan: now,
            root: String::new(),
            last_scanned_root: String::new(),
            usn_state: USNJournalState {  },
            skip_stats: SkipStats::new(),
        }
    }
}

/// The payloads that can be read for the paths `keys`, in that order;
/// a path whose record does not fit in `data` is left out.
pub open spec fn readable_payloads(keys: Seq<Seq<char>>, offsets: Map<Seq<char>, u64>, data: Seq<u8>) -> Seq<Seq<u8>>
    decreases keys.len(),
{
    if keys.len() == 0 {
        Seq::empty()
    } else {
        let before = readable_payloads(keys.drop_last(), offsets, data);
        match record_at(data, offsets[keys.last()] as int) {
            Some(p) => before.push(p),
            None => before,
        }
    }
}

/// Where every path has a readable record, reading all records gives the
/// payloads of the paths in order: what a save framed is what a later
/// read finds.
pub proof fn lemma_saved_payloads_read_back(
    keys: Seq<Seq<char>>,
    offsets: Map<Seq<char>, u64>,
    data: Seq<u8>,
    payloads: Seq<Seq<u8>>,
)
    requires
        keys.len() == payloads.len(),
        forall|i: int| 0 <= i < keys.len() ==> record_at(data, (#[trigger] offsets[keys[i]]) as int) == Some(payloads[i]),
    ensures
        readable_payloads(keys, offsets, data) == payloads,
    decreases keys.len(),
{
    if keys.len() == 0 {
        assert(payloads =~= Seq::<Seq<u8>>::empty());
    } else {
        let n = keys.len() - 1;
        assert forall|i: int| 0 <= i < n implies record_at(data, (#[trigger] offsets[keys.drop_last()[i]]) as int) == Some(
            payloads.drop_last()[i],
        ) by {
            assert(record_at(data, offsets[keys[i]] as int) == Some(payloads[i]));
        }
        lemma_saved_payloads_read_back(keys.drop_last(), offsets, data, payloads.drop_last());
        assert(record_at(data, offsets[keys[n]] as int) == Some(payloads[n]));
        assert(payloads =~= payloads.drop_last().push(payloads[n]));
    }
}

/// The bytes of a sequence of slices, slice by slice.
pub open spec fn slice_views(v: Seq<&[u8]>) -> Seq<Seq<u8>> {
    Seq::new(v.len(), |i: int| v[i]@)
}

/// A snapshot opened for reading: its index, and its data if there is any.
pub struct RkyvMmapCache<'a> {
    /// The index of the snapshot.
    pub index: RkyvCacheIndex,
    /// The bytes of the data, when the data exists.
    pub data: Option<&'a [u8]>,
}

impl<'a> RkyvMmapCache<'a> {
    /// Opens a snapshot from what was found: the index if one was read,
    /// and the data if it exists. Without an index the snapshot is empty
    /// and dated `now`.
    pub fn open(index: Option<RkyvCacheIndex>, data: Option<&'a [u8]>, now: Timestamp) -> (r: Self)
        ensures
            r.data == data,
            match index {
                Some(idx) => r.index == idx,
                None => r.index.offsets@ == Map::<Seq<char>, u64>::empty() && r.index.last_scan == now
                    && r.index.root@.len() == 0 && r.index.last_scanned_root@.len() == 0
                    && r.index.skip_stats@.len() == 0,
            },
    {
        let index = match index {
            Some(idx) => idx,
            None => RkyvCacheIndex::new(now),
        };
        RkyvMmapCache { index, data }
    }

    /// The payload recorded for `path`: nothing when the index does not
    /// know the path or its record does not fit in the data; an error when
    /// the index knows the path and there is no data.
    pub fn get_entry(&self, path: &str) -> (r: Result<Option<&'a [u8]>, PTreeError>)
        ensures
            !self.index.offsets@.dom().contains(path@) ==> r == Ok::<Option<&'a [u8]>, PTreeError>(None),
            self.index.offsets@.dom().contains(path@) && self.data is None ==> r is Err && r->Err_0 is Cache,
            self.index.offsets@.dom().contains(path@) && self.data is Some ==> r is Ok && (match r->Ok_0 {
                Some(p) => record_at(self.data->0@, self.index.offsets@[path@] as int) == Some(p@),
                None => record_at(self.data->0@, self.index.offsets@[path@] as int) is None,
            }),
    {
        let offset = match self.index.offsets.get(path) {
            Some(off) => off,
            None => {
                return Ok(None);
            },
        };
        match self.data {
            None => Err(PTreeError::Cache(String::from_str("No mmap loaded"))),
            Some(data) => Ok(read_record(data, offset)),
        }
    }

    /// The payloads of all records that the index knows and that fit in
    /// the data, in the order of the index; an error when the index knows
    /// a path and there is no data.
    pub fn get_all(&self) -> (r: Result<Vec<&'a [u8]>, PTreeError>)
        ensures
            self.index.offsets@.dom().len() > 0 && self.data is None ==> r is Err && r->Err_0 is Cache,
            self.index.offsets@.dom().len() == 0 ==> r is Ok && r->Ok_0@.len() == 0,
            self.data is Some ==> r is Ok && slice_views(r->Ok_0@) == readable_payloads(
                self.index.offsets.key_order(),
                self.index.offsets@,
                self.data->0@,
            ),
    {
        let n = self.index.offsets.len();
        let mut out: Vec<&'a [u8]> = Vec::new();
        let ghost keys = self.index.offsets.key_order();
        let mut i: usize = 0;
        assert(keys.take(0) =~= Seq::<Seq<char>>::empty());
        assert(slice_views(out@) =~= Seq::<Seq<u8>>::empty());
        while i < n
            invariant
                i <= n,
                n == keys.len(),
                keys == self.index.offsets.key_order(),
                self.index.offsets@.dom().finite(),
                n == self.index.offsets@.dom().len(),
                i > 0 ==> self.data is Some,
                self.data is Some ==> slice_views(out@) == readable_payloads(
                    keys.take(i as int),
                    self.index.offsets@,
                    self.data->0@,
                ),
                i == 0 ==> out@.len() == 0,
            decreases n - i,
        {
            let key = self.index.offsets.key_at(i);
            let ghost before = slice_views(out@);
            assert(keys.take(i + 1).drop_last() =~= keys.take(i as int));
            assert(keys.take(i + 1).last() == keys[i as int]);
            match self.get_entry(key.as_str()) {
                Err(e) => {
                    return Err(e);
                },
                Ok(found) => {
                    if let Some(p) = found {
                        out.push(p);
                        assert(slice_views(out@) =~= before.push(p@));
                    }
                },
            }
            i += 1;
        }
        assert(keys.take(i as int) =~= keys);
        Ok(out)
    }

    /// Appends the record for `payload` to `data`; gives its offset.
    pub fn append_entry(data: &mut Vec<u8>, payload: &[u8]) -> (r: Result<u64, PTreeError>)
        ensures
            payload@.len() <= u32::MAX ==> r == Ok::<u64, PTreeError>(old(data)@.len() as u64) && final(data)@
                == old(data)@ + frame(payload@),
            payload@.len() > u32::MAX ==> r is Err && r->Err_0 is Serialization && final(data)@ == old(data)@,
    {
        append_record(data, payload)
    }

    /// The number of paths that the index knows.
    pub fn len(&self) -> (n: usize)
        ensures
            self.index.offsets@.dom().finite(),
            n == self.index.offsets@.dom().len(),
    {
        self.index.offsets.len()
    }

    /// Whether the index knows no path.
    pub fn is_empty(&self) -> (b: bool)
        ensures
            b == (self.index.offsets@.dom().len() == 0),
    {
        self.index.offsets.is_empty()
    }
}

} // verus!
