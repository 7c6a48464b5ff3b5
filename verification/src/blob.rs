//! The blob tree: the outward-facing key-value separated store.
//!
//! It composes the LSM index with the value log.  Writes always enter
//! the index inline; the flush pipeline rewrites a frozen memtable into
//! an immutable index segment, moving every value of at least
//! [`SEP_THRESHOLD`] bytes into a freshly written value-log segment and
//! keeping a handle in its place.  Reads resolve either representation
//! transparently.

use vstd::prelude::*;
use crate::codec::{spec_decode, spec_encode, decode, encode, EntryModel, EncodedEntry,
    DecodeError, ValueHandle, lemma_codec_round_trip};
use crate::error::Error;
use crate::index::{IndexTree, InternalEntry, ValueType, entry_lt, entries_sorted, entry_ok,
    mem_entry_ok, src_winner, segs_winner, combine_late, record_size, table_size,
    lemma_winner_member, lemma_segs_winner_member, lemma_src_winner_pointwise};
use crate::vlog::{ValueLog, seg_lookup, lemma_seg_lookup_push, lemma_seg_lookup_member,
    lemma_find_segment_member};

verus! {

/// Values of at least this many bytes are separated at flush time;
/// strictly smaller values stay inline in the index.
pub const SEP_THRESHOLD: usize = 4096;

/// A key-value separated log-structured merge tree.
///
/// The index holds every version of every key; the value log holds the
/// bytes of separated values.  The tree is usable whenever [`BlobTree::wf`]
/// holds, which every operation preserves.
pub struct BlobTree {
    pub index: IndexTree,
    pub blobs: ValueLog,
}

impl BlobTree {
    /// Every out-of-line reference stored in an index segment resolves
    /// in the value log: no reader ever sees a handle into an
    /// unregistered segment.
    pub open spec fn handles_ok(self) -> bool {
        forall|i: int, j: int| 0 <= i < self.index.segments@.len()
            && 0 <= j < self.index.segments@[i].entries@.len()
            ==> match spec_decode((#[trigger] self.index.segments@[i].entries@[j]).raw@) {
                Ok(EntryModel::Indirect(h)) => self.blobs.lookup(h) is Some,
                _ => true,
            }
    }

    /// The store's invariant.
    pub open spec fn wf(self) -> bool {
        &&& self.index.wf()
        &&& self.blobs.wf()
        &&& self.handles_ok()
    }

    /// The user bytes one stored version stands for, after resolving an
    /// out-of-line handle through the value log.
    pub open spec fn resolve(self, w: InternalEntry) -> Option<Seq<u8>> {
        match w.vtype {
            ValueType::Tombstone => None,
            ValueType::Value => match spec_decode(w.raw@) {
                Ok(EntryModel::Inline(b)) => Some(b),
                Ok(EntryModel::Indirect(h)) => self.blobs.lookup(h),
                Err(_) => None,
            },
        }
    }

    /// The value a reader observes for `k`: the resolved bytes of the
    /// winning version, or nothing if the key is absent or deleted.
    pub open spec fn visible(self, k: Seq<u8>) -> Option<Seq<u8>> {
        match self.index.winner(k) {
            None => None,
            Some(w) => self.resolve(w),
        }
    }

    /// The sequence number of the winning version of `k`, deleted or not.
    pub open spec fn version(self, k: Seq<u8>) -> Option<u64> {
        match self.index.winner(k) {
            None => None,
            Some(w) => Some(w.seqno),
        }
    }

    /// Opens an empty store.
    pub fn open() -> (r: BlobTree)
        ensures
            r.wf(),
            forall|k: Seq<u8>| r.visible(k) is None,
            forall|k: Seq<u8>| r.version(k) is None,
            r.index.memtable@.len() == 0,
            r.index.segments@.len() == 0,
            r.index.next_segment_id == 0,
            r.blobs.next_segment_id == 0,
    {
        BlobTree { index: IndexTree::open(), blobs: ValueLog::open() }
    }

    /// Inserts `value` under `key` at sequence number `seqno`.  The pair
    /// becomes visible exactly when `seqno` is at least as high as the
    /// key's current version; older versions of other keys are never
    /// touched.  Returns the entry's accounted size and the memtable's
    /// size after the write.
    pub fn insert(&mut self, key: &Vec<u8>, value: &Vec<u8>, seqno: u64) -> (r: (u32, u32))
        requires
            old(self).wf(),
        ensures
            final(self).wf(),
            final(self).blobs == old(self).blobs,
            final(self).index.segments == old(self).index.segments,
            final(self).index.next_segment_id == old(self).index.next_segment_id,
            forall|k: Seq<u8>| k != key@ ==> {
                &&& final(self).visible(k) == old(self).visible(k)
                &&& final(self).version(k) == old(self).version(k)
            },
            (match old(self).version(key@) {
                Some(s0) => if seqno >= s0 {
                    final(self).visible(key@) == Some(value@)
                        && final(self).version(key@) == Some(seqno)
                } else {
                    final(self).visible(key@) == old(self).visible(key@)
                        && final(self).version(key@) == old(self).version(key@)
                },
                None => final(self).visible(key@) == Some(value@)
                    && final(self).version(key@) == Some(seqno),
            }),
            final(self).index.memtable@.len() > 0,
            r.0 == record_size(key@, spec_encode(EntryModel::Inline(value@))),
            r.1 == table_size(final(self).index.memtable@),
    {
        let ck = key.clone();
        let raw = encode(&EncodedEntry::Inline(value.clone()));
        proof {
            assert(ck@ =~= key@);
            lemma_codec_round_trip(EntryModel::Inline(value@));
        }
        let entry = InternalEntry { key: ck, seqno, vtype: ValueType::Value, raw };
        self.index.insert_entry(entry)
    }

    /// Deletes `key` at sequence number `seqno` by writing a tombstone.
    /// The key reads as absent exactly when `seqno` is at least as high
    /// as its current version; the value log is never involved.
    pub fn remove(&mut self, key: &Vec<u8>, seqno: u64) -> (r: (u32, u32))
        requires
            old(self).wf(),
        ensures
            final(self).wf(),
            final(self).blobs == old(self).blobs,
            final(self).index.segments == old(self).index.segments,
            final(self).index.next_segment_id == old(self).index.next_segment_id,
            forall|k: Seq<u8>| k != key@ ==> {
                &&& final(self).visible(k) == old(self).visible(k)
                &&& final(self).version(k) == old(self).version(k)
            },
            (match old(self).version(key@) {
                Some(s0) => if seqno >= s0 {
                    final(self).visible(key@) is None
                        && final(self).version(key@) == Some(seqno)
                } else {
                    final(self).visible(key@) == old(self).visible(key@)
                        && final(self).version(key@) == old(self).version(key@)
                },
                None => final(self).visible(key@) is None
                    && final(self).version(key@) == Some(seqno),
            }),
            r.0 == record_size(key@, Seq::<u8>::empty()),
            r.1 == table_size(final(self).index.memtable@),
    {
        let ck = key.clone();
        proof {
            assert(ck@ =~= key@);
        }
        let entry = InternalEntry {
            key: ck,
            seqno,
            vtype: ValueType::Tombstone,
            raw: Vec::new(),
        };
        proof {
            assert(entry.raw@ =~= Seq::<u8>::empty());
        }
        self.index.insert_entry(entry)
    }

    /// Point lookup: the visible value of `key`, or nothing for an
    /// absent or deleted key.  While the invariant holds this never
    /// fails; the error branches guard against corrupt or dangling data
    /// and are proved unreachable.
    pub fn get(&self, key: &Vec<u8>) -> (r: Result<Option<Vec<u8>>, Error>)
        requires
            self.wf(),
        ensures
            match r {
                Ok(Some(v)) => self.visible(key@) == Some(v@),
                Ok(None) => self.visible(key@) is None,
                Err(_) => false,
            },
    {
        proof {
            lemma_winner_member(self.index, key@);
        }
        match self.index.get_entry(key) {
            None => Ok(None),
            Some(e) => match e.vtype {
                ValueType::Tombstone => Ok(None),
                ValueType::Value => match decode(&e.raw) {
                    Err(er) => Err(Error::Corruption(er)),
                    Ok(EncodedEntry::Inline(b)) => Ok(Some(b)),
                    Ok(EncodedEntry::Indirect(h)) => match self.blobs.get(&h) {
                        Some(b) => Ok(Some(b)),
                        None => Err(Error::DataLoss),
                    },
                },
            },
        }
    }
}


/// How one frozen memtable entry relates to the segment entry the flush
/// wrote for it, with the separated bytes looked up in `blobs`: same key,
/// seqno and kind; a small value re-encoded inline, a large one replaced
/// by a handle into the value-log segment `sid` — the one this very
/// flush registered — that resolves to the very same bytes.
pub open spec fn flushed_entry(
    old_e: InternalEntry,
    new_e: InternalEntry,
    blobs: ValueLog,
    sid: u64,
) -> bool {
    &&& new_e.key@ == old_e.key@
    &&& new_e.seqno == old_e.seqno
    &&& new_e.vtype == old_e.vtype
    &&& match old_e.vtype {
        ValueType::Tombstone => new_e.raw@ == old_e.raw@,
        ValueType::Value => match spec_decode(old_e.raw@) {
            Ok(EntryModel::Inline(b)) => if b.len() >= SEP_THRESHOLD {
                match spec_decode(new_e.raw@) {
                    Ok(EntryModel::Indirect(h)) => h.segment_id == sid
                        && blobs.lookup(h) == Some(b),
                    _ => false,
                }
            } else {
                spec_decode(new_e.raw@) == Ok::<EntryModel, DecodeError>(EntryModel::Inline(b))
            },
            _ => false,
        },
    }
}

/// The whole frozen memtable against the whole flushed segment.
pub open spec fn flushed_rel(
    mem: Seq<InternalEntry>,
    seg: Seq<InternalEntry>,
    blobs: ValueLog,
    sid: u64,
) -> bool {
    &&& seg.len() == mem.len()
    &&& forall|j: int| 0 <= j < mem.len()
        ==> flushed_entry(mem[j], #[trigger] seg[j], blobs, sid)
}

/// As [`flushed_entry`], but against the still-unregistered writer: the
/// handle carries the writer's segment id and resolves in its entries.
spec fn writer_flushed(
    old_e: InternalEntry,
    new_e: InternalEntry,
    wid: u64,
    wentries: Seq<crate::vlog::VlogEntry>,
) -> bool {
    &&& new_e.key@ == old_e.key@
    &&& new_e.seqno == old_e.seqno
    &&& new_e.vtype == old_e.vtype
    &&& match old_e.vtype {
        ValueType::Tombstone => new_e.raw@ == old_e.raw@,
        ValueType::Value => match spec_decode(old_e.raw@) {
            Ok(EntryModel::Inline(b)) => if b.len() >= SEP_THRESHOLD {
                match spec_decode(new_e.raw@) {
                    Ok(EntryModel::Indirect(h)) => h.segment_id == wid
                        && seg_lookup(wentries, h.offset) == Some(b),
                    _ => false,
                }
            } else {
                spec_decode(new_e.raw@) == Ok::<EntryModel, DecodeError>(EntryModel::Inline(b))
            },
            _ => false,
        },
    }
}

impl BlobTree {
    /// Rotates the memtable and rewrites it into one immutable index
    /// segment and one value-log segment: values of at least
    /// [`SEP_THRESHOLD`] bytes move to the value log behind a handle,
    /// smaller ones stay inline, tombstones pass through.  The value-log
    /// segment is registered before the index segment becomes visible,
    /// so no reader ever meets an unregistered handle.  Every key reads
    /// exactly as it did before the flush.  Returns nothing to do when
    /// the memtable is empty.
    pub fn flush_active_memtable(&mut self) -> (r: Result<Option<()>, Error>)
        requires
            old(self).wf(),
            old(self).index.next_segment_id < u64::MAX,
            old(self).blobs.next_segment_id < u64::MAX,
        ensures
            final(self).wf(),
            match r {
                Ok(None) => *final(self) == *old(self) && old(self).index.memtable@.len() == 0,
                Ok(Some(_)) => {
                    &&& old(self).index.memtable@.len() > 0
                    &&& final(self).index.memtable@.len() == 0
                    &&& final(self).index.next_segment_id
                        == old(self).index.next_segment_id + 1
                    &&& final(self).blobs.next_segment_id
                        == old(self).blobs.next_segment_id + 1
                    &&& forall|k: Seq<u8>| final(self).visible(k) == old(self).visible(k)
                    &&& forall|k: Seq<u8>| final(self).version(k) == old(self).version(k)
                    &&& final(self).index.segments@.len()
                        == old(self).index.segments@.len() + 1
                    &&& forall|i: int| 0 <= i < old(self).index.segments@.len()
                        ==> final(self).index.segments@[i] == old(self).index.segments@[i]
                    &&& final(self).blobs.segments@.len()
                        == old(self).blobs.segments@.len() + 1
                    &&& forall|i: int| 0 <= i < old(self).blobs.segments@.len()
                        ==> final(self).blobs.segments@[i] == old(self).blobs.segments@[i]
                    &&& final(self).blobs.segments@.last().id
                        == old(self).blobs.next_segment_id
                    &&& flushed_rel(
                        old(self).index.memtable@,
                        final(self).index.segments@.last().entries@,
                        final(self).blobs,
                        final(self).blobs.segments@.last().id,
                    )
                },
                Err(_) => false,
            },
    {
        let ghost mem0 = old(self).index.memtable@;
        let rot = self.index.rotate_memtable();
        let (seg_id, frozen) = match rot {
            None => {
                return Ok(None);
            }
            Some(p) => p,
        };
        let ghost idx1 = self.index;
        let ghost bl0 = old(self).blobs;
        let mut writer = self.blobs.get_writer();
        let ghost bl1 = self.blobs;
        let blob_id = writer.segment_id();
        let mut out: Vec<InternalEntry> = Vec::new();
        let mut i: usize = 0;
        while i < frozen.len()
            invariant
                0 <= i <= frozen@.len(),
                frozen@ == mem0,
                self.index == idx1,
                self.blobs == bl1,
                forall|j: int| 0 <= j < mem0.len() ==> mem_entry_ok(#[trigger] mem0[j]),
                writer.segment_id == blob_id,
                writer.wf(),
                out@.len() == i,
                forall|j: int| 0 <= j < i
                    ==> writer_flushed(mem0[j], #[trigger] out@[j], blob_id, writer.entries@),
            decreases frozen@.len() - i,
        {
            proof {
                assert(mem_entry_ok(mem0[i as int]));
            }
            let e = &frozen[i];
            match e.vtype {
                ValueType::Tombstone => {
                    out.push(InternalEntry {
                        key: e.key.clone(),
                        seqno: e.seqno,
                        vtype: ValueType::Tombstone,
                        raw: Vec::new(),
                    });
                    proof {
                        assert(out@.last().raw@ =~= mem0[i as int].raw@);
                        assert(writer_flushed(mem0[i as int], out@.last(), blob_id,
                            writer.entries@));
                    }
                }
                ValueType::Value => {
                    match decode(&e.raw) {
                        Err(er) => {
                            return Err(Error::Corruption(er));
                        }
                        Ok(EncodedEntry::Indirect(_)) => {
                            return Err(Error::InvariantViolation);
                        }
                        Ok(EncodedEntry::Inline(v)) => {
                            if v.len() >= SEP_THRESHOLD {
                                let ghost went0 = writer.entries@;
                                let offset = writer.offset(&e.key);
                                let handle = ValueHandle { segment_id: blob_id, offset };
                                writer.write(&e.key, &v);
                                let raw2 = encode(&EncodedEntry::Indirect(handle));
                                out.push(InternalEntry {
                                    key: e.key.clone(),
                                    seqno: e.seqno,
                                    vtype: ValueType::Value,
                                    raw: raw2,
                                });
                                proof {
                                    lemma_codec_round_trip(EntryModel::Indirect(handle));
                                    let went1 = writer.entries@;
                                    assert(went1 =~= went0.push(went1.last()));
                                    assert forall|off: u64|
                                        seg_lookup(went1, off) == (if off == offset {
                                            Some(v@)
                                        } else {
                                            seg_lookup(went0, off)
                                        }) by {
                                        lemma_seg_lookup_push(went0, went1.last(), off);
                                    }
                                    assert forall|j: int| 0 <= j < i + 1
                                        implies writer_flushed(mem0[j], #[trigger] out@[j],
                                            blob_id, went1) by {
                                        if j < i {
                                            assert(writer_flushed(mem0[j], out@[j], blob_id,
                                                went0));
                                            if mem0[j].vtype is Value {
                                                match spec_decode(mem0[j].raw@) {
                                                    Ok(EntryModel::Inline(b)) => {
                                                        if b.len() >= SEP_THRESHOLD {
                                                            match spec_decode(out@[j].raw@) {
                                                                Ok(EntryModel::Indirect(h)) => {
                                                                    lemma_seg_lookup_member(
                                                                        went0, h.offset);
                                                                }
                                                                _ => {}
                                                            }
                                                        }
                                                    }
                                                    _ => {}
                                                }
                                            }
                                        } else {
                                            assert(out@[j] == out@.last());
                                            assert(seg_lookup(went1, offset) == Some(v@));
                                        }
                                    }
                                }
                            } else {
                                let raw2 = encode(&EncodedEntry::Inline(v));
                                out.push(InternalEntry {
                                    key: e.key.clone(),
                                    seqno: e.seqno,
                                    vtype: ValueType::Value,
                                    raw: raw2,
                                });
                                proof {
                                    lemma_codec_round_trip(EntryModel::Inline(v@));
                                    assert(writer_flushed(mem0[i as int], out@.last(),
                                        blob_id, writer.entries@));
                                }
                            }
                        }
                    }
                }
            }
            i = i + 1;
        }
        proof {
            assert(entries_sorted(out@)) by {
                assert forall|x: int, y: int| 0 <= x < y < out@.len()
                    implies entry_lt(out@[x], out@[y]) by {
                    assert(writer_flushed(mem0[x], out@[x], blob_id, writer.entries@));
                    assert(writer_flushed(mem0[y], out@[y], blob_id, writer.entries@));
                    assert(entry_lt(mem0[x], mem0[y]));
                }
            }
            assert forall|j: int| 0 <= j < out@.len()
                implies entry_ok(#[trigger] out@[j]) by {
                assert(writer_flushed(mem0[j], out@[j], blob_id, writer.entries@));
            }
            assert forall|j: int| 0 <= j < bl1.segments@.len()
                implies (#[trigger] bl1.segments@[j]).id != writer.segment_id by {
                assert(bl0.segments@[j].id < bl0.next_segment_id);
            }
        }
        let ghost went = writer.entries@;
        self.blobs.register(writer);
        let ghost bl2 = self.blobs;
        proof {
            assert(flushed_rel(mem0, out@, bl2, blob_id)) by {
                assert forall|j: int| 0 <= j < mem0.len()
                    implies flushed_entry(mem0[j], #[trigger] out@[j], bl2, blob_id) by {
                    assert(writer_flushed(mem0[j], out@[j], blob_id, went));
                    if mem0[j].vtype is Value {
                        match spec_decode(mem0[j].raw@) {
                            Ok(EntryModel::Inline(b)) => {
                                if b.len() >= SEP_THRESHOLD {
                                    match spec_decode(out@[j].raw@) {
                                        Ok(EntryModel::Indirect(h)) => {
                                            assert(bl2.lookup(h) == seg_lookup(went, h.offset));
                                        }
                                        _ => {}
                                    }
                                }
                            }
                            _ => {}
                        }
                    }
                }
            }
        }
        self.index.consume_writer(seg_id, out);
        proof {
            let oldst = *old(self);
            let newst = *self;
            let oldsegs = oldst.index.segments@;
            let newsegs = newst.index.segments@;
            assert(newsegs.drop_last() =~= oldsegs);
            assert(newsegs.last() == newsegs[newsegs.len() - 1]);
            // handles stored before this flush still resolve to the same bytes
            assert forall|h: ValueHandle| bl0.lookup(h) is Some
                implies bl2.lookup(h) == bl0.lookup(h) by {
                lemma_find_segment_member(bl0.segments@, h.segment_id);
                assert(bl1.lookup(h) == bl0.lookup(h));
            }
            assert(newst.handles_ok()) by {
                assert forall|i2: int, j2: int| 0 <= i2 < newsegs.len()
                    && 0 <= j2 < newsegs[i2].entries@.len()
                    implies match spec_decode(
                        (#[trigger] newsegs[i2].entries@[j2]).raw@) {
                        Ok(EntryModel::Indirect(h)) => newst.blobs.lookup(h) is Some,
                        _ => true,
                    } by {
                    if i2 < oldsegs.len() {
                        assert(newsegs[i2] == oldsegs[i2]);
                        assert(match spec_decode(oldsegs[i2].entries@[j2].raw@) {
                            Ok(EntryModel::Indirect(h)) => bl0.lookup(h) is Some,
                            _ => true,
                        });
                    } else {
                        assert(newsegs[i2].entries@ == out@);
                        assert(flushed_entry(mem0[j2], out@[j2], bl2, blob_id));
                        assert(mem_entry_ok(mem0[j2]));
                    }
                }
            }
            // every key reads as before
            assert forall|k: Seq<u8>|
                newst.visible(k) == oldst.visible(k) && newst.version(k) == oldst.version(k)
                by {
                lemma_flush_preserves(oldst, newst, mem0, out@, bl0, bl2, blob_id, k);
            }
        }
        Ok(Some(()))
    }
}

/// One key's read is unchanged by a flush that rewrote the memtable into
/// a segment related by [`flushed_rel`].
proof fn lemma_flush_preserves(
    oldst: BlobTree,
    newst: BlobTree,
    mem0: Seq<InternalEntry>,
    seg: Seq<InternalEntry>,
    bl0: ValueLog,
    bl2: ValueLog,
    sid: u64,
    k: Seq<u8>,
)
    requires
        oldst.wf(),
        oldst.blobs == bl0,
        newst.blobs == bl2,
        oldst.index.memtable@ == mem0,
        newst.index.memtable@.len() == 0,
        newst.index.segments@.len() == oldst.index.segments@.len() + 1,
        newst.index.segments@.drop_last() == oldst.index.segments@,
        newst.index.segments@.last().entries@ == seg,
        flushed_rel(mem0, seg, bl2, sid),
        forall|h: ValueHandle| bl0.lookup(h) is Some
            ==> bl2.lookup(h) == bl0.lookup(h),
    ensures
        newst.visible(k) == oldst.visible(k),
        newst.version(k) == oldst.version(k),
{
    let oldsegs = oldst.index.segments@;
    let newsegs = newst.index.segments@;
    assert(src_winner(newst.index.memtable@, k) is None);
    assert(segs_winner(newsegs, k)
        == combine_late(segs_winner(oldsegs, k), src_winner(seg, k)));
    assert forall|j: int| #![trigger mem0[j]] #![trigger seg[j]] 0 <= j < mem0.len()
        implies {
            &&& mem0[j].key@ == seg[j].key@
            &&& mem0[j].seqno == seg[j].seqno
            &&& mem0[j].vtype == seg[j].vtype
        } by {
        assert(flushed_entry(mem0[j], seg[j], bl2, sid));
    }
    lemma_src_winner_pointwise(mem0, seg, k);
    lemma_segs_winner_member(oldsegs, k);
    let gw = segs_winner(oldsegs, k);
    // resolving a pre-existing winner is unchanged
    if gw is Some {
        let g = gw->Some_0;
        assert(oldst.resolve(g) == newst.resolve(g)) by {
            let (i2, j2) = choose|i2: int, j2: int| 0 <= i2 < oldsegs.len()
                && 0 <= j2 < oldsegs[i2].entries@.len()
                && #[trigger] oldsegs[i2].entries@[j2] == g;
            assert(entry_ok(g));
            if g.vtype is Value {
                match spec_decode(g.raw@) {
                    Ok(EntryModel::Indirect(h)) => {
                        assert(bl0.lookup(h) is Some);
                    }
                    _ => {}
                }
            }
        }
    }
    match (src_winner(mem0, k), src_winner(seg, k)) {
        (Some(x), Some(y)) => {
            let j = choose|j: int| 0 <= j < mem0.len() && mem0[j] == x
                && #[trigger] seg[j] == y;
            assert(flushed_entry(x, y, bl2, sid));
            assert(mem_entry_ok(x));
            assert(oldst.resolve(x) == newst.resolve(y)) by {
                if x.vtype is Value {
                    match spec_decode(x.raw@) {
                        Ok(EntryModel::Inline(b)) => {
                            if b.len() >= SEP_THRESHOLD {
                                match spec_decode(y.raw@) {
                                    Ok(EntryModel::Indirect(h)) => {
                                        assert(bl2.lookup(h) == Some(b));
                                    }
                                    _ => {}
                                }
                            }
                        }
                        _ => {}
                    }
                }
            }
        }
        (None, None) => {}
        _ => {
            assert(false);
        }
    }
}


/// Commit ordering, as a law of every well-formed store: an out-of-line
/// handle readable as some key's winning version always resolves in the
/// value log — the segment it points into was registered before the
/// index entry became visible.
pub proof fn lemma_commit_ordering(t: BlobTree, k: Seq<u8>)
    requires
        t.wf(),
    ensures
        match t.index.winner(k) {
            Some(w) => match spec_decode(w.raw@) {
                Ok(EntryModel::Indirect(h)) => t.blobs.lookup(h) is Some,
                _ => true,
            },
            None => true,
        },
{
    lemma_winner_member(t.index, k);
}

} // verus!
