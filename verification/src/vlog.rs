//! The value log: segments of out-of-line values addressed by handles.
//!
//! The log is a family of immutable segments, each a run of values in
//! write order.  A [`crate::codec::ValueHandle`] names a segment and an
//! offset inside it; the log assigns offsets in order of writing, one
//! slot per value.  A segment is built through a [`VlogWriter`] and
//! becomes readable only when it is registered — the commit ordering of
//! the flush pipeline depends on that.

use vstd::prelude::*;
use crate::codec::ValueHandle;

verus! {

/// One value stored in a value-log segment, under the user key that owns it.
pub struct VlogEntry {
    pub offset: u64,
    pub key: Vec<u8>,
    pub bytes: Vec<u8>,
}

/// An immutable, registered value-log segment.
pub struct VlogSegment {
    pub id: u64,
    pub entries: Vec<VlogEntry>,
}

/// The value log: registered segments plus the next fresh segment id.
pub struct ValueLog {
    pub segments: Vec<VlogSegment>,
    pub next_segment_id: u64,
}

/// A writer building one not-yet-registered segment.
pub struct VlogWriter {
    pub segment_id: u64,
    pub entries: Vec<VlogEntry>,
}

/// The bytes stored in a run of entries at `offset`, if any.
pub open spec fn seg_lookup(entries: Seq<VlogEntry>, offset: u64) -> Option<Seq<u8>>
    decreases entries.len(),
{
    if entries.len() == 0 {
        None
    } else if entries[0].offset == offset {
        Some(entries[0].bytes@)
    } else {
        seg_lookup(entries.drop_first(), offset)
    }
}

/// The registered segment with id `id`, if any.
pub open spec fn find_segment(segments: Seq<VlogSegment>, id: u64) -> Option<VlogSegment>
    decreases segments.len(),
{
    if segments.len() == 0 {
        None
    } else if segments[0].id == id {
        Some(segments[0])
    } else {
        find_segment(segments.drop_first(), id)
    }
}

/// Offsets inside one segment are its write ordinals.
pub open spec fn entries_wf(entries: Seq<VlogEntry>) -> bool {
    forall|i: int| 0 <= i < entries.len() ==> (#[trigger] entries[i]).offset == i
}

impl VlogWriter {
    pub open spec fn wf(self) -> bool {
        entries_wf(self.entries@)
    }

    /// The id every handle produced by this writer will carry.
    pub fn segment_id(&self) -> (r: u64)
        ensures
            r == self.segment_id,
    {
        self.segment_id
    }

    /// The offset that the next `write` will assign.
    pub fn offset(&self, _key: &Vec<u8>) -> (r: u64)
        ensures
            r == self.entries@.len(),
    {
        self.entries.len() as u64
    }

    /// Appends `bytes` under `key`; the value lands at the offset that
    /// `offset` reported just before the call.
    pub fn write(&mut self, key: &Vec<u8>, bytes: &Vec<u8>)
        requires
            old(self).wf(),
        ensures
            final(self).wf(),
            final(self).segment_id == old(self).segment_id,
            final(self).entries@.len() == old(self).entries@.len() + 1,
            forall|i: int| 0 <= i < old(self).entries@.len()
                ==> final(self).entries@[i] == old(self).entries@[i],
            final(self).entries@.last().offset == old(self).entries@.len(),
            final(self).entries@.last().key@ == key@,
            final(self).entries@.last().bytes@ == bytes@,
    {
        let offset = self.entries.len() as u64;
        self.entries.push(VlogEntry { offset, key: key.clone(), bytes: bytes.clone() });
    }
}

impl ValueLog {
    /// Registered segments carry distinct ids, all below the next fresh
    /// id, and each is internally well formed.
    pub open spec fn wf(self) -> bool {
        &&& forall|i: int| 0 <= i < self.segments@.len()
            ==> (#[trigger] self.segments@[i]).id < self.next_segment_id
        &&& forall|i: int, j: int| 0 <= i < j < self.segments@.len()
            ==> self.segments@[i].id != self.segments@[j].id
        &&& forall|i: int| 0 <= i < self.segments@.len()
            ==> entries_wf((#[trigger] self.segments@[i]).entries@)
    }

    /// The bytes a handle points at, if its segment is registered and the
    /// offset is occupied.
    pub open spec fn lookup(self, h: ValueHandle) -> Option<Seq<u8>> {
        match find_segment(self.segments@, h.segment_id) {
            None => None,
            Some(seg) => seg_lookup(seg.entries@, h.offset),
        }
    }

    /// Opens an empty value log.
    pub fn open() -> (r: ValueLog)
        ensures
            r.wf(),
            r.segments@.len() == 0,
            r.next_segment_id == 0,
            forall|h: ValueHandle| r.lookup(h) is None,
    {
        ValueLog { segments: Vec::new(), next_segment_id: 0 }
    }

    /// Resolves a handle to the stored bytes.
    pub fn get(&self, h: &ValueHandle) -> (r: Option<Vec<u8>>)
        ensures
            match r {
                Some(b) => self.lookup(*h) == Some(b@),
                None => self.lookup(*h) is None,
            },
    {
        proof {
            assert(self.segments@.skip(0) =~= self.segments@);
        }
        let mut i: usize = 0;
        while i < self.segments.len()
            invariant
                0 <= i <= self.segments@.len(),
                find_segment(self.segments@, h.segment_id)
                    == find_segment(self.segments@.skip(i as int), h.segment_id),
            decreases self.segments@.len() - i,
        {
            proof {
                assert(self.segments@.skip(i as int)[0] == self.segments@[i as int]);
                assert(self.segments@.skip(i as int).drop_first()
                    =~= self.segments@.skip(i + 1));
            }
            if self.segments[i].id == h.segment_id {
                let seg = &self.segments[i];
                proof {
                    assert(seg.entries@.skip(0) =~= seg.entries@);
                    assert(find_segment(self.segments@, h.segment_id)
                        == Some(self.segments@[i as int]));
                }
                let mut j: usize = 0;
                while j < seg.entries.len()
                    invariant
                        0 <= i < self.segments@.len(),
                        seg == &self.segments@[i as int],
                        find_segment(self.segments@, h.segment_id)
                            == Some(self.segments@[i as int]),
                        0 <= j <= seg.entries@.len(),
                        seg_lookup(seg.entries@, h.offset)
                            == seg_lookup(seg.entries@.skip(j as int), h.offset),
                    decreases seg.entries@.len() - j,
                {
                    proof {
                        assert(seg.entries@.skip(j as int)[0] == seg.entries@[j as int]);
                        assert(seg.entries@.skip(j as int).drop_first()
                            =~= seg.entries@.skip(j + 1));
                    }
                    if seg.entries[j].offset == h.offset {
                        let b = seg.entries[j].bytes.clone();
                        proof {
                            assert(seg_lookup(seg.entries@.skip(j as int), h.offset)
                                == Some(seg.entries@[j as int].bytes@));
                            assert(b@ =~= seg.entries@[j as int].bytes@);
                        }
                        return Some(b);
                    }
                    j = j + 1;
                }
                assert(seg.entries@.skip(seg.entries@.len() as int) =~= Seq::empty());
                return None;
            }
            i = i + 1;
        }
        proof {
            assert(self.segments@.skip(self.segments@.len() as int) =~= Seq::empty());
        }
        None
    }

    /// Hands out a writer for a fresh segment id.
    pub fn get_writer(&mut self) -> (w: VlogWriter)
        requires
            old(self).wf(),
            old(self).next_segment_id < u64::MAX,
        ensures
            final(self).wf(),
            final(self).segments == old(self).segments,
            final(self).next_segment_id == old(self).next_segment_id + 1,
            w.segment_id == old(self).next_segment_id,
            w.entries@.len() == 0,
            w.wf(),
            forall|h: ValueHandle| final(self).lookup(h) == old(self).lookup(h),
    {
        let id = self.next_segment_id;
        self.next_segment_id = self.next_segment_id + 1;
        VlogWriter { segment_id: id, entries: Vec::new() }
    }

    /// Registers a finished segment: its contents become readable, and
    /// every handle that resolved before still resolves to the same bytes.
    pub fn register(&mut self, w: VlogWriter)
        requires
            old(self).wf(),
            w.wf(),
            w.segment_id < old(self).next_segment_id,
            forall|i: int| 0 <= i < old(self).segments@.len()
                ==> (#[trigger] old(self).segments@[i]).id != w.segment_id,
        ensures
            final(self).wf(),
            final(self).next_segment_id == old(self).next_segment_id,
            final(self).segments@.len() == old(self).segments@.len() + 1,
            forall|i: int| 0 <= i < old(self).segments@.len()
                ==> final(self).segments@[i] == old(self).segments@[i],
            final(self).segments@.last().id == w.segment_id,
            final(self).segments@.last().entries@ == w.entries@,
            forall|h: ValueHandle| h.segment_id == w.segment_id
                ==> final(self).lookup(h) == seg_lookup(w.entries@, h.offset),
            forall|h: ValueHandle| h.segment_id != w.segment_id
                ==> final(self).lookup(h) == old(self).lookup(h),
    {
        let ghost old_segs = self.segments@;
        let ghost wid = w.segment_id;
        let ghost wentries = w.entries@;
        self.segments.push(VlogSegment { id: w.segment_id, entries: w.entries });
        proof {
            let segs = self.segments@;
            assert forall|id: u64| true implies find_segment(segs, id) == (
                if id == wid {
                    Some(segs.last())
                } else {
                    find_segment(old_segs, id)
                }
            ) by {
                lemma_find_segment_push(old_segs, segs.last(), id);
            }
            assert(segs.last().entries@ == wentries);
        }
    }
}

/// Appending a segment leaves earlier ids resolving as before, and makes
/// a fresh id resolve to the appended segment.
proof fn lemma_find_segment_push(segs: Seq<VlogSegment>, seg: VlogSegment, id: u64)
    requires
        forall|i: int| 0 <= i < segs.len() ==> (#[trigger] segs[i]).id != seg.id,
    ensures
        find_segment(segs.push(seg), id) == (
            if id == seg.id {
                Some(seg)
            } else {
                find_segment(segs, id)
            }
        ),
    decreases segs.len(),
{
    if segs.len() == 0 {
        assert(segs.push(seg)[0] == seg);
        assert(segs.push(seg).drop_first() =~= Seq::empty());
    } else {
        assert(segs.push(seg)[0] == segs[0]);
        assert(segs.push(seg).drop_first() =~= segs.drop_first().push(seg));
        lemma_find_segment_push(segs.drop_first(), seg, id);
    }
}


/// A successful lookup names a stored entry.
pub proof fn lemma_seg_lookup_member(entries: Seq<VlogEntry>, offset: u64)
    ensures
        seg_lookup(entries, offset) matches Some(b) ==> exists|j: int|
            0 <= j < entries.len() && (#[trigger] entries[j]).offset == offset
                && entries[j].bytes@ == b,
    decreases entries.len(),
{
    if entries.len() > 0 {
        lemma_seg_lookup_member(entries.drop_first(), offset);
        if entries[0].offset != offset && seg_lookup(entries, offset) is Some {
            let b = seg_lookup(entries, offset)->Some_0;
            let j = choose|j: int| 0 <= j < entries.drop_first().len()
                && (#[trigger] entries.drop_first()[j]).offset == offset
                && entries.drop_first()[j].bytes@ == b;
            assert(entries[j + 1] == entries.drop_first()[j]);
        }
    }
}

/// Appending an entry under a fresh offset keeps every other offset
/// resolving as before, and makes the fresh offset resolve to it.
pub proof fn lemma_seg_lookup_push(entries: Seq<VlogEntry>, x: VlogEntry, offset: u64)
    requires
        forall|j: int| 0 <= j < entries.len() ==> (#[trigger] entries[j]).offset != x.offset,
    ensures
        seg_lookup(entries.push(x), offset) == (
            if offset == x.offset {
                Some(x.bytes@)
            } else {
                seg_lookup(entries, offset)
            }
        ),
    decreases entries.len(),
{
    if entries.len() == 0 {
        assert(entries.push(x)[0] == x);
        assert(entries.push(x).drop_first() =~= Seq::<VlogEntry>::empty());
        if offset == x.offset {
            assert(seg_lookup(entries.push(x), offset) == Some(x.bytes@));
        } else {
            assert(seg_lookup(entries.push(x), offset)
                == seg_lookup(entries.push(x).drop_first(), offset));
            assert(seg_lookup(entries, offset) is None);
        }
    } else {
        assert(entries.push(x)[0] == entries[0]);
        assert(entries.push(x).drop_first() =~= entries.drop_first().push(x));
        assert forall|j: int| 0 <= j < entries.drop_first().len()
            implies (#[trigger] entries.drop_first()[j]).offset != x.offset by {
            assert(entries.drop_first()[j] == entries[j + 1]);
        }
        lemma_seg_lookup_push(entries.drop_first(), x, offset);
    }
}

/// A found segment is one of the registered ones; a miss means no
/// registered segment carries the id.
pub proof fn lemma_find_segment_member(segs: Seq<VlogSegment>, id: u64)
    ensures
        match find_segment(segs, id) {
            Some(seg) => seg.id == id && exists|i: int|
                0 <= i < segs.len() && #[trigger] segs[i] == seg,
            None => forall|i: int| 0 <= i < segs.len() ==> (#[trigger] segs[i]).id != id,
        },
    decreases segs.len(),
{
    if segs.len() > 0 {
        lemma_find_segment_member(segs.drop_first(), id);
        if segs[0].id != id {
            match find_segment(segs.drop_first(), id) {
                Some(seg) => {
                    let i = choose|i: int| 0 <= i < segs.drop_first().len()
                        && #[trigger] segs.drop_first()[i] == seg;
                    assert(segs[i + 1] == segs.drop_first()[i]);
                }
                None => {
                    assert forall|i: int| 0 <= i < segs.len()
                        implies (#[trigger] segs[i]).id != id by {
                        if i >= 1 {
                            assert(segs.drop_first()[i - 1] == segs[i]);
                        }
                    }
                }
            }
        }
    }
}

} // verus!
