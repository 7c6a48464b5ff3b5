//! The LSM index: a sorted in-memory memtable plus immutable segments.
//!
//! Every mutation becomes an internal entry `(user key, seqno, kind)`
//! with an encoded payload, ordered by user key ascending and sequence
//! number descending, so the most recent version of a key sorts first.
//! A point lookup resolves the winning version across the memtable and
//! all segments: the one with the highest sequence number, the memtable
//! and younger segments taking precedence on equal sequence numbers.

use vstd::prelude::*;
use crate::codec::{spec_decode, decode, EntryModel, EncodedEntry, DecodeError, ValueHandle};
use crate::error::Error;
use crate::keys::{lex_lt, key_cmp, KeyOrd, lemma_lex_irrefl, lemma_lex_asym, lemma_lex_trans,
    lemma_lex_trichotomy};

verus! {

/// Whether an internal entry stores a value or marks a deletion.
#[derive(Clone, Copy, PartialEq, Eq, Structural, Debug)]
pub enum ValueType {
    Value,
    Tombstone,
}

/// One version of one user key, as the index stores it.
pub struct InternalEntry {
    pub key: Vec<u8>,
    pub seqno: u64,
    pub vtype: ValueType,
    /// The encoded payload; empty for a tombstone.
    pub raw: Vec<u8>,
}

/// An immutable index segment produced by one flush.
pub struct IndexSegment {
    pub id: u64,
    pub entries: Vec<InternalEntry>,
}

/// The index order: user key ascending, then sequence number descending.
pub open spec fn entry_lt(a: InternalEntry, b: InternalEntry) -> bool {
    lex_lt(a.key@, b.key@) || (a.key@ == b.key@ && a.seqno > b.seqno)
}

/// A strictly sorted run of entries: no two share a key and a seqno.
pub open spec fn entries_sorted(s: Seq<InternalEntry>) -> bool {
    forall|i: int, j: int| 0 <= i < j < s.len() ==> entry_lt(s[i], s[j])
}

/// The index order is total up to equal (key, seqno) pairs.
pub proof fn lemma_entry_trichotomy(a: InternalEntry, b: InternalEntry)
    ensures
        entry_lt(a, b) || entry_lt(b, a) || (a.key@ == b.key@ && a.seqno == b.seqno),
{
    lemma_lex_trichotomy(a.key@, b.key@);
    if a.key@ == b.key@ {
        lemma_lex_irrefl(a.key@);
    }
}

/// The index order is transitive.
pub proof fn lemma_entry_trans(a: InternalEntry, b: InternalEntry, c: InternalEntry)
    requires
        entry_lt(a, b),
        entry_lt(b, c),
    ensures
        entry_lt(a, c),
{
    if lex_lt(a.key@, b.key@) && lex_lt(b.key@, c.key@) {
        lemma_lex_trans(a.key@, b.key@, c.key@);
    }
}

/// Decides the index order between two entries.
pub fn entry_before(a: &InternalEntry, b: &InternalEntry) -> (r: bool)
    ensures
        r == entry_lt(*a, *b),
{
    match key_cmp(&a.key, &b.key) {
        KeyOrd::Less => true,
        KeyOrd::Equal => {
            proof {
                lemma_lex_irrefl(a.key@);
            }
            a.seqno > b.seqno
        }
        KeyOrd::Greater => {
            proof {
                lemma_lex_asym(b.key@, a.key@);
                lemma_lex_irrefl(a.key@);
            }
            false
        }
    }
}

/// The first entry of `s` carrying key `k`: under sortedness, the version
/// of `k` with the highest sequence number in this run.
pub open spec fn src_winner(s: Seq<InternalEntry>, k: Seq<u8>) -> Option<InternalEntry>
    decreases s.len(),
{
    if s.len() == 0 {
        None
    } else if s[0].key@ == k {
        Some(s[0])
    } else {
        src_winner(s.drop_first(), k)
    }
}

/// Merges the winners of two sources; the second is the younger one and
/// takes precedence on equal sequence numbers.
pub open spec fn combine_late(a: Option<InternalEntry>, b: Option<InternalEntry>)
    -> Option<InternalEntry> {
    match (a, b) {
        (Some(x), Some(y)) => if y.seqno >= x.seqno { Some(y) } else { Some(x) },
        (None, y) => y,
        (x, None) => x,
    }
}

/// The winning version of `k` across a stack of segments, oldest first.
pub open spec fn segs_winner(segs: Seq<IndexSegment>, k: Seq<u8>) -> Option<InternalEntry>
    decreases segs.len(),
{
    if segs.len() == 0 {
        None
    } else {
        combine_late(segs_winner(segs.drop_last(), k), src_winner(segs.last().entries@, k))
    }
}

/// A stored payload is well formed: a value decodes, a tombstone is empty.
pub open spec fn entry_ok(e: InternalEntry) -> bool {
    match e.vtype {
        ValueType::Value => spec_decode(e.raw@) is Ok,
        ValueType::Tombstone => e.raw@.len() == 0,
    }
}

/// Before a flush ever rewrites it, a stored value is always inline.
pub open spec fn mem_entry_ok(e: InternalEntry) -> bool {
    &&& entry_ok(e)
    &&& (e.vtype is Value ==> spec_decode(e.raw@) matches Ok(EntryModel::Inline(_)))
}

/// The LSM index: the mutable memtable, the committed segments (oldest
/// first), and the id the next flushed segment will take.
pub struct IndexTree {
    pub memtable: Vec<InternalEntry>,
    pub segments: Vec<IndexSegment>,
    pub next_segment_id: u64,
}

impl IndexTree {
    /// Structural invariant: both tiers sorted, segment ids fresh and
    /// distinct, all payloads well formed, memtable payloads inline.
    pub open spec fn wf(self) -> bool {
        &&& entries_sorted(self.memtable@)
        &&& forall|i: int| 0 <= i < self.memtable@.len()
            ==> mem_entry_ok(#[trigger] self.memtable@[i])
        &&& forall|i: int| 0 <= i < self.segments@.len()
            ==> entries_sorted((#[trigger] self.segments@[i]).entries@)
        &&& forall|i: int, j: int| 0 <= i < self.segments@.len()
            && 0 <= j < self.segments@[i].entries@.len()
            ==> entry_ok(#[trigger] self.segments@[i].entries@[j])
        &&& forall|i: int| 0 <= i < self.segments@.len()
            ==> (#[trigger] self.segments@[i]).id < self.next_segment_id
        &&& forall|i: int, j: int| 0 <= i < j < self.segments@.len()
            ==> self.segments@[i].id != self.segments@[j].id
    }

    /// The winning version of `k` across the whole index.
    pub open spec fn winner(self, k: Seq<u8>) -> Option<InternalEntry> {
        combine_late(segs_winner(self.segments@, k), src_winner(self.memtable@, k))
    }

    /// Opens an empty index.
    pub fn open() -> (r: IndexTree)
        ensures
            r.wf(),
            r.memtable@.len() == 0,
            r.segments@.len() == 0,
            r.next_segment_id == 0,
            forall|k: Seq<u8>| r.winner(k) is None,
    {
        IndexTree { memtable: Vec::new(), segments: Vec::new(), next_segment_id: 0 }
    }
}

/// Finds the first entry of `v` carrying key `key`.
pub fn find_first<'a>(v: &'a Vec<InternalEntry>, key: &Vec<u8>) -> (r: Option<&'a InternalEntry>)
    ensures
        match r {
            Some(e) => src_winner(v@, key@) == Some(*e),
            None => src_winner(v@, key@) is None,
        },
{
    proof {
        assert(v@.skip(0) =~= v@);
    }
    let mut i: usize = 0;
    while i < v.len()
        invariant
            0 <= i <= v@.len(),
            src_winner(v@, key@) == src_winner(v@.skip(i as int), key@),
        decreases v@.len() - i,
    {
        proof {
            assert(v@.skip(i as int)[0] == v@[i as int]);
            assert(v@.skip(i as int).drop_first() =~= v@.skip(i + 1));
        }
        match key_cmp(&v[i].key, key) {
            KeyOrd::Equal => {
                return Some(&v[i]);
            }
            _ => {
                proof {
                    if v@[i as int].key@ == key@ {
                        lemma_lex_irrefl(key@);
                    }
                }
            }
        }
        i = i + 1;
    }
    proof {
        assert(v@.skip(v@.len() as int) =~= Seq::<InternalEntry>::empty());
    }
    None
}


/// A non-empty winner always lies in the sequence, carries the looked-up
/// key, and is the first entry to do so.
pub proof fn lemma_src_winner_member(s: Seq<InternalEntry>, k: Seq<u8>)
    ensures
        match src_winner(s, k) {
            Some(w) => w.key@ == k && exists|j: int|
                0 <= j < s.len() && s[j] == w
                    && (forall|l: int| 0 <= l < j ==> (#[trigger] s[l]).key@ != k),
            None => forall|l: int| 0 <= l < s.len() ==> (#[trigger] s[l]).key@ != k,
        },
    decreases s.len(),
{
    if s.len() > 0 {
        lemma_src_winner_member(s.drop_first(), k);
        if s[0].key@ == k {
            assert(src_winner(s, k) == Some(s[0]));
        } else {
            match src_winner(s.drop_first(), k) {
                Some(w) => {
                    let j = choose|j: int|
                        0 <= j < s.drop_first().len() && s.drop_first()[j] == w
                            && (forall|l: int| 0 <= l < j
                                ==> (#[trigger] s.drop_first()[l]).key@ != k);
                    assert(s[j + 1] == s.drop_first()[j]);
                    assert forall|l: int| 0 <= l < j + 1 implies (#[trigger] s[l]).key@ != k by {
                        if l >= 1 {
                            assert(s.drop_first()[l - 1] == s[l]);
                        }
                    }
                    assert(0 <= j + 1 < s.len() && s[j + 1] == w
                        && (forall|l: int| 0 <= l < j + 1 ==> (#[trigger] s[l]).key@ != k));
                }
                None => {
                    assert forall|l: int| 0 <= l < s.len() implies (#[trigger] s[l]).key@ != k by {
                        if l >= 1 {
                            assert(s.drop_first()[l - 1] == s[l]);
                        }
                    }
                }
            }
        }
    }
}

/// A winner across segments lies in one of them and carries the key.
pub proof fn lemma_segs_winner_member(segs: Seq<IndexSegment>, k: Seq<u8>)
    ensures
        segs_winner(segs, k) matches Some(w) ==> w.key@ == k && exists|i: int, j: int|
            0 <= i < segs.len() && 0 <= j < segs[i].entries@.len()
                && #[trigger] segs[i].entries@[j] == w,
    decreases segs.len(),
{
    if segs.len() > 0 {
        lemma_segs_winner_member(segs.drop_last(), k);
        lemma_src_winner_member(segs.last().entries@, k);
        if segs_winner(segs, k) is Some {
            let w = segs_winner(segs, k)->Some_0;
            let lastw = src_winner(segs.last().entries@, k);
            if lastw == Some(w) {
                let j = choose|j: int| 0 <= j < segs.last().entries@.len()
                    && segs.last().entries@[j] == w
                    && (forall|l: int| 0 <= l < j
                        ==> (#[trigger] segs.last().entries@[l]).key@ != k);
                assert(segs[segs.len() - 1] == segs.last());
                assert(0 <= segs.len() - 1 < segs.len()
                    && 0 <= j < segs[segs.len() - 1].entries@.len()
                    && segs[segs.len() - 1].entries@[j] == w);
            } else {
                assert(segs_winner(segs.drop_last(), k) == Some(w));
                let (i, j) = choose|i: int, j: int|
                    0 <= i < segs.drop_last().len()
                        && 0 <= j < segs.drop_last()[i].entries@.len()
                        && #[trigger] segs.drop_last()[i].entries@[j] == w;
                assert(segs.drop_last()[i] == segs[i]);
            }
        }
    }
}

/// The winning version under a well-formed index is a stored, well-formed
/// entry for the looked-up key, either in the memtable (then inline) or
/// in one of the segments.
pub proof fn lemma_winner_member(t: IndexTree, k: Seq<u8>)
    requires
        t.wf(),
    ensures
        t.winner(k) matches Some(w) ==> {
            &&& w.key@ == k
            &&& entry_ok(w)
            &&& ((exists|i: int| 0 <= i < t.memtable@.len() && t.memtable@[i] == w
                    && mem_entry_ok(w))
                || (exists|i: int, j: int| 0 <= i < t.segments@.len()
                    && 0 <= j < t.segments@[i].entries@.len()
                    && #[trigger] t.segments@[i].entries@[j] == w))
        },
{
    lemma_src_winner_member(t.memtable@, k);
    lemma_segs_winner_member(t.segments@, k);
}

/// The winner of a concatenation is the first source's winner if it has
/// one, and the second source's otherwise.
pub proof fn lemma_src_winner_append(a: Seq<InternalEntry>, b: Seq<InternalEntry>, k: Seq<u8>)
    ensures
        src_winner(a + b, k) == (match src_winner(a, k) {
            Some(w) => Some(w),
            None => src_winner(b, k),
        }),
    decreases a.len(),
{
    if a.len() == 0 {
        assert(a + b =~= b);
    } else {
        assert((a + b)[0] == a[0]);
        assert((a + b).drop_first() =~= a.drop_first() + b);
        lemma_src_winner_append(a.drop_first(), b, k);
    }
}

/// Splicing an entry of a different key between two runs leaves that
/// key's winner the winner of the two runs alone.
proof fn lemma_splice_winner_other(
    a: Seq<InternalEntry>,
    b: Seq<InternalEntry>,
    e: InternalEntry,
    k: Seq<u8>,
)
    requires
        e.key@ != k,
    ensures
        src_winner(a + seq![e] + b, k) == src_winner(a + b, k),
{
    assert(a + seq![e] + b =~= a + (seq![e] + b));
    lemma_src_winner_append(a, seq![e] + b, k);
    lemma_src_winner_append(a, b, k);
    assert((seq![e] + b)[0] == e);
    assert((seq![e] + b).drop_first() =~= b);
}

/// Splicing an entry after a run of strictly smaller entries makes it
/// that key's winner, unless the front run already holds a younger one.
proof fn lemma_splice_winner_same(a: Seq<InternalEntry>, b: Seq<InternalEntry>, e: InternalEntry)
    requires
        forall|j: int| 0 <= j < a.len() ==> entry_lt(#[trigger] a[j], e),
    ensures
        src_winner(a + seq![e] + b, e.key@) == (match src_winner(a, e.key@) {
            Some(w) => Some(w),
            None => Some(e),
        }),
        src_winner(a, e.key@) matches Some(w) ==> w.seqno > e.seqno,
{
    assert(a + seq![e] + b =~= a + (seq![e] + b));
    lemma_src_winner_append(a, seq![e] + b, e.key@);
    assert((seq![e] + b)[0] == e);
    lemma_src_winner_member(a, e.key@);
    if src_winner(a, e.key@) is Some {
        let w = src_winner(a, e.key@)->Some_0;
        let j = choose|j: int| 0 <= j < a.len() && a[j] == w
            && (forall|l: int| 0 <= l < j ==> (#[trigger] a[l]).key@ != e.key@);
        assert(entry_lt(a[j], e));
        lemma_lex_irrefl(e.key@);
    }
}

/// The size the index accounts for one stored record: key plus payload
/// bytes, saturating at the counter's width.
pub open spec fn record_size(key: Seq<u8>, raw: Seq<u8>) -> u32 {
    if key.len() + raw.len() > u32::MAX {
        u32::MAX
    } else {
        (key.len() + raw.len()) as u32
    }
}

/// The accounted size of one entry.
pub open spec fn entry_size(e: InternalEntry) -> u32 {
    record_size(e.key@, e.raw@)
}

/// The accounted size of a whole run, saturating.
pub open spec fn table_size(s: Seq<InternalEntry>) -> u32
    decreases s.len(),
{
    if s.len() == 0 {
        0u32
    } else {
        let rest = table_size(s.drop_last());
        if rest + entry_size(s.last()) > u32::MAX {
            u32::MAX
        } else {
            (rest + entry_size(s.last())) as u32
        }
    }
}

/// Computes the accounted size of one entry.
fn entry_size_of(e: &InternalEntry) -> (r: u32)
    ensures
        r == entry_size(*e),
{
    let k = e.key.len();
    let v = e.raw.len();
    if v > usize::MAX - k {
        proof {
            assert(u32::MAX <= usize::MAX);
        }
        u32::MAX
    } else {
        let s = k + v;
        if s > u32::MAX as usize {
            u32::MAX
        } else {
            s as u32
        }
    }
}

/// Computes the accounted size of the whole run.
fn table_size_of(v: &Vec<InternalEntry>) -> (r: u32)
    ensures
        r == table_size(v@),
{
    let mut acc: u32 = 0;
    let mut i: usize = 0;
    proof {
        assert(v@.take(0) =~= Seq::<InternalEntry>::empty());
    }
    while i < v.len()
        invariant
            0 <= i <= v@.len(),
            acc == table_size(v@.take(i as int)),
        decreases v@.len() - i,
    {
        proof {
            assert(v@.take(i + 1).drop_last() =~= v@.take(i as int));
            assert(v@.take(i + 1).last() == v@[i as int]);
        }
        let es = entry_size_of(&v[i]);
        if es > u32::MAX - acc {
            acc = u32::MAX;
        } else {
            acc = acc + es;
        }
        i = i + 1;
    }
    proof {
        assert(v@.take(v@.len() as int) =~= v@);
    }
    acc
}

impl IndexTree {
    /// Returns the winning version of `key`, across all tiers.
    pub fn get_entry(&self, key: &Vec<u8>) -> (r: Option<&InternalEntry>)
        ensures
            match r {
                Some(e) => self.winner(key@) == Some(*e),
                None => self.winner(key@) is None,
            },
    {
        proof {
            assert(self.segments@.take(0) =~= Seq::<IndexSegment>::empty());
        }
        let mut best: Option<&InternalEntry> = None;
        let mut j: usize = 0;
        while j < self.segments.len()
            invariant
                0 <= j <= self.segments@.len(),
                match best {
                    Some(e) => segs_winner(self.segments@.take(j as int), key@) == Some(*e),
                    None => segs_winner(self.segments@.take(j as int), key@) is None,
                },
            decreases self.segments@.len() - j,
        {
            proof {
                assert(self.segments@.take(j + 1).drop_last() =~= self.segments@.take(j as int));
                assert(self.segments@.take(j + 1).last() == self.segments@[j as int]);
            }
            let cand = find_first(&self.segments[j].entries, key);
            best = match (best, cand) {
                (Some(b), Some(c)) => if c.seqno >= b.seqno {
                    Some(c)
                } else {
                    Some(b)
                },
                (None, c) => c,
                (b, None) => b,
            };
            j = j + 1;
        }
        proof {
            assert(self.segments@.take(self.segments@.len() as int) =~= self.segments@);
        }
        let memw = find_first(&self.memtable, key);
        match (best, memw) {
            (Some(b), Some(m)) => if m.seqno >= b.seqno {
                Some(m)
            } else {
                Some(b)
            },
            (None, m) => m,
            (b, None) => b,
        }
    }

    /// Inserts one version into the memtable, keeping it sorted.  A
    /// version younger than (or as young as) the current winner becomes
    /// the new winner of its key; other keys are untouched.  Returns the
    /// entry's accounted size and the memtable's size after the insert.
    pub fn insert_entry(&mut self, e: InternalEntry) -> (r: (u32, u32))
        requires
            old(self).wf(),
            mem_entry_ok(e),
        ensures
            final(self).wf(),
            final(self).segments == old(self).segments,
            final(self).next_segment_id == old(self).next_segment_id,
            forall|k: Seq<u8>| k != e.key@
                ==> final(self).winner(k) == old(self).winner(k),
            (match old(self).winner(e.key@) {
                Some(w) => if e.seqno >= w.seqno {
                    final(self).winner(e.key@) == Some(e)
                } else {
                    final(self).winner(e.key@) == old(self).winner(e.key@)
                },
                None => final(self).winner(e.key@) == Some(e),
            }),
            forall|i: int| 0 <= i < final(self).memtable@.len()
                ==> final(self).memtable@[i] == e
                    || old(self).memtable@.contains(#[trigger] final(self).memtable@[i]),
            final(self).memtable@.len() > 0,
            r.0 == entry_size(e),
            r.1 == table_size(final(self).memtable@),
    {
        let ghost s0 = self.memtable@;
        let mut i: usize = 0;
        while i < self.memtable.len() && entry_before(&self.memtable[i], &e)
            invariant
                0 <= i <= self.memtable@.len(),
                self.memtable@ == s0,
                forall|j: int| 0 <= j < i ==> entry_lt(#[trigger] self.memtable@[j], e),
            decreases self.memtable@.len() - i,
        {
            i = i + 1;
        }
        let ghost pos = i as int;
        let mut replace = false;
        if i < self.memtable.len() {
            if matches!(key_cmp(&self.memtable[i].key, &e.key), KeyOrd::Equal) {
                if self.memtable[i].seqno == e.seqno {
                    replace = true;
                }
            }
        }
        let size0 = entry_size_of(&e);
        if replace {
            self.memtable.remove(i);
        }
        self.memtable.insert(i, e);
        proof {
            let a = s0.take(pos);
            let b = if replace {
                s0.skip(pos + 1)
            } else {
                s0.skip(pos)
            };
            assert(self.memtable@ =~= a + seq![e] + b);
            if replace {
                assert(s0 =~= a + seq![s0[pos]] + b);
            } else {
                assert(s0 =~= a + b);
            }
            lemma_insert_shape(s0, a, b, e, pos, replace);
        }
        let size1 = table_size_of(&self.memtable);
        (size0, size1)
    }
}

/// All the consequences of splicing `e` into a sorted run at its place:
/// sortedness is kept, the winner of `e`'s key advances exactly when `e`
/// is at least as young, and everything else is untouched.
proof fn lemma_insert_shape(
    s0: Seq<InternalEntry>,
    a: Seq<InternalEntry>,
    b: Seq<InternalEntry>,
    e: InternalEntry,
    pos: int,
    replace: bool,
)
    requires
        entries_sorted(s0),
        0 <= pos <= s0.len(),
        a == s0.take(pos),
        b == (if replace {
            s0.skip(pos + 1)
        } else {
            s0.skip(pos)
        }),
        replace ==> pos < s0.len() && s0[pos].key@ == e.key@ && s0[pos].seqno == e.seqno,
        !replace && pos < s0.len() ==> !entry_lt(s0[pos], e)
            && !(s0[pos].key@ == e.key@ && s0[pos].seqno == e.seqno),
        forall|j: int| 0 <= j < pos ==> entry_lt(#[trigger] s0[j], e),
    ensures
        entries_sorted(a + seq![e] + b),
        forall|i: int| 0 <= i < (a + seq![e] + b).len()
            ==> (a + seq![e] + b)[i] == e || s0.contains(#[trigger] (a + seq![e] + b)[i]),
        forall|k: Seq<u8>| k != e.key@
            ==> src_winner(a + seq![e] + b, k) == src_winner(s0, k),
        (match src_winner(s0, e.key@) {
            Some(w) => if e.seqno >= w.seqno {
                src_winner(a + seq![e] + b, e.key@) == Some(e)
            } else {
                src_winner(a + seq![e] + b, e.key@) == src_winner(s0, e.key@)
            },
            None => src_winner(a + seq![e] + b, e.key@) == Some(e),
        }),
{
    let t = a + seq![e] + b;
    // entry e is strictly greater than all of `a` and strictly smaller
    // than all of `b`.
    assert forall|j: int| 0 <= j < b.len() implies entry_lt(e, #[trigger] b[j]) by {
        if replace {
            assert(b[j] == s0[pos + 1 + j]);
            assert(entry_lt(s0[pos], s0[pos + 1 + j]));
        } else {
            assert(b[j] == s0[pos + j]);
            if j == 0 {
                lemma_entry_trichotomy(s0[pos], e);
            } else {
                lemma_entry_trichotomy(s0[pos], e);
                assert(entry_lt(s0[pos], s0[pos + j]));
                lemma_entry_trans(e, s0[pos], s0[pos + j]);
            }
        }
    }
    assert(entries_sorted(t)) by {
        assert forall|i: int, j: int| 0 <= i < j < t.len()
            implies entry_lt(t[i], t[j]) by {
            let n = a.len() as int;
            if i < n && j < n {
                assert(t[i] == s0[i] && t[j] == s0[j]);
            } else if i < n && j == n {
                assert(t[i] == s0[i] && t[j] == e);
            } else if i < n && j > n {
                assert(t[i] == s0[i] && t[j] == b[j - n - 1]);
                lemma_entry_trans(s0[i], e, b[j - n - 1]);
            } else if i == n && j > n {
                assert(t[i] == e && t[j] == b[j - n - 1]);
            } else {
                assert(t[i] == b[i - n - 1] && t[j] == b[j - n - 1]);
                if replace {
                    assert(t[i] == s0[pos + 1 + (i - n - 1)]);
                    assert(t[j] == s0[pos + 1 + (j - n - 1)]);
                } else {
                    assert(t[i] == s0[pos + (i - n - 1)]);
                    assert(t[j] == s0[pos + (j - n - 1)]);
                }
            }
        }
    }
    assert forall|i: int| 0 <= i < t.len()
        implies t[i] == e || s0.contains(#[trigger] t[i]) by {
        let n = a.len() as int;
        if i < n {
            assert(t[i] == s0[i]);
        } else if i > n {
            if replace {
                assert(t[i] == s0[pos + 1 + (i - n - 1)]);
            } else {
                assert(t[i] == s0[pos + (i - n - 1)]);
            }
        }
    }
    // winners of other keys are untouched
    assert forall|k: Seq<u8>| k != e.key@
        implies src_winner(t, k) == src_winner(s0, k) by {
        lemma_splice_winner_other(a, b, e, k);
        if replace {
            assert(s0 == a + seq![s0[pos]] + b);
            lemma_splice_winner_other(a, b, s0[pos], k);
        } else {
            assert(s0 == a + b);
        }
    }
    // the winner of e's key
    lemma_splice_winner_same(a, b, e);
    lemma_src_winner_append(a, b, e.key@);
    match src_winner(a, e.key@) {
        Some(w) => {
            if replace {
                assert(s0 == a + seq![s0[pos]] + b);
                lemma_splice_winner_same(a, b, s0[pos]);
            } else {
                assert(s0 == a + b);
            }
        }
        None => {
            if replace {
                assert(s0 == a + seq![s0[pos]] + b);
                lemma_splice_winner_same(a, b, s0[pos]);
            } else {
                assert(s0 == a + b);
                lemma_src_winner_member(b, e.key@);
                match src_winner(b, e.key@) {
                    Some(o) => {
                        let j = choose|j: int| 0 <= j < b.len() && b[j] == o
                            && (forall|l: int| 0 <= l < j
                                ==> (#[trigger] b[l]).key@ != e.key@);
                        assert(b[j] == s0[pos + j]);
                        if j == 0 {
                            assert(o == s0[pos]);
                            assert(!entry_lt(s0[pos], e));
                        } else {
                            assert(b[0] == s0[pos]);
                            assert(b[0].key@ != e.key@);
                            assert(entry_lt(s0[pos], s0[pos + j]));
                            assert(lex_lt(s0[pos].key@, e.key@));
                            assert(entry_lt(s0[pos], e));
                            assert(false);
                        }
                    }
                    None => {}
                }
            }
        }
    }
}


impl IndexTree {
    /// Freezes the memtable for a flush: returns the id the produced
    /// segment will carry together with the frozen entries, and leaves a
    /// fresh empty memtable behind.  Returns nothing when there is
    /// nothing to rotate.
    pub fn rotate_memtable(&mut self) -> (r: Option<(u64, Vec<InternalEntry>)>)
        requires
            old(self).wf(),
            old(self).next_segment_id < u64::MAX,
        ensures
            final(self).wf(),
            match r {
                None => *final(self) == *old(self) && old(self).memtable@.len() == 0,
                Some(p) => {
                    &&& old(self).memtable@.len() > 0
                    &&& p.1@ == old(self).memtable@
                    &&& p.0 == old(self).next_segment_id
                    &&& final(self).memtable@.len() == 0
                    &&& final(self).segments == old(self).segments
                    &&& final(self).next_segment_id == old(self).next_segment_id + 1
                },
            },
    {
        if self.memtable.len() == 0 {
            return None;
        }
        let id = self.next_segment_id;
        self.next_segment_id = self.next_segment_id + 1;
        let mut frozen: Vec<InternalEntry> = Vec::new();
        core::mem::swap(&mut frozen, &mut self.memtable);
        Some((id, frozen))
    }

    /// Commits a finished segment under a fresh id.
    pub fn consume_writer(&mut self, id: u64, entries: Vec<InternalEntry>)
        requires
            old(self).wf(),
            entries_sorted(entries@),
            forall|j: int| 0 <= j < entries@.len() ==> entry_ok(#[trigger] entries@[j]),
            id < old(self).next_segment_id,
            forall|i: int| 0 <= i < old(self).segments@.len()
                ==> (#[trigger] old(self).segments@[i]).id != id,
        ensures
            final(self).wf(),
            final(self).memtable == old(self).memtable,
            final(self).next_segment_id == old(self).next_segment_id,
            final(self).segments@.len() == old(self).segments@.len() + 1,
            forall|i: int| 0 <= i < old(self).segments@.len()
                ==> final(self).segments@[i] == old(self).segments@[i],
            final(self).segments@.last().id == id,
            final(self).segments@.last().entries@ == entries@,
    {
        self.segments.push(IndexSegment { id, entries });
    }

    /// Point lookup that decodes the winning version: the decoded entry
    /// for a live value, nothing for an absent or deleted key.
    pub fn get_internal(&self, key: &Vec<u8>) -> (r: Result<Option<EncodedEntry>, Error>)
        requires
            self.wf(),
        ensures
            match r {
                Ok(o) => match self.winner(key@) {
                    None => o is None,
                    Some(w) => match w.vtype {
                        ValueType::Tombstone => o is None,
                        ValueType::Value => match o {
                            Some(e) => spec_decode(w.raw@) == Ok::<EntryModel, DecodeError>(e@),
                            None => false,
                        },
                    },
                },
                Err(_) => false,
            },
    {
        proof {
            lemma_winner_member(*self, key@);
        }
        match self.get_entry(key) {
            None => Ok(None),
            Some(e) => match e.vtype {
                ValueType::Tombstone => Ok(None),
                ValueType::Value => match decode(&e.raw) {
                    Ok(v) => Ok(Some(v)),
                    Err(er) => Err(Error::Corruption(er)),
                },
            },
        }
    }

    /// The external-index lookup under the name the value log's garbage
    /// collector calls it by; same contract as [`IndexTree::external_get`].
    pub fn get(&self, key: &Vec<u8>) -> (r: Result<Option<ValueHandle>, Error>)
        requires
            self.wf(),
        ensures
            match r {
                Ok(o) => match self.winner(key@) {
                    None => o is None,
                    Some(w) => match w.vtype {
                        ValueType::Tombstone => o is None,
                        ValueType::Value => match spec_decode(w.raw@) {
                            Ok(EntryModel::Indirect(h)) => o == Some(h),
                            _ => o is None,
                        },
                    },
                },
                Err(_) => false,
            },
    {
        self.external_get(key)
    }

    /// The lookup the value log's garbage collector relies on: the handle
    /// of the winning version if and only if that version is stored out
    /// of line; nothing for an absent, deleted or inline key.
    pub fn external_get(&self, key: &Vec<u8>) -> (r: Result<Option<ValueHandle>, Error>)
        requires
            self.wf(),
        ensures
            match r {
                Ok(o) => match self.winner(key@) {
                    None => o is None,
                    Some(w) => match w.vtype {
                        ValueType::Tombstone => o is None,
                        ValueType::Value => match spec_decode(w.raw@) {
                            Ok(EntryModel::Indirect(h)) => o == Some(h),
                            _ => o is None,
                        },
                    },
                },
                Err(_) => false,
            },
    {
        match self.get_internal(key) {
            Err(e) => Err(e),
            Ok(None) => Ok(None),
            Ok(Some(EncodedEntry::Inline(_))) => Ok(None),
            Ok(Some(EncodedEntry::Indirect(h))) => Ok(Some(h)),
        }
    }
}


/// Two runs that agree position by position on key, seqno and kind have
/// corresponding winners: none in both, or the pair at one shared index.
pub proof fn lemma_src_winner_pointwise(a: Seq<InternalEntry>, b: Seq<InternalEntry>, k: Seq<u8>)
    requires
        a.len() == b.len(),
        forall|j: int| #![trigger a[j]] #![trigger b[j]] 0 <= j < a.len() ==> {
            &&& a[j].key@ == b[j].key@
            &&& a[j].seqno == b[j].seqno
            &&& a[j].vtype == b[j].vtype
        },
    ensures
        match (src_winner(a, k), src_winner(b, k)) {
            (None, None) => true,
            (Some(x), Some(y)) => x.seqno == y.seqno && x.vtype == y.vtype
                && exists|j: int| 0 <= j < a.len() && a[j] == x && #[trigger] b[j] == y,
            _ => false,
        },
    decreases a.len(),
{
    if a.len() > 0 {
        if a[0].key@ == k {
            assert(src_winner(a, k) == Some(a[0]));
            assert(src_winner(b, k) == Some(b[0]));
            assert(0 <= 0 < a.len() && a[0] == a[0] && b[0] == b[0]);
        } else {
            assert forall|j: int| #![trigger a.drop_first()[j]] #![trigger b.drop_first()[j]]
                0 <= j < a.drop_first().len() implies {
                    &&& a.drop_first()[j].key@ == b.drop_first()[j].key@
                    &&& a.drop_first()[j].seqno == b.drop_first()[j].seqno
                    &&& a.drop_first()[j].vtype == b.drop_first()[j].vtype
                } by {
                assert(a.drop_first()[j] == a[j + 1]);
                assert(b.drop_first()[j] == b[j + 1]);
            }
            lemma_src_winner_pointwise(a.drop_first(), b.drop_first(), k);
            if src_winner(a.drop_first(), k) is Some {
                let x = src_winner(a.drop_first(), k)->Some_0;
                let y = src_winner(b.drop_first(), k)->Some_0;
                let j = choose|j: int| 0 <= j < a.drop_first().len()
                    && a.drop_first()[j] == x && #[trigger] b.drop_first()[j] == y;
                assert(a[j + 1] == a.drop_first()[j]);
                assert(b[j + 1] == b.drop_first()[j]);
            }
        }
    }
}


/// In a sorted run, the winner of `k` is at least as young as every
/// stored version of `k`.
proof fn lemma_src_winner_is_newest(s: Seq<InternalEntry>, k: Seq<u8>)
    requires
        entries_sorted(s),
    ensures
        forall|i: int| 0 <= i < s.len() && (#[trigger] s[i]).key@ == k
            ==> (src_winner(s, k) matches Some(w) && w.seqno >= s[i].seqno),
{
    lemma_src_winner_member(s, k);
    assert forall|i: int| 0 <= i < s.len() && (#[trigger] s[i]).key@ == k
        implies (src_winner(s, k) matches Some(w) && w.seqno >= s[i].seqno) by {
        match src_winner(s, k) {
            None => {}
            Some(w) => {
                let jw = choose|j: int| 0 <= j < s.len() && s[j] == w
                    && (forall|l: int| 0 <= l < j ==> (#[trigger] s[l]).key@ != k);
                if i > jw {
                    assert(entry_lt(s[jw], s[i]));
                    lemma_lex_irrefl(k);
                }
            }
        }
    }
}

/// Across a stack of sorted segments, the winner of `k` is at least as
/// young as every stored version of `k`.
proof fn lemma_segs_winner_is_newest(segs: Seq<IndexSegment>, k: Seq<u8>)
    requires
        forall|i: int| 0 <= i < segs.len()
            ==> entries_sorted((#[trigger] segs[i]).entries@),
    ensures
        forall|i: int, j: int| 0 <= i < segs.len()
            && 0 <= j < segs[i].entries@.len()
            && (#[trigger] segs[i].entries@[j]).key@ == k
            ==> (segs_winner(segs, k) matches Some(w) && w.seqno >= segs[i].entries@[j].seqno),
    decreases segs.len(),
{
    if segs.len() > 0 {
        assert forall|i: int| 0 <= i < segs.drop_last().len()
            implies entries_sorted((#[trigger] segs.drop_last()[i]).entries@) by {
            assert(segs.drop_last()[i] == segs[i]);
        }
        lemma_segs_winner_is_newest(segs.drop_last(), k);
        lemma_src_winner_is_newest(segs.last().entries@, k);
        assert forall|i: int, j: int| 0 <= i < segs.len()
            && 0 <= j < segs[i].entries@.len()
            && (#[trigger] segs[i].entries@[j]).key@ == k
            implies (segs_winner(segs, k) matches Some(w)
                && w.seqno >= segs[i].entries@[j].seqno) by {
            if i < segs.len() - 1 {
                assert(segs.drop_last()[i] == segs[i]);
                assert(segs.drop_last()[i].entries@[j].key@ == k);
            } else {
                assert(segs[i] == segs.last());
            }
        }
    }
}

/// Multi-version visibility, as a law of every well-formed index: the
/// winning version of a key carries the highest sequence number among
/// all versions of that key stored anywhere in the index.
pub proof fn lemma_winner_is_newest(t: IndexTree, k: Seq<u8>)
    requires
        t.wf(),
    ensures
        forall|i: int| 0 <= i < t.memtable@.len() && (#[trigger] t.memtable@[i]).key@ == k
            ==> (t.winner(k) matches Some(w) && w.seqno >= t.memtable@[i].seqno),
        forall|i: int, j: int| 0 <= i < t.segments@.len()
            && 0 <= j < t.segments@[i].entries@.len()
            && (#[trigger] t.segments@[i].entries@[j]).key@ == k
            ==> (t.winner(k) matches Some(w)
                && w.seqno >= t.segments@[i].entries@[j].seqno),
{
    lemma_src_winner_is_newest(t.memtable@, k);
    lemma_segs_winner_is_newest(t.segments@, k);
}

} // verus!
