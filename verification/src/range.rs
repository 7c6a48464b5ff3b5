//! Range scans over the blob tree.
//!
//! A scan walks the keys in lexicographic order, resolving each winning
//! version exactly as a point lookup would: the output is strictly
//! ascending, stays inside the requested bounds, and holds exactly the
//! keys that are visible there.  The scan repeatedly looks for the
//! smallest stored key past a moving cursor, so its order comes from the
//! key order alone, never from segment layout.

use vstd::prelude::*;
use crate::blob::BlobTree;
use crate::index::{IndexTree, IndexSegment, InternalEntry, lemma_src_winner_member,
    lemma_segs_winner_member};
use crate::keys::{lex_lt, key_cmp, KeyOrd, lemma_lex_irrefl, lemma_lex_asym, lemma_lex_trans,
    lemma_lex_trichotomy};

verus! {

/// One end of a key range.
pub enum Bound {
    Included(Vec<u8>),
    Excluded(Vec<u8>),
    Unbounded,
}

/// Whether `k` lies at or past the lower bound `b`.
pub open spec fn above_lower(k: Seq<u8>, b: Bound) -> bool {
    match b {
        Bound::Unbounded => true,
        Bound::Included(a) => a@ == k || lex_lt(a@, k),
        Bound::Excluded(a) => lex_lt(a@, k),
    }
}

/// Whether `k` lies at or before the upper bound `b`.
pub open spec fn below_upper(k: Seq<u8>, b: Bound) -> bool {
    match b {
        Bound::Unbounded => true,
        Bound::Included(a) => k == a@ || lex_lt(k, a@),
        Bound::Excluded(a) => lex_lt(k, a@),
    }
}

/// Whether `k` lies inside the range `[lo, hi]`.
pub open spec fn in_bounds(k: Seq<u8>, lo: Bound, hi: Bound) -> bool {
    above_lower(k, lo) && below_upper(k, hi)
}

/// Whether some entry of `v` carries key `k`.
pub open spec fn key_in(v: Seq<InternalEntry>, k: Seq<u8>) -> bool {
    exists|i: int| 0 <= i < v.len() && (#[trigger] v[i]).key@ == k
}

/// A candidate of one scan step: a stored key inside the current bounds.
pub open spec fn cand(v: Seq<InternalEntry>, cut: Bound, hi: Bound, k: Seq<u8>) -> bool {
    key_in(v, k) && above_lower(k, cut) && below_upper(k, hi)
}

/// Decides `above_lower` on concrete keys.
fn key_above_lower(k: &Vec<u8>, b: &Bound) -> (r: bool)
    ensures
        r == above_lower(k@, *b),
{
    match b {
        Bound::Unbounded => true,
        Bound::Included(a) => match key_cmp(a, k) {
            KeyOrd::Less => true,
            KeyOrd::Equal => true,
            KeyOrd::Greater => {
                proof {
                    lemma_lex_asym(k@, a@);
                    lemma_lex_irrefl(k@);
                }
                false
            }
        },
        Bound::Excluded(a) => match key_cmp(a, k) {
            KeyOrd::Less => true,
            KeyOrd::Equal => {
                proof {
                    lemma_lex_irrefl(k@);
                }
                false
            }
            KeyOrd::Greater => {
                proof {
                    lemma_lex_asym(k@, a@);
                }
                false
            }
        },
    }
}

/// Decides `below_upper` on concrete keys.
fn key_below_upper(k: &Vec<u8>, b: &Bound) -> (r: bool)
    ensures
        r == below_upper(k@, *b),
{
    match b {
        Bound::Unbounded => true,
        Bound::Included(a) => match key_cmp(k, a) {
            KeyOrd::Less => true,
            KeyOrd::Equal => true,
            KeyOrd::Greater => {
                proof {
                    lemma_lex_asym(a@, k@);
                    lemma_lex_irrefl(k@);
                }
                false
            }
        },
        Bound::Excluded(a) => match key_cmp(k, a) {
            KeyOrd::Less => true,
            KeyOrd::Equal => {
                proof {
                    lemma_lex_irrefl(k@);
                }
                false
            }
            KeyOrd::Greater => {
                proof {
                    lemma_lex_asym(a@, k@);
                }
                false
            }
        },
    }
}

/// Folds the in-bounds keys of one source into the running minimum.
fn scan_src(v: &Vec<InternalEntry>, cut: &Bound, hi: &Bound, best: Option<Vec<u8>>)
    -> (r: Option<Vec<u8>>)
    requires
        best matches Some(b) ==> above_lower(b@, *cut) && below_upper(b@, *hi),
    ensures
        best is Some ==> r is Some,
        match r {
            None => best is None && (forall|k2: Seq<u8>| !cand(v@, *cut, *hi, k2)),
            Some(c) => {
                &&& above_lower(c@, *cut) && below_upper(c@, *hi)
                &&& (cand(v@, *cut, *hi, c@)
                    || (best matches Some(b) && b@ == c@))
                &&& forall|k2: Seq<u8>| cand(v@, *cut, *hi, k2)
                    ==> c@ == k2 || lex_lt(c@, k2)
                &&& (best matches Some(b) ==> (c@ == b@ || lex_lt(c@, b@)))
            },
        },
{
    let ghost best0 = best;
    let mut cur = best;
    let mut i: usize = 0;
    proof {
        assert(forall|k2: Seq<u8>| !cand(v@.take(0), *cut, *hi, k2));
    }
    while i < v.len()
        invariant
            0 <= i <= v@.len(),
            best0 matches Some(b) ==> above_lower(b@, *cut) && below_upper(b@, *hi),
            best0 is Some ==> cur is Some,
            cur is None ==> best0 is None,
            cur is None ==> forall|k2: Seq<u8>|
                !(#[trigger] cand(v@.take(i as int), *cut, *hi, k2)),
            cur matches Some(c) ==> above_lower(c@, *cut) && below_upper(c@, *hi),
            cur matches Some(c) ==> (cand(v@.take(i as int), *cut, *hi, c@)
                || (best0 matches Some(b) && b@ == c@)),
            cur matches Some(c) ==> forall|k2: Seq<u8>|
                #[trigger] cand(v@.take(i as int), *cut, *hi, k2)
                ==> c@ == k2 || lex_lt(c@, k2),
            cur is Some && best0 is Some ==> (cur->Some_0@ == best0->Some_0@
                || lex_lt(cur->Some_0@, best0->Some_0@)),
        decreases v@.len() - i,
    {
        let ghost prev = cur;
        let in_lo = key_above_lower(&v[i].key, cut);
        let in_hi = key_below_upper(&v[i].key, hi);
        if in_lo && in_hi {
            let replace = match &cur {
                None => true,
                Some(b) => matches!(key_cmp(&v[i].key, b), KeyOrd::Less),
            };
            if replace {
                let ck = v[i].key.clone();
                proof {
                    assert(ck@ =~= v@[i as int].key@);
                }
                cur = Some(ck);
            }
        }
        proof {
            let vk = v@[i as int].key@;
            assert(v@.take(i + 1)[i as int] == v@[i as int]);
            assert forall|k2: Seq<u8>| cand(v@.take(i + 1), *cut, *hi, k2)
                implies cand(v@.take(i as int), *cut, *hi, k2) || k2 == vk by {
                if key_in(v@.take(i + 1), k2) {
                    let ix = choose|ix: int| 0 <= ix < v@.take(i + 1).len()
                        && (#[trigger] v@.take(i + 1)[ix]).key@ == k2;
                    if ix < i {
                        assert(v@.take(i as int)[ix] == v@.take(i + 1)[ix]);
                    }
                }
            }
            match &cur {
                None => {
                    assert forall|k2: Seq<u8>| !(#[trigger] cand(v@.take(i + 1), *cut, *hi, k2)) by {
                        if cand(v@.take(i + 1), *cut, *hi, k2) {
                            assert(cand(v@.take(i as int), *cut, *hi, k2) || k2 == vk);
                        }
                    }
                }
                Some(c) => {
                    assert forall|k2: Seq<u8>| cand(v@.take(i + 1), *cut, *hi, k2)
                        implies c@ == k2 || lex_lt(c@, k2) by {
                        if cand(v@.take(i as int), *cut, *hi, k2) {
                            match prev {
                                Some(p) => {
                                    if c@ != p@ && lex_lt(c@, p@)
                                        && p@ != k2 && lex_lt(p@, k2) {
                                        lemma_lex_trans(c@, p@, k2);
                                    }
                                }
                                None => {}
                            }
                        } else {
                            assert(k2 == vk);
                            match prev {
                                Some(p) => {
                                    if c@ == p@ {
                                        lemma_lex_trichotomy(p@, vk);
                                    }
                                }
                                None => {}
                            }
                        }
                    }
                }
            }
            if cur is Some && best0 is Some {
                let c = cur->Some_0@;
                let b0 = best0->Some_0@;
                match &prev {
                    Some(p) => {
                        if c != p@ && lex_lt(c, p@) && p@ != b0 && lex_lt(p@, b0) {
                            lemma_lex_trans(c, p@, b0);
                        }
                    }
                    None => {}
                }
            }
        }
        i = i + 1;
    }
    proof {
        assert(v@.take(v@.len() as int) =~= v@);
    }
    cur
}

impl IndexTree {
    /// Whether any tier stores any version of `k`.
    pub open spec fn has_key(self, k: Seq<u8>) -> bool {
        key_in(self.memtable@, k) || exists|i: int|
            0 <= i < self.segments@.len() && key_in((#[trigger] self.segments@[i]).entries@, k)
    }

    /// The smallest stored key inside `[cut, hi]`, if any.
    pub fn find_next(&self, cut: &Bound, hi: &Bound) -> (r: Option<Vec<u8>>)
        ensures
            match r {
                None => forall|k2: Seq<u8>|
                    !(#[trigger] self.has_key(k2) && above_lower(k2, *cut)
                        && below_upper(k2, *hi)),
                Some(k) => {
                    &&& above_lower(k@, *cut) && below_upper(k@, *hi)
                    &&& self.has_key(k@)
                    &&& forall|k2: Seq<u8>| #[trigger] self.has_key(k2)
                        && above_lower(k2, *cut) && below_upper(k2, *hi)
                        ==> k@ == k2 || lex_lt(k@, k2)
                },
            },
    {
        let mut best = scan_src(&self.memtable, cut, hi, None);
        let mut j: usize = 0;
        while j < self.segments.len()
            invariant
                0 <= j <= self.segments@.len(),
                match best {
                    None => (forall|k2: Seq<u8>| !cand(self.memtable@, *cut, *hi, k2))
                        && (forall|i: int, k2: Seq<u8>| 0 <= i < j
                            ==> !(#[trigger] cand(self.segments@[i].entries@, *cut, *hi, k2))),
                    Some(c) => {
                        &&& above_lower(c@, *cut) && below_upper(c@, *hi)
                        &&& (cand(self.memtable@, *cut, *hi, c@) || exists|i: int|
                            0 <= i < j && #[trigger] cand(self.segments@[i].entries@,
                                *cut, *hi, c@))
                        &&& forall|k2: Seq<u8>| cand(self.memtable@, *cut, *hi, k2)
                            ==> c@ == k2 || lex_lt(c@, k2)
                        &&& forall|i: int, k2: Seq<u8>| 0 <= i < j
                            && #[trigger] cand(self.segments@[i].entries@, *cut, *hi, k2)
                            ==> c@ == k2 || lex_lt(c@, k2)
                    },
                },
            decreases self.segments@.len() - j,
        {
            let ghost prev = best;
            best = scan_src(&self.segments[j].entries, cut, hi, best);
            proof {
                match &best {
                    None => {}
                    Some(c) => {
                        assert forall|i: int, k2: Seq<u8>| 0 <= i < j + 1
                            && #[trigger] cand(self.segments@[i].entries@, *cut, *hi, k2)
                            implies c@ == k2 || lex_lt(c@, k2) by {
                            if i < j {
                                match prev {
                                    Some(p) => {
                                        if c@ != p@ && lex_lt(c@, p@)
                                            && p@ != k2 && lex_lt(p@, k2) {
                                            lemma_lex_trans(c@, p@, k2);
                                        }
                                    }
                                    None => {}
                                }
                            }
                        }
                        assert forall|k2: Seq<u8>| cand(self.memtable@, *cut, *hi, k2)
                            implies c@ == k2 || lex_lt(c@, k2) by {
                            match prev {
                                Some(p) => {
                                    if c@ != p@ && lex_lt(c@, p@)
                                        && p@ != k2 && lex_lt(p@, k2) {
                                        lemma_lex_trans(c@, p@, k2);
                                    }
                                }
                                None => {}
                            }
                        }
                    }
                }
            }
            j = j + 1;
        }
        proof {
            match &best {
                None => {
                    assert forall|k2: Seq<u8>| !(#[trigger] self.has_key(k2)
                        && above_lower(k2, *cut) && below_upper(k2, *hi)) by {
                        if self.has_key(k2) && above_lower(k2, *cut)
                            && below_upper(k2, *hi) {
                            if key_in(self.memtable@, k2) {
                                assert(cand(self.memtable@, *cut, *hi, k2));
                            } else {
                                let si = choose|si: int| 0 <= si < self.segments@.len()
                                    && key_in((#[trigger] self.segments@[si]).entries@, k2);
                                assert(cand(self.segments@[si].entries@, *cut, *hi, k2));
                            }
                        }
                    }
                }
                Some(c) => {
                    assert forall|k2: Seq<u8>| #[trigger] self.has_key(k2)
                        && above_lower(k2, *cut) && below_upper(k2, *hi)
                        implies c@ == k2 || lex_lt(c@, k2) by {
                        if key_in(self.memtable@, k2) {
                            assert(cand(self.memtable@, *cut, *hi, k2));
                        } else {
                            let si = choose|si: int| 0 <= si < self.segments@.len()
                                && key_in((#[trigger] self.segments@[si]).entries@, k2);
                            assert(cand(self.segments@[si].entries@, *cut, *hi, k2));
                        }
                    }
                    assert(self.has_key(c@)) by {
                        if cand(self.memtable@, *cut, *hi, c@) {
                        } else {
                            let si = choose|si: int| 0 <= si < self.segments@.len()
                                && #[trigger] cand(self.segments@[si].entries@,
                                    *cut, *hi, c@);
                            assert(key_in(self.segments@[si].entries@, c@));
                        }
                    }
                }
            }
        }
        best
    }
}

/// How many stored entries still lie past the cursor: the scan's
/// termination measure.
pub open spec fn cnt_src(s: Seq<InternalEntry>, cut: Bound) -> nat
    decreases s.len(),
{
    if s.len() == 0 {
        0
    } else {
        cnt_src(s.drop_first(), cut) + (if above_lower(s[0].key@, cut) {
            1nat
        } else {
            0nat
        })
    }
}

/// The same measure summed over all segments.
pub open spec fn cnt_segs(segs: Seq<IndexSegment>, cut: Bound) -> nat
    decreases segs.len(),
{
    if segs.len() == 0 {
        0
    } else {
        cnt_src(segs[0].entries@, cut) + cnt_segs(segs.drop_first(), cut)
    }
}

/// The whole index's measure.
pub open spec fn cnt_index(t: IndexTree, cut: Bound) -> nat {
    cnt_src(t.memtable@, cut) + cnt_segs(t.segments@, cut)
}

/// Tightening the cursor never raises the measure.
proof fn lemma_cnt_src_mono(s: Seq<InternalEntry>, c1: Bound, c2: Bound)
    requires
        forall|k: Seq<u8>| above_lower(k, c2) ==> above_lower(k, c1),
    ensures
        cnt_src(s, c2) <= cnt_src(s, c1),
    decreases s.len(),
{
    if s.len() > 0 {
        lemma_cnt_src_mono(s.drop_first(), c1, c2);
    }
}

/// Tightening the cursor past a stored entry strictly lowers the measure.
proof fn lemma_cnt_src_strict(s: Seq<InternalEntry>, c1: Bound, c2: Bound, idx: int)
    requires
        forall|k: Seq<u8>| above_lower(k, c2) ==> above_lower(k, c1),
        0 <= idx < s.len(),
        above_lower(s[idx].key@, c1),
        !above_lower(s[idx].key@, c2),
    ensures
        cnt_src(s, c2) < cnt_src(s, c1),
    decreases s.len(),
{
    if idx == 0 {
        lemma_cnt_src_mono(s.drop_first(), c1, c2);
    } else {
        assert(s.drop_first()[idx - 1] == s[idx]);
        lemma_cnt_src_strict(s.drop_first(), c1, c2, idx - 1);
    }
}

/// As [`lemma_cnt_src_mono`], over all segments.
proof fn lemma_cnt_segs_mono(segs: Seq<IndexSegment>, c1: Bound, c2: Bound)
    requires
        forall|k: Seq<u8>| above_lower(k, c2) ==> above_lower(k, c1),
    ensures
        cnt_segs(segs, c2) <= cnt_segs(segs, c1),
    decreases segs.len(),
{
    if segs.len() > 0 {
        lemma_cnt_src_mono(segs[0].entries@, c1, c2);
        lemma_cnt_segs_mono(segs.drop_first(), c1, c2);
    }
}

/// As [`lemma_cnt_src_strict`], with the witness in segment `si`.
proof fn lemma_cnt_segs_strict(segs: Seq<IndexSegment>, c1: Bound, c2: Bound, si: int, idx: int)
    requires
        forall|k: Seq<u8>| above_lower(k, c2) ==> above_lower(k, c1),
        0 <= si < segs.len(),
        0 <= idx < segs[si].entries@.len(),
        above_lower(segs[si].entries@[idx].key@, c1),
        !above_lower(segs[si].entries@[idx].key@, c2),
    ensures
        cnt_segs(segs, c2) < cnt_segs(segs, c1),
    decreases segs.len(),
{
    if si == 0 {
        lemma_cnt_src_strict(segs[0].entries@, c1, c2, idx);
        lemma_cnt_segs_mono(segs.drop_first(), c1, c2);
    } else {
        lemma_cnt_src_mono(segs[0].entries@, c1, c2);
        assert(segs.drop_first()[si - 1] == segs[si]);
        lemma_cnt_segs_strict(segs.drop_first(), c1, c2, si - 1, idx);
    }
}

/// Moving the cursor up to an excluded key that itself lay past the old
/// cursor only tightens it.
proof fn lemma_cut_advance(c1: Bound, c2: Bound, k: Seq<u8>)
    requires
        above_lower(k, c1),
        c2 matches Bound::Excluded(a) && a@ == k,
    ensures
        forall|k2: Seq<u8>| above_lower(k2, c2) ==> above_lower(k2, c1),
{
    assert forall|k2: Seq<u8>| above_lower(k2, c2) implies above_lower(k2, c1) by {
        match c1 {
            Bound::Unbounded => {}
            Bound::Included(a1) => {
                if a1@ != k && lex_lt(a1@, k) {
                    lemma_lex_trans(a1@, k, k2);
                }
            }
            Bound::Excluded(a1) => {
                lemma_lex_trans(a1@, k, k2);
            }
        }
    }
}

/// A key with a winning version is a stored key.
proof fn lemma_winner_has_key(t: IndexTree, k: Seq<u8>)
    ensures
        t.winner(k) is Some ==> t.has_key(k),
{
    lemma_src_winner_member(t.memtable@, k);
    lemma_segs_winner_member(t.segments@, k);
    if t.winner(k) is Some {
        if crate::index::src_winner(t.memtable@, k) is Some {
        } else {
            assert(crate::index::segs_winner(t.segments@, k) is Some);
        }
    }
}

impl BlobTree {
    /// Scans the keys inside `[lo, hi]` in ascending order, resolving
    /// each visible value exactly as a point lookup would: the output is
    /// strictly ascending by key, stays inside the bounds, and holds
    /// exactly the visible keys of the range.
    pub fn range(&self, lo: Bound, hi: Bound) -> (r: Vec<(Vec<u8>, Vec<u8>)>)
        requires
            self.wf(),
        ensures
            forall|i: int| 0 <= i < r@.len()
                ==> in_bounds((#[trigger] r@[i]).0@, lo, hi),
            forall|i: int| 0 <= i < r@.len()
                ==> self.visible((#[trigger] r@[i]).0@) == Some(r@[i].1@),
            forall|i: int, j: int| 0 <= i < j < r@.len()
                ==> lex_lt(r@[i].0@, r@[j].0@),
            forall|k: Seq<u8>| in_bounds(k, lo, hi) && self.visible(k) is Some
                ==> exists|i: int| 0 <= i < r@.len() && (#[trigger] r@[i]).0@ == k,
    {
        let ghost lo0 = lo;
        let mut out: Vec<(Vec<u8>, Vec<u8>)> = Vec::new();
        let mut cut = lo;
        let mut done = false;
        while !done
            invariant
                self.wf(),
                forall|k2: Seq<u8>| above_lower(k2, cut) ==> above_lower(k2, lo0),
                forall|i: int| 0 <= i < out@.len()
                    ==> in_bounds((#[trigger] out@[i]).0@, lo0, hi),
                forall|i: int| 0 <= i < out@.len()
                    ==> self.visible((#[trigger] out@[i]).0@) == Some(out@[i].1@),
                forall|i: int, k2: Seq<u8>|
                    #![trigger out@[i], above_lower(k2, cut)]
                    0 <= i < out@.len() && above_lower(k2, cut)
                    ==> lex_lt(out@[i].0@, k2),
                forall|i: int, j: int| 0 <= i < j < out@.len()
                    ==> lex_lt(out@[i].0@, out@[j].0@),
                forall|k2: Seq<u8>| in_bounds(k2, lo0, hi) && self.visible(k2) is Some
                    && !above_lower(k2, cut)
                    ==> exists|i: int| 0 <= i < out@.len() && (#[trigger] out@[i]).0@ == k2,
                done ==> forall|k2: Seq<u8>|
                    !(self.index.has_key(k2) && above_lower(k2, cut) && below_upper(k2, hi)),
            decreases (if done { 0int } else { 1int }), cnt_index(self.index, cut),
        {
            match self.index.find_next(&cut, &hi) {
                None => {
                    done = true;
                }
                Some(k) => {
                    let ghost cut0 = cut;
                    let ghost kk = k@;
                    let ghost out0 = out@;
                    match self.get(&k) {
                        Ok(Some(v)) => {
                            let ck = k.clone();
                            proof {
                                assert(ck@ =~= k@);
                            }
                            out.push((ck, v));
                        }
                        Ok(None) => {}
                        Err(_) => {}
                    }
                    cut = Bound::Excluded(k);
                    proof {
                        lemma_cut_advance(cut0, cut, kk);
                        // the skipped gap holds no stored key, hence nothing visible
                        assert forall|k2: Seq<u8>| in_bounds(k2, lo0, hi)
                            && self.visible(k2) is Some && !above_lower(k2, cut)
                            implies exists|i: int| 0 <= i < out@.len()
                                && (#[trigger] out@[i]).0@ == k2 by {
                            if above_lower(k2, cut0) {
                                lemma_winner_has_key(self.index, k2);
                                if k2 != kk {
                                    assert(lex_lt(kk, k2));
                                    assert(false);
                                } else {
                                    assert(out@.last().0@ == k2);
                                }
                            } else {
                                let i = choose|i: int| 0 <= i < out0.len()
                                    && (#[trigger] out0[i]).0@ == k2;
                                assert(out@[i] == out0[i]);
                            }
                        }
                        // termination: the found key's entry no longer counts
                        lemma_lex_irrefl(kk);
                        if key_in(self.index.memtable@, kk) {
                            let ix = choose|ix: int| 0 <= ix < self.index.memtable@.len()
                                && (#[trigger] self.index.memtable@[ix]).key@ == kk;
                            lemma_cnt_src_strict(self.index.memtable@, cut0, cut, ix);
                            lemma_cnt_segs_mono(self.index.segments@, cut0, cut);
                        } else {
                            let si = choose|si: int| 0 <= si < self.index.segments@.len()
                                && key_in((#[trigger] self.index.segments@[si]).entries@, kk);
                            let ix = choose|ix: int|
                                0 <= ix < self.index.segments@[si].entries@.len()
                                && (#[trigger] self.index.segments@[si].entries@[ix]).key@
                                    == kk;
                            lemma_cnt_src_mono(self.index.memtable@, cut0, cut);
                            lemma_cnt_segs_strict(self.index.segments@, cut0, cut, si, ix);
                        }
                    }
                }
            }
        }
        proof {
            assert forall|k2: Seq<u8>| in_bounds(k2, lo0, hi) && self.visible(k2) is Some
                implies exists|i: int| 0 <= i < out@.len()
                    && (#[trigger] out@[i]).0@ == k2 by {
                if above_lower(k2, cut) {
                    lemma_winner_has_key(self.index, k2);
                }
            }
        }
        out
    }

    /// Scans the whole store in ascending key order.
    pub fn iter(&self) -> (r: Vec<(Vec<u8>, Vec<u8>)>)
        requires
            self.wf(),
        ensures
            forall|i: int| 0 <= i < r@.len()
                ==> self.visible((#[trigger] r@[i]).0@) == Some(r@[i].1@),
            forall|i: int, j: int| 0 <= i < j < r@.len()
                ==> lex_lt(r@[i].0@, r@[j].0@),
            forall|k: Seq<u8>| self.visible(k) is Some
                ==> exists|i: int| 0 <= i < r@.len() && (#[trigger] r@[i]).0@ == k,
    {
        let r = self.range(Bound::Unbounded, Bound::Unbounded);
        proof {
            assert forall|k: Seq<u8>| self.visible(k) is Some
                implies exists|i: int| 0 <= i < r@.len() && (#[trigger] r@[i]).0@ == k by {
                assert(in_bounds(k, Bound::Unbounded, Bound::Unbounded));
            }
        }
        r
    }

    /// Counts the visible keys by scanning the whole store.
    pub fn len(&self) -> (r: usize)
        requires
            self.wf(),
        ensures
            exists|s: Seq<(Seq<u8>, Seq<u8>)>| {
                &&& r == s.len()
                &&& forall|i: int| 0 <= i < s.len()
                    ==> self.visible((#[trigger] s[i]).0) == Some(s[i].1)
                &&& forall|i: int, j: int| 0 <= i < j < s.len() ==> lex_lt(s[i].0, s[j].0)
                &&& forall|k: Seq<u8>| self.visible(k) is Some
                    ==> exists|i: int| 0 <= i < s.len() && (#[trigger] s[i]).0 == k
            },
    {
        let items = self.iter();
        proof {
            let s = Seq::new(items@.len() as nat, |i: int| (items@[i].0@, items@[i].1@));
            assert(forall|i: int| 0 <= i < s.len()
                ==> (#[trigger] s[i]).0 == items@[i].0@ && s[i].1 == items@[i].1@);
            assert forall|k: Seq<u8>| self.visible(k) is Some
                implies exists|i: int| 0 <= i < s.len() && (#[trigger] s[i]).0 == k by {
                let i = choose|i: int| 0 <= i < items@.len()
                    && (#[trigger] items@[i]).0@ == k;
                assert(s[i].0 == k);
            }
            assert({
                &&& items@.len() == s.len()
                &&& forall|i: int| 0 <= i < s.len()
                    ==> self.visible((#[trigger] s[i]).0) == Some(s[i].1)
                &&& forall|i: int, j: int| 0 <= i < j < s.len() ==> lex_lt(s[i].0, s[j].0)
                &&& forall|k: Seq<u8>| self.visible(k) is Some
                    ==> exists|i: int| 0 <= i < s.len() && (#[trigger] s[i]).0 == k
            });
        }
        items.len()
    }
}

} // verus!
