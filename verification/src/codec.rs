//! Codec for the value stored inside the LSM index.
//!
//! Every index value is an [`EncodedEntry`]: either the user bytes held
//! inline, or a [`ValueHandle`] pointing into the value log.  The wire
//! form is one tag byte (`0` inline, `1` indirect); an inline entry
//! carries a 64-bit big-endian length and that many bytes, an indirect
//! entry carries `offset` then `segment_id`, both 64-bit big-endian.
//! The format is persistent on disk and must stay bit-compatible.

use vstd::prelude::*;

verus! {

/// A stable pointer to a value's bytes inside a value-log segment.
#[derive(Clone, Copy, PartialEq, Eq, Structural, Debug)]
pub struct ValueHandle {
    pub segment_id: u64,
    pub offset: u64,
}

/// The value physically stored inside the LSM index.
#[derive(Debug)]
pub enum EncodedEntry {
    /// The user value itself, held inline in the index.
    Inline(Vec<u8>),
    /// A reference into the value log.
    Indirect(ValueHandle),
}

/// Mathematical form of an [`EncodedEntry`].
pub enum EntryModel {
    Inline(Seq<u8>),
    Indirect(ValueHandle),
}

impl View for EncodedEntry {
    type V = EntryModel;

    open spec fn view(&self) -> EntryModel {
        match self {
            EncodedEntry::Inline(b) => EntryModel::Inline(b@),
            EncodedEntry::Indirect(h) => EntryModel::Indirect(*h),
        }
    }
}

/// Why a byte sequence failed to decode.  An unknown tag is a data error,
/// not a programming error: the bytes come from disk.
#[derive(Clone, Copy, PartialEq, Eq, Structural, Debug)]
pub enum DecodeError {
    /// The buffer ends before the tag, the length or the payload does.
    ShortRead,
    /// The declared inline length does not fit in the address space.
    LengthOverflow,
    /// The tag byte is neither `0` nor `1`.
    UnknownTag(u8),
}

/// The eight big-endian bytes of `x`.
pub open spec fn spec_u64_be(x: u64) -> Seq<u8> {
    seq![
        (x >> 56) as u8,
        (x >> 48) as u8,
        (x >> 40) as u8,
        (x >> 32) as u8,
        (x >> 24) as u8,
        (x >> 16) as u8,
        (x >> 8) as u8,
        x as u8,
    ]
}

/// The value read back from eight big-endian bytes.
pub open spec fn spec_u64_from_be(s: Seq<u8>) -> u64
    recommends
        s.len() == 8,
{
    (((s[0] as u64) << 56) | ((s[1] as u64) << 48) | ((s[2] as u64) << 40)
        | ((s[3] as u64) << 32) | ((s[4] as u64) << 24) | ((s[5] as u64) << 16)
        | ((s[6] as u64) << 8) | (s[7] as u64)) as u64
}

/// Reading back the eight big-endian bytes of `x` yields `x`.
pub proof fn lemma_u64_be_round_trip(x: u64)
    ensures
        spec_u64_from_be(spec_u64_be(x)) == x,
{
    assert((((((x >> 56) as u8) as u64) << 56) | ((((x >> 48) as u8) as u64) << 48)
        | ((((x >> 40) as u8) as u64) << 40) | ((((x >> 32) as u8) as u64) << 32)
        | ((((x >> 24) as u8) as u64) << 24) | ((((x >> 16) as u8) as u64) << 16)
        | ((((x >> 8) as u8) as u64) << 8) | ((x as u8) as u64)) == x) by (bit_vector);
}

/// The wire form of an entry.
pub open spec fn spec_encode(e: EntryModel) -> Seq<u8> {
    match e {
        EntryModel::Inline(b) => seq![0u8] + spec_u64_be(b.len() as u64) + b,
        EntryModel::Indirect(h) => seq![1u8] + spec_u64_be(h.offset) + spec_u64_be(h.segment_id),
    }
}

/// An inline payload no longer than the address space allows.
pub open spec fn entry_fits(e: EntryModel) -> bool {
    match e {
        EntryModel::Inline(b) => b.len() <= usize::MAX,
        EntryModel::Indirect(_) => true,
    }
}

/// The entry parsed from the front of `s`, or the error the parse fails
/// with.  Bytes past one whole entry are ignored, as a cursor would.
pub open spec fn spec_decode(s: Seq<u8>) -> Result<EntryModel, DecodeError> {
    if s.len() < 1 {
        Err(DecodeError::ShortRead)
    } else if s[0] == 0u8 {
        if s.len() < 9 {
            Err(DecodeError::ShortRead)
        } else {
            let n = spec_u64_from_be(s.subrange(1, 9));
            if n > usize::MAX as u64 {
                Err(DecodeError::LengthOverflow)
            } else if s.len() < 9 + n {
                Err(DecodeError::ShortRead)
            } else {
                Ok(EntryModel::Inline(s.subrange(9, 9 + n as int)))
            }
        }
    } else if s[0] == 1u8 {
        if s.len() < 17 {
            Err(DecodeError::ShortRead)
        } else {
            Ok(EntryModel::Indirect(ValueHandle {
                segment_id: spec_u64_from_be(s.subrange(9, 17)),
                offset: spec_u64_from_be(s.subrange(1, 9)),
            }))
        }
    } else {
        Err(DecodeError::UnknownTag(s[0]))
    }
}

/// Round-trip law of the codec: decoding an encoded entry gives the entry
/// back, for every entry whose payload fits in memory.
pub proof fn lemma_codec_round_trip(e: EntryModel)
    requires
        entry_fits(e),
    ensures
        spec_decode(spec_encode(e)) == Ok::<EntryModel, DecodeError>(e),
{
    match e {
        EntryModel::Inline(b) => {
            let s = spec_encode(e);
            let n = b.len() as u64;
            assert(s.subrange(1, 9) =~= spec_u64_be(n));
            lemma_u64_be_round_trip(n);
            assert(s.subrange(9, 9 + n as int) =~= b);
        }
        EntryModel::Indirect(h) => {
            let s = spec_encode(e);
            assert(s.subrange(1, 9) =~= spec_u64_be(h.offset));
            assert(s.subrange(9, 17) =~= spec_u64_be(h.segment_id));
            lemma_u64_be_round_trip(h.offset);
            lemma_u64_be_round_trip(h.segment_id);
        }
    }
}

/// Appends the eight big-endian bytes of `x` to `out`.
fn push_u64_be(out: &mut Vec<u8>, x: u64)
    ensures
        final(out)@ == old(out)@ + spec_u64_be(x),
{
    out.push((x >> 56) as u8);
    out.push((x >> 48) as u8);
    out.push((x >> 40) as u8);
    out.push((x >> 32) as u8);
    out.push((x >> 24) as u8);
    out.push((x >> 16) as u8);
    out.push((x >> 8) as u8);
    out.push(x as u8);
    assert(out@ =~= old(out)@ + spec_u64_be(x));
}

/// Reads a 64-bit big-endian integer at `pos`.
fn read_u64_be(s: &Vec<u8>, pos: usize) -> (r: u64)
    requires
        pos + 8 <= s@.len(),
    ensures
        r == spec_u64_from_be(s@.subrange(pos as int, pos + 8)),
{
    let l: usize = s.len();
    proof {
        let w = s@.subrange(pos as int, pos + 8);
        assert(w[0] == s@[pos as int] && w[1] == s@[pos + 1] && w[2] == s@[pos + 2]
            && w[3] == s@[pos + 3] && w[4] == s@[pos + 4] && w[5] == s@[pos + 5]
            && w[6] == s@[pos + 6] && w[7] == s@[pos + 7]);
    }
    ((s[pos] as u64) << 56) | ((s[pos + 1] as u64) << 48) | ((s[pos + 2] as u64) << 40)
        | ((s[pos + 3] as u64) << 32) | ((s[pos + 4] as u64) << 24)
        | ((s[pos + 5] as u64) << 16) | ((s[pos + 6] as u64) << 8) | (s[pos + 7] as u64)
}

/// Serializes an entry to its wire form.
pub fn encode(e: &EncodedEntry) -> (r: Vec<u8>)
    ensures
        r@ == spec_encode(e@),
{
    let mut out: Vec<u8> = Vec::new();
    match e {
        EncodedEntry::Inline(b) => {
            out.push(0u8);
            push_u64_be(&mut out, b.len() as u64);
            let mut i: usize = 0;
            while i < b.len()
                invariant
                    0 <= i <= b@.len(),
                    out@ == seq![0u8] + spec_u64_be(b@.len() as u64) + b@.subrange(0, i as int),
                decreases b@.len() - i,
            {
                out.push(b[i]);
                assert(out@ =~= seq![0u8] + spec_u64_be(b@.len() as u64)
                    + b@.subrange(0, i + 1));
                i = i + 1;
            }
            assert(b@.subrange(0, b@.len() as int) =~= b@);
        }
        EncodedEntry::Indirect(h) => {
            out.push(1u8);
            push_u64_be(&mut out, h.offset);
            push_u64_be(&mut out, h.segment_id);
        }
    }
    out
}

/// Parses one entry from the front of `s`.
pub fn decode(s: &Vec<u8>) -> (r: Result<EncodedEntry, DecodeError>)
    ensures
        match r {
            Ok(e) => spec_decode(s@) == Ok::<EntryModel, DecodeError>(e@),
            Err(er) => spec_decode(s@) == Err::<EntryModel, DecodeError>(er),
        },
{
    if s.len() < 1 {
        return Err(DecodeError::ShortRead);
    }
    let tag = s[0];
    if tag == 0u8 {
        if s.len() < 9 {
            return Err(DecodeError::ShortRead);
        }
        let n = read_u64_be(s, 1);
        if n > usize::MAX as u64 {
            return Err(DecodeError::LengthOverflow);
        }
        let n_us = n as usize;
        if s.len() < 9 || s.len() - 9 < n_us {
            return Err(DecodeError::ShortRead);
        }
        let l: usize = s.len();
        let mut b: Vec<u8> = Vec::new();
        let mut i: usize = 0;
        while i < n_us
            invariant
                0 <= i <= n_us,
                9 + n_us <= l,
                l == s@.len(),
                b@ == s@.subrange(9, 9 + i as int),
            decreases n_us - i,
        {
            b.push(s[9 + i]);
            assert(b@ =~= s@.subrange(9, 9 + (i + 1)));
            i = i + 1;
        }
        Ok(EncodedEntry::Inline(b))
    } else if tag == 1u8 {
        if s.len() < 17 {
            return Err(DecodeError::ShortRead);
        }
        let offset = read_u64_be(s, 1);
        let segment_id = read_u64_be(s, 9);
        Ok(EncodedEntry::Indirect(ValueHandle { segment_id, offset }))
    } else {
        Err(DecodeError::UnknownTag(tag))
    }
}

} // verus!
