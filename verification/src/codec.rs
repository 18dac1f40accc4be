//! Binary framing for log records.
//!
//! Each record is serialized with a self-delimiting, length-prefixed layout so
//! that a replay can find record boundaries without ambiguity:
//!
//! - `Put`:    tag byte `0`, key length (4 bytes little endian), key bytes,
//!   value length (4 bytes little endian), value bytes.
//! - `Remove`: tag byte `1`, key length (4 bytes little endian), key bytes.
//!
//! Keys and values are opaque byte sequences; a delimiter-based framing would
//! be unsafe because values may contain any byte.

use vstd::prelude::*;
use vstd::arithmetic::div_mod::lemma_div_denominator;
use vstd::arithmetic::div_mod::lemma_fundamental_div_mod;
use vstd::arithmetic::div_mod::lemma_fundamental_div_mod_converse;
use vstd::arithmetic::div_mod::lemma_multiply_divide_lt;
use vstd::arithmetic::div_mod::lemma_small_mod;

verus! {

/// Tag byte that opens the frame of a `Put` record.
pub const TAG_PUT: u8 = 0;

/// Tag byte that opens the frame of a `Remove` record.
pub const TAG_REMOVE: u8 = 1;

/// Exclusive upper bound on key and value lengths: they must fit in the
/// 4-byte length prefix.
pub const PART_LEN_BOUND: u64 = 0x1_0000_0000;

/// A durable log record. `Put` establishes or overwrites a key's value;
/// `Remove` tombstones a previously set key. Reads are never persisted.
pub enum Record {
    Put { key: Vec<u8>, value: Vec<u8> },
    Remove { key: Vec<u8> },
}

/// The mathematical shape of a record: the same two variants over `Seq<u8>`.
pub enum RecordModel {
    Put { key: Seq<u8>, value: Seq<u8> },
    Remove { key: Seq<u8> },
}

impl View for Record {
    type V = RecordModel;

    open spec fn view(&self) -> RecordModel {
        match self {
            Record::Put { key, value } => RecordModel::Put { key: key@, value: value@ },
            Record::Remove { key } => RecordModel::Remove { key: key@ },
        }
    }
}

/// A record is encodable when its parts fit the 4-byte length prefix.
pub open spec fn wf_record(r: RecordModel) -> bool {
    match r {
        RecordModel::Put { key, value } => key.len() < PART_LEN_BOUND
            && value.len() < PART_LEN_BOUND,
        RecordModel::Remove { key } => key.len() < PART_LEN_BOUND,
    }
}

/// The four little-endian base-256 digits of `n`.
pub open spec fn spec_le32(n: int) -> Seq<u8>
    recommends
        0 <= n < PART_LEN_BOUND,
{
    seq![
        (n % 256) as u8,
        ((n / 256) % 256) as u8,
        ((n / 65536) % 256) as u8,
        ((n / 16777216) % 256) as u8,
    ]
}

/// The value of four little-endian base-256 digits.
pub open spec fn spec_le32_val(s: Seq<u8>) -> int
    recommends
        s.len() == 4,
{
    s[0] + 256 * s[1] + 65536 * s[2] + 16777216 * s[3]
}

/// Reading back the digits of `n` yields `n`.
pub proof fn lemma_le32_roundtrip(n: int)
    requires
        0 <= n < PART_LEN_BOUND,
    ensures
        spec_le32_val(spec_le32(n)) == n,
{
    lemma_fundamental_div_mod(n, 256);
    lemma_fundamental_div_mod(n / 256, 256);
    lemma_div_denominator(n, 256, 256);
    assert(n / 65536 == (n / 256) / 256);
    lemma_fundamental_div_mod(n / 65536, 256);
    lemma_div_denominator(n, 65536, 256);
    assert(n / 16777216 == (n / 65536) / 256);
    lemma_multiply_divide_lt(n, 256, 16777216);
    lemma_small_mod((n / 16777216) as nat, 256);
}

/// Four digits are recovered from their value: `spec_le32` is the inverse of
/// `spec_le32_val` on 4-byte sequences, whose values all lie below the bound.
pub proof fn lemma_le32_inverse(s: Seq<u8>)
    requires
        s.len() == 4,
    ensures
        0 <= spec_le32_val(s) < PART_LEN_BOUND,
        spec_le32(spec_le32_val(s)) == s,
{
    let b0 = s[0] as int;
    let b1 = s[1] as int;
    let b2 = s[2] as int;
    let b3 = s[3] as int;
    let v = spec_le32_val(s);
    lemma_fundamental_div_mod_converse(v, 256, b1 + 256 * b2 + 65536 * b3, b0);
    lemma_fundamental_div_mod_converse(v / 256, 256, b2 + 256 * b3, b1);
    lemma_div_denominator(v, 256, 256);
    assert(v / 65536 == (v / 256) / 256);
    lemma_fundamental_div_mod_converse(v / 65536, 256, b3, b2);
    lemma_div_denominator(v, 65536, 256);
    assert(v / 16777216 == (v / 65536) / 256);
    lemma_small_mod(b3 as nat, 256);
    assert(spec_le32(v) =~= s);
}

/// The canonical byte sequence of a record.
pub open spec fn spec_encode(r: RecordModel) -> Seq<u8> {
    match r {
        RecordModel::Put { key, value } => seq![TAG_PUT] + spec_le32(key.len() as int) + key
            + spec_le32(value.len() as int) + value,
        RecordModel::Remove { key } => seq![TAG_REMOVE] + spec_le32(key.len() as int) + key,
    }
}

/// Appends all of `src` to `out`.
pub fn push_bytes(out: &mut Vec<u8>, src: &Vec<u8>)
    requires
        old(out)@.len() + src@.len() <= usize::MAX,
    ensures
        final(out)@ == old(out)@ + src@,
{
    let mut i: usize = 0;
    while i < src.len()
        invariant
            i <= src@.len(),
            out@ =~= old(out)@ + src@.subrange(0, i as int),
            old(out)@.len() + src@.len() <= usize::MAX,
        decreases src@.len() - i,
    {
        out.push(src[i]);
        i = i + 1;
        proof {
            assert(src@.subrange(0, i as int) =~= src@.subrange(0, i - 1) + seq![src@[i - 1]]);
        }
    }
    proof {
        assert(src@.subrange(0, src@.len() as int) =~= src@);
    }
}

/// Appends the four little-endian digits of `n` to `out`.
fn push_le32(out: &mut Vec<u8>, n: u32)
    requires
        old(out)@.len() + 4 <= usize::MAX,
    ensures
        final(out)@ == old(out)@ + spec_le32(n as int),
{
    let b0 = (n % 256) as u8;
    let b1 = ((n / 256) % 256) as u8;
    let b2 = ((n / 65536) % 256) as u8;
    let b3 = ((n / 16777216) % 256) as u8;
    out.push(b0);
    out.push(b1);
    out.push(b2);
    out.push(b3);
    proof {
        assert(out@ =~= old(out)@ + spec_le32(n as int));
    }
}

/// Decodes one record framed at `off`. Returns the record and the offset
/// just past it, or `None` when no well-formed frame starts at `off`.
pub open spec fn spec_decode(bytes: Seq<u8>, off: int) -> Option<(RecordModel, int)> {
    if 0 <= off && off + 5 <= bytes.len() {
        let tag = bytes[off];
        let klen = spec_le32_val(bytes.subrange(off + 1, off + 5));
        if tag == TAG_PUT {
            if off + 9 + klen <= bytes.len() {
                let key = bytes.subrange(off + 5, off + 5 + klen);
                let vlen = spec_le32_val(bytes.subrange(off + 5 + klen, off + 9 + klen));
                if off + 9 + klen + vlen <= bytes.len() {
                    let value = bytes.subrange(off + 9 + klen, off + 9 + klen + vlen);
                    Some((RecordModel::Put { key, value }, off + 9 + klen + vlen))
                } else {
                    None
                }
            } else {
                None
            }
        } else if tag == TAG_REMOVE {
            if off + 5 + klen <= bytes.len() {
                let key = bytes.subrange(off + 5, off + 5 + klen);
                Some((RecordModel::Remove { key }, off + 5 + klen))
            } else {
                None
            }
        } else {
            None
        }
    } else {
        None
    }
}

/// A successful decode consumes exactly the canonical encoding of the record
/// it returns: the framing admits no other byte layout for a record.
pub proof fn lemma_decode_canonical(bytes: Seq<u8>, off: int)
    requires
        spec_decode(bytes, off).is_some(),
    ensures
        ({
            let (r, end) = spec_decode(bytes, off).unwrap();
            &&& wf_record(r)
            &&& off + 5 <= end <= bytes.len()
            &&& end - off == spec_encode(r).len()
            &&& bytes.subrange(off, end) == spec_encode(r)
        }),
{
    let (r, end) = spec_decode(bytes, off).unwrap();
    let klen = spec_le32_val(bytes.subrange(off + 1, off + 5));
    lemma_le32_inverse(bytes.subrange(off + 1, off + 5));
    match r {
        RecordModel::Put { key, value } => {
            let vlen = spec_le32_val(bytes.subrange(off + 5 + klen, off + 9 + klen));
            lemma_le32_inverse(bytes.subrange(off + 5 + klen, off + 9 + klen));
            assert(key.len() == klen);
            assert(value.len() == vlen);
            assert(bytes.subrange(off, end) =~= seq![TAG_PUT] + spec_le32(klen) + key
                + spec_le32(vlen) + value);
        },
        RecordModel::Remove { key } => {
            assert(key.len() == klen);
            assert(bytes.subrange(off, end) =~= seq![TAG_REMOVE] + spec_le32(klen) + key);
        },
    }
}

/// Round-trip: a record's canonical encoding, laid down at any offset and
/// followed by anything, decodes back to exactly that record.
pub proof fn lemma_decode_encode(prefix: Seq<u8>, r: RecordModel, suffix: Seq<u8>)
    requires
        wf_record(r),
    ensures
        spec_decode(prefix + spec_encode(r) + suffix, prefix.len() as int) == Some(
            (r, prefix.len() + spec_encode(r).len() as int),
        ),
{
    let bytes = prefix + spec_encode(r) + suffix;
    let off = prefix.len() as int;
    match r {
        RecordModel::Put { key, value } => {
            let klen = key.len() as int;
            let vlen = value.len() as int;
            assert(bytes[off] == TAG_PUT);
            assert(bytes.subrange(off + 1, off + 5) =~= spec_le32(klen));
            lemma_le32_roundtrip(klen);
            assert(bytes.subrange(off + 5, off + 5 + klen) =~= key);
            assert(bytes.subrange(off + 5 + klen, off + 9 + klen) =~= spec_le32(vlen));
            lemma_le32_roundtrip(vlen);
            assert(bytes.subrange(off + 9 + klen, off + 9 + klen + vlen) =~= value);
        },
        RecordModel::Remove { key } => {
            let klen = key.len() as int;
            assert(bytes[off] == TAG_REMOVE);
            assert(bytes.subrange(off + 1, off + 5) =~= spec_le32(klen));
            lemma_le32_roundtrip(klen);
            assert(bytes.subrange(off + 5, off + 5 + klen) =~= key);
        },
    }
}

/// Appending bytes to the log never changes how an already decodable record
/// reads: decoding looks only at the bytes the frame covers.
pub proof fn lemma_decode_extend(bytes: Seq<u8>, off: int, ext: Seq<u8>)
    requires
        spec_decode(bytes, off).is_some(),
    ensures
        spec_decode(bytes + ext, off) == spec_decode(bytes, off),
{
    let (r, end) = spec_decode(bytes, off).unwrap();
    lemma_decode_canonical(bytes, off);
    let prefix = bytes.subrange(0, off);
    let suffix = bytes.subrange(end, bytes.len() as int) + ext;
    assert(bytes + ext =~= prefix + spec_encode(r) + suffix);
    lemma_decode_encode(prefix, r, suffix);
}

/// Serializes a record into its framed byte sequence.
pub fn encode_record(r: &Record) -> (out: Vec<u8>)
    requires
        wf_record(r@),
        spec_encode(r@).len() <= usize::MAX,
    ensures
        out@ == spec_encode(r@),
{
    let mut out: Vec<u8> = Vec::new();
    match r {
        Record::Put { key, value } => {
            out.push(TAG_PUT);
            push_le32(&mut out, key.len() as u32);
            push_bytes(&mut out, key);
            push_le32(&mut out, value.len() as u32);
            push_bytes(&mut out, value);
            proof {
                assert(out@ =~= spec_encode(r@));
            }
        },
        Record::Remove { key } => {
            out.push(TAG_REMOVE);
            push_le32(&mut out, key.len() as u32);
            push_bytes(&mut out, key);
            proof {
                assert(out@ =~= spec_encode(r@));
            }
        },
    }
    out
}

/// Reads the 4-byte little-endian length field at `at`.
fn read_le32(bytes: &Vec<u8>, at: usize) -> (n: u32)
    requires
        at + 4 <= bytes.len(),
    ensures
        n as int == spec_le32_val(bytes@.subrange(at as int, at + 4)),
{
    let b0 = bytes[at] as u32;
    let b1 = bytes[at + 1] as u32;
    let b2 = bytes[at + 2] as u32;
    let b3 = bytes[at + 3] as u32;
    b0 + 256 * b1 + 65536 * b2 + 16777216 * b3
}

/// Copies `n` bytes starting at `at` into a fresh vector.
pub fn copy_range(bytes: &Vec<u8>, at: usize, n: usize) -> (out: Vec<u8>)
    requires
        at + n <= bytes.len(),
    ensures
        out@ == bytes@.subrange(at as int, at + n),
{
    let mut out: Vec<u8> = Vec::new();
    let mut i: usize = 0;
    while i < n
        invariant
            i <= n,
            at + n <= bytes.len(),
            out@ =~= bytes@.subrange(at as int, at + i),
        decreases n - i,
    {
        out.push(bytes[at + i]);
        i = i + 1;
        proof {
            assert(bytes@.subrange(at as int, at + i) =~= bytes@.subrange(at as int, at + i - 1)
                + seq![bytes@[at + i - 1]]);
        }
    }
    out
}

/// Deserializes the record framed at `offset`, returning it together with
/// the offset just past it; `None` when no well-formed frame starts there.
pub fn decode_record(bytes: &Vec<u8>, offset: usize) -> (r: Option<(Record, usize)>)
    ensures
        r.is_some() == spec_decode(bytes@, offset as int).is_some(),
        r.is_some() ==> {
            let (rec, end) = r.unwrap();
            spec_decode(bytes@, offset as int) == Some((rec@, end as int))
        },
{
    let len: u64 = bytes.len() as u64;
    let off: u64 = offset as u64;
    if off > len || len - off < 5 {
        return None;
    }
    let tag = bytes[offset];
    let klen32 = read_le32(bytes, offset + 1);
    let klen: u64 = klen32 as u64;
    if tag == TAG_PUT {
        if klen + 4 > len - off - 5 {
            return None;
        }
        let key = copy_range(bytes, offset + 5, klen32 as usize);
        let vlen32 = read_le32(bytes, offset + 5 + klen32 as usize);
        let vlen: u64 = vlen32 as u64;
        if vlen > len - off - 9 - klen {
            return None;
        }
        let end = offset + 9 + klen32 as usize + vlen32 as usize;
        let value = copy_range(bytes, offset + 9 + klen32 as usize, vlen32 as usize);
        Some((Record::Put { key, value }, end))
    } else if tag == TAG_REMOVE {
        if klen > len - off - 5 {
            return None;
        }
        let key = copy_range(bytes, offset + 5, klen32 as usize);
        let end = offset + 5 + klen32 as usize;
        Some((Record::Remove { key }, end))
    } else {
        None
    }
}

} // verus!
