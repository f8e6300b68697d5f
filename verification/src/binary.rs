//! Compact binary codec for one snippet record: the form the key-value
//! store persists under the snippet's index. Every record starts with a
//! schema version byte, so an incompatible field layout is told apart
//! from corruption; decoding fails with a structured error on
//! truncated, corrupt or schema-mismatched bytes.

use vstd::prelude::*;
use vstd::bytes::{
    spec_u32_to_le_bytes, spec_u32_from_le_bytes, spec_u64_to_le_bytes, spec_u64_from_le_bytes,
    lemma_auto_spec_u32_to_from_le_bytes, lemma_auto_spec_u64_to_from_le_bytes, u32_from_le_bytes,
    u32_to_le_bytes, u64_from_le_bytes, u64_to_le_bytes,
};
use vstd::utf8::{valid_utf8, decode_utf8, encode_utf8, encode_utf8_valid_utf8,
    encode_utf8_decode_utf8};
use vstd::slice::{slice_subrange, slice_to_vec};
use vstd::string::StrSliceExecFns;
use crate::snippet::{Snippet, SnippetModel};
use crate::time::{Timestamp, NANOS_PER_SEC};
use crate::text::{word_wf, all_words_wf, str_views, is_word};

verus! {

/// Schema version written as the first byte of every binary record.
pub const BINARY_VERSION: u8 = 1;

/// Why a binary decode failed; fatal to that single read.
#[derive(Clone, Copy, Debug, PartialEq, Eq, Structural)]
pub enum DecodeError {
    /// The bytes end before the record does.
    Truncated,
    /// The version byte names a field layout this codec does not read.
    SchemaMismatch,
    /// The bytes are no canonical encoding of any record.
    Corrupt,
}

// ---------------------------------------------------------------------
// The encoding, as a function of the model.
// ---------------------------------------------------------------------
/// A string field: byte length, then the UTF-8 bytes.
pub open spec fn spec_enc_str(s: Seq<char>) -> Seq<u8> {
    spec_u64_to_le_bytes(encode_utf8(s).len() as u64) + encode_utf8(s)
}

/// A string list, each entry a string field, in order.
pub open spec fn spec_enc_strs(ts: Seq<Seq<char>>) -> Seq<u8>
    decreases ts.len(),
{
    if ts.len() == 0 {
        Seq::empty()
    } else {
        spec_enc_str(ts[0]) + spec_enc_strs(ts.drop_first())
    }
}

/// A timestamp: a sign byte (1 for non-negative seconds, 0 for
/// negative), the magnitude of the seconds, then the nanoseconds.
pub open spec fn spec_enc_ts(t: Timestamp) -> Seq<u8> {
    if t.secs >= 0 {
        seq![1u8] + spec_u64_to_le_bytes(t.secs as u64) + spec_u32_to_le_bytes(t.nanos)
    } else {
        seq![0u8] + spec_u64_to_le_bytes((-(t.secs as int)) as u64) + spec_u32_to_le_bytes(t.nanos)
    }
}

/// The whole record: version byte, index, the four string fields, the
/// tag count and tags, then both timestamps.
pub open spec fn spec_binary_encode(m: SnippetModel) -> Seq<u8> {
    seq![BINARY_VERSION] + spec_u64_to_le_bytes(m.index as u64) + spec_enc_str(m.description)
        + spec_enc_str(m.language) + spec_enc_str(m.code) + spec_enc_str(m.extension)
        + spec_u64_to_le_bytes(m.tags.len() as u64) + spec_enc_strs(m.tags) + spec_enc_ts(m.date)
        + spec_enc_ts(m.updated)
}

/// Whether the model's variable-length parts fit the length fields of
/// the encoding; every snippet held in memory satisfies this.
pub open spec fn spec_encodable(m: SnippetModel) -> bool {
    &&& encode_utf8(m.description).len() <= u64::MAX
    &&& encode_utf8(m.language).len() <= u64::MAX
    &&& encode_utf8(m.code).len() <= u64::MAX
    &&& encode_utf8(m.extension).len() <= u64::MAX
    &&& m.tags.len() <= u64::MAX
    &&& forall|k: int| 0 <= k < m.tags.len() ==> encode_utf8(#[trigger] m.tags[k]).len() <= u64::MAX
}

// ---------------------------------------------------------------------
// The decoding, as a function of the bytes.
// ---------------------------------------------------------------------
/// Reads one little-endian u64 at `pos`.
pub open spec fn dec_u64_r(b: Seq<u8>, pos: int) -> Result<(u64, int), DecodeError> {
    if pos + 8 <= b.len() {
        Ok((spec_u64_from_le_bytes(b.subrange(pos, pos + 8)), pos + 8))
    } else {
        Err(DecodeError::Truncated)
    }
}

/// Reads one little-endian u32 at `pos`.
pub open spec fn dec_u32_r(b: Seq<u8>, pos: int) -> Result<(u32, int), DecodeError> {
    if pos + 4 <= b.len() {
        Ok((spec_u32_from_le_bytes(b.subrange(pos, pos + 4)), pos + 4))
    } else {
        Err(DecodeError::Truncated)
    }
}

/// Reads one string field at `pos`: its byte length, then that many
/// bytes, which must be valid UTF-8.
pub open spec fn dec_str_r(b: Seq<u8>, pos: int) -> Result<(Seq<char>, int), DecodeError> {
    match dec_u64_r(b, pos) {
        Err(e) => Err(e),
        Ok((n, p)) => if p + n <= b.len() {
            if valid_utf8(b.subrange(p, p + n)) {
                Ok((decode_utf8(b.subrange(p, p + n)), p + n))
            } else {
                Err(DecodeError::Corrupt)
            }
        } else {
            Err(DecodeError::Truncated)
        },
    }
}

/// Reads `count` consecutive string fields at `pos`.
pub open spec fn dec_strs_r(b: Seq<u8>, pos: int, count: int) -> Result<
    (Seq<Seq<char>>, int),
    DecodeError,
>
    decreases count,
{
    if count <= 0 {
        Ok((Seq::empty(), pos))
    } else {
        match dec_str_r(b, pos) {
            Err(e) => Err(e),
            Ok((s, p)) => match dec_strs_r(b, p, count - 1) {
                Err(e) => Err(e),
                Ok((ss, q)) => Ok((seq![s] + ss, q)),
            },
        }
    }
}

/// The seconds value a sign byte and magnitude stand for.
pub open spec fn spec_secs_of(sign: u8, mag: u64) -> i64 {
    if sign == 1 {
        mag as i64
    } else {
        (-(mag as int)) as i64
    }
}

/// Whether a sign byte and magnitude are the canonical encoding of some
/// seconds value.
pub open spec fn secs_canonical(sign: u8, mag: u64) -> bool {
    if sign == 1 {
        mag <= i64::MAX as u64
    } else if sign == 0 {
        1 <= mag <= (i64::MAX as u64) + 1
    } else {
        false
    }
}

/// Reads one timestamp at `pos`.
pub open spec fn dec_ts_r(b: Seq<u8>, pos: int) -> Result<(Timestamp, int), DecodeError> {
    if pos < b.len() {
        let sign = b[pos];
        match dec_u64_r(b, pos + 1) {
            Err(e) => Err(e),
            Ok((mag, p2)) => match dec_u32_r(b, p2) {
                Err(e) => Err(e),
                Ok((nanos, p3)) => if nanos < NANOS_PER_SEC && secs_canonical(sign, mag) {
                    Ok((Timestamp { secs: spec_secs_of(sign, mag), nanos }, p3))
                } else {
                    Err(DecodeError::Corrupt)
                },
            },
        }
    } else {
        Err(DecodeError::Truncated)
    }
}

/// The whole record. Exactly the byte strings this function accepts
/// decode; everything else fails with the stated error.
pub open spec fn spec_binary_decode(b: Seq<u8>) -> Result<SnippetModel, DecodeError> {
    if b.len() == 0 {
        Err(DecodeError::Truncated)
    } else if b[0] != BINARY_VERSION {
        Err(DecodeError::SchemaMismatch)
    } else {
        match dec_u64_r(b, 1) {
            Err(e) => Err(e),
            Ok((idx, p1)) => if idx > usize::MAX as u64 {
                Err(DecodeError::Corrupt)
            } else {
                match dec_str_r(b, p1) {
                    Err(e) => Err(e),
                    Ok((description, p2)) => match dec_str_r(b, p2) {
                        Err(e) => Err(e),
                        Ok((language, p3)) => match dec_str_r(b, p3) {
                            Err(e) => Err(e),
                            Ok((code, p4)) => match dec_str_r(b, p4) {
                                Err(e) => Err(e),
                                Ok((extension, p5)) => match dec_u64_r(b, p5) {
                                    Err(e) => Err(e),
                                    Ok((count, p6)) => match dec_strs_r(b, p6, count as int) {
                                        Err(e) => Err(e),
                                        Ok((tags, p7)) => match dec_ts_r(b, p7) {
                                            Err(e) => Err(e),
                                            Ok((date, p8)) => match dec_ts_r(b, p8) {
                                                Err(e) => Err(e),
                                                Ok((updated, p9)) => if p9 != b.len() {
                                                    Err(DecodeError::Corrupt)
                                                } else if !all_words_wf(tags) {
                                                    Err(DecodeError::Corrupt)
                                                } else if !date.spec_le(updated) {
                                                    Err(DecodeError::Corrupt)
                                                } else {
                                                    Ok(
                                                        SnippetModel {
                                                            index: idx as int,
                                                            description,
                                                            language,
                                                            code,
                                                            extension,
                                                            tags,
                                                            date,
                                                            updated,
                                                        },
                                                    )
                                                },
                                            },
                                        },
                                    },
                                },
                            },
                        },
                    },
                }
            },
        }
    }
}

// ---------------------------------------------------------------------
// Executable encoder.
// ---------------------------------------------------------------------
fn push_u64(out: &mut Vec<u8>, x: u64)
    ensures
        final(out)@ == old(out)@ + spec_u64_to_le_bytes(x),
{
    let mut b = u64_to_le_bytes(x);
    out.append(&mut b);
}

fn push_u32(out: &mut Vec<u8>, x: u32)
    ensures
        final(out)@ == old(out)@ + spec_u32_to_le_bytes(x),
{
    let mut b = u32_to_le_bytes(x);
    out.append(&mut b);
}

fn push_str_field(out: &mut Vec<u8>, s: &str)
    ensures
        final(out)@ == old(out)@ + spec_enc_str(s@),
{
    let mut bytes = s.as_bytes_vec();
    push_u64(out, bytes.len() as u64);
    out.append(&mut bytes);
    proof {
        assert(final(out)@ =~= old(out)@ + spec_enc_str(s@));
    }
}

fn push_ts(out: &mut Vec<u8>, t: Timestamp)
    ensures
        final(out)@ == old(out)@ + spec_enc_ts(t),
{
    if t.secs >= 0 {
        out.push(1u8);
        push_u64(out, t.secs as u64);
    } else {
        out.push(0u8);
        let mag: u64 = ((-(t.secs + 1)) as u64) + 1;
        assert(mag as int == -(t.secs as int));
        push_u64(out, mag);
    }
    push_u32(out, t.nanos);
    proof {
        assert(final(out)@ =~= old(out)@ + spec_enc_ts(t));
    }
}

impl Snippet {
    /// Encodes this snippet in the compact binary form the store keeps.
    pub fn to_bytes(&self) -> (r: Vec<u8>)
        ensures
            r@ == spec_binary_encode(self@),
    {
        let mut out: Vec<u8> = Vec::new();
        out.push(BINARY_VERSION);
        push_u64(&mut out, self.index as u64);
        push_str_field(&mut out, self.description.as_str());
        push_str_field(&mut out, self.language.as_str());
        push_str_field(&mut out, self.code.as_str());
        push_str_field(&mut out, self.extension.as_str());
        push_u64(&mut out, self.tags.len() as u64);
        let mut k: usize = 0;
        let ghost tags_v = str_views(self.tags@);
        let ghost base = out@;
        while k < self.tags.len()
            invariant
                k <= self.tags@.len(),
                tags_v == str_views(self.tags@),
                out@ == base + spec_enc_strs(tags_v.take(k as int)),
            decreases self.tags@.len() - k,
        {
            push_str_field(&mut out, self.tags[k].as_str());
            k = k + 1;
            proof {
                lemma_enc_strs_push(tags_v.take(k - 1), tags_v[k - 1]);
                assert(tags_v.take(k as int) =~= tags_v.take(k - 1).push(tags_v[k - 1]));
                assert(out@ =~= base + spec_enc_strs(tags_v.take(k as int)));
            }
        }
        proof {
            assert(tags_v.take(tags_v.len() as int) =~= tags_v);
        }
        push_ts(&mut out, self.date);
        push_ts(&mut out, self.updated);
        proof {
            assert(out@ =~= spec_binary_encode(self@));
        }
        out
    }
}

/// Encoding one more string appends its field bytes.
proof fn lemma_enc_strs_push(ts: Seq<Seq<char>>, x: Seq<char>)
    ensures
        spec_enc_strs(ts.push(x)) == spec_enc_strs(ts) + spec_enc_str(x),
    decreases ts.len(),
{
    if ts.len() == 0 {
        assert(ts.push(x)[0] == x);
        assert(ts.push(x).drop_first() =~= Seq::<Seq<char>>::empty());
        assert(spec_enc_strs(Seq::<Seq<char>>::empty()) == Seq::<u8>::empty());
        assert(spec_enc_strs(ts) == Seq::<u8>::empty());
        assert(spec_enc_strs(ts.push(x)) == spec_enc_str(x) + Seq::<u8>::empty());
        assert(spec_enc_str(x) + Seq::<u8>::empty() =~= Seq::<u8>::empty() + spec_enc_str(x));
    } else {
        lemma_enc_strs_push(ts.drop_first(), x);
        assert(ts.push(x)[0] == ts[0]);
        assert(ts.push(x).drop_first() =~= ts.drop_first().push(x));
        assert(spec_enc_strs(ts.push(x)) == spec_enc_str(ts[0]) + spec_enc_strs(
            ts.drop_first().push(x),
        ));
        assert(spec_enc_str(ts[0]) + (spec_enc_strs(ts.drop_first()) + spec_enc_str(x))
            =~= spec_enc_strs(ts) + spec_enc_str(x));
    }
}

// ---------------------------------------------------------------------
// Executable decoder.
// ---------------------------------------------------------------------
/// Relies on String::from_utf8: succeeds exactly on valid UTF-8 input
/// and yields the string those bytes spell.
#[verifier::external_body]
fn string_from_utf8(bytes: Vec<u8>) -> (r: Option<String>)
    ensures
        match r {
            Some(s) => valid_utf8(bytes@) && s@ == decode_utf8(bytes@),
            None => !valid_utf8(bytes@),
        },
{
    match String::from_utf8(bytes) {
        Ok(s) => Some(s),
        Err(_) => None,
    }
}

fn rd_u64(b: &[u8], pos: usize) -> (r: Result<(u64, usize), DecodeError>)
    requires
        pos <= b@.len(),
    ensures
        match r {
            Ok((x, p)) => dec_u64_r(b@, pos as int) == Ok::<(u64, int), DecodeError>((
                x,
                p as int,
            )),
            Err(e) => dec_u64_r(b@, pos as int) == Err::<(u64, int), DecodeError>(e),
        },
{
    if b.len() - pos >= 8 {
        let s = slice_subrange(b, pos, pos + 8);
        let x = u64_from_le_bytes(s);
        Ok((x, pos + 8))
    } else {
        Err(DecodeError::Truncated)
    }
}

fn rd_u32(b: &[u8], pos: usize) -> (r: Result<(u32, usize), DecodeError>)
    requires
        pos <= b@.len(),
    ensures
        match r {
            Ok((x, p)) => dec_u32_r(b@, pos as int) == Ok::<(u32, int), DecodeError>((
                x,
                p as int,
            )),
            Err(e) => dec_u32_r(b@, pos as int) == Err::<(u32, int), DecodeError>(e),
        },
{
    if b.len() - pos >= 4 {
        let s = slice_subrange(b, pos, pos + 4);
        let x = u32_from_le_bytes(s);
        Ok((x, pos + 4))
    } else {
        Err(DecodeError::Truncated)
    }
}

fn rd_str(b: &[u8], pos: usize) -> (r: Result<(String, usize), DecodeError>)
    requires
        pos <= b@.len(),
    ensures
        match r {
            Ok((s, p)) => dec_str_r(b@, pos as int) == Ok::<(Seq<char>, int), DecodeError>((
                s@,
                p as int,
            )) && pos <= p <= b@.len(),
            Err(e) => dec_str_r(b@, pos as int) == Err::<(Seq<char>, int), DecodeError>(e),
        },
{
    match rd_u64(b, pos) {
        Err(e) => Err(e),
        Ok((n, p)) => {
            if n <= (b.len() - p) as u64 {
                let nu = n as usize;
                let body = slice_subrange(b, p, p + nu);
                let bytes = slice_to_vec(body);
                match string_from_utf8(bytes) {
                    Some(s) => Ok((s, p + nu)),
                    None => Err(DecodeError::Corrupt),
                }
            } else {
                Err(DecodeError::Truncated)
            }
        },
    }
}

fn rd_ts(b: &[u8], pos: usize) -> (r: Result<(Timestamp, usize), DecodeError>)
    requires
        pos <= b@.len(),
    ensures
        match r {
            Ok((t, p)) => dec_ts_r(b@, pos as int) == Ok::<(Timestamp, int), DecodeError>((
                t,
                p as int,
            )) && pos <= p <= b@.len() && t.wf(),
            Err(e) => dec_ts_r(b@, pos as int) == Err::<(Timestamp, int), DecodeError>(e),
        },
{
    if pos < b.len() {
        let sign = b[pos];
        match rd_u64(b, pos + 1) {
            Err(e) => Err(e),
            Ok((mag, p2)) => match rd_u32(b, p2) {
                Err(e) => Err(e),
                Ok((nanos, p3)) => {
                    if nanos >= NANOS_PER_SEC {
                        Err(DecodeError::Corrupt)
                    } else if sign == 1 {
                        if mag <= i64::MAX as u64 {
                            Ok((Timestamp { secs: mag as i64, nanos }, p3))
                        } else {
                            Err(DecodeError::Corrupt)
                        }
                    } else if sign == 0 {
                        if 1 <= mag && mag <= (i64::MAX as u64) + 1 {
                            let secs: i64 = if mag == (i64::MAX as u64) + 1 {
                                i64::MIN
                            } else {
                                -(mag as i64)
                            };
                            assert(secs == spec_secs_of(sign, mag));
                            Ok((Timestamp { secs, nanos }, p3))
                        } else {
                            Err(DecodeError::Corrupt)
                        }
                    } else {
                        Err(DecodeError::Corrupt)
                    }
                },
            },
        }
    } else {
        Err(DecodeError::Truncated)
    }
}

impl Snippet {
    /// Decodes one binary record. Succeeds exactly on the byte strings
    /// that `spec_binary_decode` accepts; every decoded snippet is
    /// well formed.
    #[verifier::loop_isolation(false)]
    pub fn from_bytes(bytes: &[u8]) -> (r: Result<Snippet, DecodeError>)
        ensures
            match r {
                Ok(s) => spec_binary_decode(bytes@) == Ok::<SnippetModel, DecodeError>(s@)
                    && s@.wf(),
                Err(e) => spec_binary_decode(bytes@) == Err::<SnippetModel, DecodeError>(e),
            },
    {
        if bytes.len() == 0 {
            return Err(DecodeError::Truncated);
        }
        if bytes[0] != BINARY_VERSION {
            return Err(DecodeError::SchemaMismatch);
        }
        let (idx, p1) = match rd_u64(bytes, 1) {
            Ok(v) => v,
            Err(e) => return Err(e),
        };
        if idx > usize::MAX as u64 {
            return Err(DecodeError::Corrupt);
        }
        let index = idx as usize;
        let (description, p2) = match rd_str(bytes, p1) {
            Ok(v) => v,
            Err(e) => return Err(e),
        };
        let (language, p3) = match rd_str(bytes, p2) {
            Ok(v) => v,
            Err(e) => return Err(e),
        };
        let (code, p4) = match rd_str(bytes, p3) {
            Ok(v) => v,
            Err(e) => return Err(e),
        };
        let (extension, p5) = match rd_str(bytes, p4) {
            Ok(v) => v,
            Err(e) => return Err(e),
        };
        let (count, p6) = match rd_u64(bytes, p5) {
            Ok(v) => v,
            Err(e) => return Err(e),
        };
        let mut tags: Vec<String> = Vec::new();
        let mut pos = p6;
        let mut k: u64 = 0;
        while k < count
            invariant
                k <= count,
                pos <= bytes@.len(),
                dec_strs_r(bytes@, p6 as int, count as int) == (match dec_strs_r(
                    bytes@,
                    pos as int,
                    count - k,
                ) {
                    Ok((ss, q)) => Ok::<(Seq<Seq<char>>, int), DecodeError>((
                        str_views(tags@) + ss,
                        q,
                    )),
                    Err(e) => Err::<(Seq<Seq<char>>, int), DecodeError>(e),
                }),
            decreases count - k,
        {
            let ghost before = str_views(tags@);
            match rd_str(bytes, pos) {
                Ok((s, p)) => {
                    tags.push(s);
                    pos = p;
                    k = k + 1;
                    proof {
                        assert(str_views(tags@) =~= before.push(s@));
                        assert forall|ss: Seq<Seq<char>>|
                            true implies before + (seq![s@] + ss) =~= str_views(tags@) + ss by {}
                    }
                },
                Err(e) => {
                    return Err(e);
                },
            }
        }
        let ghost tags_v = str_views(tags@);
        proof {
            assert(dec_strs_r(bytes@, pos as int, 0) == Ok::<(Seq<Seq<char>>, int), DecodeError>(
                (Seq::<Seq<char>>::empty(), pos as int),
            ));
            assert(tags_v + Seq::<Seq<char>>::empty() =~= tags_v);
            assert(dec_strs_r(bytes@, p6 as int, count as int) == Ok::<
                (Seq<Seq<char>>, int),
                DecodeError,
            >((tags_v, pos as int)));
        }
        let p7 = pos;
        let (date, p8) = match rd_ts(bytes, p7) {
            Ok(v) => v,
            Err(e) => return Err(e),
        };
        let (updated, p9) = match rd_ts(bytes, p8) {
            Ok(v) => v,
            Err(e) => return Err(e),
        };
        if p9 != bytes.len() {
            return Err(DecodeError::Corrupt);
        }
        let mut t: usize = 0;
        while t < tags.len()
            invariant
                t <= tags@.len(),
                tags_v == str_views(tags@),
                forall|j: int| 0 <= j < t ==> word_wf(#[trigger] tags_v[j]),
            decreases tags@.len() - t,
        {
            if !is_word(tags[t].as_str()) {
                proof {
                    assert(tags_v[t as int] == tags@[t as int]@);
                }
                return Err(DecodeError::Corrupt);
            }
            proof {
                assert(tags_v[t as int] == tags@[t as int]@);
            }
            t = t + 1;
        }
        proof {
            assert(all_words_wf(tags_v));
        }
        if !date.le(&updated) {
            return Err(DecodeError::Corrupt);
        }
        let s = Snippet { index, description, language, code, extension, tags, date, updated };
        proof {
            assert(spec_binary_decode(bytes@) == Ok::<SnippetModel, DecodeError>(s@));
        }
        Ok(s)
    }
}


/// A window of a window of `b` is a window of `b`.
proof fn lemma_slice_of_slice(b: Seq<u8>, pos: int, len: int, lo: int, hi: int)
    requires
        0 <= pos,
        pos + len <= b.len(),
        0 <= lo <= hi <= len,
    ensures
        b.subrange(pos, pos + len).subrange(lo, hi) == b.subrange(pos + lo, pos + hi),
{
    let s = b.subrange(pos, pos + len);
    assert forall|i: int| 0 <= i < hi - lo implies s.subrange(lo, hi)[i] == b.subrange(
        pos + lo,
        pos + hi,
    )[i] by {
        assert(s.subrange(lo, hi)[i] == s[lo + i]);
        assert(s[lo + i] == b[pos + (lo + i)]);
    }
    assert(s.subrange(lo, hi) =~= b.subrange(pos + lo, pos + hi));
}

// ---------------------------------------------------------------------
// Round trip: decoding an encoded record yields the record.
// ---------------------------------------------------------------------
proof fn lemma_dec_u64_at(b: Seq<u8>, pos: int, x: u64)
    requires
        0 <= pos,
        pos + 8 <= b.len(),
        b.subrange(pos, pos + 8) == spec_u64_to_le_bytes(x),
    ensures
        dec_u64_r(b, pos) == Ok::<(u64, int), DecodeError>((x, pos + 8)),
{
    lemma_auto_spec_u64_to_from_le_bytes();
}

proof fn lemma_dec_u32_at(b: Seq<u8>, pos: int, x: u32)
    requires
        0 <= pos,
        pos + 4 <= b.len(),
        b.subrange(pos, pos + 4) == spec_u32_to_le_bytes(x),
    ensures
        dec_u32_r(b, pos) == Ok::<(u32, int), DecodeError>((x, pos + 4)),
{
    lemma_auto_spec_u32_to_from_le_bytes();
    assert(spec_u32_to_le_bytes(x).len() == 4);
    assert(b.subrange(pos, pos + 4) == spec_u32_to_le_bytes(x));
    assert(spec_u32_from_le_bytes(b.subrange(pos, pos + 4)) == x);
    assert(dec_u32_r(b, pos) == Ok::<(u32, int), DecodeError>((x, pos + 4)));
}

proof fn lemma_dec_str_at(b: Seq<u8>, pos: int, s: Seq<char>)
    requires
        0 <= pos,
        encode_utf8(s).len() <= u64::MAX,
        pos + spec_enc_str(s).len() <= b.len(),
        b.subrange(pos, pos + spec_enc_str(s).len()) == spec_enc_str(s),
    ensures
        dec_str_r(b, pos) == Ok::<(Seq<char>, int), DecodeError>((
            s,
            pos + spec_enc_str(s).len(),
        )),
{
    lemma_auto_spec_u64_to_from_le_bytes();
    let u = encode_utf8(s);
    let n: u64 = u.len() as u64;
    let enc = spec_enc_str(s);
    assert(enc == spec_u64_to_le_bytes(n) + u);
    assert(enc.len() == 8 + u.len());
    lemma_slice_of_slice(b, pos, enc.len() as int, 0, 8);
    assert(enc.subrange(0, 8) =~= spec_u64_to_le_bytes(n));
    assert(b.subrange(pos, pos + 8) == spec_u64_to_le_bytes(n));
    lemma_dec_u64_at(b, pos, n);
    lemma_slice_of_slice(b, pos, enc.len() as int, 8, enc.len() as int);
    assert(enc.subrange(8, enc.len() as int) =~= u);
    assert(b.subrange(pos + 8, pos + 8 + u.len()) == u);
    encode_utf8_valid_utf8(s);
    encode_utf8_decode_utf8(s);
}

proof fn lemma_dec_ts_at(b: Seq<u8>, pos: int, t: Timestamp)
    requires
        0 <= pos,
        t.wf(),
        pos + 13 <= b.len(),
        b.subrange(pos, pos + 13) == spec_enc_ts(t),
    ensures
        spec_enc_ts(t).len() == 13,
        dec_ts_r(b, pos) == Ok::<(Timestamp, int), DecodeError>((t, pos + 13)),
{
    lemma_auto_spec_u64_to_from_le_bytes();
    lemma_auto_spec_u32_to_from_le_bytes();
    let enc = spec_enc_ts(t);
    lemma_slice_of_slice(b, pos, 13, 0, 1);
    lemma_slice_of_slice(b, pos, 13, 1, 9);
    lemma_slice_of_slice(b, pos, 13, 9, 13);
    if t.secs >= 0 {
        let mag: u64 = t.secs as u64;
        assert(enc == seq![1u8] + spec_u64_to_le_bytes(mag) + spec_u32_to_le_bytes(t.nanos));
        assert(enc.subrange(0, 1) =~= seq![1u8]);
        assert(b.subrange(pos, pos + 1) == seq![1u8]);
        assert(b[pos] == b.subrange(pos, pos + 1)[0]);
        assert(b[pos] == 1u8);
        assert(enc.subrange(1, 9) =~= spec_u64_to_le_bytes(mag));
        assert(b.subrange(pos + 1, pos + 9) == spec_u64_to_le_bytes(mag));
        lemma_dec_u64_at(b, pos + 1, mag);
        assert(enc.subrange(9, 13) =~= spec_u32_to_le_bytes(t.nanos));
        assert(b.subrange(pos + 9, pos + 13) == spec_u32_to_le_bytes(t.nanos));
        lemma_dec_u32_at(b, pos + 9, t.nanos);
        assert(secs_canonical(1u8, mag));
        assert(spec_secs_of(1u8, mag) == t.secs);
    } else {
        let mag: u64 = (-(t.secs as int)) as u64;
        assert(enc == seq![0u8] + spec_u64_to_le_bytes(mag) + spec_u32_to_le_bytes(t.nanos));
        assert(enc.subrange(0, 1) =~= seq![0u8]);
        assert(b.subrange(pos, pos + 1) == seq![0u8]);
        assert(b[pos] == b.subrange(pos, pos + 1)[0]);
        assert(b[pos] == 0u8);
        assert(enc.subrange(1, 9) =~= spec_u64_to_le_bytes(mag));
        assert(b.subrange(pos + 1, pos + 9) == spec_u64_to_le_bytes(mag));
        lemma_dec_u64_at(b, pos + 1, mag);
        assert(enc.subrange(9, 13) =~= spec_u32_to_le_bytes(t.nanos));
        assert(b.subrange(pos + 9, pos + 13) == spec_u32_to_le_bytes(t.nanos));
        lemma_dec_u32_at(b, pos + 9, t.nanos);
        assert(1 <= mag as int <= (i64::MAX as int) + 1);
        assert(secs_canonical(0u8, mag));
        assert(spec_secs_of(0u8, mag) == t.secs);
    }
}

proof fn lemma_dec_strs_at(b: Seq<u8>, pos: int, ts: Seq<Seq<char>>)
    requires
        0 <= pos,
        forall|k: int| 0 <= k < ts.len() ==> encode_utf8(#[trigger] ts[k]).len() <= u64::MAX,
        pos + spec_enc_strs(ts).len() <= b.len(),
        b.subrange(pos, pos + spec_enc_strs(ts).len()) == spec_enc_strs(ts),
    ensures
        dec_strs_r(b, pos, ts.len() as int) == Ok::<(Seq<Seq<char>>, int), DecodeError>((
            ts,
            pos + spec_enc_strs(ts).len(),
        )),
    decreases ts.len(),
{
    if ts.len() == 0 {
        assert(ts =~= Seq::<Seq<char>>::empty());
    } else {
        let e0 = spec_enc_str(ts[0]);
        let rest = spec_enc_strs(ts.drop_first());
        assert(spec_enc_strs(ts) == e0 + rest);
        let all = spec_enc_strs(ts);
        lemma_slice_of_slice(b, pos, all.len() as int, 0, e0.len() as int);
        assert(all.subrange(0, e0.len() as int) =~= e0);
        assert(b.subrange(pos, pos + e0.len()) == e0);
        lemma_dec_str_at(b, pos, ts[0]);
        lemma_slice_of_slice(b, pos, all.len() as int, e0.len() as int, all.len() as int);
        assert(all.subrange(e0.len() as int, all.len() as int) =~= rest);
        assert(b.subrange(pos + e0.len(), pos + e0.len() + rest.len()) == rest);
        assert(forall|k: int|
            0 <= k < ts.drop_first().len() ==> encode_utf8(#[trigger] ts.drop_first()[k]).len()
                <= u64::MAX) by {
            assert(forall|k: int|
                0 <= k < ts.drop_first().len() ==> ts.drop_first()[k] == ts[k + 1]);
        }
        lemma_dec_strs_at(b, pos + e0.len(), ts.drop_first());
        assert(seq![ts[0]] + ts.drop_first() =~= ts);
    }
}

/// Decoding an encoded snippet record gives back the record,
/// field for field, timestamp-exact.
#[verifier::rlimit(50)]
pub proof fn lemma_binary_round_trip(m: SnippetModel)
    requires
        m.wf(),
        spec_encodable(m),
    ensures
        spec_binary_decode(spec_binary_encode(m)) == Ok::<SnippetModel, DecodeError>(m),
{
    lemma_auto_spec_u64_to_from_le_bytes();
    lemma_auto_spec_u32_to_from_le_bytes();
    let b = spec_binary_encode(m);
    let e1 = spec_u64_to_le_bytes(m.index as u64);
    let e2 = spec_enc_str(m.description);
    let e3 = spec_enc_str(m.language);
    let e4 = spec_enc_str(m.code);
    let e5 = spec_enc_str(m.extension);
    let e6 = spec_u64_to_le_bytes(m.tags.len() as u64);
    let e7 = spec_enc_strs(m.tags);
    let e8 = spec_enc_ts(m.date);
    let e9 = spec_enc_ts(m.updated);
    let o2 = 9 + e2.len();
    let o3 = o2 + e3.len();
    let o4 = o3 + e4.len();
    let o5 = o4 + e5.len();
    let o6 = o5 + 8;
    let o7 = o6 + e7.len();
    let o8 = o7 + 13;
    assert(e8.len() == 13 && e9.len() == 13) by {
        if m.date.secs >= 0 {
        }
        if m.updated.secs >= 0 {
        }
    }
    assert(b.len() == o8 + 13);
    assert(b[0] == BINARY_VERSION);
    assert(b.subrange(1, 9) =~= e1);
    lemma_dec_u64_at(b, 1, m.index as u64);
    assert(b.subrange(9, o2 as int) =~= e2);
    lemma_dec_str_at(b, 9, m.description);
    assert(b.subrange(o2 as int, o3 as int) =~= e3);
    lemma_dec_str_at(b, o2 as int, m.language);
    assert(b.subrange(o3 as int, o4 as int) =~= e4);
    lemma_dec_str_at(b, o3 as int, m.code);
    assert(b.subrange(o4 as int, o5 as int) =~= e5);
    lemma_dec_str_at(b, o4 as int, m.extension);
    assert(b.subrange(o5 as int, o6 as int) =~= e6);
    lemma_dec_u64_at(b, o5 as int, m.tags.len() as u64);
    assert(b.subrange(o6 as int, o7 as int) =~= e7);
    lemma_dec_strs_at(b, o6 as int, m.tags);
    assert(b.subrange(o7 as int, o8 as int) =~= e8);
    lemma_dec_ts_at(b, o7 as int, m.date);
    assert(b.subrange(o8 as int, (o8 + 13) as int) =~= e9);
    lemma_dec_ts_at(b, o8 as int, m.updated);
    assert((m.tags.len() as u64) as int == m.tags.len() as int);
    assert(spec_binary_decode(b) == Ok::<SnippetModel, DecodeError>(
        SnippetModel {
            index: (m.index as u64) as int,
            description: m.description,
            language: m.language,
            code: m.code,
            extension: m.extension,
            tags: m.tags,
            date: m.date,
            updated: m.updated,
        },
    ));
    assert(SnippetModel {
        index: (m.index as u64) as int,
        description: m.description,
        language: m.language,
        code: m.code,
        extension: m.extension,
        tags: m.tags,
        date: m.date,
        updated: m.updated,
    } =~= m);
}

} // verus!
