//! The snapshot codec: a length-prefixed binary serialization of each
//! store structure, wrapped in an LZ4 block with the uncompressed size
//! prepended as a little-endian 32-bit integer.
//!
//! Payload grammar, all integers little-endian: a list is a 64-bit
//! count followed by its items; text is a 64-bit byte count followed by
//! UTF-8 bytes; a value is a tag byte (integer, text, boolean, array)
//! followed by its content; a record is id, key, value, creation
//! instant, update instant, and an optional expiration instant. The
//! payload is a compact binary serialization of the structured content
//! rather than JSON text: a grammar small enough that its parser could
//! be written here and proved to accept exactly what the encoders emit,
//! so parsing provably inverts encoding.

use vstd::prelude::*;
use vstd::bytes::{
    spec_u64_from_le_bytes, spec_u64_to_le_bytes, spec_u128_from_le_bytes, spec_u128_to_le_bytes,
    u64_from_le_bytes, u64_to_le_bytes, u128_from_le_bytes, u128_to_le_bytes,
};
use vstd::slice::{slice_index_get, slice_subrange, slice_to_vec};
use vstd::utf8::{decode_utf8, encode_utf8, valid_utf8};
use crate::value_record::{RecordV, ValV, Value, ValueRecord};

verus! {

broadcast use {vstd::std_specs::vec::group_vec_axioms, vstd::seq::group_seq_axioms};

/// What `lz4_flex::compress_prepend_size` returns for the given input:
/// a pure function of the bytes alone, named rather than spelled out.
/// The block's four-byte little-endian size header holds the input
/// length as a truncated 32-bit integer, so only blocks of payloads
/// that fit 32 bits decompress back to their payload.
pub uninterp spec fn lz4_block_of(b: Seq<u8>) -> Seq<u8>;

/// What `lz4_flex::decompress_size_prepended` returns for the given
/// input, success or failure: a pure function of the bytes alone.
pub uninterp spec fn lz4_unblock_of(b: Seq<u8>) -> Option<Seq<u8>>;

#[verifier::external_type_specification]
#[verifier::external_body]
pub struct ExDecompressError(lz4_flex::block::DecompressError);

/// Relies on `lz4_flex::compress_prepend_size`: block compression with
/// the uncompressed size prepended as a 32-bit little-endian integer, a
/// deterministic function of the input bytes; and on
/// `lz4_flex::decompress_size_prepended` inverting it. The size header
/// is the input length truncated to 32 bits, so the inversion holds
/// only of payloads that fit 32 bits: longer inputs are kept out.
#[verifier::external_body]
fn lz4_compress(data: &[u8]) -> (r: Vec<u8>)
    requires
        data@.len() <= u32::MAX,
    ensures
        r@ == lz4_block_of(data@),
        lz4_unblock_of(r@) == Some(data@),
{
    lz4_flex::compress_prepend_size(data)
}

/// Relies on `lz4_flex::decompress_size_prepended`: a deterministic
/// function of the input bytes, whose result this names.
#[verifier::external_body]
fn lz4_decompress(data: &[u8]) -> (r: Result<Vec<u8>, lz4_flex::block::DecompressError>)
    ensures
        match r {
            Ok(v) => lz4_unblock_of(data@) == Some(v@),
            Err(_) => lz4_unblock_of(data@) is None,
        },
{
    lz4_flex::decompress_size_prepended(data)
}

/// Relies on `String::from_utf8` (std): it succeeds exactly on valid
/// UTF-8 and returns the text those bytes encode.
#[verifier::external_body]
fn string_from_utf8(v: Vec<u8>) -> (r: Option<String>)
    ensures
        match r {
            Some(s) => encode_utf8(s@) == v@,
            None => !valid_utf8(v@),
        },
{
    match String::from_utf8(v) {
        Ok(s) => Some(s),
        Err(_) => None,
    }
}

/// Compress a payload into a snapshot block. The block's size header
/// is 32-bit, so the payload must fit 32 bits.
pub fn compress_block(data: &Vec<u8>) -> (r: Vec<u8>)
    requires
        data@.len() <= u32::MAX,
    ensures
        r@ == lz4_block_of(data@),
        lz4_unblock_of(r@) == Some(data@),
{
    lz4_compress(data.as_slice())
}

/// Decompress a snapshot block; a compressed payload comes back
/// exactly, anything the compressor could not have produced may fail.
pub fn decompress_block(data: &Vec<u8>) -> (r: Option<Vec<u8>>)
    ensures
        match r {
            Some(v) => lz4_unblock_of(data@) == Some(v@),
            None => lz4_unblock_of(data@) is None,
        },
{
    match lz4_decompress(data.as_slice()) {
        Ok(v) => Some(v),
        Err(_) => None,
    }
}

// ---------- encoders (spec) ----------

pub open spec fn enc_u64(x: u64) -> Seq<u8> {
    spec_u64_to_le_bytes(x)
}

pub open spec fn enc_u128(x: u128) -> Seq<u8> {
    spec_u128_to_le_bytes(x)
}

pub open spec fn enc_i64(x: i64) -> Seq<u8> {
    enc_u64(x as u64)
}

pub open spec fn enc_bytes(b: Seq<u8>) -> Seq<u8> {
    enc_u64(b.len() as u64) + b
}

pub open spec fn enc_opt_i64(x: Option<i64>) -> Seq<u8> {
    match x {
        None => seq![0u8],
        Some(v) => seq![1u8] + enc_i64(v),
    }
}

pub open spec fn enc_value(v: ValV) -> Seq<u8>
    decreases v, 0int,
{
    match v {
        ValV::Int(x) => seq![0u8] + enc_i64(x),
        ValV::Str(s) => seq![1u8] + enc_bytes(encode_utf8(s)),
        ValV::Bool(b) => seq![
            2u8,
            if b {
                1u8
            } else {
                0u8
            },
        ],
        ValV::Arr(a) => seq![3u8] + enc_u64(a.len() as u64) + enc_values(a),
    }
}

pub open spec fn enc_values(a: Seq<ValV>) -> Seq<u8>
    decreases a, 1int,
{
    if a.len() == 0 {
        Seq::empty()
    } else {
        enc_value(a[0]) + enc_values(a.drop_first())
    }
}

pub open spec fn enc_record(r: RecordV) -> Seq<u8> {
    enc_u128(r.id) + enc_bytes(r.key) + enc_value(r.value) + enc_i64(r.created_at) + enc_i64(
        r.updated_at,
    ) + enc_opt_i64(r.delete_at)
}

pub open spec fn enc_record_list(s: Seq<RecordV>) -> Seq<u8>
    decreases s.len(),
{
    if s.len() == 0 {
        Seq::empty()
    } else {
        enc_record(s[0]) + enc_record_list(s.drop_first())
    }
}

pub open spec fn enc_records(s: Seq<RecordV>) -> Seq<u8> {
    enc_u64(s.len() as u64) + enc_record_list(s)
}

pub open spec fn enc_key_entry(e: (Seq<u8>, u128)) -> Seq<u8> {
    enc_bytes(e.0) + enc_u128(e.1)
}

pub open spec fn enc_key_list(s: Seq<(Seq<u8>, u128)>) -> Seq<u8>
    decreases s.len(),
{
    if s.len() == 0 {
        Seq::empty()
    } else {
        enc_key_entry(s[0]) + enc_key_list(s.drop_first())
    }
}

pub open spec fn enc_key_index(s: Seq<(Seq<u8>, u128)>) -> Seq<u8> {
    enc_u64(s.len() as u64) + enc_key_list(s)
}

pub open spec fn enc_ts_entry(e: (i64, u128)) -> Seq<u8> {
    enc_i64(e.0) + enc_u128(e.1)
}

pub open spec fn enc_ts_list(s: Seq<(i64, u128)>) -> Seq<u8>
    decreases s.len(),
{
    if s.len() == 0 {
        Seq::empty()
    } else {
        enc_ts_entry(s[0]) + enc_ts_list(s.drop_first())
    }
}

pub open spec fn enc_ts_index(s: Seq<(i64, u128)>) -> Seq<u8> {
    enc_u64(s.len() as u64) + enc_ts_list(s)
}

pub open spec fn enc_id_list(s: Seq<u128>) -> Seq<u8>
    decreases s.len(),
{
    if s.len() == 0 {
        Seq::empty()
    } else {
        enc_u128(s[0]) + enc_id_list(s.drop_first())
    }
}

pub open spec fn enc_ids(s: Seq<u128>) -> Seq<u8> {
    enc_u64(s.len() as u64) + enc_id_list(s)
}

// ---------- parsers (spec) ----------

pub open spec fn parse_u64(b: Seq<u8>, pos: int) -> Option<(u64, int)> {
    if 0 <= pos && pos + 8 <= b.len() {
        Some((spec_u64_from_le_bytes(b.subrange(pos, pos + 8)), pos + 8))
    } else {
        None
    }
}

pub open spec fn parse_u128(b: Seq<u8>, pos: int) -> Option<(u128, int)> {
    if 0 <= pos && pos + 16 <= b.len() {
        Some((spec_u128_from_le_bytes(b.subrange(pos, pos + 16)), pos + 16))
    } else {
        None
    }
}

pub open spec fn parse_i64(b: Seq<u8>, pos: int) -> Option<(i64, int)> {
    match parse_u64(b, pos) {
        None => None,
        Some((x, p)) => Some((x as i64, p)),
    }
}

pub open spec fn parse_bytes(b: Seq<u8>, pos: int) -> Option<(Seq<u8>, int)> {
    match parse_u64(b, pos) {
        None => None,
        Some((n, p)) => if p + n <= b.len() {
            Some((b.subrange(p, p + n), p + n))
        } else {
            None
        },
    }
}

pub open spec fn parse_opt_i64(b: Seq<u8>, pos: int) -> Option<(Option<i64>, int)> {
    if 0 <= pos && pos < b.len() {
        if b[pos] == 0u8 {
            Some((None, pos + 1))
        } else if b[pos] == 1u8 {
            match parse_i64(b, pos + 1) {
                None => None,
                Some((x, p)) => Some((Some(x), p)),
            }
        } else {
            None
        }
    } else {
        None
    }
}

pub open spec fn parse_value(b: Seq<u8>, pos: int) -> Option<(ValV, int)>
    decreases b.len() - pos, 0int, 0int,
{
    if 0 <= pos && pos < b.len() {
        if b[pos] == 0u8 {
            match parse_i64(b, pos + 1) {
                None => None,
                Some((x, p)) => Some((ValV::Int(x), p)),
            }
        } else if b[pos] == 1u8 {
            match parse_bytes(b, pos + 1) {
                None => None,
                Some((bs, p)) => if valid_utf8(bs) {
                    Some((ValV::Str(decode_utf8(bs)), p))
                } else {
                    None
                },
            }
        } else if b[pos] == 2u8 {
            if pos + 2 <= b.len() {
                if b[pos + 1] == 0u8 {
                    Some((ValV::Bool(false), pos + 2))
                } else if b[pos + 1] == 1u8 {
                    Some((ValV::Bool(true), pos + 2))
                } else {
                    None
                }
            } else {
                None
            }
        } else if b[pos] == 3u8 {
            match parse_u64(b, pos + 1) {
                None => None,
                Some((n, p)) => match parse_values(b, p, n as int) {
                    None => None,
                    Some((vs, p2)) => Some((ValV::Arr(vs), p2)),
                },
            }
        } else {
            None
        }
    } else {
        None
    }
}

pub open spec fn parse_values(b: Seq<u8>, pos: int, n: int) -> Option<(Seq<ValV>, int)>
    decreases b.len() - pos, 1int, n,
{
    if n <= 0 {
        if 0 <= pos <= b.len() {
            Some((Seq::empty(), pos))
        } else {
            None
        }
    } else {
        match parse_value(b, pos) {
            None => None,
            Some((v, p)) => if pos < p && p <= b.len() {
                match parse_values(b, p, n - 1) {
                    None => None,
                    Some((vs, p2)) => Some((seq![v] + vs, p2)),
                }
            } else {
                None
            },
        }
    }
}

pub open spec fn parse_record(b: Seq<u8>, pos: int) -> Option<(RecordV, int)> {
    match parse_u128(b, pos) {
        None => None,
        Some((id, p1)) => match parse_bytes(b, p1) {
            None => None,
            Some((key, p2)) => if valid_utf8(key) {
                match parse_value(b, p2) {
                    None => None,
                    Some((value, p3)) => match parse_i64(b, p3) {
                        None => None,
                        Some((created_at, p4)) => match parse_i64(b, p4) {
                            None => None,
                            Some((updated_at, p5)) => match parse_opt_i64(b, p5) {
                                None => None,
                                Some((delete_at, p6)) => Some(
                                    (
                                        RecordV {
                                            id,
                                            key,
                                            value,
                                            created_at,
                                            updated_at,
                                            delete_at,
                                        },
                                        p6,
                                    ),
                                ),
                            },
                        },
                    },
                }
            } else {
                None
            },
        },
    }
}

pub open spec fn parse_record_list(b: Seq<u8>, pos: int, n: int) -> Option<(Seq<RecordV>, int)>
    decreases n,
{
    if n <= 0 {
        if 0 <= pos <= b.len() {
            Some((Seq::empty(), pos))
        } else {
            None
        }
    } else {
        match parse_record(b, pos) {
            None => None,
            Some((r, p)) => match parse_record_list(b, p, n - 1) {
                None => None,
                Some((rs, p2)) => Some((seq![r] + rs, p2)),
            },
        }
    }
}

/// The whole records payload: a count, that many records, nothing after.
pub open spec fn parse_records(b: Seq<u8>) -> Option<Seq<RecordV>> {
    match parse_u64(b, 0) {
        None => None,
        Some((n, p)) => match parse_record_list(b, p, n as int) {
            None => None,
            Some((rs, p2)) => if p2 == b.len() {
                Some(rs)
            } else {
                None
            },
        },
    }
}

pub open spec fn parse_key_entry(b: Seq<u8>, pos: int) -> Option<((Seq<u8>, u128), int)> {
    match parse_bytes(b, pos) {
        None => None,
        Some((key, p1)) => if valid_utf8(key) {
            match parse_u128(b, p1) {
                None => None,
                Some((id, p2)) => Some(((key, id), p2)),
            }
        } else {
            None
        },
    }
}

pub open spec fn parse_key_list(b: Seq<u8>, pos: int, n: int) -> Option<
    (Seq<(Seq<u8>, u128)>, int),
>
    decreases n,
{
    if n <= 0 {
        if 0 <= pos <= b.len() {
            Some((Seq::empty(), pos))
        } else {
            None
        }
    } else {
        match parse_key_entry(b, pos) {
            None => None,
            Some((e, p)) => match parse_key_list(b, p, n - 1) {
                None => None,
                Some((es, p2)) => Some((seq![e] + es, p2)),
            },
        }
    }
}

/// The whole key-index payload.
pub open spec fn parse_key_index(b: Seq<u8>) -> Option<Seq<(Seq<u8>, u128)>> {
    match parse_u64(b, 0) {
        None => None,
        Some((n, p)) => match parse_key_list(b, p, n as int) {
            None => None,
            Some((es, p2)) => if p2 == b.len() {
                Some(es)
            } else {
                None
            },
        },
    }
}

pub open spec fn parse_ts_entry(b: Seq<u8>, pos: int) -> Option<((i64, u128), int)> {
    match parse_i64(b, pos) {
        None => None,
        Some((t, p1)) => match parse_u128(b, p1) {
            None => None,
            Some((id, p2)) => Some(((t, id), p2)),
        },
    }
}

pub open spec fn parse_ts_list(b: Seq<u8>, pos: int, n: int) -> Option<(Seq<(i64, u128)>, int)>
    decreases n,
{
    if n <= 0 {
        if 0 <= pos <= b.len() {
            Some((Seq::empty(), pos))
        } else {
            None
        }
    } else {
        match parse_ts_entry(b, pos) {
            None => None,
            Some((e, p)) => match parse_ts_list(b, p, n - 1) {
                None => None,
                Some((es, p2)) => Some((seq![e] + es, p2)),
            },
        }
    }
}

/// The whole time-index payload.
pub open spec fn parse_ts_index(b: Seq<u8>) -> Option<Seq<(i64, u128)>> {
    match parse_u64(b, 0) {
        None => None,
        Some((n, p)) => match parse_ts_list(b, p, n as int) {
            None => None,
            Some((es, p2)) => if p2 == b.len() {
                Some(es)
            } else {
                None
            },
        },
    }
}

pub open spec fn parse_id_list(b: Seq<u8>, pos: int, n: int) -> Option<(Seq<u128>, int)>
    decreases n,
{
    if n <= 0 {
        if 0 <= pos <= b.len() {
            Some((Seq::empty(), pos))
        } else {
            None
        }
    } else {
        match parse_u128(b, pos) {
            None => None,
            Some((x, p)) => match parse_id_list(b, p, n - 1) {
                None => None,
                Some((xs, p2)) => Some((seq![x] + xs, p2)),
            },
        }
    }
}

/// The whole key-set payload.
pub open spec fn parse_ids(b: Seq<u8>) -> Option<Seq<u128>> {
    match parse_u64(b, 0) {
        None => None,
        Some((n, p)) => match parse_id_list(b, p, n as int) {
            None => None,
            Some((xs, p2)) => if p2 == b.len() {
                Some(xs)
            } else {
                None
            },
        },
    }
}

// ---------- size side conditions ----------

/// Counts in a value fit the 64-bit wire format.
pub open spec fn val_sized(v: ValV) -> bool
    decreases v, 0int,
{
    match v {
        ValV::Int(_) => true,
        ValV::Bool(_) => true,
        ValV::Str(s) => encode_utf8(s).len() <= u64::MAX,
        ValV::Arr(a) => a.len() <= u64::MAX && vals_sized(a),
    }
}

pub open spec fn vals_sized(a: Seq<ValV>) -> bool
    decreases a, 1int,
{
    a.len() == 0 || (val_sized(a[0]) && vals_sized(a.drop_first()))
}

/// Counts in a record fit the 64-bit wire format.
pub open spec fn rec_sized(r: RecordV) -> bool {
    r.key.len() <= u64::MAX && val_sized(r.value)
}

pub open spec fn recs_sized(s: Seq<RecordV>) -> bool
    decreases s.len(),
{
    s.len() == 0 || (rec_sized(s[0]) && recs_sized(s.drop_first()))
}

pub open spec fn keys_sized(s: Seq<(Seq<u8>, u128)>) -> bool
    decreases s.len(),
{
    s.len() == 0 || (s[0].0.len() <= u64::MAX && keys_sized(s.drop_first()))
}

// ---------- push lemmas: appending one item to a list encoding ----------

proof fn lemma_enc_values_push(a: Seq<ValV>, x: ValV)
    ensures
        enc_values(a.push(x)) == enc_values(a) + enc_value(x),
    decreases a.len(),
{
    if a.len() == 0 {
        assert(a.push(x)[0] == x);
        assert(a.push(x).drop_first() =~= Seq::<ValV>::empty());
        assert(enc_values(a) + enc_value(x) =~= enc_value(x) + enc_values(Seq::empty()));
        assert(enc_values(Seq::<ValV>::empty()) =~= Seq::<u8>::empty());
        assert(enc_value(x) + Seq::<u8>::empty() =~= enc_value(x));
        assert(enc_values(a) + enc_value(x) =~= enc_value(x));
    } else {
        assert(a.push(x)[0] == a[0]);
        assert(a.push(x).drop_first() =~= a.drop_first().push(x));
        lemma_enc_values_push(a.drop_first(), x);
        assert(enc_values(a.push(x)) =~= enc_values(a) + enc_value(x));
    }
}

proof fn lemma_enc_record_list_push(s: Seq<RecordV>, x: RecordV)
    ensures
        enc_record_list(s.push(x)) == enc_record_list(s) + enc_record(x),
    decreases s.len(),
{
    if s.len() == 0 {
        assert(s.push(x)[0] == x);
        assert(s.push(x).drop_first() =~= Seq::<RecordV>::empty());
        assert(enc_record_list(Seq::<RecordV>::empty()) =~= Seq::<u8>::empty());
        assert(enc_record(x) + Seq::<u8>::empty() =~= enc_record(x));
        assert(enc_record_list(s) + enc_record(x) =~= enc_record(x));
    } else {
        assert(s.push(x)[0] == s[0]);
        assert(s.push(x).drop_first() =~= s.drop_first().push(x));
        lemma_enc_record_list_push(s.drop_first(), x);
        assert(enc_record_list(s.push(x)) =~= enc_record_list(s) + enc_record(x));
    }
}

proof fn lemma_enc_key_list_push(s: Seq<(Seq<u8>, u128)>, x: (Seq<u8>, u128))
    ensures
        enc_key_list(s.push(x)) == enc_key_list(s) + enc_key_entry(x),
    decreases s.len(),
{
    if s.len() == 0 {
        assert(s.push(x)[0] == x);
        assert(s.push(x).drop_first() =~= Seq::<(Seq<u8>, u128)>::empty());
        assert(enc_key_list(Seq::<(Seq<u8>, u128)>::empty()) =~= Seq::<u8>::empty());
        assert(enc_key_entry(x) + Seq::<u8>::empty() =~= enc_key_entry(x));
        assert(enc_key_list(s) + enc_key_entry(x) =~= enc_key_entry(x));
    } else {
        assert(s.push(x)[0] == s[0]);
        assert(s.push(x).drop_first() =~= s.drop_first().push(x));
        lemma_enc_key_list_push(s.drop_first(), x);
        assert(enc_key_list(s.push(x)) =~= enc_key_list(s) + enc_key_entry(x));
    }
}

proof fn lemma_enc_ts_list_push(s: Seq<(i64, u128)>, x: (i64, u128))
    ensures
        enc_ts_list(s.push(x)) == enc_ts_list(s) + enc_ts_entry(x),
    decreases s.len(),
{
    if s.len() == 0 {
        assert(s.push(x)[0] == x);
        assert(s.push(x).drop_first() =~= Seq::<(i64, u128)>::empty());
        assert(enc_ts_list(Seq::<(i64, u128)>::empty()) =~= Seq::<u8>::empty());
        assert(enc_ts_entry(x) + Seq::<u8>::empty() =~= enc_ts_entry(x));
        assert(enc_ts_list(s) + enc_ts_entry(x) =~= enc_ts_entry(x));
    } else {
        assert(s.push(x)[0] == s[0]);
        assert(s.push(x).drop_first() =~= s.drop_first().push(x));
        lemma_enc_ts_list_push(s.drop_first(), x);
        assert(enc_ts_list(s.push(x)) =~= enc_ts_list(s) + enc_ts_entry(x));
    }
}

proof fn lemma_enc_id_list_push(s: Seq<u128>, x: u128)
    ensures
        enc_id_list(s.push(x)) == enc_id_list(s) + enc_u128(x),
    decreases s.len(),
{
    if s.len() == 0 {
        assert(s.push(x)[0] == x);
        assert(s.push(x).drop_first() =~= Seq::<u128>::empty());
        assert(enc_id_list(Seq::<u128>::empty()) =~= Seq::<u8>::empty());
        assert(enc_u128(x) + Seq::<u8>::empty() =~= enc_u128(x));
        assert(enc_id_list(s) + enc_u128(x) =~= enc_u128(x));
    } else {
        assert(s.push(x)[0] == s[0]);
        assert(s.push(x).drop_first() =~= s.drop_first().push(x));
        lemma_enc_id_list_push(s.drop_first(), x);
        assert(enc_id_list(s.push(x)) =~= enc_id_list(s) + enc_u128(x));
    }
}

// ---------- round-trip lemmas: parsing inverts encoding ----------


proof fn byte_lens()
    ensures
        forall|x: u64| (#[trigger] spec_u64_to_le_bytes(x)).len() == 8,
        forall|x: u64| spec_u64_from_le_bytes(#[trigger] spec_u64_to_le_bytes(x)) == x,
        forall|x: u128| (#[trigger] spec_u128_to_le_bytes(x)).len() == 16,
        forall|x: u128| spec_u128_from_le_bytes(#[trigger] spec_u128_to_le_bytes(x)) == x,
{
    vstd::bytes::lemma_auto_spec_u64_to_from_le_bytes();
    vstd::bytes::lemma_auto_spec_u128_to_from_le_bytes();
    assert forall|x: u64| spec_u64_from_le_bytes(#[trigger] spec_u64_to_le_bytes(x)) == x by {
        assert(spec_u64_to_le_bytes(x).len() == 8);
    }
    assert forall|x: u128| spec_u128_from_le_bytes(#[trigger] spec_u128_to_le_bytes(x))
        == x by {
        assert(spec_u128_to_le_bytes(x).len() == 16);
    }
}

proof fn lemma_cast_i64(x: i64)
    ensures
        (x as u64) as i64 == x,
{
    assert((x as u64) as i64 == x) by (bit_vector);
}

proof fn lemma_parse_u64_round(b: Seq<u8>, pos: int, x: u64)
    requires
        0 <= pos,
        pos + 8 <= b.len(),
        b.subrange(pos, pos + 8) == enc_u64(x),
    ensures
        parse_u64(b, pos) == Some((x, pos + 8)),
{
    byte_lens();
    vstd::bytes::lemma_auto_spec_u64_to_from_le_bytes();
}

proof fn lemma_parse_u128_round(b: Seq<u8>, pos: int, x: u128)
    requires
        0 <= pos,
        pos + 16 <= b.len(),
        b.subrange(pos, pos + 16) == enc_u128(x),
    ensures
        parse_u128(b, pos) == Some((x, pos + 16)),
{
    byte_lens();
    vstd::bytes::lemma_auto_spec_u128_to_from_le_bytes();
}

proof fn lemma_parse_i64_round(b: Seq<u8>, pos: int, x: i64)
    requires
        0 <= pos,
        pos + 8 <= b.len(),
        b.subrange(pos, pos + 8) == enc_i64(x),
    ensures
        parse_i64(b, pos) == Some((x, pos + 8)),
{
    lemma_parse_u64_round(b, pos, x as u64);
    lemma_cast_i64(x);
}

proof fn lemma_parse_bytes_round(b: Seq<u8>, pos: int, bs: Seq<u8>)
    requires
        0 <= pos,
        bs.len() <= u64::MAX,
        pos + 8 + bs.len() <= b.len(),
        b.subrange(pos, pos + 8 + bs.len()) == enc_bytes(bs),
    ensures
        parse_bytes(b, pos) == Some((bs, pos + 8 + bs.len())),
{
    byte_lens();
    let whole = b.subrange(pos, pos + 8 + bs.len());
    assert(b.subrange(pos, pos + 8) =~= whole.subrange(0, 8));
    assert(whole.subrange(0, 8) =~= enc_u64(bs.len() as u64));
    lemma_parse_u64_round(b, pos, bs.len() as u64);
    assert(b.subrange(pos + 8, pos + 8 + bs.len()) =~= whole.subrange(8, whole.len() as int));
    assert(whole.subrange(8, whole.len() as int) =~= bs);
}

proof fn lemma_parse_opt_i64_round(b: Seq<u8>, pos: int, x: Option<i64>)
    requires
        0 <= pos,
        pos + enc_opt_i64(x).len() <= b.len(),
        b.subrange(pos, pos + enc_opt_i64(x).len()) == enc_opt_i64(x),
    ensures
        parse_opt_i64(b, pos) == Some((x, pos + enc_opt_i64(x).len())),
{
    byte_lens();
    match x {
        None => {
            assert(b[pos] == enc_opt_i64(x)[0]);
        },
        Some(v) => {
            let whole = b.subrange(pos, pos + 9);
            assert(b[pos] == whole[0]);
            assert(whole[0] == 1u8);
            assert(b.subrange(pos + 1, pos + 9) =~= whole.subrange(1, 9));
            assert(whole.subrange(1, 9) =~= enc_i64(v));
            lemma_parse_i64_round(b, pos + 1, v);
        },
    }
}

proof fn lemma_enc_value_min(v: ValV)
    ensures
        enc_value(v).len() >= 1,
{
    match v {
        ValV::Int(_) => {},
        ValV::Str(_) => {},
        ValV::Bool(_) => {},
        ValV::Arr(_) => {},
    }
}

proof fn lemma_parse_value_round(b: Seq<u8>, pos: int, v: ValV)
    requires
        val_sized(v),
        0 <= pos,
        pos + enc_value(v).len() <= b.len(),
        b.subrange(pos, pos + enc_value(v).len()) == enc_value(v),
    ensures
        parse_value(b, pos) == Some((v, pos + enc_value(v).len())),
    decreases v, 0int,
{
    byte_lens();
    let whole = b.subrange(pos, pos + enc_value(v).len());
    assert(b[pos] == whole[0]);
    match v {
        ValV::Int(x) => {
            assert(whole[0] == 0u8);
            assert(b.subrange(pos + 1, pos + 9) =~= whole.subrange(1, 9));
            assert(whole.subrange(1, 9) =~= enc_i64(x));
            lemma_parse_i64_round(b, pos + 1, x);
        },
        ValV::Str(t) => {
            let bs = encode_utf8(t);
            assert(whole[0] == 1u8);
            assert(b.subrange(pos + 1, pos + 1 + 8 + bs.len()) =~= whole.subrange(
                1,
                whole.len() as int,
            ));
            assert(whole.subrange(1, whole.len() as int) =~= enc_bytes(bs));
            lemma_parse_bytes_round(b, pos + 1, bs);
            vstd::utf8::encode_utf8_valid_utf8(t);
            vstd::utf8::encode_utf8_decode_utf8(t);
        },
        ValV::Bool(x) => {
            assert(whole[0] == 2u8);
            assert(b[pos + 1] == whole[1]);
        },
        ValV::Arr(a) => {
            assert(whole[0] == 3u8);
            assert(b.subrange(pos + 1, pos + 9) =~= whole.subrange(1, 9));
            assert(whole.subrange(1, 9) =~= enc_u64(a.len() as u64));
            lemma_parse_u64_round(b, pos + 1, a.len() as u64);
            assert(b.subrange(pos + 9, pos + 9 + enc_values(a).len()) =~= whole.subrange(
                9,
                whole.len() as int,
            ));
            assert(whole.subrange(9, whole.len() as int) =~= enc_values(a));
            lemma_parse_values_round(b, pos + 9, a);
        },
    }
}

proof fn lemma_parse_values_round(b: Seq<u8>, pos: int, a: Seq<ValV>)
    requires
        vals_sized(a),
        0 <= pos,
        pos + enc_values(a).len() <= b.len(),
        b.subrange(pos, pos + enc_values(a).len()) == enc_values(a),
    ensures
        parse_values(b, pos, a.len() as int) == Some((a, pos + enc_values(a).len())),
    decreases a, 1int,
{
    byte_lens();
    if a.len() == 0 {
    } else {
        let l0 = enc_value(a[0]).len() as int;
        let whole = b.subrange(pos, pos + enc_values(a).len());
        assert(b.subrange(pos, pos + l0) =~= whole.subrange(0, l0));
        assert(whole.subrange(0, l0) =~= enc_value(a[0]));
        lemma_parse_value_round(b, pos, a[0]);
        lemma_enc_value_min(a[0]);
        let rest = a.drop_first();
        assert(b.subrange(pos + l0, pos + l0 + enc_values(rest).len()) =~= whole.subrange(
            l0,
            whole.len() as int,
        ));
        assert(whole.subrange(l0, whole.len() as int) =~= enc_values(rest));
        lemma_parse_values_round(b, pos + l0, rest);
        assert(seq![a[0]] + rest =~= a);
    }
}

proof fn lemma_parse_record_round(b: Seq<u8>, pos: int, r: RecordV)
    requires
        rec_sized(r),
        valid_utf8(r.key),
        0 <= pos,
        pos + enc_record(r).len() <= b.len(),
        b.subrange(pos, pos + enc_record(r).len()) == enc_record(r),
    ensures
        parse_record(b, pos) == Some((r, pos + enc_record(r).len())),
{
    byte_lens();
    let whole = b.subrange(pos, pos + enc_record(r).len());
    let l1: int = 16;
    let l2: int = l1 + 8 + r.key.len();
    let l3: int = l2 + enc_value(r.value).len();
    let l4: int = l3 + 8;
    let l5: int = l4 + 8;
    let l6: int = l5 + enc_opt_i64(r.delete_at).len();
    assert(b.subrange(pos, pos + l1) =~= whole.subrange(0, l1));
    assert(whole.subrange(0, l1) =~= enc_u128(r.id));
    lemma_parse_u128_round(b, pos, r.id);
    assert(b.subrange(pos + l1, pos + l2) =~= whole.subrange(l1, l2));
    assert(whole.subrange(l1, l2) =~= enc_bytes(r.key));
    lemma_parse_bytes_round(b, pos + l1, r.key);
    assert(b.subrange(pos + l2, pos + l3) =~= whole.subrange(l2, l3));
    assert(whole.subrange(l2, l3) =~= enc_value(r.value));
    lemma_parse_value_round(b, pos + l2, r.value);
    assert(b.subrange(pos + l3, pos + l4) =~= whole.subrange(l3, l4));
    assert(whole.subrange(l3, l4) =~= enc_i64(r.created_at));
    lemma_parse_i64_round(b, pos + l3, r.created_at);
    assert(b.subrange(pos + l4, pos + l5) =~= whole.subrange(l4, l5));
    assert(whole.subrange(l4, l5) =~= enc_i64(r.updated_at));
    lemma_parse_i64_round(b, pos + l4, r.updated_at);
    assert(b.subrange(pos + l5, pos + l6) =~= whole.subrange(l5, l6));
    assert(whole.subrange(l5, l6) =~= enc_opt_i64(r.delete_at));
    lemma_parse_opt_i64_round(b, pos + l5, r.delete_at);
}

/// Every key a real record carries is valid UTF-8: it encodes text.
pub open spec fn recs_utf8(s: Seq<RecordV>) -> bool {
    forall|i: int| 0 <= i < s.len() ==> valid_utf8((#[trigger] s[i]).key)
}

pub open spec fn keys_utf8(s: Seq<(Seq<u8>, u128)>) -> bool {
    forall|i: int| 0 <= i < s.len() ==> valid_utf8((#[trigger] s[i]).0)
}

proof fn lemma_parse_record_list_round(b: Seq<u8>, pos: int, s: Seq<RecordV>)
    requires
        recs_sized(s),
        recs_utf8(s),
        0 <= pos,
        pos + enc_record_list(s).len() <= b.len(),
        b.subrange(pos, pos + enc_record_list(s).len()) == enc_record_list(s),
    ensures
        parse_record_list(b, pos, s.len() as int) == Some((s, pos + enc_record_list(s).len())),
    decreases s.len(),
{
    byte_lens();
    if s.len() == 0 {
    } else {
        let l0 = enc_record(s[0]).len() as int;
        let whole = b.subrange(pos, pos + enc_record_list(s).len());
        assert(b.subrange(pos, pos + l0) =~= whole.subrange(0, l0));
        assert(whole.subrange(0, l0) =~= enc_record(s[0]));
        lemma_parse_record_round(b, pos, s[0]);
        let rest = s.drop_first();
        assert(recs_utf8(rest)) by {
            assert forall|i: int| 0 <= i < rest.len() implies valid_utf8(
                (#[trigger] rest[i]).key,
            ) by {
                assert(rest[i] == s[i + 1]);
            }
        }
        assert(b.subrange(pos + l0, pos + l0 + enc_record_list(rest).len()) =~= whole.subrange(
            l0,
            whole.len() as int,
        ));
        assert(whole.subrange(l0, whole.len() as int) =~= enc_record_list(rest));
        lemma_parse_record_list_round(b, pos + l0, rest);
        assert(seq![s[0]] + rest =~= s);
    }
}

/// Parsing a records payload recovers exactly the records encoded.
pub proof fn lemma_parse_records_round(s: Seq<RecordV>)
    requires
        recs_sized(s),
        recs_utf8(s),
        s.len() <= u64::MAX,
    ensures
        parse_records(enc_records(s)) == Some(s),
{
    byte_lens();
    let b = enc_records(s);
    assert(b.subrange(0, 8) =~= enc_u64(s.len() as u64));
    lemma_parse_u64_round(b, 0, s.len() as u64);
    assert(b.subrange(8, 8 + enc_record_list(s).len() as int) =~= enc_record_list(s));
    lemma_parse_record_list_round(b, 8, s);
}

proof fn lemma_parse_key_list_round(b: Seq<u8>, pos: int, s: Seq<(Seq<u8>, u128)>)
    requires
        keys_sized(s),
        keys_utf8(s),
        0 <= pos,
        pos + enc_key_list(s).len() <= b.len(),
        b.subrange(pos, pos + enc_key_list(s).len()) == enc_key_list(s),
    ensures
        parse_key_list(b, pos, s.len() as int) == Some((s, pos + enc_key_list(s).len())),
    decreases s.len(),
{
    byte_lens();
    if s.len() == 0 {
    } else {
        let e = s[0];
        let l0 = enc_key_entry(e).len() as int;
        let whole = b.subrange(pos, pos + enc_key_list(s).len());
        assert(b.subrange(pos, pos + l0) =~= whole.subrange(0, l0));
        assert(whole.subrange(0, l0) =~= enc_key_entry(e));
        let lk: int = 8 + e.0.len() as int;
        assert(b.subrange(pos, pos + lk) =~= whole.subrange(0, lk));
        assert(whole.subrange(0, lk) =~= enc_bytes(e.0));
        lemma_parse_bytes_round(b, pos, e.0);
        assert(b.subrange(pos + lk, pos + l0) =~= whole.subrange(lk, l0));
        assert(whole.subrange(lk, l0) =~= enc_u128(e.1));
        lemma_parse_u128_round(b, pos + lk, e.1);
        let rest = s.drop_first();
        assert(keys_utf8(rest)) by {
            assert forall|i: int| 0 <= i < rest.len() implies valid_utf8(
                (#[trigger] rest[i]).0,
            ) by {
                assert(rest[i] == s[i + 1]);
            }
        }
        assert(b.subrange(pos + l0, pos + l0 + enc_key_list(rest).len()) =~= whole.subrange(
            l0,
            whole.len() as int,
        ));
        assert(whole.subrange(l0, whole.len() as int) =~= enc_key_list(rest));
        lemma_parse_key_list_round(b, pos + l0, rest);
        assert(seq![e] + rest =~= s);
    }
}

/// Parsing a key-index payload recovers exactly the entries encoded.
pub proof fn lemma_parse_key_index_round(s: Seq<(Seq<u8>, u128)>)
    requires
        keys_sized(s),
        keys_utf8(s),
        s.len() <= u64::MAX,
    ensures
        parse_key_index(enc_key_index(s)) == Some(s),
{
    byte_lens();
    let b = enc_key_index(s);
    assert(b.subrange(0, 8) =~= enc_u64(s.len() as u64));
    lemma_parse_u64_round(b, 0, s.len() as u64);
    assert(b.subrange(8, 8 + enc_key_list(s).len() as int) =~= enc_key_list(s));
    lemma_parse_key_list_round(b, 8, s);
}

proof fn lemma_parse_ts_list_round(b: Seq<u8>, pos: int, s: Seq<(i64, u128)>)
    requires
        0 <= pos,
        pos + enc_ts_list(s).len() <= b.len(),
        b.subrange(pos, pos + enc_ts_list(s).len()) == enc_ts_list(s),
    ensures
        parse_ts_list(b, pos, s.len() as int) == Some((s, pos + enc_ts_list(s).len())),
    decreases s.len(),
{
    byte_lens();
    if s.len() == 0 {
    } else {
        let e = s[0];
        let whole = b.subrange(pos, pos + enc_ts_list(s).len());
        assert(b.subrange(pos, pos + 8) =~= whole.subrange(0, 8));
        assert(whole.subrange(0, 8) =~= enc_i64(e.0));
        lemma_parse_i64_round(b, pos, e.0);
        assert(b.subrange(pos + 8, pos + 24) =~= whole.subrange(8, 24));
        assert(whole.subrange(8, 24) =~= enc_u128(e.1));
        lemma_parse_u128_round(b, pos + 8, e.1);
        let rest = s.drop_first();
        assert(b.subrange(pos + 24, pos + 24 + enc_ts_list(rest).len()) =~= whole.subrange(
            24,
            whole.len() as int,
        ));
        assert(whole.subrange(24, whole.len() as int) =~= enc_ts_list(rest));
        lemma_parse_ts_list_round(b, pos + 24, rest);
        assert(seq![e] + rest =~= s);
    }
}

/// Parsing a time-index payload recovers exactly the entries encoded.
pub proof fn lemma_parse_ts_index_round(s: Seq<(i64, u128)>)
    requires
        s.len() <= u64::MAX,
    ensures
        parse_ts_index(enc_ts_index(s)) == Some(s),
{
    byte_lens();
    let b = enc_ts_index(s);
    assert(b.subrange(0, 8) =~= enc_u64(s.len() as u64));
    lemma_parse_u64_round(b, 0, s.len() as u64);
    assert(b.subrange(8, 8 + enc_ts_list(s).len() as int) =~= enc_ts_list(s));
    lemma_parse_ts_list_round(b, 8, s);
}

proof fn lemma_parse_id_list_round(b: Seq<u8>, pos: int, s: Seq<u128>)
    requires
        0 <= pos,
        pos + enc_id_list(s).len() <= b.len(),
        b.subrange(pos, pos + enc_id_list(s).len()) == enc_id_list(s),
    ensures
        parse_id_list(b, pos, s.len() as int) == Some((s, pos + enc_id_list(s).len())),
    decreases s.len(),
{
    byte_lens();
    if s.len() == 0 {
    } else {
        let whole = b.subrange(pos, pos + enc_id_list(s).len());
        assert(b.subrange(pos, pos + 16) =~= whole.subrange(0, 16));
        assert(whole.subrange(0, 16) =~= enc_u128(s[0]));
        lemma_parse_u128_round(b, pos, s[0]);
        let rest = s.drop_first();
        assert(b.subrange(pos + 16, pos + 16 + enc_id_list(rest).len()) =~= whole.subrange(
            16,
            whole.len() as int,
        ));
        assert(whole.subrange(16, whole.len() as int) =~= enc_id_list(rest));
        lemma_parse_id_list_round(b, pos + 16, rest);
        assert(seq![s[0]] + rest =~= s);
    }
}

/// Parsing a key-set payload recovers exactly the ids encoded.
pub proof fn lemma_parse_ids_round(s: Seq<u128>)
    requires
        s.len() <= u64::MAX,
    ensures
        parse_ids(enc_ids(s)) == Some(s),
{
    byte_lens();
    let b = enc_ids(s);
    assert(b.subrange(0, 8) =~= enc_u64(s.len() as u64));
    lemma_parse_u64_round(b, 0, s.len() as u64);
    assert(b.subrange(8, 8 + enc_id_list(s).len() as int) =~= enc_id_list(s));
    lemma_parse_id_list_round(b, 8, s);
}

// ---------- advance lemmas: a successful parse moves forward ----------

proof fn lemma_parse_value_advance(b: Seq<u8>, pos: int)
    ensures
        parse_value(b, pos) matches Some(r) ==> pos < r.1 <= b.len(),
    decreases b.len() - pos, 0int, 0int,
{
    byte_lens();
    if 0 <= pos && pos < b.len() && b[pos] == 3u8 {
        match parse_u64(b, pos + 1) {
            None => {},
            Some((n, p)) => {
                lemma_parse_values_advance(b, p, n as int);
            },
        }
    }
}

proof fn lemma_parse_values_advance(b: Seq<u8>, pos: int, n: int)
    ensures
        parse_values(b, pos, n) matches Some(r) ==> pos <= r.1 <= b.len(),
    decreases b.len() - pos, 1int, n,
{
    byte_lens();
    if n > 0 {
        match parse_value(b, pos) {
            None => {},
            Some((v, p)) => {
                lemma_parse_value_advance(b, pos);
                if pos < p && p <= b.len() {
                    lemma_parse_values_advance(b, p, n - 1);
                }
            },
        }
    }
}

proof fn lemma_parse_record_advance(b: Seq<u8>, pos: int)
    ensures
        parse_record(b, pos) matches Some(r) ==> pos <= r.1 <= b.len(),
{
    byte_lens();
    match parse_u128(b, pos) {
        None => {},
        Some((_, p1)) => {
            match parse_bytes(b, p1) {
                None => {},
                Some((_, p2)) => {
                    lemma_parse_value_advance(b, p2);
                },
            }
        },
    }
}

// ---------- executable parsers ----------

fn read_u64(b: &[u8], pos: usize) -> (r: Option<(u64, usize)>)
    ensures
        match r {
            Some((x, p)) => parse_u64(b@, pos as int) == Some((x, p as int)),
            None => parse_u64(b@, pos as int) is None,
        },
{
    if pos <= b.len() && b.len() - pos >= 8 {
        let s: &[u8] = slice_subrange(b, pos, pos + 8);
        Some((u64_from_le_bytes(s), pos + 8))
    } else {
        None
    }
}

fn read_u128(b: &[u8], pos: usize) -> (r: Option<(u128, usize)>)
    ensures
        match r {
            Some((x, p)) => parse_u128(b@, pos as int) == Some((x, p as int)),
            None => parse_u128(b@, pos as int) is None,
        },
{
    if pos <= b.len() && b.len() - pos >= 16 {
        let s: &[u8] = slice_subrange(b, pos, pos + 16);
        Some((u128_from_le_bytes(s), pos + 16))
    } else {
        None
    }
}

fn read_i64(b: &[u8], pos: usize) -> (r: Option<(i64, usize)>)
    ensures
        match r {
            Some((x, p)) => parse_i64(b@, pos as int) == Some((x, p as int)),
            None => parse_i64(b@, pos as int) is None,
        },
{
    match read_u64(b, pos) {
        None => None,
        Some((x, p)) => Some((x as i64, p)),
    }
}

fn read_bytes(b: &[u8], pos: usize) -> (r: Option<(Vec<u8>, usize)>)
    ensures
        match r {
            Some((v, p)) => parse_bytes(b@, pos as int) == Some((v@, p as int)),
            None => parse_bytes(b@, pos as int) is None,
        },
{
    match read_u64(b, pos) {
        None => None,
        Some((n, p)) => {
            if n <= (b.len() - p) as u64 {
                let nu: usize = n as usize;
                let s: &[u8] = slice_subrange(b, p, p + nu);
                Some((slice_to_vec(s), p + nu))
            } else {
                None
            }
        },
    }
}

fn read_opt_i64(b: &[u8], pos: usize) -> (r: Option<(Option<i64>, usize)>)
    ensures
        match r {
            Some((x, p)) => parse_opt_i64(b@, pos as int) == Some((x, p as int)),
            None => parse_opt_i64(b@, pos as int) is None,
        },
{
    if pos < b.len() {
        let tag: u8 = *slice_index_get(b, pos);
        if tag == 0 {
            Some((None, pos + 1))
        } else if tag == 1 {
            match read_i64(b, pos + 1) {
                None => None,
                Some((x, p)) => Some((Some(x), p)),
            }
        } else {
            None
        }
    } else {
        None
    }
}

spec fn compose_values(acc: Seq<ValV>, rest: Option<(Seq<ValV>, int)>) -> Option<
    (Seq<ValV>, int),
> {
    match rest {
        None => None,
        Some((vs, p)) => Some((acc + vs, p)),
    }
}

fn read_value(b: &[u8], pos: usize) -> (r: Option<(Value, usize)>)
    ensures
        match r {
            Some((v, p)) => parse_value(b@, pos as int) == Some((v.deep(), p as int)),
            None => parse_value(b@, pos as int) is None,
        },
    decreases b@.len() - pos,
{
    if pos >= b.len() {
        return None;
    }
    let tag: u8 = *slice_index_get(b, pos);
    if tag == 0 {
        match read_i64(b, pos + 1) {
            None => None,
            Some((x, p)) => Some((Value::Integer(x), p)),
        }
    } else if tag == 1 {
        match read_bytes(b, pos + 1) {
            None => None,
            Some((bs, p)) => {
                match string_from_utf8(bs) {
                    None => None,
                    Some(st) => {
                        proof {
                            vstd::utf8::encode_utf8_valid_utf8(st@);
                            vstd::utf8::encode_utf8_decode_utf8(st@);
                        }
                        Some((Value::String(st), p))
                    },
                }
            },
        }
    } else if tag == 2 {
        if pos + 1 < b.len() {
            let v: u8 = *slice_index_get(b, pos + 1);
            if v == 0 {
                Some((Value::Boolean(false), pos + 2))
            } else if v == 1 {
                Some((Value::Boolean(true), pos + 2))
            } else {
                None
            }
        } else {
            None
        }
    } else if tag == 3 {
        match read_u64(b, pos + 1) {
            None => None,
            Some((n, p0)) => {
                let mut items: Vec<Value> = Vec::new();
                let mut cur: usize = p0;
                let mut k: u64 = 0;
                loop
                    invariant
                        k <= n,
                        pos < b@.len(),
                        b@[pos as int] == 3u8,
                        parse_u64(b@, pos as int + 1) == Some((n, p0 as int)),
                        pos < p0 <= cur <= b@.len(),
                        items@.len() == k,
                        parse_values(b@, p0 as int, n as int) == compose_values(
                            crate::value_record::deep_seq(items@),
                            parse_values(b@, cur as int, n as int - k as int),
                        ),
                    ensures
                        k == n,
                        pos < cur <= b@.len(),
                        items@.len() == n,
                        parse_values(b@, p0 as int, n as int) == Some(
                            (crate::value_record::deep_seq(items@), cur as int),
                        ),
                    decreases n - k,
                {
                    if k >= n {
                        proof {
                            crate::value_record::lemma_deep_seq(items@);
                        }
                        break;
                    }
                    match read_value(b, cur) {
                        None => {
                            proof {
                                assert(parse_values(b@, cur as int, n as int - k as int)
                                    is None);
                                assert(parse_values(b@, p0 as int, n as int) is None);
                                assert(parse_value(b@, pos as int) is None);
                            }
                            return None;
                        },
                        Some((v, p2)) => {
                            proof {
                                lemma_parse_value_advance(b@, cur as int);
                                crate::value_record::lemma_deep_seq(items@);
                                crate::value_record::lemma_deep_seq(items@.push(v));
                                assert(crate::value_record::deep_seq(items@.push(v))
                                    =~= crate::value_record::deep_seq(items@).push(v.deep()));
                                match parse_values(b@, p2 as int, n as int - k as int - 1) {
                                    None => {},
                                    Some((vs, pe)) => {
                                        assert(crate::value_record::deep_seq(items@) + (seq![
                                            v.deep(),
                                        ] + vs) =~= crate::value_record::deep_seq(items@).push(
                                            v.deep(),
                                        ) + vs);
                                    },
                                }
                            }
                            items.push(v);
                            cur = p2;
                            k = k + 1;
                        },
                    }
                }
                proof {
                    crate::value_record::lemma_deep_seq(items@);
                }
                Some((Value::Array(items), cur))
            },
        }
    } else {
        None
    }
}

fn read_record(b: &[u8], pos: usize) -> (r: Option<(ValueRecord, usize)>)
    ensures
        match r {
            Some((rec, p)) => parse_record(b@, pos as int) == Some((rec@, p as int)),
            None => parse_record(b@, pos as int) is None,
        },
{
    let (id, p1): (u128, usize) = match read_u128(b, pos) {
        None => {
            return None;
        },
        Some(t) => t,
    };
    let (key_bytes, p2): (Vec<u8>, usize) = match read_bytes(b, p1) {
        None => {
            return None;
        },
        Some(t) => t,
    };
    let key: String = match string_from_utf8(key_bytes) {
        None => {
            return None;
        },
        Some(s) => s,
    };
    proof {
        vstd::utf8::encode_utf8_valid_utf8(key@);
    }
    let (value, p3): (Value, usize) = match read_value(b, p2) {
        None => {
            return None;
        },
        Some(t) => t,
    };
    let (created_at, p4): (i64, usize) = match read_i64(b, p3) {
        None => {
            return None;
        },
        Some(t) => t,
    };
    let (updated_at, p5): (i64, usize) = match read_i64(b, p4) {
        None => {
            return None;
        },
        Some(t) => t,
    };
    let (delete_at, p6): (Option<i64>, usize) = match read_opt_i64(b, p5) {
        None => {
            return None;
        },
        Some(t) => t,
    };
    Some((ValueRecord { id, key, value, created_at, updated_at, delete_at }, p6))
}

spec fn compose_records(acc: Seq<RecordV>, rest: Option<(Seq<RecordV>, int)>) -> Option<
    (Seq<RecordV>, int),
> {
    match rest {
        None => None,
        Some((vs, p)) => Some((acc + vs, p)),
    }
}

/// Parse a whole records payload into records, or nothing if the bytes
/// are not exactly an encoding.
pub fn decode_records(b: &Vec<u8>) -> (r: Option<Vec<ValueRecord>>)
    ensures
        match r {
            Some(v) => parse_records(b@) == Some(crate::index::records_view_of(v@)),
            None => parse_records(b@) is None,
        },
{
    let bs: &[u8] = b.as_slice();
    let (n, p0): (u64, usize) = match read_u64(bs, 0) {
        None => {
            return None;
        },
        Some(t) => t,
    };
    let mut items: Vec<ValueRecord> = Vec::new();
    let mut cur: usize = p0;
    let mut k: u64 = 0;
    loop
        invariant
            k <= n,
            p0 <= cur <= bs@.len(),
            bs@ == b@,
            items@.len() == k,
            parse_u64(b@, 0) == Some((n, p0 as int)),
            parse_record_list(b@, p0 as int, n as int) == compose_records(
                crate::index::records_view_of(items@),
                parse_record_list(b@, cur as int, n as int - k as int),
            ),
        ensures
            bs@ == b@,
            k == n,
            cur <= b@.len(),
            parse_record_list(b@, p0 as int, n as int) == Some(
                (crate::index::records_view_of(items@), cur as int),
            ),
        decreases n - k,
    {
        if k >= n {
            break;
        }
        match read_record(bs, cur) {
            None => {
                return None;
            },
            Some((rec, p2)) => {
                proof {
                    lemma_parse_record_advance(b@, cur as int);
                    assert(crate::index::records_view_of(items@.push(rec))
                        =~= crate::index::records_view_of(items@).push(rec@));
                    match parse_record_list(b@, p2 as int, n as int - k as int - 1) {
                        None => {},
                        Some((vs, pe)) => {
                            assert(crate::index::records_view_of(items@) + (seq![rec@] + vs)
                                =~= crate::index::records_view_of(items@).push(rec@) + vs);
                        },
                    }
                }
                items.push(rec);
                cur = p2;
                k = k + 1;
            },
        }
    }
    if cur == b.len() {
        Some(items)
    } else {
        None
    }
}

spec fn compose_keys(
    acc: Seq<(Seq<u8>, u128)>,
    rest: Option<(Seq<(Seq<u8>, u128)>, int)>,
) -> Option<(Seq<(Seq<u8>, u128)>, int)> {
    match rest {
        None => None,
        Some((vs, p)) => Some((acc + vs, p)),
    }
}

/// Parse a whole key-index payload.
pub fn decode_key_index(b: &Vec<u8>) -> (r: Option<Vec<(String, u128)>>)
    ensures
        match r {
            Some(v) => parse_key_index(b@) == Some(crate::index::key_view_of(v@)),
            None => parse_key_index(b@) is None,
        },
{
    let bs: &[u8] = b.as_slice();
    let (n, p0): (u64, usize) = match read_u64(bs, 0) {
        None => {
            return None;
        },
        Some(t) => t,
    };
    let mut items: Vec<(String, u128)> = Vec::new();
    let mut cur: usize = p0;
    let mut k: u64 = 0;
    loop
        invariant
            k <= n,
            p0 <= cur <= bs@.len(),
            bs@ == b@,
            items@.len() == k,
            parse_u64(b@, 0) == Some((n, p0 as int)),
            parse_key_list(b@, p0 as int, n as int) == compose_keys(
                crate::index::key_view_of(items@),
                parse_key_list(b@, cur as int, n as int - k as int),
            ),
        ensures
            bs@ == b@,
            k == n,
            cur <= b@.len(),
            parse_key_list(b@, p0 as int, n as int) == Some(
                (crate::index::key_view_of(items@), cur as int),
            ),
        decreases n - k,
    {
        if k >= n {
            break;
        }
        let (key_bytes, p1): (Vec<u8>, usize) = match read_bytes(bs, cur) {
            None => {
                return None;
            },
            Some(t) => t,
        };
        let key: String = match string_from_utf8(key_bytes) {
            None => {
                return None;
            },
            Some(s) => s,
        };
        proof {
            vstd::utf8::encode_utf8_valid_utf8(key@);
        }
        let (id, p2): (u128, usize) = match read_u128(bs, p1) {
            None => {
                return None;
            },
            Some(t) => t,
        };
        proof {
            assert(crate::index::key_view_of(items@.push((key, id)))
                =~= crate::index::key_view_of(items@).push((encode_utf8(key@), id)));
            match parse_key_list(b@, p2 as int, n as int - k as int - 1) {
                None => {},
                Some((vs, pe)) => {
                    assert(crate::index::key_view_of(items@) + (seq![(encode_utf8(key@), id)]
                        + vs) =~= crate::index::key_view_of(items@).push(
                        (encode_utf8(key@), id),
                    ) + vs);
                },
            }
        }
        items.push((key, id));
        cur = p2;
        k = k + 1;
    }
    if cur == b.len() {
        Some(items)
    } else {
        None
    }
}

spec fn compose_ts(acc: Seq<(i64, u128)>, rest: Option<(Seq<(i64, u128)>, int)>) -> Option<
    (Seq<(i64, u128)>, int),
> {
    match rest {
        None => None,
        Some((vs, p)) => Some((acc + vs, p)),
    }
}

/// Parse a whole time-index payload.
pub fn decode_ts_index(b: &Vec<u8>) -> (r: Option<Vec<(i64, u128)>>)
    ensures
        match r {
            Some(v) => parse_ts_index(b@) == Some(v@),
            None => parse_ts_index(b@) is None,
        },
{
    let bs: &[u8] = b.as_slice();
    let (n, p0): (u64, usize) = match read_u64(bs, 0) {
        None => {
            return None;
        },
        Some(t) => t,
    };
    let mut items: Vec<(i64, u128)> = Vec::new();
    let mut cur: usize = p0;
    let mut k: u64 = 0;
    loop
        invariant
            k <= n,
            p0 <= cur <= bs@.len(),
            bs@ == b@,
            items@.len() == k,
            parse_u64(b@, 0) == Some((n, p0 as int)),
            parse_ts_list(b@, p0 as int, n as int) == compose_ts(
                items@,
                parse_ts_list(b@, cur as int, n as int - k as int),
            ),
        ensures
            bs@ == b@,
            k == n,
            cur <= b@.len(),
            parse_ts_list(b@, p0 as int, n as int) == Some((items@, cur as int)),
        decreases n - k,
    {
        if k >= n {
            break;
        }
        let (t, p1): (i64, usize) = match read_i64(bs, cur) {
            None => {
                return None;
            },
            Some(x) => x,
        };
        let (id, p2): (u128, usize) = match read_u128(bs, p1) {
            None => {
                return None;
            },
            Some(x) => x,
        };
        proof {
            match parse_ts_list(b@, p2 as int, n as int - k as int - 1) {
                None => {},
                Some((vs, pe)) => {
                    assert(items@ + (seq![(t, id)] + vs) =~= items@.push((t, id)) + vs);
                },
            }
        }
        items.push((t, id));
        cur = p2;
        k = k + 1;
    }
    if cur == b.len() {
        Some(items)
    } else {
        None
    }
}

spec fn compose_ids(acc: Seq<u128>, rest: Option<(Seq<u128>, int)>) -> Option<(Seq<u128>, int)> {
    match rest {
        None => None,
        Some((vs, p)) => Some((acc + vs, p)),
    }
}

/// Parse a whole key-set payload.
pub fn decode_ids(b: &Vec<u8>) -> (r: Option<Vec<u128>>)
    ensures
        match r {
            Some(v) => parse_ids(b@) == Some(v@),
            None => parse_ids(b@) is None,
        },
{
    let bs: &[u8] = b.as_slice();
    let (n, p0): (u64, usize) = match read_u64(bs, 0) {
        None => {
            return None;
        },
        Some(t) => t,
    };
    let mut items: Vec<u128> = Vec::new();
    let mut cur: usize = p0;
    let mut k: u64 = 0;
    loop
        invariant
            k <= n,
            p0 <= cur <= bs@.len(),
            bs@ == b@,
            items@.len() == k,
            parse_u64(b@, 0) == Some((n, p0 as int)),
            parse_id_list(b@, p0 as int, n as int) == compose_ids(
                items@,
                parse_id_list(b@, cur as int, n as int - k as int),
            ),
        ensures
            bs@ == b@,
            k == n,
            cur <= b@.len(),
            parse_id_list(b@, p0 as int, n as int) == Some((items@, cur as int)),
        decreases n - k,
    {
        if k >= n {
            break;
        }
        let (id, p2): (u128, usize) = match read_u128(bs, cur) {
            None => {
                return None;
            },
            Some(x) => x,
        };
        proof {
            match parse_id_list(b@, p2 as int, n as int - k as int - 1) {
                None => {},
                Some((vs, pe)) => {
                    assert(items@ + (seq![id] + vs) =~= items@.push(id) + vs);
                },
            }
        }
        items.push(id);
        cur = p2;
        k = k + 1;
    }
    if cur == b.len() {
        Some(items)
    } else {
        None
    }
}

// ---------- executable encoders ----------

fn emit_u64(out: &mut Vec<u8>, x: u64)
    ensures
        final(out)@ == old(out)@ + enc_u64(x),
{
    let mut bs: Vec<u8> = u64_to_le_bytes(x);
    out.append(&mut bs);
}

fn emit_u128(out: &mut Vec<u8>, x: u128)
    ensures
        final(out)@ == old(out)@ + enc_u128(x),
{
    let mut bs: Vec<u8> = u128_to_le_bytes(x);
    out.append(&mut bs);
}

fn emit_i64(out: &mut Vec<u8>, x: i64)
    ensures
        final(out)@ == old(out)@ + enc_i64(x),
{
    emit_u64(out, x as u64);
}

fn emit_bytes(out: &mut Vec<u8>, s: &[u8])
    ensures
        final(out)@ == old(out)@ + enc_bytes(s@),
        s@.len() <= u64::MAX,
{
    emit_u64(out, s.len() as u64);
    let mut copy: Vec<u8> = slice_to_vec(s);
    out.append(&mut copy);
    proof {
        assert(out@ =~= old(out)@ + enc_bytes(s@));
    }
}

fn emit_opt_i64(out: &mut Vec<u8>, x: Option<i64>)
    ensures
        final(out)@ == old(out)@ + enc_opt_i64(x),
{
    match x {
        None => {
            out.push(0u8);
            proof {
                assert(out@ =~= old(out)@ + enc_opt_i64(x));
            }
        },
        Some(v) => {
            out.push(1u8);
            emit_i64(out, v);
            proof {
                assert(out@ =~= old(out)@ + enc_opt_i64(x));
            }
        },
    }
}

fn emit_value(out: &mut Vec<u8>, v: &Value)
    ensures
        final(out)@ == old(out)@ + enc_value(v.deep()),
        val_sized(v.deep()),
    decreases *v,
{
    match v {
        Value::Integer(x) => {
            out.push(0u8);
            emit_i64(out, *x);
            proof {
                assert(out@ =~= old(out)@ + enc_value(v.deep()));
            }
        },
        Value::String(s) => {
            out.push(1u8);
            emit_bytes(out, s.as_str().as_bytes());
            proof {
                assert(out@ =~= old(out)@ + enc_value(v.deep()));
            }
        },
        Value::Boolean(x) => {
            out.push(2u8);
            if *x {
                out.push(1u8);
            } else {
                out.push(0u8);
            }
            proof {
                assert(out@ =~= old(out)@ + enc_value(v.deep()));
            }
        },
        Value::Array(vs) => {
            out.push(3u8);
            emit_u64(out, vs.len() as u64);
            let ghost base = out@;
            let ghost dsq = crate::value_record::deep_seq(vs@);
            proof {
                crate::value_record::lemma_deep_seq(vs@);
            }
            let mut i: usize = 0;
            while i < vs.len()
                invariant
                    *v == Value::Array(*vs),
                    i <= vs@.len(),
                    dsq == crate::value_record::deep_seq(vs@),
                    dsq.len() == vs@.len(),
                    forall|j: int| 0 <= j < vs@.len() ==> #[trigger] dsq[j] == vs@[j].deep(),
                    out@ == base + enc_values(dsq.take(i as int)),
                    vals_sized(dsq.take(i as int)),
                decreases vs@.len() - i,
            {
                proof {
                    assert(decreases_to!(*v => (*v)->Array_0));
                    assert(decreases_to!(*vs => vs[i as int]));
                }
                emit_value(out, &vs[i]);
                proof {
                    assert(dsq.take(i as int).push(dsq[i as int]) =~= dsq.take(i as int + 1));
                    lemma_enc_values_push(dsq.take(i as int), dsq[i as int]);
                    lemma_vals_sized_push(dsq.take(i as int), dsq[i as int]);
                }
                i = i + 1;
            }
            proof {
                assert(dsq.take(vs@.len() as int) =~= dsq);
                assert(out@ =~= old(out)@ + enc_value(v.deep()));
            }
        },
    }
}

proof fn lemma_vals_sized_push(a: Seq<ValV>, x: ValV)
    requires
        vals_sized(a),
        val_sized(x),
    ensures
        vals_sized(a.push(x)),
    decreases a.len(),
{
    if a.len() == 0 {
        assert(a.push(x)[0] == x);
        assert(a.push(x).drop_first() =~= Seq::<ValV>::empty());
        assert(vals_sized(Seq::<ValV>::empty()));
        assert(vals_sized(a.push(x).drop_first()));
    } else {
        assert(a.push(x)[0] == a[0]);
        assert(a.push(x).drop_first() =~= a.drop_first().push(x));
        lemma_vals_sized_push(a.drop_first(), x);
        assert(vals_sized(a.push(x).drop_first()));
    }
}

proof fn lemma_recs_sized_push(a: Seq<RecordV>, x: RecordV)
    requires
        recs_sized(a),
        rec_sized(x),
    ensures
        recs_sized(a.push(x)),
    decreases a.len(),
{
    if a.len() == 0 {
        assert(a.push(x)[0] == x);
        assert(a.push(x).drop_first() =~= Seq::<RecordV>::empty());
        assert(recs_sized(Seq::<RecordV>::empty()));
        assert(recs_sized(a.push(x).drop_first()));
    } else {
        assert(a.push(x)[0] == a[0]);
        assert(a.push(x).drop_first() =~= a.drop_first().push(x));
        lemma_recs_sized_push(a.drop_first(), x);
        assert(recs_sized(a.push(x).drop_first()));
    }
}

proof fn lemma_keys_sized_push(a: Seq<(Seq<u8>, u128)>, x: (Seq<u8>, u128))
    requires
        keys_sized(a),
        x.0.len() <= u64::MAX,
    ensures
        keys_sized(a.push(x)),
    decreases a.len(),
{
    if a.len() == 0 {
        assert(a.push(x)[0] == x);
        assert(a.push(x).drop_first() =~= Seq::<(Seq<u8>, u128)>::empty());
        assert(keys_sized(Seq::<(Seq<u8>, u128)>::empty()));
        assert(keys_sized(a.push(x).drop_first()));
    } else {
        assert(a.push(x)[0] == a[0]);
        assert(a.push(x).drop_first() =~= a.drop_first().push(x));
        lemma_keys_sized_push(a.drop_first(), x);
        assert(keys_sized(a.push(x).drop_first()));
    }
}

fn emit_record(out: &mut Vec<u8>, rec: &ValueRecord)
    ensures
        final(out)@ == old(out)@ + enc_record(rec@),
        rec_sized(rec@),
        valid_utf8(rec@.key),
{
    emit_u128(out, rec.id);
    emit_bytes(out, rec.key.as_str().as_bytes());
    emit_value(out, &rec.value);
    emit_i64(out, rec.created_at);
    emit_i64(out, rec.updated_at);
    emit_opt_i64(out, rec.delete_at);
    proof {
        vstd::utf8::encode_utf8_valid_utf8(rec.key@);
        assert(out@ =~= old(out)@ + enc_record(rec@));
    }
}

/// Encode the primary map's records as a snapshot payload.
pub fn encode_records(values: &crate::index::ValueMap) -> (r: Vec<u8>)
    ensures
        r@ == enc_records(values@),
        recs_sized(values@),
        recs_utf8(values@),
        values@.len() <= u64::MAX,
{
    let n: usize = values.len();
    let mut out: Vec<u8> = Vec::new();
    emit_u64(&mut out, n as u64);
    let ghost base = out@;
    let mut i: usize = 0;
    while i < n
        invariant
            n == values@.len(),
            i <= n,
            base == enc_u64(n as u64),
            out@ == base + enc_record_list(values@.take(i as int)),
            recs_sized(values@.take(i as int)),
            forall|j: int| 0 <= j < i ==> valid_utf8((#[trigger] values@[j]).key),
        decreases n - i,
    {
        emit_record(&mut out, values.record_at(i));
        proof {
            assert(values@.take(i as int).push(values@[i as int]) =~= values@.take(
                i as int + 1,
            ));
            lemma_enc_record_list_push(values@.take(i as int), values@[i as int]);
            lemma_recs_sized_push(values@.take(i as int), values@[i as int]);
        }
        i = i + 1;
    }
    proof {
        assert(values@.take(n as int) =~= values@);
        assert(out@ =~= enc_records(values@));
    }
    out
}

/// Encode the key index as a snapshot payload.
pub fn encode_key_index(idx: &crate::index::KeyIndex) -> (r: Vec<u8>)
    ensures
        r@ == enc_key_index(idx@),
        keys_sized(idx@),
        keys_utf8(idx@),
        idx@.len() <= u64::MAX,
{
    let n: usize = idx.len();
    let mut out: Vec<u8> = Vec::new();
    emit_u64(&mut out, n as u64);
    let ghost base = out@;
    let mut i: usize = 0;
    while i < n
        invariant
            n == idx@.len(),
            i <= n,
            base == enc_u64(n as u64),
            out@ == base + enc_key_list(idx@.take(i as int)),
            keys_sized(idx@.take(i as int)),
            forall|j: int| 0 <= j < i ==> valid_utf8((#[trigger] idx@[j]).0),
        decreases n - i,
    {
        let key: &String = idx.key_at(i);
        emit_bytes(&mut out, key.as_str().as_bytes());
        emit_u128(&mut out, idx.id_at(i));
        proof {
            vstd::utf8::encode_utf8_valid_utf8(key@);
            assert(idx@.take(i as int).push(idx@[i as int]) =~= idx@.take(i as int + 1));
            lemma_enc_key_list_push(idx@.take(i as int), idx@[i as int]);
            lemma_keys_sized_push(idx@.take(i as int), idx@[i as int]);
            assert(out@ =~= base + enc_key_list(idx@.take(i as int + 1)));
        }
        i = i + 1;
    }
    proof {
        assert(idx@.take(n as int) =~= idx@);
        assert(out@ =~= enc_key_index(idx@));
    }
    out
}

proof fn lemma_ts_take_push(s: Seq<(i64, u128)>, i: int)
    requires
        0 <= i < s.len(),
    ensures
        s.take(i).push(s[i]) =~= s.take(i + 1),
{
}

/// Encode a time index as a snapshot payload.
pub fn encode_ts_index(idx: &crate::index::TsIndex) -> (r: Vec<u8>)
    ensures
        r@ == enc_ts_index(idx@),
        idx@.len() <= u64::MAX,
{
    let n: usize = idx.len();
    let mut out: Vec<u8> = Vec::new();
    emit_u64(&mut out, n as u64);
    let ghost base = out@;
    let mut i: usize = 0;
    while i < n
        invariant
            n == idx@.len(),
            i <= n,
            base == enc_u64(n as u64),
            out@ == base + enc_ts_list(idx@.take(i as int)),
        decreases n - i,
    {
        let e: (i64, u128) = idx.entry_at(i);
        emit_i64(&mut out, e.0);
        emit_u128(&mut out, e.1);
        proof {
            lemma_ts_take_push(idx@, i as int);
            lemma_enc_ts_list_push(idx@.take(i as int), idx@[i as int]);
            assert(out@ =~= base + enc_ts_list(idx@.take(i as int + 1)));
        }
        i = i + 1;
    }
    proof {
        assert(idx@.take(n as int) =~= idx@);
        assert(out@ =~= enc_ts_index(idx@));
    }
    out
}

/// Encode the access-gate key set as a snapshot payload.
pub fn encode_ids(ids: &Vec<u128>) -> (r: Vec<u8>)
    ensures
        r@ == enc_ids(ids@),
        ids@.len() <= u64::MAX,
{
    let n: usize = ids.len();
    let mut out: Vec<u8> = Vec::new();
    emit_u64(&mut out, n as u64);
    let ghost base = out@;
    let mut i: usize = 0;
    while i < n
        invariant
            n == ids@.len(),
            i <= n,
            base == enc_u64(n as u64),
            out@ == base + enc_id_list(ids@.take(i as int)),
        decreases n - i,
    {
        emit_u128(&mut out, ids[i]);
        proof {
            assert(ids@.take(i as int).push(ids@[i as int]) =~= ids@.take(i as int + 1));
            lemma_enc_id_list_push(ids@.take(i as int), ids@[i as int]);
            assert(out@ =~= base + enc_id_list(ids@.take(i as int + 1)));
        }
        i = i + 1;
    }
    proof {
        assert(ids@.take(n as int) =~= ids@);
        assert(out@ =~= enc_ids(ids@));
    }
    out
}

} // verus!
