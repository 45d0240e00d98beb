//! Byte codec for individual property values.
//!
//! A stored payload is a tag byte followed by a fixed- or variable-length
//! body; the empty payload stands for the `Unset` sentinel.  Decoding is
//! total on the payloads that encoding produces, and the round trip is
//! proved in [`lemma_codec_round_trip`].

use vstd::bytes::{
    spec_u32_from_le_bytes, spec_u32_to_le_bytes, spec_u64_from_le_bytes, spec_u64_to_le_bytes,
    lemma_auto_spec_u32_to_from_le_bytes, lemma_auto_spec_u64_to_from_le_bytes,
    u32_from_le_bytes, u32_to_le_bytes, u64_from_le_bytes, u64_to_le_bytes,
};
use vstd::prelude::*;
use vstd::slice::{slice_subrange, slice_to_vec};

use crate::types::{Aggregation, AggregationModel, AstarteType, ValueModel};

verus! {

pub const TAG_BOOLEAN: u8 = 1;

pub const TAG_INTEGER: u8 = 2;

pub const TAG_LONG_INTEGER: u8 = 3;

pub const TAG_BINARY: u8 = 4;

pub const TAG_OBJECT: u8 = 5;

/// Two's-complement image of a 32-bit signed value.
pub open spec fn u32_of_i32(i: i32) -> u32 {
    if i >= 0 {
        i as u32
    } else {
        (i + 0x1_0000_0000) as u32
    }
}

/// Inverse of [`u32_of_i32`].
pub open spec fn i32_of_u32(u: u32) -> i32 {
    if u < 0x8000_0000 {
        u as i32
    } else {
        (u - 0x1_0000_0000) as i32
    }
}

/// Two's-complement image of a 64-bit signed value.
pub open spec fn u64_of_i64(i: i64) -> u64 {
    if i >= 0 {
        i as u64
    } else {
        (i + 0x1_0000_0000_0000_0000) as u64
    }
}

/// Inverse of [`u64_of_i64`].
pub open spec fn i64_of_u64(u: u64) -> i64 {
    if u < 0x8000_0000_0000_0000 {
        u as i64
    } else {
        (u - 0x1_0000_0000_0000_0000) as i64
    }
}

/// The payload that encodes one scalar value.
pub open spec fn encode_value(m: ValueModel) -> Seq<u8> {
    match m {
        ValueModel::Unset => Seq::<u8>::empty(),
        ValueModel::Boolean(b) => seq![TAG_BOOLEAN, if b { 1u8 } else { 0u8 }],
        ValueModel::Integer(i) => seq![TAG_INTEGER] + spec_u32_to_le_bytes(u32_of_i32(i)),
        ValueModel::LongInteger(i) => seq![TAG_LONG_INTEGER] + spec_u64_to_le_bytes(u64_of_i64(i)),
        ValueModel::Binary(s) => seq![TAG_BINARY] + s,
    }
}

/// What a payload decodes to: `None` on a malformed payload.
pub open spec fn decode_payload(b: Seq<u8>) -> Option<AggregationModel> {
    if b.len() == 0 {
        Some(AggregationModel::Individual(ValueModel::Unset))
    } else if b[0] == TAG_BOOLEAN {
        if b.len() == 2 && (b[1] == 0 || b[1] == 1) {
            Some(AggregationModel::Individual(ValueModel::Boolean(b[1] == 1)))
        } else {
            None
        }
    } else if b[0] == TAG_INTEGER {
        if b.len() == 5 {
            Some(
                AggregationModel::Individual(
                    ValueModel::Integer(i32_of_u32(spec_u32_from_le_bytes(b.subrange(1, 5)))),
                ),
            )
        } else {
            None
        }
    } else if b[0] == TAG_LONG_INTEGER {
        if b.len() == 9 {
            Some(
                AggregationModel::Individual(
                    ValueModel::LongInteger(i64_of_u64(spec_u64_from_le_bytes(b.subrange(1, 9)))),
                ),
            )
        } else {
            None
        }
    } else if b[0] == TAG_BINARY {
        Some(AggregationModel::Individual(ValueModel::Binary(b.subrange(1, b.len() as int))))
    } else if b[0] == TAG_OBJECT {
        Some(AggregationModel::Object(b.subrange(1, b.len() as int)))
    } else {
        None
    }
}

fn exec_u32_of_i32(i: i32) -> (u: u32)
    ensures
        u == u32_of_i32(i),
{
    if i >= 0 {
        i as u32
    } else {
        ((i as i64) + 0x1_0000_0000i64) as u32
    }
}

fn exec_i32_of_u32(u: u32) -> (i: i32)
    ensures
        i == i32_of_u32(u),
{
    if u < 0x8000_0000 {
        u as i32
    } else {
        ((u as i64) - 0x1_0000_0000i64) as i32
    }
}

fn exec_u64_of_i64(i: i64) -> (u: u64)
    ensures
        u == u64_of_i64(i),
{
    if i >= 0 {
        i as u64
    } else {
        ((i as i128) + 0x1_0000_0000_0000_0000i128) as u64
    }
}

fn exec_i64_of_u64(u: u64) -> (i: i64)
    ensures
        i == i64_of_u64(u),
{
    if u < 0x8000_0000_0000_0000 {
        u as i64
    } else {
        ((u as i128) - 0x1_0000_0000_0000_0000i128) as i64
    }
}

/// Encode one scalar value as a property payload.
pub fn encode_individual(v: &AstarteType) -> (r: Vec<u8>)
    ensures
        r@ == encode_value(v@),
{
    match v {
        AstarteType::Unset => Vec::new(),
        AstarteType::Boolean(b) => {
            let mut out: Vec<u8> = Vec::new();
            out.push(TAG_BOOLEAN);
            out.push(if *b { 1u8 } else { 0u8 });
            proof {
                assert(out@ =~= encode_value(v@));
            }
            out
        },
        AstarteType::Integer(i) => {
            let mut out: Vec<u8> = Vec::new();
            out.push(TAG_INTEGER);
            let mut body = u32_to_le_bytes(exec_u32_of_i32(*i));
            out.append(&mut body);
            proof {
                assert(out@ =~= encode_value(v@));
            }
            out
        },
        AstarteType::LongInteger(i) => {
            let mut out: Vec<u8> = Vec::new();
            out.push(TAG_LONG_INTEGER);
            let mut body = u64_to_le_bytes(exec_u64_of_i64(*i));
            out.append(&mut body);
            proof {
                assert(out@ =~= encode_value(v@));
            }
            out
        },
        AstarteType::Binary(bytes) => {
            let mut out: Vec<u8> = Vec::new();
            out.push(TAG_BINARY);
            let mut body = bytes.clone();
            out.append(&mut body);
            proof {
                assert(out@ =~= encode_value(v@));
            }
            out
        },
    }
}

/// Decode a property payload; a malformed payload is rejected.
pub fn decode_stored(bytes: &[u8]) -> (r: Option<Aggregation>)
    ensures
        match decode_payload(bytes@) {
            Some(m) => r matches Some(a) && a@ == m,
            None => r is None,
        },
{
    if bytes.len() == 0 {
        Some(Aggregation::Individual(AstarteType::Unset))
    } else {
        let tag = bytes[0];
        if tag == TAG_BOOLEAN {
            if bytes.len() == 2 && (bytes[1] == 0 || bytes[1] == 1) {
                Some(Aggregation::Individual(AstarteType::Boolean(bytes[1] == 1)))
            } else {
                None
            }
        } else if tag == TAG_INTEGER {
            if bytes.len() == 5 {
                let body = slice_subrange(bytes, 1, 5);
                let u = u32_from_le_bytes(body);
                Some(Aggregation::Individual(AstarteType::Integer(exec_i32_of_u32(u))))
            } else {
                None
            }
        } else if tag == TAG_LONG_INTEGER {
            if bytes.len() == 9 {
                let body = slice_subrange(bytes, 1, 9);
                let u = u64_from_le_bytes(body);
                Some(Aggregation::Individual(AstarteType::LongInteger(exec_i64_of_u64(u))))
            } else {
                None
            }
        } else if tag == TAG_BINARY {
            let body = slice_subrange(bytes, 1, bytes.len());
            Some(Aggregation::Individual(AstarteType::Binary(slice_to_vec(body))))
        } else if tag == TAG_OBJECT {
            let body = slice_subrange(bytes, 1, bytes.len());
            Some(Aggregation::Object(slice_to_vec(body)))
        } else {
            None
        }
    }
}

/// A payload is empty exactly when it encodes the `Unset` sentinel.
pub proof fn lemma_empty_payload_is_unset(m: ValueModel)
    ensures
        encode_value(m).len() == 0 <==> m is Unset,
{
    lemma_auto_spec_u32_to_from_le_bytes();
    lemma_auto_spec_u64_to_from_le_bytes();
}

/// Decoding inverts encoding: every encoded scalar decodes to itself, as an
/// individual value, never as an aggregate and never as a malformed payload.
pub proof fn lemma_codec_round_trip(m: ValueModel)
    ensures
        decode_payload(encode_value(m)) == Some(AggregationModel::Individual(m)),
{
    lemma_auto_spec_u32_to_from_le_bytes();
    lemma_auto_spec_u64_to_from_le_bytes();
    match m {
        ValueModel::Unset => {
        },
        ValueModel::Boolean(b) => {
        },
        ValueModel::Integer(i) => {
            let e = encode_value(m);
            assert(e.subrange(1, 5) =~= spec_u32_to_le_bytes(u32_of_i32(i)));
        },
        ValueModel::LongInteger(i) => {
            let e = encode_value(m);
            assert(e.subrange(1, 9) =~= spec_u64_to_le_bytes(u64_of_i64(i)));
        },
        ValueModel::Binary(s) => {
            let e = encode_value(m);
            assert(e.subrange(1, e.len() as int) =~= s);
        },
    }
}

} // verus!
