//! A flat binary encoding of the placement history.
//!
//! Each record is self-describing: a tag byte (0 for a root record, 1 for
//! an attached record), the prototile type as one byte, and, for attached
//! records, the anchor handle and the anchor side as eight little-endian
//! bytes each.  Decoding validates every field and fails on any malformed
//! input; `lemma_codec_round_trip` proves that decoding an encoded history
//! gives back exactly the original records.

use vstd::prelude::*;
use vstd::arithmetic::div_mod::{lemma_fundamental_div_mod, lemma_div_denominator};
use crate::prototile::PrototileType;
use crate::model::PlacementRecord;

verus! {

pub open spec fn kind_byte_s(k: PrototileType) -> u8 {
    match k {
        PrototileType::Fat => 0u8,
        PrototileType::Skinny => 1u8,
    }
}

pub open spec fn kind_of_byte_s(b: u8) -> PrototileType {
    if b == 0 {
        PrototileType::Fat
    } else {
        PrototileType::Skinny
    }
}

/// The eight little-endian bytes of a 64-bit value.
pub open spec fn enc_u64_s(v: u64) -> Seq<u8> {
    seq![
        (v % 256) as u8,
        ((v / 256) % 256) as u8,
        ((v / 65536) % 256) as u8,
        ((v / 16777216) % 256) as u8,
        ((v / 4294967296) % 256) as u8,
        ((v / 1099511627776) % 256) as u8,
        ((v / 281474976710656) % 256) as u8,
        ((v / 72057594037927936) % 256) as u8,
    ]
}

/// The value of eight little-endian bytes starting at position `at`.
pub open spec fn u64_from8_s(b: Seq<u8>, at: int) -> int {
    b[at] + 256 * b[at + 1] + 65536 * b[at + 2] + 16777216 * b[at + 3] + 4294967296 * b[at + 4]
        + 1099511627776 * b[at + 5] + 281474976710656 * b[at + 6] + 72057594037927936 * b[at + 7]
}

pub open spec fn enc_rec_s(r: PlacementRecord) -> Seq<u8> {
    match r {
        PlacementRecord::Root { kind } => seq![0u8, kind_byte_s(kind)],
        PlacementRecord::Attached { on, side, kind } => seq![1u8, kind_byte_s(kind)] + enc_u64_s(
            on as u64,
        ) + enc_u64_s(side as u64),
    }
}

pub open spec fn enc_log_s(rs: Seq<PlacementRecord>) -> Seq<u8>
    decreases rs.len(),
{
    if rs.len() == 0 {
        Seq::<u8>::empty()
    } else {
        enc_rec_s(rs[0]) + enc_log_s(rs.skip(1))
    }
}

/// Decode a record stream; `None` on any malformed input.
pub open spec fn dec_log_s(b: Seq<u8>) -> Option<Seq<PlacementRecord>>
    decreases b.len(),
{
    if b.len() == 0 {
        Some(Seq::<PlacementRecord>::empty())
    } else if b[0] == 0 {
        if b.len() >= 2 && b[1] <= 1 {
            match dec_log_s(b.skip(2)) {
                None => None,
                Some(rest) => Some(
                    seq![PlacementRecord::Root { kind: kind_of_byte_s(b[1]) }] + rest,
                ),
            }
        } else {
            None
        }
    } else if b[0] == 1 {
        if b.len() >= 18 && b[1] <= 1 && u64_from8_s(b, 2) <= usize::MAX && u64_from8_s(b, 10)
            <= usize::MAX {
            match dec_log_s(b.skip(18)) {
                None => None,
                Some(rest) => Some(
                    seq![
                        PlacementRecord::Attached {
                            on: u64_from8_s(b, 2) as usize,
                            side: u64_from8_s(b, 10) as usize,
                            kind: kind_of_byte_s(b[1]),
                        },
                    ] + rest,
                ),
            }
        } else {
            None
        }
    } else {
        None
    }
}

/// The eight little-endian bytes of a value recombine to that value.
proof fn lemma_u64_le_round_trip(v: u64, b: Seq<u8>, at: int)
    requires
        0 <= at,
        at + 8 <= b.len(),
        b.subrange(at, at + 8) == enc_u64_s(v),
    ensures
        u64_from8_s(b, at) == v,
{
    assert(b[at] == enc_u64_s(v)[0]);
    assert(b[at + 1] == enc_u64_s(v)[1]);
    assert(b[at + 2] == enc_u64_s(v)[2]);
    assert(b[at + 3] == enc_u64_s(v)[3]);
    assert(b[at + 4] == enc_u64_s(v)[4]);
    assert(b[at + 5] == enc_u64_s(v)[5]);
    assert(b[at + 6] == enc_u64_s(v)[6]);
    assert(b[at + 7] == enc_u64_s(v)[7]);
    lemma_u64_digits(v);
}

/// The base-256 digit expansion of a 64-bit value.
proof fn lemma_u64_digits(v: u64)
    ensures
        v == (v % 256) + 256 * ((v / 256) % 256) + 65536 * ((v / 65536) % 256) + 16777216 * ((v
            / 16777216) % 256) + 4294967296 * ((v / 4294967296) % 256) + 1099511627776 * ((v
            / 1099511627776) % 256) + 281474976710656 * ((v / 281474976710656) % 256)
            + 72057594037927936 * ((v / 72057594037927936) % 256),
        v / 72057594037927936 < 256,
{
    let x = v as int;
    lemma_div_denominator(x, 256, 256);
    lemma_div_denominator(x, 65536, 256);
    lemma_div_denominator(x, 16777216, 256);
    lemma_div_denominator(x, 4294967296, 256);
    lemma_div_denominator(x, 1099511627776, 256);
    lemma_div_denominator(x, 281474976710656, 256);
    lemma_fundamental_div_mod(x, 256);
    lemma_fundamental_div_mod(x / 256, 256);
    lemma_fundamental_div_mod(x / 65536, 256);
    lemma_fundamental_div_mod(x / 16777216, 256);
    lemma_fundamental_div_mod(x / 4294967296, 256);
    lemma_fundamental_div_mod(x / 1099511627776, 256);
    lemma_fundamental_div_mod(x / 281474976710656, 256);
    lemma_fundamental_div_mod(x, 72057594037927936);
    assert(x % 72057594037927936 >= 0) by {
        vstd::arithmetic::div_mod::lemma_mod_bound(x, 72057594037927936);
    }
    assert(x / 72057594037927936 < 256) by {
        if x / 72057594037927936 >= 256 {
            assert(x >= 72057594037927936 * 256);
        }
    }
}

/// Decoding an encoded history gives back exactly the original records.
#[verifier::rlimit(100)]
pub proof fn lemma_codec_round_trip(rs: Seq<PlacementRecord>)
    ensures
        dec_log_s(enc_log_s(rs)) == Some(rs),
    decreases rs.len(),
{
    if rs.len() == 0 {
    } else {
        let r0 = rs[0];
        let rest = rs.skip(1);
        lemma_codec_round_trip(rest);
        let b = enc_log_s(rs);
        assert(b == enc_rec_s(r0) + enc_log_s(rest));
        match r0 {
            PlacementRecord::Root { kind } => {
                assert(b[0] == 0);
                assert(b[1] == kind_byte_s(kind));
                assert(b.skip(2) =~= enc_log_s(rest));
                assert(kind_of_byte_s(kind_byte_s(kind)) == kind);
                assert(dec_log_s(b) == Some(seq![r0] + rest));
                assert(seq![r0] + rest =~= rs);
            },
            PlacementRecord::Attached { on, side, kind } => {
                assert(b[0] == 1);
                assert(b[1] == kind_byte_s(kind));
                assert(b.len() >= 18);
                assert(b.subrange(2, 10) =~= enc_u64_s(on as u64));
                assert(b.subrange(10, 18) =~= enc_u64_s(side as u64));
                lemma_u64_le_round_trip(on as u64, b, 2);
                lemma_u64_le_round_trip(side as u64, b, 10);
                assert(u64_from8_s(b, 2) == on as u64);
                assert(u64_from8_s(b, 10) == side as u64);
                assert(on as u64 <= usize::MAX);
                assert(side as u64 <= usize::MAX);
                assert(b.skip(18) =~= enc_log_s(rest));
                assert(dec_log_s(b) == Some(seq![r0] + rest));
                assert(seq![r0] + rest =~= rs);
            },
        }
    }
}

/// Appending one record appends its encoding.
proof fn lemma_enc_log_snoc(rs: Seq<PlacementRecord>, r: PlacementRecord)
    ensures
        enc_log_s(rs.push(r)) == enc_log_s(rs) + enc_rec_s(r),
    decreases rs.len(),
{
    if rs.len() == 0 {
        assert(rs.push(r)[0] == r);
        assert(rs.push(r).skip(1) =~= Seq::<PlacementRecord>::empty());
        assert(enc_log_s(rs.push(r).skip(1)) == Seq::<u8>::empty());
        assert(enc_log_s(rs.push(r)) == enc_rec_s(r) + Seq::<u8>::empty());
        assert(enc_rec_s(r) + Seq::<u8>::empty() =~= enc_rec_s(r));
        assert(enc_log_s(rs) + enc_rec_s(r) =~= enc_rec_s(r));
    } else {
        assert(rs.push(r).skip(1) =~= rs.skip(1).push(r));
        lemma_enc_log_snoc(rs.skip(1), r);
        assert(rs.push(r)[0] == rs[0]);
        assert(enc_log_s(rs.push(r)) == enc_rec_s(rs[0]) + (enc_log_s(rs.skip(1)) + enc_rec_s(r)));
        assert(enc_rec_s(rs[0]) + (enc_log_s(rs.skip(1)) + enc_rec_s(r)) =~= (enc_rec_s(rs[0])
            + enc_log_s(rs.skip(1))) + enc_rec_s(r));
    }
}

fn push_u64_le(out: &mut Vec<u8>, v: u64)
    ensures
        final(out)@ == old(out)@ + enc_u64_s(v),
{
    out.push((v % 256) as u8);
    out.push(((v / 256) % 256) as u8);
    out.push(((v / 65536) % 256) as u8);
    out.push(((v / 16777216) % 256) as u8);
    out.push(((v / 4294967296) % 256) as u8);
    out.push(((v / 1099511627776) % 256) as u8);
    out.push(((v / 281474976710656) % 256) as u8);
    out.push(((v / 72057594037927936) % 256) as u8);
    proof {
        assert(out@ =~= old(out)@ + enc_u64_s(v));
    }
}

/// Encode a placement history as a flat byte sequence.
pub fn encode_history(records: &Vec<PlacementRecord>) -> (r: Vec<u8>)
    ensures
        r@ == enc_log_s(records@),
{
    let mut out: Vec<u8> = Vec::new();
    let mut i: usize = 0;
    while i < records.len()
        invariant
            i <= records@.len(),
            out@ == enc_log_s(records@.take(i as int)),
        decreases records@.len() - i,
    {
        let ghost pre = out@;
        let rec = records[i];
        match rec {
            PlacementRecord::Root { kind } => {
                out.push(0u8);
                match kind {
                    PrototileType::Fat => out.push(0u8),
                    PrototileType::Skinny => out.push(1u8),
                }
                proof {
                    assert(out@ =~= pre + enc_rec_s(rec));
                }
            },
            PlacementRecord::Attached { on, side, kind } => {
                out.push(1u8);
                match kind {
                    PrototileType::Fat => out.push(0u8),
                    PrototileType::Skinny => out.push(1u8),
                }
                push_u64_le(&mut out, on as u64);
                push_u64_le(&mut out, side as u64);
                proof {
                    assert(out@ =~= pre + enc_rec_s(rec));
                }
            },
        }
        proof {
            lemma_enc_log_snoc(records@.take(i as int), rec);
            assert(records@.take(i + 1) =~= records@.take(i as int).push(rec));
        }
        i = i + 1;
    }
    proof {
        assert(records@.take(records@.len() as int) =~= records@);
    }
    out
}

fn read_u64_le(bytes: &Vec<u8>, at: usize) -> (r: u64)
    requires
        at + 8 <= bytes@.len(),
    ensures
        r as int == u64_from8_s(bytes@, at as int),
{
    let n = bytes.len();
    (bytes[at] as u64) + 256 * (bytes[at + 1] as u64) + 65536 * (bytes[at + 2] as u64) + 16777216
        * (bytes[at + 3] as u64) + 4294967296 * (bytes[at + 4] as u64) + 1099511627776 * (bytes[at
        + 5] as u64) + 281474976710656 * (bytes[at + 6] as u64) + 72057594037927936 * (bytes[at + 7]
        as u64)
}

/// Decode a placement history from bytes; `None` on malformed input.
#[verifier::rlimit(60)]
pub fn decode_history(bytes: &Vec<u8>) -> (r: Option<Vec<PlacementRecord>>)
    ensures
        match r {
            Some(v) => dec_log_s(bytes@) == Some(v@),
            None => dec_log_s(bytes@) is None,
        },
{
    let mut out: Vec<PlacementRecord> = Vec::new();
    let mut pos: usize = 0;
    proof {
        assert(bytes@.skip(0) =~= bytes@);
        match dec_log_s(bytes@) {
            Option::Some(r0) => {
                assert(out@ + r0 =~= r0);
            },
            Option::None => {},
        }
    }
    while pos < bytes.len()
        invariant
            pos <= bytes@.len(),
            dec_log_s(bytes@) == match dec_log_s(bytes@.skip(pos as int)) {
                None => None::<Seq<PlacementRecord>>,
                Some(rest) => Some(out@ + rest),
            },
        decreases bytes@.len() - pos,
    {
        let ghost tail = bytes@.skip(pos as int);
        let ghost pre_out = out@;
        let tag = bytes[pos];
        if tag == 0 {
            if bytes.len() - pos < 2 {
                proof {
                    assert(tail.len() == 1);
                    assert(tail[0] == 0);
                    assert(dec_log_s(tail) is None);
                }
                return None;
            }
            let kb = bytes[pos + 1];
            if kb > 1 {
                proof {
                    assert(tail[0] == 0 && tail[1] == kb);
                    assert(dec_log_s(tail) is None);
                }
                return None;
            }
            let kind = if kb == 0 { PrototileType::Fat } else { PrototileType::Skinny };
            out.push(PlacementRecord::Root { kind });
            proof {
                assert(tail[0] == 0 && tail[1] == kb && tail.len() >= 2);
                assert(tail.skip(2) =~= bytes@.skip(pos + 2));
                assert(kind == kind_of_byte_s(tail[1]));
                match dec_log_s(bytes@.skip(pos + 2)) {
                    Option::Some(rest) => {
                        assert(dec_log_s(tail) == Some(
                            seq![PlacementRecord::Root { kind }] + rest,
                        ));
                        assert(pre_out + (seq![PlacementRecord::Root { kind }] + rest) =~= out@
                            + rest);
                    },
                    Option::None => {
                        assert(dec_log_s(tail) is None);
                    },
                }
            }
            pos = pos + 2;
        } else if tag == 1 {
            if bytes.len() - pos < 18 {
                proof {
                    assert(tail[0] == 1);
                    assert(tail.len() < 18);
                    assert(dec_log_s(tail) is None);
                }
                return None;
            }
            let kb = bytes[pos + 1];
            if kb > 1 {
                proof {
                    assert(tail[0] == 1 && tail[1] == kb);
                    assert(dec_log_s(tail) is None);
                }
                return None;
            }
            let kind = if kb == 0 { PrototileType::Fat } else { PrototileType::Skinny };
            let on_v = read_u64_le(bytes, pos + 2);
            let side_v = read_u64_le(bytes, pos + 10);
            proof {
                assert(tail[0] == 1 && tail[1] == kb && tail.len() >= 18);
                assert forall|j: int| 0 <= j < 16 implies #[trigger] tail[2 + j] == bytes@[pos + 2
                    + j] by {}
                assert(u64_from8_s(tail, 2) == u64_from8_s(bytes@, pos + 2));
                assert(u64_from8_s(tail, 10) == u64_from8_s(bytes@, pos + 10));
            }
            if on_v > usize::MAX as u64 || side_v > usize::MAX as u64 {
                proof {
                    assert(dec_log_s(tail) is None);
                }
                return None;
            }
            let rec = PlacementRecord::Attached { on: on_v as usize, side: side_v as usize, kind };
            out.push(rec);
            proof {
                assert(tail.skip(18) =~= bytes@.skip(pos + 18));
                assert(rec == PlacementRecord::Attached {
                    on: u64_from8_s(tail, 2) as usize,
                    side: u64_from8_s(tail, 10) as usize,
                    kind: kind_of_byte_s(tail[1]),
                });
                match dec_log_s(bytes@.skip(pos + 18)) {
                    Option::Some(rest) => {
                        assert(dec_log_s(tail) == Some(seq![rec] + rest));
                        assert(pre_out + (seq![rec] + rest) =~= out@ + rest);
                    },
                    Option::None => {
                        assert(dec_log_s(tail) is None);
                    },
                }
            }
            pos = pos + 18;
        } else {
            proof {
                assert(tail[0] == tag);
                assert(dec_log_s(tail) is None);
            }
            return None;
        }
    }
    proof {
        assert(bytes@.skip(pos as int) =~= Seq::<u8>::empty());
        assert(dec_log_s(bytes@.skip(pos as int)) == Some(Seq::<PlacementRecord>::empty()));
        assert(out@ + Seq::<PlacementRecord>::empty() =~= out@);
    }
    Some(out)
}

} // verus!
