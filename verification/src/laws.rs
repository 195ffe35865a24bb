//! The laws of the wire format, proved against [`enc`] and [`dec`]:
//! every encoding opens with its tag; decoding an encoding gives the
//! value back, byte position by byte position; and truncated, mistagged
//! or ill-shaped input decodes to the stated error.
use vstd::bytes::{lemma_auto_spec_u64_to_from_le_bytes, spec_u64_to_le_bytes};
use vstd::prelude::*;
use vstd::utf8::{encode_utf8, encode_utf8_decode_utf8, encode_utf8_valid_utf8};

use crate::codec::{
    advance, dec, dec_list, dec_pairs, dec_str, enc, enc_i64s, enc_opt_int, enc_pairs, enc_seq,
    lossy, raw_enc, rd_i64s, rust_function_bytes, str_enc, DecodeError,
};
use crate::model::{
    registered, registered_pairs, registered_seq, wf, wf_pairs, wf_seq, CdcModel,
};
use crate::wire::{
    bytes_at, dec_digits, i64_le, lemma_bytes_at_concat, lemma_bytes_at_one, lemma_dec_digits_len,
    lemma_i64_cast_roundtrip, lemma_parse_dec_digits, lemma_rd_u64_at, parse_u64, rd_i64,
    rd_u64,
};

verus! {

/// Every encoding opens with the tag of the value's variant.
pub proof fn lemma_tag_stability(m: CdcModel)
    ensures
        enc(m).len() >= 1,
        enc(m).first() == m.tag(),
{
    lemma_auto_spec_u64_to_from_le_bytes();
}

/// Where a word's bytes stand, the signed reading gives the word back.
proof fn lemma_i64_at(data: Seq<u8>, pos: int, i: i64)
    requires
        bytes_at(data, pos, i64_le(i)),
    ensures
        rd_i64(data, pos) == i,
        pos + 8 <= data.len(),
{
    lemma_auto_spec_u64_to_from_le_bytes();
    lemma_rd_u64_at(data, pos, i as u64);
    lemma_i64_cast_roundtrip(i);
}

/// Where a length-prefixed byte string stands, reading it gives the
/// bytes back and ends just past them.
proof fn lemma_dec_str_at(data: Seq<u8>, pos: int, b: Seq<u8>)
    requires
        bytes_at(data, pos, raw_enc(b)),
        b.len() <= u64::MAX,
    ensures
        dec_str(data, pos) == Ok::<(Seq<u8>, int), DecodeError>((b, pos + 8 + b.len())),
        raw_enc(b).len() == 8 + b.len(),
{
    lemma_auto_spec_u64_to_from_le_bytes();
    lemma_bytes_at_concat(data, pos, spec_u64_to_le_bytes(b.len() as u64), b);
    lemma_rd_u64_at(data, pos, b.len() as u64);
    assert(rd_u64(data, pos) as int == b.len());
    assert(data.subrange(pos + 8, pos + 8 + b.len()) == b);
}

/// Where a length-prefixed string stands, reading it gives exactly its
/// characters: the encoder emits valid UTF-8, which the lossy policy
/// passes through unchanged.
proof fn lemma_dec_string_at(data: Seq<u8>, pos: int, s: Seq<char>)
    requires
        bytes_at(data, pos, str_enc(s)),
        encode_utf8(s).len() <= u64::MAX,
    ensures
        dec_str(data, pos) == Ok::<(Seq<u8>, int), DecodeError>(
            (encode_utf8(s), pos + 8 + encode_utf8(s).len()),
        ),
        lossy(encode_utf8(s)) == s,
        str_enc(s).len() == 8 + encode_utf8(s).len(),
{
    lemma_dec_str_at(data, pos, encode_utf8(s));
    encode_utf8_valid_utf8(s);
    encode_utf8_decode_utf8(s);
}

/// Where a slice slot stands, decoding reads back the None or Integer
/// value the slot holds.
proof fn lemma_dec_opt_int_at(data: Seq<u8>, pos: int, o: Option<i64>, reg: Seq<u64>)
    requires
        bytes_at(data, pos, enc_opt_int(o)),
    ensures
        dec(data, pos, reg) == Ok::<(CdcModel, int), DecodeError>(
            (
                match o {
                    Some(i) => CdcModel::INTEGER(i),
                    None => CdcModel::NONE,
                },
                pos + enc_opt_int(o).len(),
            ),
        ),
        enc_opt_int(o).len() >= 1,
{
    lemma_auto_spec_u64_to_from_le_bytes();
    match o {
        Some(i) => {
            lemma_bytes_at_concat(data, pos, seq![2u8], i64_le(i));
            lemma_bytes_at_one(data, pos, 2u8);
            lemma_i64_at(data, pos + 1, i);
        },
        None => {
            lemma_bytes_at_one(data, pos, 0u8);
        },
    }
}

/// Where an item's wire form stands, decoding reads the item back.
proof fn lemma_dec_item_at(
    data: Seq<u8>,
    pos: int,
    id: Seq<char>,
    category: i32,
    stage: i32,
    reg: Seq<u64>,
)
    requires
        bytes_at(
            data,
            pos,
            seq![8u8] + str_enc(id) + i64_le(category as i64) + i64_le(stage as i64),
        ),
        encode_utf8(id).len() <= u64::MAX,
    ensures
        dec(data, pos, reg) == Ok::<(CdcModel, int), DecodeError>(
            (
                CdcModel::ITEM { id, category, stage },
                pos + 1 + str_enc(id).len() + 16,
            ),
        ),
{
    lemma_auto_spec_u64_to_from_le_bytes();
    let c1 = seq![8u8];
    let c2 = str_enc(id);
    let c3 = i64_le(category as i64);
    let c4 = i64_le(stage as i64);
    lemma_bytes_at_concat(data, pos, c1 + c2 + c3, c4);
    lemma_bytes_at_concat(data, pos, c1 + c2, c3);
    lemma_bytes_at_concat(data, pos, c1, c2);
    lemma_bytes_at_one(data, pos, 8u8);
    lemma_dec_string_at(data, pos + 1, id);
    let e1 = pos + 1 + c2.len();
    lemma_i64_at(data, e1, category as i64);
    lemma_i64_at(data, e1 + 8, stage as i64);
    assert((category as i64) as i32 == category) by (bit_vector);
    assert((stage as i64) as i32 == stage) by (bit_vector);
}

/// Decoding an encoding gives the value back: where the wire form of a
/// well-formed value stands at a position, with every callable handle
/// it holds resident in the registry, reading there yields that value
/// and ends just past its bytes.
#[verifier::spinoff_prover]
#[verifier::rlimit(100)]
pub proof fn lemma_dec_enc(data: Seq<u8>, pos: int, m: CdcModel, reg: Seq<u64>)
    requires
        wf(m),
        registered(m, reg),
        bytes_at(data, pos, enc(m)),
    ensures
        dec(data, pos, reg) == Ok::<(CdcModel, int), DecodeError>((m, pos + enc(m).len())),
    decreases m, 1int,
{
    lemma_auto_spec_u64_to_from_le_bytes();
    match m {
        CdcModel::NONE => {
            lemma_bytes_at_one(data, pos, 0u8);
        },
        CdcModel::BOOL(b) => {
            let pb = if b {
                1u8
            } else {
                0u8
            };
            assert(enc(m) =~= seq![1u8] + seq![pb]);
            lemma_bytes_at_concat(data, pos, seq![1u8], seq![pb]);
            lemma_bytes_at_one(data, pos, 1u8);
            lemma_bytes_at_one(data, pos + 1, pb);
        },
        CdcModel::INTEGER(i) => {
            lemma_bytes_at_concat(data, pos, seq![2u8], i64_le(i));
            lemma_bytes_at_one(data, pos, 2u8);
            lemma_i64_at(data, pos + 1, i);
        },
        CdcModel::FLOAT(bits) => {
            lemma_bytes_at_concat(data, pos, seq![3u8], spec_u64_to_le_bytes(bits));
            lemma_bytes_at_one(data, pos, 3u8);
            lemma_rd_u64_at(data, pos + 1, bits);
        },
        CdcModel::STRING(s) => {
            lemma_bytes_at_concat(data, pos, seq![4u8], str_enc(s));
            lemma_bytes_at_one(data, pos, 4u8);
            lemma_dec_string_at(data, pos + 1, s);
        },
        CdcModel::LIST(es) => {
            let c1 = seq![5u8];
            let c2 = spec_u64_to_le_bytes(es.len() as u64);
            let c3 = enc_seq(es);
            lemma_bytes_at_concat(data, pos, c1 + c2, c3);
            lemma_bytes_at_concat(data, pos, c1, c2);
            lemma_bytes_at_one(data, pos, 5u8);
            lemma_rd_u64_at(data, pos + 1, es.len() as u64);
            lemma_dec_list_enc(data, pos + 9, es, reg);
        },
        CdcModel::MAP(ps) => {
            let c1 = seq![6u8];
            let c2 = spec_u64_to_le_bytes(ps.len() as u64);
            let c3 = enc_pairs(ps);
            lemma_bytes_at_concat(data, pos, c1 + c2, c3);
            lemma_bytes_at_concat(data, pos, c1, c2);
            lemma_bytes_at_one(data, pos, 6u8);
            lemma_rd_u64_at(data, pos + 1, ps.len() as u64);
            lemma_dec_pairs_enc(data, pos + 9, ps, reg);
        },
        CdcModel::SLICE { start, stop } => {
            let c1 = seq![7u8];
            let c2 = enc_opt_int(start);
            let c3 = enc_opt_int(stop);
            lemma_bytes_at_concat(data, pos, c1 + c2, c3);
            lemma_bytes_at_concat(data, pos, c1, c2);
            lemma_bytes_at_one(data, pos, 7u8);
            lemma_dec_opt_int_at(data, pos + 1, start, reg);
            let e1 = pos + 1 + c2.len();
            assert(advance(pos + 1, e1) == e1);
            lemma_dec_opt_int_at(data, e1, stop, reg);
        },
        CdcModel::ITEM { id, category, stage } => {
            assert(enc(m) =~= seq![8u8] + str_enc(id) + i64_le(category as i64) + i64_le(
                stage as i64,
            ));
            lemma_dec_item_at(data, pos, id, category, stage, reg);
        },
        CdcModel::INDEXABLE { .. } => {
            lemma_dec_enc_indexable(data, pos, m, reg);
        },
        CdcModel::COMMAND(name) => {
            lemma_bytes_at_concat(data, pos, seq![10u8], str_enc(name));
            lemma_bytes_at_one(data, pos, 10u8);
            lemma_dec_string_at(data, pos + 1, name);
        },
        CdcModel::CALLABLE(_) => {
            lemma_dec_enc_callable(data, pos, m, reg);
        },
        CdcModel::ERROR { .. } => {
            lemma_dec_enc_error(data, pos, m, reg);
        },
        CdcModel::TRAIT { .. } => {
            lemma_dec_enc_trait(data, pos, m, reg);
        },
        CdcModel::OBJECT { .. } => {
            lemma_dec_enc_object(data, pos, m, reg);
        },
        CdcModel::ARRAY { .. } => {
            lemma_dec_enc_array(data, pos, m, reg);
        },
        CdcModel::PACKAGE { .. } => {
            lemma_dec_enc_package(data, pos, m, reg);
        },
        CdcModel::VEC2D { x, y } => {
            let c1 = seq![17u8];
            let c2 = spec_u64_to_le_bytes(x);
            let c3 = spec_u64_to_le_bytes(y);
            lemma_bytes_at_concat(data, pos, c1 + c2, c3);
            lemma_bytes_at_concat(data, pos, c1, c2);
            lemma_bytes_at_one(data, pos, 17u8);
            lemma_rd_u64_at(data, pos + 1, x);
            lemma_rd_u64_at(data, pos + 9, y);
        },
        CdcModel::VEC3D { x, y, z } => {
            let c1 = seq![18u8];
            let c2 = spec_u64_to_le_bytes(x);
            let c3 = spec_u64_to_le_bytes(y);
            let c4 = spec_u64_to_le_bytes(z);
            lemma_bytes_at_concat(data, pos, c1 + c2 + c3, c4);
            lemma_bytes_at_concat(data, pos, c1 + c2, c3);
            lemma_bytes_at_concat(data, pos, c1, c2);
            lemma_bytes_at_one(data, pos, 18u8);
            lemma_rd_u64_at(data, pos + 1, x);
            lemma_rd_u64_at(data, pos + 9, y);
            lemma_rd_u64_at(data, pos + 17, z);
        },
        CdcModel::RESOURCE_ACCESS => {
            lemma_bytes_at_one(data, pos, 19u8);
        },
        CdcModel::BLOB(b) => {
            lemma_bytes_at_concat(data, pos, seq![20u8], raw_enc(b));
            lemma_bytes_at_one(data, pos, 20u8);
            lemma_dec_str_at(data, pos + 1, b);
        },
    }
}

/// Where the wire forms of a sequence of values stand back to back,
/// reading that many values gives the sequence back.
pub proof fn lemma_dec_list_enc(data: Seq<u8>, pos: int, ms: Seq<CdcModel>, reg: Seq<u64>)
    requires
        wf_seq(ms),
        registered_seq(ms, reg),
        bytes_at(data, pos, enc_seq(ms)),
    ensures
        dec_list(data, pos, ms.len() as int, reg) == Ok::<(Seq<CdcModel>, int), DecodeError>(
            (ms, pos + enc_seq(ms).len()),
        ),
    decreases ms, 0int,
{
    if ms.len() == 0 {
        assert(ms =~= Seq::<CdcModel>::empty());
    } else {
        lemma_bytes_at_concat(data, pos, enc(ms.first()), enc_seq(ms.drop_first()));
        lemma_dec_enc(data, pos, ms.first(), reg);
        let e1 = pos + enc(ms.first()).len();
        lemma_tag_stability(ms.first());
        assert(advance(pos, e1) == e1);
        lemma_dec_list_enc(data, e1, ms.drop_first(), reg);
        assert(seq![ms.first()] + ms.drop_first() =~= ms);
    }
}

/// Where the wire forms of string-keyed pairs stand back to back,
/// reading that many pairs gives them all back in order.
#[verifier::spinoff_prover]
#[verifier::rlimit(100)]
pub proof fn lemma_dec_pairs_enc(
    data: Seq<u8>,
    pos: int,
    ps: Seq<(Seq<char>, CdcModel)>,
    reg: Seq<u64>,
)
    requires
        wf_pairs(ps),
        registered_pairs(ps, reg),
        bytes_at(data, pos, enc_pairs(ps)),
    ensures
        dec_pairs(data, pos, ps.len() as int, reg) == Ok::<
            (Seq<(Seq<char>, CdcModel)>, int),
            DecodeError,
        >((ps, pos + enc_pairs(ps).len())),
    decreases ps, 0int,
{
    if ps.len() == 0 {
        assert(ps =~= Seq::<(Seq<char>, CdcModel)>::empty());
    } else {
        let k = ps.first().0;
        let v = ps.first().1;
        lemma_bytes_at_concat(data, pos, str_enc(k) + enc(v), enc_pairs(ps.drop_first()));
        lemma_bytes_at_concat(data, pos, str_enc(k), enc(v));
        lemma_dec_string_at(data, pos, k);
        let e1 = pos + str_enc(k).len();
        assert(advance(pos, e1) == e1);
        lemma_dec_enc(data, e1, v, reg);
        let e2 = e1 + enc(v).len();
        assert(advance(e1, e2) == e2);
        lemma_dec_pairs_enc(data, e2, ps.drop_first(), reg);
        assert(seq![(k, v)] + ps.drop_first() =~= ps);
    }
}

/// The decode-of-encode law for one variant.
#[verifier::spinoff_prover]
#[verifier::rlimit(100)]
proof fn lemma_dec_enc_indexable(data: Seq<u8>, pos: int, m: CdcModel, reg: Seq<u64>)
    requires
        m is INDEXABLE,
        wf(m),
        registered(m, reg),
        bytes_at(data, pos, enc(m)),
    ensures
        dec(data, pos, reg) == Ok::<(CdcModel, int), DecodeError>((m, pos + enc(m).len())),
    decreases m, 0int,
{
    lemma_auto_spec_u64_to_from_le_bytes();
    match m {
        CdcModel::INDEXABLE { id, category, stage, token, size } => {
            let item_bytes = seq![8u8] + str_enc(id) + i64_le(category as i64) + i64_le(
                stage as i64,
            );
            let c1 = seq![9u8];
            let c4 = str_enc(token);
            let c5 = i64_le(size);
            assert(enc(m) =~= c1 + item_bytes + c4 + c5);
            lemma_bytes_at_concat(data, pos, c1 + item_bytes + c4, c5);
            lemma_bytes_at_concat(data, pos, c1 + item_bytes, c4);
            lemma_bytes_at_concat(data, pos, c1, item_bytes);
            lemma_bytes_at_one(data, pos, 9u8);
            lemma_dec_item_at(data, pos + 1, id, category, stage, reg);
            let e1 = pos + 1 + item_bytes.len();
            assert(advance(pos + 1, e1) == e1);
            lemma_dec_string_at(data, e1, token);
            let e2 = e1 + c4.len();
            lemma_i64_at(data, e2, size);
        },
        _ => {},
    }
}

/// The decode-of-encode law for one variant.
#[verifier::spinoff_prover]
#[verifier::rlimit(100)]
proof fn lemma_dec_enc_callable(data: Seq<u8>, pos: int, m: CdcModel, reg: Seq<u64>)
    requires
        m is CALLABLE,
        wf(m),
        registered(m, reg),
        bytes_at(data, pos, enc(m)),
    ensures
        dec(data, pos, reg) == Ok::<(CdcModel, int), DecodeError>((m, pos + enc(m).len())),
    decreases m, 0int,
{
    lemma_auto_spec_u64_to_from_le_bytes();
    match m {
        CdcModel::CALLABLE(h) => {
            let c1 = seq![11u8];
            let c2 = raw_enc(dec_digits(h));
            let c3 = raw_enc(rust_function_bytes());
            lemma_bytes_at_concat(data, pos, c1 + c2, c3);
            lemma_bytes_at_concat(data, pos, c1, c2);
            lemma_bytes_at_one(data, pos, 11u8);
            lemma_dec_digits_len(h);
            lemma_dec_str_at(data, pos + 1, dec_digits(h));
            lemma_parse_dec_digits(h);
            let e1 = pos + 1 + c2.len();
            assert(advance(pos + 1, e1) == e1);
            lemma_dec_str_at(data, e1, rust_function_bytes());
        },
        _ => {},
    }
}

/// The decode-of-encode law for one variant.
#[verifier::spinoff_prover]
#[verifier::rlimit(100)]
proof fn lemma_dec_enc_error(data: Seq<u8>, pos: int, m: CdcModel, reg: Seq<u64>)
    requires
        m is ERROR,
        wf(m),
        registered(m, reg),
        bytes_at(data, pos, enc(m)),
    ensures
        dec(data, pos, reg) == Ok::<(CdcModel, int), DecodeError>((m, pos + enc(m).len())),
    decreases m, 0int,
{
    lemma_auto_spec_u64_to_from_le_bytes();
    match m {
        CdcModel::ERROR { id, text, line } => {
            let c1 = seq![12u8];
            let c2 = str_enc(id);
            let c3 = str_enc(text);
            let c4 = i64_le(line);
            lemma_bytes_at_concat(data, pos, c1 + c2 + c3, c4);
            lemma_bytes_at_concat(data, pos, c1 + c2, c3);
            lemma_bytes_at_concat(data, pos, c1, c2);
            lemma_bytes_at_one(data, pos, 12u8);
            lemma_dec_string_at(data, pos + 1, id);
            let e1 = pos + 1 + c2.len();
            assert(advance(pos + 1, e1) == e1);
            lemma_dec_string_at(data, e1, text);
            let e2 = e1 + c3.len();
            lemma_i64_at(data, e2, line);
        },
        _ => {},
    }
}

/// The decode-of-encode law for one variant.
#[verifier::spinoff_prover]
#[verifier::rlimit(100)]
proof fn lemma_dec_enc_trait(data: Seq<u8>, pos: int, m: CdcModel, reg: Seq<u64>)
    requires
        m is TRAIT,
        wf(m),
        registered(m, reg),
        bytes_at(data, pos, enc(m)),
    ensures
        dec(data, pos, reg) == Ok::<(CdcModel, int), DecodeError>((m, pos + enc(m).len())),
    decreases m, 0int,
{
    lemma_auto_spec_u64_to_from_le_bytes();
    match m {
        CdcModel::TRAIT { id, args, kwargs } => {
            let c1 = seq![13u8];
            let c2 = str_enc(id);
            let c3 = seq![5u8] + spec_u64_to_le_bytes(args.len() as u64) + enc_seq(args);
            let c4 = seq![6u8] + spec_u64_to_le_bytes(kwargs.len() as u64) + enc_pairs(kwargs);
            lemma_bytes_at_concat(data, pos, c1 + c2 + c3, c4);
            lemma_bytes_at_concat(data, pos, c1 + c2, c3);
            lemma_bytes_at_concat(data, pos, c1, c2);
            lemma_bytes_at_one(data, pos, 13u8);
            lemma_dec_string_at(data, pos + 1, id);
            let e1 = pos + 1 + c2.len();
            assert(advance(pos + 1, e1) == e1);
            lemma_bytes_at_concat(
                data,
                e1,
                seq![5u8] + spec_u64_to_le_bytes(args.len() as u64),
                enc_seq(args),
            );
            lemma_bytes_at_concat(data, e1, seq![5u8], spec_u64_to_le_bytes(args.len() as u64));
            lemma_bytes_at_one(data, e1, 5u8);
            lemma_rd_u64_at(data, e1 + 1, args.len() as u64);
            lemma_dec_list_enc(data, e1 + 9, args, reg);
            let e2 = e1 + c3.len();
            assert(dec(data, e1, reg) == Ok::<(CdcModel, int), DecodeError>(
                (CdcModel::LIST(args), e2),
            ));
            assert(advance(e1, e2) == e2);
            lemma_bytes_at_concat(
                data,
                e2,
                seq![6u8] + spec_u64_to_le_bytes(kwargs.len() as u64),
                enc_pairs(kwargs),
            );
            lemma_bytes_at_concat(data, e2, seq![6u8], spec_u64_to_le_bytes(kwargs.len() as u64));
            lemma_bytes_at_one(data, e2, 6u8);
            lemma_rd_u64_at(data, e2 + 1, kwargs.len() as u64);
            lemma_dec_pairs_enc(data, e2 + 9, kwargs, reg);
            let e3 = e2 + c4.len();
            assert(dec(data, e2, reg) == Ok::<(CdcModel, int), DecodeError>(
                (CdcModel::MAP(kwargs), e3),
            ));
        },
        _ => {},
    }
}

/// The decode-of-encode law for one variant.
#[verifier::spinoff_prover]
#[verifier::rlimit(100)]
proof fn lemma_dec_enc_object(data: Seq<u8>, pos: int, m: CdcModel, reg: Seq<u64>)
    requires
        m is OBJECT,
        wf(m),
        registered(m, reg),
        bytes_at(data, pos, enc(m)),
    ensures
        dec(data, pos, reg) == Ok::<(CdcModel, int), DecodeError>((m, pos + enc(m).len())),
    decreases m, 0int,
{
    lemma_auto_spec_u64_to_from_le_bytes();
    match m {
        CdcModel::OBJECT { type_id, repr, attributes } => {
            let c1 = seq![14u8];
            let c2 = str_enc(type_id);
            let c3 = str_enc(repr);
            let c4 = spec_u64_to_le_bytes(attributes.len() as u64);
            let c5 = enc_pairs(attributes);
            lemma_bytes_at_concat(data, pos, c1 + c2 + c3 + c4, c5);
            lemma_bytes_at_concat(data, pos, c1 + c2 + c3, c4);
            lemma_bytes_at_concat(data, pos, c1 + c2, c3);
            lemma_bytes_at_concat(data, pos, c1, c2);
            lemma_bytes_at_one(data, pos, 14u8);
            lemma_dec_string_at(data, pos + 1, type_id);
            let e1 = pos + 1 + c2.len();
            assert(advance(pos + 1, e1) == e1);
            lemma_dec_string_at(data, e1, repr);
            let e2 = e1 + c3.len();
            lemma_rd_u64_at(data, e2, attributes.len() as u64);
            lemma_dec_pairs_enc(data, e2 + 8, attributes, reg);
        },
        _ => {},
    }
}

/// The decode-of-encode law for one variant.
#[verifier::spinoff_prover]
#[verifier::rlimit(100)]
proof fn lemma_dec_enc_array(data: Seq<u8>, pos: int, m: CdcModel, reg: Seq<u64>)
    requires
        m is ARRAY,
        wf(m),
        registered(m, reg),
        bytes_at(data, pos, enc(m)),
    ensures
        dec(data, pos, reg) == Ok::<(CdcModel, int), DecodeError>((m, pos + enc(m).len())),
    decreases m, 0int,
{
    match m {
        CdcModel::ARRAY { project, item, key, index, selected, transformation } => {
            let sb = if selected {
                1u8
            } else {
                0u8
            };
            let tb = (match transformation {
                Some(t) => seq![1u8] + enc(*t),
                None => seq![0u8],
            });
            let c1 = seq![15u8];
            let c2 = enc(*project);
            let c3 = enc(*item);
            let c4 = str_enc(key);
            let c5 = spec_u64_to_le_bytes(index.len() as u64);
            let c6 = enc_i64s(index);
            let c7 = seq![sb];
            let e1 = pos + 1 + c2.len();
            let e2 = e1 + c3.len();
            let e3 = e2 + c4.len();
            let e4 = e3 + 8 + c6.len();
            assert(bytes_at(data, pos, c1) && bytes_at(data, pos + 1, c2) && bytes_at(
                data,
                e1,
                c3,
            ) && bytes_at(data, e2, c4) && bytes_at(data, e3, c5) && bytes_at(data, e3 + 8, c6)
                && bytes_at(data, e4, c7) && bytes_at(data, e4 + 1, tb) && pos + enc(m).len()
                == e4 + 1 + tb.len()) by {
                lemma_auto_spec_u64_to_from_le_bytes();
                lemma_bytes_at_concat(data, pos, c1 + c2 + c3 + c4 + c5 + c6 + c7, tb);
                lemma_bytes_at_concat(data, pos, c1 + c2 + c3 + c4 + c5 + c6, c7);
                lemma_bytes_at_concat(data, pos, c1 + c2 + c3 + c4 + c5, c6);
                lemma_bytes_at_concat(data, pos, c1 + c2 + c3 + c4, c5);
                lemma_bytes_at_concat(data, pos, c1 + c2 + c3, c4);
                lemma_bytes_at_concat(data, pos, c1 + c2, c3);
                lemma_bytes_at_concat(data, pos, c1, c2);
            }
            lemma_auto_spec_u64_to_from_le_bytes();
            lemma_bytes_at_one(data, pos, 15u8);
            lemma_dec_enc(data, pos + 1, *project, reg);
            assert(advance(pos + 1, e1) == e1);
            lemma_dec_enc(data, e1, *item, reg);
            assert(advance(e1, e2) == e2);
            lemma_dec_string_at(data, e2, key);
            lemma_rd_u64_at(data, e3, index.len() as u64);
            lemma_rd_i64s_at(data, e3 + 8, index);
            lemma_bytes_at_one(data, e4, sb);
            match transformation {
                Some(t) => {
                    lemma_bytes_at_concat(data, e4 + 1, seq![1u8], enc(*t));
                    lemma_bytes_at_one(data, e4 + 1, 1u8);
                    lemma_dec_enc(data, e4 + 2, *t, reg);
                },
                None => {
                    lemma_bytes_at_one(data, e4 + 1, 0u8);
                },
            }
        },
        _ => {},
    }
}

/// The decode-of-encode law for one variant.
#[verifier::spinoff_prover]
#[verifier::rlimit(100)]
proof fn lemma_dec_enc_package(data: Seq<u8>, pos: int, m: CdcModel, reg: Seq<u64>)
    requires
        m is PACKAGE,
        wf(m),
        registered(m, reg),
        bytes_at(data, pos, enc(m)),
    ensures
        dec(data, pos, reg) == Ok::<(CdcModel, int), DecodeError>((m, pos + enc(m).len())),
    decreases m, 0int,
{
    lemma_auto_spec_u64_to_from_le_bytes();
    match m {
        CdcModel::PACKAGE { reference, metadata } => {
            let c1 = seq![16u8];
            let c2 = str_enc(reference);
            let c3 = spec_u64_to_le_bytes(metadata.len() as u64);
            let c4 = enc_pairs(metadata);
            lemma_bytes_at_concat(data, pos, c1 + c2 + c3, c4);
            lemma_bytes_at_concat(data, pos, c1 + c2, c3);
            lemma_bytes_at_concat(data, pos, c1, c2);
            lemma_bytes_at_one(data, pos, 16u8);
            lemma_dec_string_at(data, pos + 1, reference);
            let e1 = pos + 1 + c2.len();
            lemma_rd_u64_at(data, e1, metadata.len() as u64);
            lemma_dec_pairs_enc(data, e1 + 8, metadata, reg);
        },
        _ => {},
    }
}

/// Where the wire forms of signed words stand back to back, reading
/// them gives the words back.
proof fn lemma_rd_i64s_at(data: Seq<u8>, pos: int, is: Seq<i64>)
    requires
        bytes_at(data, pos, enc_i64s(is)),
    ensures
        enc_i64s(is).len() == 8 * is.len(),
        rd_i64s(data, pos, is.len() as int) == is,
    decreases is,
{
    lemma_auto_spec_u64_to_from_le_bytes();
    if is.len() == 0 {
        assert(rd_i64s(data, pos, 0) =~= is);
    } else {
        lemma_bytes_at_concat(data, pos, i64_le(is.first()), enc_i64s(is.drop_first()));
        lemma_i64_at(data, pos, is.first());
        lemma_rd_i64s_at(data, pos + 8, is.drop_first());
        assert forall|kk: int| 0 <= kk < is.len() implies rd_i64s(data, pos, is.len() as int)[kk]
            == is[kk] by {
            if kk == 0 {
                assert(rd_i64s(data, pos, is.len() as int)[0] == rd_i64(data, pos));
            } else {
                assert(rd_i64s(data, pos + 8, is.len() - 1)[kk - 1] == rd_i64(
                    data,
                    pos + 8 + 8 * (kk - 1),
                ));
                assert(rd_i64s(data, pos, is.len() as int)[kk] == rd_i64(data, pos + 8 * kk));
                assert(pos + 8 + 8 * (kk - 1) == pos + 8 * kk) by (nonlinear_arith);
                assert(is.drop_first()[kk - 1] == is[kk]);
            }
        }
        assert(rd_i64s(data, pos, is.len() as int) =~= is);
    }
}

/// True when the buffer ends inside the bytes `s` that begin at `pos`:
/// it holds a proper prefix of them and nothing after.
pub open spec fn prefix_at(data: Seq<u8>, pos: int, s: Seq<u8>) -> bool {
    0 <= pos <= data.len() && data.len() < pos + s.len() && data.subrange(pos, data.len() as int)
        == s.take(data.len() - pos)
}

/// A buffer that ends inside a concatenation either ends inside the
/// first part, or holds the first part whole and ends inside the
/// second.
pub proof fn lemma_prefix_split(data: Seq<u8>, pos: int, a: Seq<u8>, b: Seq<u8>)
    requires
        prefix_at(data, pos, a + b),
    ensures
        data.len() - pos < a.len() ==> prefix_at(data, pos, a),
        data.len() - pos >= a.len() ==> bytes_at(data, pos, a) && prefix_at(
            data,
            pos + a.len(),
            b,
        ),
{
    let r = data.len() - pos;
    if r < a.len() {
        assert forall|i: int| 0 <= i < r implies data.subrange(pos, data.len() as int)[i] == a.take(
            r,
        )[i] by {
            assert((a + b).take(r)[i] == (a + b)[i]);
        }
        assert(data.subrange(pos, data.len() as int) =~= a.take(r));
    } else {
        assert forall|i: int| 0 <= i < a.len() implies data.subrange(pos, pos + a.len())[i]
            == a[i] by {
            assert(data.subrange(pos, data.len() as int)[i] == (a + b).take(r)[i]);
            assert((a + b).take(r)[i] == (a + b)[i]);
        }
        assert(data.subrange(pos, pos + a.len()) =~= a);
        assert forall|i: int| 0 <= i < r - a.len() implies #[trigger] (data.subrange(
            pos + a.len(),
            data.len() as int,
        )[i]) == b.take(r - a.len())[i] by {
            assert(data.subrange(pos, data.len() as int)[a.len() + i] == (a + b).take(r)[a.len() + i]);
            assert((a + b).take(r)[a.len() + i] == (a + b)[a.len() + i]);
        }
        assert(data.subrange(pos + a.len(), data.len() as int) =~= b.take(r - a.len()));
    }
}

/// A buffer that ends inside a length-prefixed byte string reads as
/// missing data.
proof fn lemma_dec_str_prefix(data: Seq<u8>, pos: int, b: Seq<u8>)
    requires
        prefix_at(data, pos, raw_enc(b)),
        b.len() <= u64::MAX,
    ensures
        dec_str(data, pos) == Err::<(Seq<u8>, int), DecodeError>(DecodeError::MissingData),
{
    lemma_auto_spec_u64_to_from_le_bytes();
    lemma_prefix_split(data, pos, spec_u64_to_le_bytes(b.len() as u64), b);
    if data.len() - pos >= 8 {
        lemma_rd_u64_at(data, pos, b.len() as u64);
    }
}

/// Truncation reads as missing data: where a buffer holds a proper
/// prefix of a well-formed value's wire form and nothing after it,
/// decoding at that position fails with missing data, whatever the
/// truncation point.
#[verifier::spinoff_prover]
#[verifier::rlimit(100)]
pub proof fn lemma_dec_enc_prefix(data: Seq<u8>, pos: int, m: CdcModel, reg: Seq<u64>)
    requires
        wf(m),
        registered(m, reg),
        prefix_at(data, pos, enc(m)),
    ensures
        dec(data, pos, reg) == Err::<(CdcModel, int), DecodeError>(DecodeError::MissingData),
    decreases m, 2int,
{
    lemma_auto_spec_u64_to_from_le_bytes();
    let r = data.len() - pos;
    match m {
        CdcModel::NONE => {
            assert(pos == data.len());
        },
        CdcModel::BOOL(b) => {
            let pb = if b {
                1u8
            } else {
                0u8
            };
            assert(enc(m) =~= seq![1u8] + seq![pb]);
            lemma_prefix_split(data, pos, seq![1u8], seq![pb]);
            if r >= 1 {
                lemma_bytes_at_one(data, pos, 1u8);
            }
        },
        CdcModel::INTEGER(i) => {
            lemma_prefix_split(data, pos, seq![2u8], i64_le(i));
            if r >= 1 {
                lemma_bytes_at_one(data, pos, 2u8);
            }
        },
        CdcModel::FLOAT(bits) => {
            lemma_prefix_split(data, pos, seq![3u8], spec_u64_to_le_bytes(bits));
            if r >= 1 {
                lemma_bytes_at_one(data, pos, 3u8);
            }
        },
        CdcModel::STRING(st) => {
            lemma_prefix_split(data, pos, seq![4u8], str_enc(st));
            if r >= 1 {
                lemma_bytes_at_one(data, pos, 4u8);
                lemma_dec_str_prefix(data, pos + 1, encode_utf8(st));
            }
        },
        CdcModel::LIST(es) => {
            let c2 = spec_u64_to_le_bytes(es.len() as u64);
            assert(enc(m) =~= seq![5u8] + (c2 + enc_seq(es)));
            lemma_prefix_split(data, pos, seq![5u8], c2 + enc_seq(es));
            if r >= 1 {
                lemma_bytes_at_one(data, pos, 5u8);
                lemma_prefix_split(data, pos + 1, c2, enc_seq(es));
                if r - 1 >= 8 {
                    lemma_rd_u64_at(data, pos + 1, es.len() as u64);
                    lemma_dec_list_prefix(data, pos + 9, es, reg);
                }
            }
        },
        CdcModel::MAP(ps) => {
            let c2 = spec_u64_to_le_bytes(ps.len() as u64);
            assert(enc(m) =~= seq![6u8] + (c2 + enc_pairs(ps)));
            lemma_prefix_split(data, pos, seq![6u8], c2 + enc_pairs(ps));
            if r >= 1 {
                lemma_bytes_at_one(data, pos, 6u8);
                lemma_prefix_split(data, pos + 1, c2, enc_pairs(ps));
                if r - 1 >= 8 {
                    lemma_rd_u64_at(data, pos + 1, ps.len() as u64);
                    lemma_dec_pairs_prefix(data, pos + 9, ps, reg);
                }
            }
        },
        CdcModel::SLICE { start, stop } => {
            let c2 = enc_opt_int(start);
            let c3 = enc_opt_int(stop);
            assert(enc(m) =~= seq![7u8] + (c2 + c3));
            lemma_prefix_split(data, pos, seq![7u8], c2 + c3);
            if r >= 1 {
                lemma_bytes_at_one(data, pos, 7u8);
                lemma_prefix_split(data, pos + 1, c2, c3);
                if r - 1 < c2.len() {
                    lemma_dec_opt_int_prefix(data, pos + 1, start, reg);
                } else {
                    lemma_dec_opt_int_at(data, pos + 1, start, reg);
                    let e1 = pos + 1 + c2.len();
                    assert(advance(pos + 1, e1) == e1);
                    lemma_dec_opt_int_prefix(data, e1, stop, reg);
                }
            }
        },
        CdcModel::ITEM { id, category, stage } => {
            let c2 = str_enc(id);
            let c34 = i64_le(category as i64) + i64_le(stage as i64);
            assert(enc(m) =~= seq![8u8] + (c2 + c34));
            lemma_prefix_split(data, pos, seq![8u8], c2 + c34);
            if r >= 1 {
                lemma_bytes_at_one(data, pos, 8u8);
                lemma_prefix_split(data, pos + 1, c2, c34);
                if r - 1 < c2.len() {
                    lemma_dec_str_prefix(data, pos + 1, encode_utf8(id));
                } else {
                    lemma_dec_string_at(data, pos + 1, id);
                }
            }
        },
        CdcModel::INDEXABLE { id, category, stage, token, size } => {
            let ib = seq![8u8] + str_enc(id) + i64_le(category as i64) + i64_le(stage as i64);
            let c4 = str_enc(token);
            let c5 = i64_le(size);
            assert(enc(m) =~= seq![9u8] + (ib + (c4 + c5)));
            lemma_prefix_split(data, pos, seq![9u8], ib + (c4 + c5));
            if r >= 1 {
                lemma_bytes_at_one(data, pos, 9u8);
                lemma_prefix_split(data, pos + 1, ib, c4 + c5);
                if r - 1 < ib.len() {
                    lemma_dec_item_prefix(data, pos + 1, id, category, stage, reg);
                } else {
                    lemma_dec_item_at(data, pos + 1, id, category, stage, reg);
                    let e1 = pos + 1 + ib.len();
                    assert(advance(pos + 1, e1) == e1);
                    lemma_prefix_split(data, e1, c4, c5);
                    if r - 1 - ib.len() < c4.len() {
                        lemma_dec_str_prefix(data, e1, encode_utf8(token));
                    } else {
                        lemma_dec_string_at(data, e1, token);
                    }
                }
            }
        },
        CdcModel::COMMAND(name) => {
            lemma_prefix_split(data, pos, seq![10u8], str_enc(name));
            if r >= 1 {
                lemma_bytes_at_one(data, pos, 10u8);
                lemma_dec_str_prefix(data, pos + 1, encode_utf8(name));
            }
        },
        CdcModel::CALLABLE(h) => {
            let c2 = raw_enc(dec_digits(h));
            let c3 = raw_enc(rust_function_bytes());
            lemma_dec_digits_len(h);
            assert(enc(m) =~= seq![11u8] + (c2 + c3));
            lemma_prefix_split(data, pos, seq![11u8], c2 + c3);
            if r >= 1 {
                lemma_bytes_at_one(data, pos, 11u8);
                lemma_prefix_split(data, pos + 1, c2, c3);
                if r - 1 < c2.len() {
                    lemma_dec_str_prefix(data, pos + 1, dec_digits(h));
                } else {
                    lemma_dec_str_at(data, pos + 1, dec_digits(h));
                    lemma_parse_dec_digits(h);
                    let e1 = pos + 1 + c2.len();
                    assert(advance(pos + 1, e1) == e1);
                    lemma_dec_str_prefix(data, e1, rust_function_bytes());
                }
            }
        },
        CdcModel::ERROR { id, text, line } => {
            let c2 = str_enc(id);
            let c3 = str_enc(text);
            let c4 = i64_le(line);
            assert(enc(m) =~= seq![12u8] + (c2 + (c3 + c4)));
            lemma_prefix_split(data, pos, seq![12u8], c2 + (c3 + c4));
            if r >= 1 {
                lemma_bytes_at_one(data, pos, 12u8);
                lemma_prefix_split(data, pos + 1, c2, c3 + c4);
                if r - 1 < c2.len() {
                    lemma_dec_str_prefix(data, pos + 1, encode_utf8(id));
                } else {
                    lemma_dec_string_at(data, pos + 1, id);
                    let e1 = pos + 1 + c2.len();
                    assert(advance(pos + 1, e1) == e1);
                    lemma_prefix_split(data, e1, c3, c4);
                    if r - 1 - c2.len() < c3.len() {
                        lemma_dec_str_prefix(data, e1, encode_utf8(text));
                    } else {
                        lemma_dec_string_at(data, e1, text);
                    }
                }
            }
        },
        CdcModel::TRAIT { id, args, kwargs } => {
            lemma_dec_enc_prefix_trait(data, pos, m, reg);
        },
        CdcModel::OBJECT { type_id, repr, attributes } => {
            lemma_dec_enc_prefix_object(data, pos, m, reg);
        },
        CdcModel::ARRAY { project, item, key, index, selected, transformation } => {
            lemma_dec_enc_prefix_array(data, pos, m, reg);
        },
        CdcModel::PACKAGE { reference, metadata } => {
            lemma_dec_enc_prefix_package(data, pos, m, reg);
        },
        CdcModel::VEC2D { x, y } => {
            assert(enc(m) =~= seq![17u8] + (spec_u64_to_le_bytes(x) + spec_u64_to_le_bytes(y)));
            lemma_prefix_split(data, pos, seq![17u8], spec_u64_to_le_bytes(x)
                + spec_u64_to_le_bytes(y));
            if r >= 1 {
                lemma_bytes_at_one(data, pos, 17u8);
            }
        },
        CdcModel::VEC3D { x, y, z } => {
            assert(enc(m) =~= seq![18u8] + (spec_u64_to_le_bytes(x) + (spec_u64_to_le_bytes(y)
                + spec_u64_to_le_bytes(z))));
            lemma_prefix_split(data, pos, seq![18u8], spec_u64_to_le_bytes(x) + (
            spec_u64_to_le_bytes(y) + spec_u64_to_le_bytes(z)));
            if r >= 1 {
                lemma_bytes_at_one(data, pos, 18u8);
            }
        },
        CdcModel::RESOURCE_ACCESS => {
            assert(pos == data.len());
        },
        CdcModel::BLOB(b) => {
            lemma_prefix_split(data, pos, seq![20u8], raw_enc(b));
            if r >= 1 {
                lemma_bytes_at_one(data, pos, 20u8);
                lemma_dec_str_prefix(data, pos + 1, b);
            }
        },
    }
}

/// Truncation inside a slice slot reads as missing data.
proof fn lemma_dec_opt_int_prefix(data: Seq<u8>, pos: int, o: Option<i64>, reg: Seq<u64>)
    requires
        prefix_at(data, pos, enc_opt_int(o)),
    ensures
        dec(data, pos, reg) == Err::<(CdcModel, int), DecodeError>(DecodeError::MissingData),
{
    lemma_auto_spec_u64_to_from_le_bytes();
    match o {
        Some(i) => {
            lemma_prefix_split(data, pos, seq![2u8], i64_le(i));
            if data.len() - pos >= 1 {
                lemma_bytes_at_one(data, pos, 2u8);
            }
        },
        None => {},
    }
}

/// Truncation inside an item's wire form reads as missing data.
proof fn lemma_dec_item_prefix(
    data: Seq<u8>,
    pos: int,
    id: Seq<char>,
    category: i32,
    stage: i32,
    reg: Seq<u64>,
)
    requires
        prefix_at(
            data,
            pos,
            seq![8u8] + str_enc(id) + i64_le(category as i64) + i64_le(stage as i64),
        ),
        encode_utf8(id).len() <= u64::MAX,
    ensures
        dec(data, pos, reg) == Err::<(CdcModel, int), DecodeError>(DecodeError::MissingData),
{
    lemma_auto_spec_u64_to_from_le_bytes();
    let c2 = str_enc(id);
    let c34 = i64_le(category as i64) + i64_le(stage as i64);
    let whole = seq![8u8] + str_enc(id) + i64_le(category as i64) + i64_le(stage as i64);
    assert(whole =~= seq![8u8] + (c2 + c34));
    lemma_prefix_split(data, pos, seq![8u8], c2 + c34);
    let r = data.len() - pos;
    if r >= 1 {
        lemma_bytes_at_one(data, pos, 8u8);
        lemma_prefix_split(data, pos + 1, c2, c34);
        if r - 1 < c2.len() {
            lemma_dec_str_prefix(data, pos + 1, encode_utf8(id));
        } else {
            lemma_dec_string_at(data, pos + 1, id);
        }
    }
}

/// Truncation inside the elements of a list reads as missing data.
#[verifier::spinoff_prover]
#[verifier::rlimit(100)]
proof fn lemma_dec_list_prefix(data: Seq<u8>, pos: int, ms: Seq<CdcModel>, reg: Seq<u64>)
    requires
        wf_seq(ms),
        registered_seq(ms, reg),
        prefix_at(data, pos, enc_seq(ms)),
    ensures
        dec_list(data, pos, ms.len() as int, reg) == Err::<(Seq<CdcModel>, int), DecodeError>(
            DecodeError::MissingData,
        ),
    decreases ms, 1int,
{
    if ms.len() == 0 {
        assert(false);
    } else {
        lemma_prefix_split(data, pos, enc(ms.first()), enc_seq(ms.drop_first()));
        if data.len() - pos < enc(ms.first()).len() {
            lemma_dec_enc_prefix(data, pos, ms.first(), reg);
        } else {
            lemma_dec_enc(data, pos, ms.first(), reg);
            let e1 = pos + enc(ms.first()).len();
            assert(advance(pos, e1) == e1);
            lemma_dec_list_prefix(data, e1, ms.drop_first(), reg);
        }
    }
}

/// Truncation inside the pairs of a map reads as missing data.
#[verifier::spinoff_prover]
#[verifier::rlimit(100)]
proof fn lemma_dec_pairs_prefix(
    data: Seq<u8>,
    pos: int,
    ps: Seq<(Seq<char>, CdcModel)>,
    reg: Seq<u64>,
)
    requires
        wf_pairs(ps),
        registered_pairs(ps, reg),
        prefix_at(data, pos, enc_pairs(ps)),
    ensures
        dec_pairs(data, pos, ps.len() as int, reg) == Err::<
            (Seq<(Seq<char>, CdcModel)>, int),
            DecodeError,
        >(DecodeError::MissingData),
    decreases ps, 1int,
{
    if ps.len() == 0 {
        assert(false);
    } else {
        let k = ps.first().0;
        let v = ps.first().1;
        assert(enc_pairs(ps) =~= str_enc(k) + (enc(v) + enc_pairs(ps.drop_first())));
        lemma_prefix_split(data, pos, str_enc(k), enc(v) + enc_pairs(ps.drop_first()));
        let r = data.len() - pos;
        if r < str_enc(k).len() {
            lemma_dec_str_prefix(data, pos, encode_utf8(k));
        } else {
            lemma_dec_string_at(data, pos, k);
            let e1 = pos + str_enc(k).len();
            assert(advance(pos, e1) == e1);
            lemma_prefix_split(data, e1, enc(v), enc_pairs(ps.drop_first()));
            if r - str_enc(k).len() < enc(v).len() {
                lemma_dec_enc_prefix(data, e1, v, reg);
            } else {
                lemma_dec_enc(data, e1, v, reg);
                let e2 = e1 + enc(v).len();
                assert(advance(e1, e2) == e2);
                lemma_dec_pairs_prefix(data, e2, ps.drop_first(), reg);
            }
        }
    }
}

/// The truncation law for one variant.
#[verifier::spinoff_prover]
#[verifier::rlimit(100)]
proof fn lemma_dec_enc_prefix_trait(data: Seq<u8>, pos: int, m: CdcModel, reg: Seq<u64>)
    requires
        m is TRAIT,
        wf(m),
        registered(m, reg),
        prefix_at(data, pos, enc(m)),
    ensures
        dec(data, pos, reg) == Err::<(CdcModel, int), DecodeError>(DecodeError::MissingData),
    decreases m, 0int,
{
    lemma_auto_spec_u64_to_from_le_bytes();
    let r = data.len() - pos;
    match m {
        CdcModel::TRAIT { id, args, kwargs } => {
            let c2 = str_enc(id);
            let c3 = seq![5u8] + spec_u64_to_le_bytes(args.len() as u64) + enc_seq(args);
            let c4 = seq![6u8] + spec_u64_to_le_bytes(kwargs.len() as u64) + enc_pairs(kwargs);
            assert(enc(m) =~= seq![13u8] + (c2 + (c3 + c4)));
            lemma_prefix_split(data, pos, seq![13u8], c2 + (c3 + c4));
            if r >= 1 {
                lemma_bytes_at_one(data, pos, 13u8);
                lemma_prefix_split(data, pos + 1, c2, c3 + c4);
                if r - 1 < c2.len() {
                    lemma_dec_str_prefix(data, pos + 1, encode_utf8(id));
                } else {
                    lemma_dec_string_at(data, pos + 1, id);
                    let e1 = pos + 1 + c2.len();
                    assert(advance(pos + 1, e1) == e1);
                    lemma_prefix_split(data, e1, c3, c4);
                    if r - 1 - c2.len() < c3.len() {
                        // the cut falls inside the args list
                        assert(c3 =~= seq![5u8] + (spec_u64_to_le_bytes(args.len() as u64)
                            + enc_seq(args)));
                        lemma_prefix_split(data, e1, seq![5u8], spec_u64_to_le_bytes(
                            args.len() as u64,
                        ) + enc_seq(args));
                        if data.len() - e1 >= 1 {
                            lemma_bytes_at_one(data, e1, 5u8);
                            lemma_prefix_split(data, e1 + 1, spec_u64_to_le_bytes(
                                args.len() as u64,
                            ), enc_seq(args));
                            if data.len() - e1 - 1 >= 8 {
                                lemma_rd_u64_at(data, e1 + 1, args.len() as u64);
                                lemma_dec_list_prefix(data, e1 + 9, args, reg);
                            }
                        }
                        assert(dec(data, e1, reg) == Err::<(CdcModel, int), DecodeError>(
                            DecodeError::MissingData,
                        ));
                    } else {
                        // the args list stands whole; the cut falls in the kwargs map
                        lemma_bytes_at_concat(
                            data,
                            e1,
                            seq![5u8] + spec_u64_to_le_bytes(args.len() as u64),
                            enc_seq(args),
                        );
                        lemma_bytes_at_concat(data, e1, seq![5u8], spec_u64_to_le_bytes(
                            args.len() as u64,
                        ));
                        lemma_bytes_at_one(data, e1, 5u8);
                        lemma_rd_u64_at(data, e1 + 1, args.len() as u64);
                        lemma_dec_list_enc(data, e1 + 9, args, reg);
                        let e2 = e1 + c3.len();
                        assert(dec(data, e1, reg) == Ok::<(CdcModel, int), DecodeError>(
                            (CdcModel::LIST(args), e2),
                        ));
                        assert(advance(e1, e2) == e2);
                        assert(c4 =~= seq![6u8] + (spec_u64_to_le_bytes(kwargs.len() as u64)
                            + enc_pairs(kwargs)));
                        lemma_prefix_split(data, e2, seq![6u8], spec_u64_to_le_bytes(
                            kwargs.len() as u64,
                        ) + enc_pairs(kwargs));
                        if data.len() - e2 >= 1 {
                            lemma_bytes_at_one(data, e2, 6u8);
                            lemma_prefix_split(data, e2 + 1, spec_u64_to_le_bytes(
                                kwargs.len() as u64,
                            ), enc_pairs(kwargs));
                            if data.len() - e2 - 1 >= 8 {
                                lemma_rd_u64_at(data, e2 + 1, kwargs.len() as u64);
                                lemma_dec_pairs_prefix(data, e2 + 9, kwargs, reg);
                            }
                        }
                        assert(dec(data, e2, reg) == Err::<(CdcModel, int), DecodeError>(
                            DecodeError::MissingData,
                        ));
                    }
                }
            }
        },
        _ => {},
    }
}

/// The truncation law for one variant.
#[verifier::spinoff_prover]
#[verifier::rlimit(100)]
proof fn lemma_dec_enc_prefix_object(data: Seq<u8>, pos: int, m: CdcModel, reg: Seq<u64>)
    requires
        m is OBJECT,
        wf(m),
        registered(m, reg),
        prefix_at(data, pos, enc(m)),
    ensures
        dec(data, pos, reg) == Err::<(CdcModel, int), DecodeError>(DecodeError::MissingData),
    decreases m, 0int,
{
    lemma_auto_spec_u64_to_from_le_bytes();
    let r = data.len() - pos;
    match m {
        CdcModel::OBJECT { type_id, repr, attributes } => {
            let c2 = str_enc(type_id);
            let c3 = str_enc(repr);
            let c4 = spec_u64_to_le_bytes(attributes.len() as u64);
            let c5 = enc_pairs(attributes);
            assert(enc(m) =~= seq![14u8] + (c2 + (c3 + (c4 + c5))));
            lemma_prefix_split(data, pos, seq![14u8], c2 + (c3 + (c4 + c5)));
            if r >= 1 {
                lemma_bytes_at_one(data, pos, 14u8);
                lemma_prefix_split(data, pos + 1, c2, c3 + (c4 + c5));
                if r - 1 < c2.len() {
                    lemma_dec_str_prefix(data, pos + 1, encode_utf8(type_id));
                } else {
                    lemma_dec_string_at(data, pos + 1, type_id);
                    let e1 = pos + 1 + c2.len();
                    assert(advance(pos + 1, e1) == e1);
                    lemma_prefix_split(data, e1, c3, c4 + c5);
                    if r - 1 - c2.len() < c3.len() {
                        lemma_dec_str_prefix(data, e1, encode_utf8(repr));
                    } else {
                        lemma_dec_string_at(data, e1, repr);
                        let e2 = e1 + c3.len();
                        lemma_prefix_split(data, e2, c4, c5);
                        if data.len() - e2 >= 8 {
                            lemma_rd_u64_at(data, e2, attributes.len() as u64);
                            lemma_dec_pairs_prefix(data, e2 + 8, attributes, reg);
                        }
                    }
                }
            }
        },
        _ => {},
    }
}

/// The truncation law for one variant.
#[verifier::spinoff_prover]
#[verifier::rlimit(100)]
proof fn lemma_dec_enc_prefix_package(data: Seq<u8>, pos: int, m: CdcModel, reg: Seq<u64>)
    requires
        m is PACKAGE,
        wf(m),
        registered(m, reg),
        prefix_at(data, pos, enc(m)),
    ensures
        dec(data, pos, reg) == Err::<(CdcModel, int), DecodeError>(DecodeError::MissingData),
    decreases m, 0int,
{
    lemma_auto_spec_u64_to_from_le_bytes();
    let r = data.len() - pos;
    match m {
        CdcModel::PACKAGE { reference, metadata } => {
            let c2 = str_enc(reference);
            let c3 = spec_u64_to_le_bytes(metadata.len() as u64);
            let c4 = enc_pairs(metadata);
            assert(enc(m) =~= seq![16u8] + (c2 + (c3 + c4)));
            lemma_prefix_split(data, pos, seq![16u8], c2 + (c3 + c4));
            if r >= 1 {
                lemma_bytes_at_one(data, pos, 16u8);
                lemma_prefix_split(data, pos + 1, c2, c3 + c4);
                if r - 1 < c2.len() {
                    lemma_dec_str_prefix(data, pos + 1, encode_utf8(reference));
                } else {
                    lemma_dec_string_at(data, pos + 1, reference);
                    let e1 = pos + 1 + c2.len();
                    lemma_prefix_split(data, e1, c3, c4);
                    if data.len() - e1 >= 8 {
                        lemma_rd_u64_at(data, e1, metadata.len() as u64);
                        lemma_dec_pairs_prefix(data, e1 + 8, metadata, reg);
                    }
                }
            }
        },
        _ => {},
    }
}

/// The truncation law for one variant.
#[verifier::spinoff_prover]
#[verifier::rlimit(100)]
proof fn lemma_dec_enc_prefix_array(data: Seq<u8>, pos: int, m: CdcModel, reg: Seq<u64>)
    requires
        m is ARRAY,
        wf(m),
        registered(m, reg),
        prefix_at(data, pos, enc(m)),
    ensures
        dec(data, pos, reg) == Err::<(CdcModel, int), DecodeError>(DecodeError::MissingData),
    decreases m, 1int,
{
    lemma_auto_spec_u64_to_from_le_bytes();
    let r = data.len() - pos;
    match m {
        CdcModel::ARRAY { project, item, key, index, selected, transformation } => {
            let sb = if selected {
                1u8
            } else {
                0u8
            };
            let tb = (match transformation {
                Some(t) => seq![1u8] + enc(*t),
                None => seq![0u8],
            });
            let c2 = enc(*project);
            let c3 = enc(*item);
            let c4 = str_enc(key);
            let tail = spec_u64_to_le_bytes(index.len() as u64) + (enc_i64s(index) + (seq![sb]
                + tb));
            assert(enc(m) =~= seq![15u8] + (c2 + (c3 + (c4 + tail))));
            lemma_prefix_split(data, pos, seq![15u8], c2 + (c3 + (c4 + tail)));
            if r >= 1 {
                lemma_bytes_at_one(data, pos, 15u8);
                lemma_prefix_split(data, pos + 1, c2, c3 + (c4 + tail));
                if r - 1 < c2.len() {
                    lemma_dec_enc_prefix(data, pos + 1, *project, reg);
                } else {
                    lemma_dec_enc(data, pos + 1, *project, reg);
                    let e1 = pos + 1 + c2.len();
                    assert(advance(pos + 1, e1) == e1);
                    lemma_prefix_split(data, e1, c3, c4 + tail);
                    if data.len() - e1 < c3.len() {
                        lemma_dec_enc_prefix(data, e1, *item, reg);
                        assert(dec(data, e1, reg) == Err::<(CdcModel, int), DecodeError>(
                            DecodeError::MissingData,
                        ));
                    } else {
                        lemma_dec_enc(data, e1, *item, reg);
                        let e2 = e1 + c3.len();
                        assert(advance(e1, e2) == e2);
                        lemma_prefix_split(data, e2, c4, tail);
                        if data.len() - e2 < c4.len() {
                            lemma_dec_str_prefix(data, e2, encode_utf8(key));
                        } else {
                            lemma_dec_string_at(data, e2, key);
                            let e3 = e2 + c4.len();
                            lemma_dec_enc_prefix_array_tail(
                                data,
                                pos,
                                e3,
                                m,
                                reg,
                            );
                        }
                    }
                }
            }
        },
        _ => {},
    }
}

/// The truncation law for an array whose cut falls at or after the
/// index-path count: the head fields stand whole before `e3`.
#[verifier::spinoff_prover]
#[verifier::rlimit(100)]
#[verifier::loop_isolation(false)]
proof fn lemma_dec_enc_prefix_array_tail(
    data: Seq<u8>,
    pos: int,
    e3: int,
    m: CdcModel,
    reg: Seq<u64>,
)
    requires
        m is ARRAY,
        wf(m),
        registered(m, reg),
        0 <= pos < data.len(),
        data[pos] == 15,
        dec(data, pos + 1, reg) == Ok::<(CdcModel, int), DecodeError>(
            (*m->ARRAY_project, pos + 1 + enc(*m->ARRAY_project).len()),
        ),
        e3 == pos + 1 + enc(*m->ARRAY_project).len() + enc(*m->ARRAY_item).len() + str_enc(
            m->ARRAY_key,
        ).len(),
        dec(data, pos + 1 + enc(*m->ARRAY_project).len(), reg) == Ok::<
            (CdcModel, int),
            DecodeError,
        >((*m->ARRAY_item, pos + 1 + enc(*m->ARRAY_project).len() + enc(*m->ARRAY_item).len())),
        dec_str(data, pos + 1 + enc(*m->ARRAY_project).len() + enc(*m->ARRAY_item).len()) == Ok::<
            (Seq<u8>, int),
            DecodeError,
        >((encode_utf8(m->ARRAY_key), e3)),
        prefix_at(
            data,
            e3,
            spec_u64_to_le_bytes(m->ARRAY_index.len() as u64) + (enc_i64s(m->ARRAY_index) + (seq![
                if m->ARRAY_selected {
                    1u8
                } else {
                    0u8
                },
            ] + (match m->ARRAY_transformation {
                Some(t) => seq![1u8] + enc(*t),
                None => seq![0u8],
            }))),
        ),
    ensures
        dec(data, pos, reg) == Err::<(CdcModel, int), DecodeError>(DecodeError::MissingData),
    decreases m, 0int,
{
    match m {
        CdcModel::ARRAY { project, item, key, index, selected, transformation } => {
            assert(spec_u64_to_le_bytes(index.len() as u64).len() == 8) by {
                crate::wire::lemma_le_roundtrip(index.len() as u64);
            }
            let sb = if selected {
                1u8
            } else {
                0u8
            };
            let tb = (match transformation {
                Some(t) => seq![1u8] + enc(*t),
                None => seq![0u8],
            });
            let c5 = spec_u64_to_le_bytes(index.len() as u64);
            let c6 = enc_i64s(index);
            let e1 = pos + 1 + enc(*project).len();
            let e2 = e1 + enc(*item).len();
            assert(advance(pos + 1, e1) == e1);
            assert(advance(e1, e2) == e2);
            lemma_prefix_split(data, e3, c5, c6 + (seq![sb] + tb));
            if data.len() - e3 >= 8 {
                lemma_rd_u64_at(data, e3, index.len() as u64);
                lemma_enc_i64s_len(index);
                let e4 = e3 + 8 + 8 * index.len();
                lemma_prefix_split(data, e3 + 8, c6, seq![sb] + tb);
                if data.len() - e3 - 8 >= c6.len() {
                    lemma_prefix_split(data, e4, seq![sb], tb);
                    if data.len() - e4 >= 1 {
                        lemma_bytes_at_one(data, e4, sb);
                        match transformation {
                            Some(t) => {
                                lemma_prefix_split(data, e4 + 1, seq![1u8], enc(*t));
                                if data.len() - e4 - 1 >= 1 {
                                    lemma_bytes_at_one(data, e4 + 1, 1u8);
                                    lemma_dec_enc_prefix(data, e4 + 2, *t, reg);
                                    assert(dec(data, e4 + 2, reg) == Err::<
                                        (CdcModel, int),
                                        DecodeError,
                                    >(DecodeError::MissingData));
                                }
                            },
                            None => {},
                        }
                    }
                }
            }
        },
        _ => {},
    }
}

/// The wire bytes of an index path take eight bytes per entry.
proof fn lemma_enc_i64s_len(is: Seq<i64>)
    ensures
        enc_i64s(is).len() == 8 * is.len(),
    decreases is,
{
    lemma_auto_spec_u64_to_from_le_bytes();
    if is.len() > 0 {
        lemma_enc_i64s_len(is.drop_first());
    }
}

/// A discriminant outside the tag table reads as an unknown type.
pub proof fn lemma_unknown_discriminant(data: Seq<u8>, pos: int, reg: Seq<u64>)
    requires
        0 <= pos < data.len(),
        data[pos] > 20,
    ensures
        dec(data, pos, reg) == Err::<(CdcModel, int), DecodeError>(DecodeError::UnknownType),
{
}

/// A slice whose start or stop slot holds a value that is neither None
/// nor Integer reads as an unknown type.
#[verifier::spinoff_prover]
#[verifier::rlimit(100)]
pub proof fn lemma_slice_slot_constraint(
    data: Seq<u8>,
    pos: int,
    a: CdcModel,
    b: CdcModel,
    reg: Seq<u64>,
)
    requires
        wf(a),
        registered(a, reg),
        wf(b),
        registered(b, reg),
        !(a is NONE) && !(a is INTEGER) || !(b is NONE) && !(b is INTEGER),
        bytes_at(data, pos, seq![7u8] + enc(a) + enc(b)),
    ensures
        dec(data, pos, reg) == Err::<(CdcModel, int), DecodeError>(DecodeError::UnknownType),
{
    lemma_bytes_at_concat(data, pos, seq![7u8] + enc(a), enc(b));
    lemma_bytes_at_concat(data, pos, seq![7u8], enc(a));
    lemma_bytes_at_one(data, pos, 7u8);
    lemma_dec_enc(data, pos + 1, a, reg);
    let e1 = pos + 1 + enc(a).len();
    lemma_tag_stability(a);
    assert(advance(pos + 1, e1) == e1);
    lemma_dec_enc(data, e1, b, reg);
}

/// An indexable whose first nested value is not an Item reads as an
/// unknown type.
#[verifier::spinoff_prover]
#[verifier::rlimit(100)]
pub proof fn lemma_indexable_slot_constraint(
    data: Seq<u8>,
    pos: int,
    a: CdcModel,
    token: Seq<char>,
    size: i64,
    reg: Seq<u64>,
)
    requires
        wf(a),
        registered(a, reg),
        !(a is ITEM),
        encode_utf8(token).len() <= u64::MAX,
        bytes_at(data, pos, seq![9u8] + enc(a) + str_enc(token) + i64_le(size)),
    ensures
        dec(data, pos, reg) == Err::<(CdcModel, int), DecodeError>(DecodeError::UnknownType),
{
    lemma_auto_spec_u64_to_from_le_bytes();
    lemma_bytes_at_concat(data, pos, seq![9u8] + enc(a) + str_enc(token), i64_le(size));
    lemma_bytes_at_concat(data, pos, seq![9u8] + enc(a), str_enc(token));
    lemma_bytes_at_concat(data, pos, seq![9u8], enc(a));
    lemma_bytes_at_one(data, pos, 9u8);
    lemma_dec_enc(data, pos + 1, a, reg);
    let e1 = pos + 1 + enc(a).len();
    assert(advance(pos + 1, e1) == e1);
    lemma_dec_string_at(data, e1, token);
    let e2 = e1 + str_enc(token).len();
    lemma_i64_at(data, e2, size);
}

} // verus!
