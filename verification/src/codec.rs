//! The binary codec: a self-describing little-endian encoding of the
//! value model.
//!
//! [`enc`] states, byte for byte, how a model value is written, and
//! [`dec`] how a byte stream is read back; the executable
//! [`CdcEncoder`] is proved to produce and consume exactly those bytes.
//! The encoder's one piece of state is the callable registry: the set
//! of handles inserted by encoding callable values, which decoding
//! looks handles up in.
use vstd::bytes::spec_u64_to_le_bytes;
use vstd::prelude::*;
use vstd::string::StrSliceExecFns;
use vstd::utf8::{decode_utf8, encode_utf8, valid_utf8};

use crate::model::{
    lemma_model_pairs, lemma_model_seq, lemma_pairs_push, lemma_registered_pairs_monotone,
    lemma_registered_seq_monotone, lemma_seq_push, model_pairs, model_seq, registered,
    registered_pairs, registered_seq, wf, wf_pairs, wf_seq, CdcModel,
};
use crate::value::CdcValue;
use crate::wire::{dec_digits, i64_le, parse_u64, push_decimal, push_i64_le, push_u64_le, rd_i64, rd_u64};

verus! {

/// A decoding failure: the buffer ended before the value did, a
/// discriminant or nested shape outside the wire contract, or a
/// callable handle absent from the registry.
#[derive(Debug, Clone, Copy, PartialEq, Eq, Structural)]
pub enum DecodeError {
    /// The buffer is too short for the claimed length.
    MissingData,
    /// A discriminant outside the tag table, or a nested value of a
    /// variant the surrounding variant does not admit.
    UnknownType,
    /// A callable handle not present in the registry.
    MissingFunction,
}

impl DecodeError {
    /// The human-readable account of this failure.
    pub fn message(&self) -> (r: String)
        ensures
            (match self {
                DecodeError::MissingData => r@
                    == "The bytes buffer ended unexpectedly while trying to decode a value"@,
                DecodeError::UnknownType => r@
                    == "Unknown type discriminant encountered during decoding"@,
                DecodeError::MissingFunction => r@
                    == "Function pointer not found in registered callables"@,
            }),
    {
        match self {
            DecodeError::MissingData => "The bytes buffer ended unexpectedly while trying to decode a value".to_owned(),
            DecodeError::UnknownType => "Unknown type discriminant encountered during decoding".to_owned(),
            DecodeError::MissingFunction => "Function pointer not found in registered callables".to_owned(),
        }
    }
}

/// The wire bytes of a length-prefixed byte string: the byte count as
/// an unsigned 64-bit little-endian word, then the bytes.
pub open spec fn raw_enc(b: Seq<u8>) -> Seq<u8> {
    spec_u64_to_le_bytes(b.len() as u64) + b
}

/// The wire bytes of a length-prefixed string: its UTF-8 bytes under a
/// byte count.
pub open spec fn str_enc(s: Seq<char>) -> Seq<u8> {
    raw_enc(encode_utf8(s))
}

/// The language-tag string written after a callable's handle.
pub open spec fn rust_function_bytes() -> Seq<u8> {
    seq![114u8, 117u8, 115u8, 116u8, 32u8, 102u8, 117u8, 110u8, 99u8, 116u8, 105u8, 111u8, 110u8]
}

/// The wire bytes of a slice slot: a None value or an Integer value.
pub open spec fn enc_opt_int(o: Option<i64>) -> Seq<u8> {
    match o {
        Some(i) => seq![2u8] + i64_le(i),
        None => seq![0u8],
    }
}

/// The wire bytes of a model value: its tag, then its payload fields
/// in order, nested values recursively.
pub open spec fn enc(m: CdcModel) -> Seq<u8>
    decreases m,
{
    match m {
        CdcModel::NONE => seq![0u8],
        CdcModel::BOOL(b) => seq![
            1u8,
            if b {
                1u8
            } else {
                0u8
            },
        ],
        CdcModel::INTEGER(i) => seq![2u8] + i64_le(i),
        CdcModel::FLOAT(bits) => seq![3u8] + spec_u64_to_le_bytes(bits),
        CdcModel::STRING(s) => seq![4u8] + str_enc(s),
        CdcModel::LIST(es) => seq![5u8] + spec_u64_to_le_bytes(es.len() as u64) + enc_seq(es),
        CdcModel::MAP(ps) => seq![6u8] + spec_u64_to_le_bytes(ps.len() as u64) + enc_pairs(ps),
        CdcModel::SLICE { start, stop } => seq![7u8] + enc_opt_int(start) + enc_opt_int(stop),
        CdcModel::ITEM { id, category, stage } => seq![8u8] + str_enc(id) + i64_le(category as i64)
            + i64_le(stage as i64),
        CdcModel::INDEXABLE { id, category, stage, token, size } => seq![9u8, 8u8] + str_enc(id)
            + i64_le(category as i64) + i64_le(stage as i64) + str_enc(token) + i64_le(size),
        CdcModel::COMMAND(name) => seq![10u8] + str_enc(name),
        CdcModel::CALLABLE(h) => seq![11u8] + raw_enc(dec_digits(h)) + raw_enc(
            rust_function_bytes(),
        ),
        CdcModel::ERROR { id, text, line } => seq![12u8] + str_enc(id) + str_enc(text) + i64_le(
            line,
        ),
        CdcModel::TRAIT { id, args, kwargs } => seq![13u8] + str_enc(id) + (seq![5u8]
            + spec_u64_to_le_bytes(args.len() as u64) + enc_seq(args)) + (seq![6u8]
            + spec_u64_to_le_bytes(kwargs.len() as u64) + enc_pairs(kwargs)),
        CdcModel::OBJECT { type_id, repr, attributes } => seq![14u8] + str_enc(type_id) + str_enc(
            repr,
        ) + spec_u64_to_le_bytes(attributes.len() as u64) + enc_pairs(attributes),
        CdcModel::ARRAY { project, item, key, index, selected, transformation } => seq![15u8]
            + enc(*project) + enc(*item) + str_enc(key) + spec_u64_to_le_bytes(index.len() as u64)
            + enc_i64s(index) + seq![
            if selected {
                1u8
            } else {
                0u8
            },
        ] + (match transformation {
            Some(t) => seq![1u8] + enc(*t),
            None => seq![0u8],
        }),
        CdcModel::PACKAGE { reference, metadata } => seq![16u8] + str_enc(reference)
            + spec_u64_to_le_bytes(metadata.len() as u64) + enc_pairs(metadata),
        CdcModel::VEC2D { x, y } => seq![17u8] + spec_u64_to_le_bytes(x) + spec_u64_to_le_bytes(y),
        CdcModel::VEC3D { x, y, z } => seq![18u8] + spec_u64_to_le_bytes(x) + spec_u64_to_le_bytes(
            y,
        ) + spec_u64_to_le_bytes(z),
        CdcModel::RESOURCE_ACCESS => seq![19u8],
        CdcModel::BLOB(b) => seq![20u8] + raw_enc(b),
    }
}

/// The wire bytes of a sequence of values, in order.
pub open spec fn enc_seq(es: Seq<CdcModel>) -> Seq<u8>
    decreases es,
{
    if es.len() == 0 {
        Seq::empty()
    } else {
        enc(es.first()) + enc_seq(es.drop_first())
    }
}

/// The wire bytes of string-keyed pairs, in order.
pub open spec fn enc_pairs(ps: Seq<(Seq<char>, CdcModel)>) -> Seq<u8>
    decreases ps,
{
    if ps.len() == 0 {
        Seq::empty()
    } else {
        str_enc(ps.first().0) + enc(ps.first().1) + enc_pairs(ps.drop_first())
    }
}

/// The wire bytes of an index path, one signed word per entry.
pub open spec fn enc_i64s(is: Seq<i64>) -> Seq<u8>
    decreases is,
{
    if is.len() == 0 {
        Seq::empty()
    } else {
        i64_le(is.first()) + enc_i64s(is.drop_first())
    }
}

/// Appending an element appends its bytes.
pub proof fn lemma_enc_seq_push(es: Seq<CdcModel>, m: CdcModel)
    ensures
        enc_seq(es.push(m)) == enc_seq(es) + enc(m),
    decreases es,
{
    assert(es.push(m).len() == es.len() + 1);
    if es.len() == 0 {
        assert(es.push(m).first() == m);
        assert(es.push(m).drop_first() =~= Seq::<CdcModel>::empty());
        assert(enc_seq(Seq::<CdcModel>::empty()) == Seq::<u8>::empty());
        assert(enc_seq(es.push(m)) =~= enc_seq(es) + enc(m));
    } else {
        assert(es.push(m).drop_first() =~= es.drop_first().push(m));
        assert(es.push(m).first() == es.first());
        lemma_enc_seq_push(es.drop_first(), m);
        assert(enc(es.first()) + (enc_seq(es.drop_first()) + enc(m)) =~= (enc(es.first())
            + enc_seq(es.drop_first())) + enc(m));
    }
}

/// Appending a pair appends its bytes.
pub proof fn lemma_enc_pairs_push(ps: Seq<(Seq<char>, CdcModel)>, k: Seq<char>, v: CdcModel)
    ensures
        enc_pairs(ps.push((k, v))) == enc_pairs(ps) + (str_enc(k) + enc(v)),
    decreases ps,
{
    assert(ps.push((k, v)).len() == ps.len() + 1);
    if ps.len() == 0 {
        assert(ps.push((k, v)).first() == (k, v));
        assert(ps.push((k, v)).drop_first() =~= Seq::<(Seq<char>, CdcModel)>::empty());
        assert(enc_pairs(Seq::<(Seq<char>, CdcModel)>::empty()) == Seq::<u8>::empty());
        assert(enc_pairs(ps.push((k, v))) =~= enc_pairs(ps) + (str_enc(k) + enc(v)));
    } else {
        assert(ps.push((k, v)).drop_first() =~= ps.drop_first().push((k, v)));
        assert(ps.push((k, v)).first() == ps.first());
        lemma_enc_pairs_push(ps.drop_first(), k, v);
        let head = str_enc(ps.first().0) + enc(ps.first().1);
        assert(head + (enc_pairs(ps.drop_first()) + (str_enc(k) + enc(v))) =~= (head + enc_pairs(
            ps.drop_first(),
        )) + (str_enc(k) + enc(v)));
    }
}

/// Appending an index entry appends its bytes.
pub proof fn lemma_enc_i64s_push(is: Seq<i64>, i: i64)
    ensures
        enc_i64s(is.push(i)) == enc_i64s(is) + i64_le(i),
    decreases is,
{
    assert(is.push(i).len() == is.len() + 1);
    if is.len() == 0 {
        assert(is.push(i).first() == i);
        assert(is.push(i).drop_first() =~= Seq::<i64>::empty());
        assert(enc_i64s(Seq::<i64>::empty()) == Seq::<u8>::empty());
        assert(enc_i64s(is.push(i)) =~= enc_i64s(is) + i64_le(i));
    } else {
        assert(is.push(i).drop_first() =~= is.drop_first().push(i));
        assert(is.push(i).first() == is.first());
        lemma_enc_i64s_push(is.drop_first(), i);
        assert(i64_le(is.first()) + (enc_i64s(is.drop_first()) + i64_le(i)) =~= (i64_le(is.first())
            + enc_i64s(is.drop_first())) + i64_le(i));
    }
}

/// The clamped number of bytes that remain at `pos`; the recursion
/// measure of the specification decoder.
pub open spec fn rem(data: Seq<u8>, pos: int) -> int {
    if pos <= data.len() {
        data.len() - pos
    } else {
        0
    }
}

/// The position after a nested decode, guarded so that it lies past
/// the start.  A decode that succeeds always ends past its start, so
/// the guard never alters a real position; it only keeps the
/// decoder's recursion measure decreasing.
pub open spec fn advance(p: int, end: int) -> int {
    if end > p {
        end
    } else {
        p + 1
    }
}

/// The characters of decoded string bytes: valid UTF-8 reads as its
/// characters; anything else reads under the lossy replacement policy.
pub open spec fn lossy(b: Seq<u8>) -> Seq<char> {
    if valid_utf8(b) {
        decode_utf8(b)
    } else {
        lossy_of(b)
    }
}

pub uninterp spec fn lossy_of(b: Seq<u8>) -> Seq<char>;

/// Relies on `String::from_utf8_lossy`: valid UTF-8 decodes to exactly
/// its characters, and invalid sequences are replaced under the lossy
/// policy, here named `lossy_of`.
#[verifier::external_body]
fn utf8_to_string_lossy(bytes: &[u8]) -> (r: String)
    ensures
        r@ == lossy(bytes@),
        !valid_utf8(bytes@) ==> r@ == lossy_of(bytes@),
{
    String::from_utf8_lossy(bytes).into_owned()
}

/// Reads a length-prefixed byte string: an unsigned 64-bit byte count,
/// then that many bytes.  A count past the end of the buffer is
/// missing data.
pub open spec fn dec_str(data: Seq<u8>, pos: int) -> Result<(Seq<u8>, int), DecodeError> {
    if pos + 8 > data.len() {
        Err(DecodeError::MissingData)
    } else {
        let n = rd_u64(data, pos) as int;
        if pos + 8 + n > data.len() {
            Err(DecodeError::MissingData)
        } else {
            Ok((data.subrange(pos + 8, pos + 8 + n), pos + 8 + n))
        }
    }
}

/// The slot of a slice: a None value or an Integer value; anything
/// else violates the slice's wire contract.
pub open spec fn opt_int_of(m: CdcModel) -> Option<Option<i64>> {
    match m {
        CdcModel::NONE => Some(None),
        CdcModel::INTEGER(i) => Some(Some(i)),
        _ => None,
    }
}

/// The signed words read back to back at `pos`.
pub open spec fn rd_i64s(data: Seq<u8>, pos: int, n: int) -> Seq<i64> {
    if n <= 0 {
        Seq::empty()
    } else {
        Seq::new(n as nat, |k: int| rd_i64(data, pos + 8 * k))
    }
}

/// Reads one value at `pos`: the tag byte, then the payload the tag
/// calls for.  The result is the decoded model value and the position
/// just past it.  The registry decides whether a callable handle
/// resolves.
pub open spec fn dec(data: Seq<u8>, pos: int, reg: Seq<u64>) -> Result<
    (CdcModel, int),
    DecodeError,
>
    decreases rem(data, pos), 1int, 0int,
{
    if pos < 0 || pos >= data.len() {
        Err(DecodeError::MissingData)
    } else {
        let tag = data[pos];
        let p = pos + 1;
        if tag == 0 {
            Ok((CdcModel::NONE, p))
        } else if tag == 1 {
            if p >= data.len() {
                Err(DecodeError::MissingData)
            } else {
                Ok((CdcModel::BOOL(data[p] != 0), p + 1))
            }
        } else if tag == 2 {
            if p + 8 > data.len() {
                Err(DecodeError::MissingData)
            } else {
                Ok((CdcModel::INTEGER(rd_i64(data, p)), p + 8))
            }
        } else if tag == 3 {
            if p + 8 > data.len() {
                Err(DecodeError::MissingData)
            } else {
                Ok((CdcModel::FLOAT(rd_u64(data, p)), p + 8))
            }
        } else if tag == 4 {
            match dec_str(data, p) {
                Ok((raw, end)) => Ok((CdcModel::STRING(lossy(raw)), end)),
                Err(e) => Err(e),
            }
        } else if tag == 5 {
            if p + 8 > data.len() {
                Err(DecodeError::MissingData)
            } else {
                match dec_list(data, p + 8, rd_u64(data, p) as int, reg) {
                    Ok((ms, end)) => Ok((CdcModel::LIST(ms), end)),
                    Err(e) => Err(e),
                }
            }
        } else if tag == 6 {
            if p + 8 > data.len() {
                Err(DecodeError::MissingData)
            } else {
                match dec_pairs(data, p + 8, rd_u64(data, p) as int, reg) {
                    Ok((ps, end)) => Ok((CdcModel::MAP(ps), end)),
                    Err(e) => Err(e),
                }
            }
        } else if tag == 7 {

            match dec(data, p, reg) {
                Ok((a, e1)) => match dec(data, advance(p, e1), reg) {
                    Ok((b, e2)) => match opt_int_of(a) {
                        Some(start) => match opt_int_of(b) {
                            Some(stop) => Ok((CdcModel::SLICE { start, stop }, e2)),
                            None => Err(DecodeError::UnknownType),
                        },
                        None => Err(DecodeError::UnknownType),
                    },
                    Err(e) => Err(e),
                },
                Err(e) => Err(e),
            }
        } else if tag == 8 {
            match dec_str(data, p) {
                Ok((raw, e1)) => {
                    if e1 + 16 > data.len() {
                        Err(DecodeError::MissingData)
                    } else {
                        Ok(
                            (
                                CdcModel::ITEM {
                                    id: lossy(raw),
                                    category: rd_i64(data, e1) as i32,
                                    stage: rd_i64(data, e1 + 8) as i32,
                                },
                                e1 + 16,
                            ),
                        )
                    }
                },
                Err(e) => Err(e),
            }
        } else if tag == 9 {

            match dec(data, p, reg) {
                Ok((iv, e1)) => match dec_str(data, advance(p, e1)) {
                    Ok((traw, e2)) => {
                        if e2 + 8 > data.len() {
                            Err(DecodeError::MissingData)
                        } else {
                            match iv {
                                CdcModel::ITEM { id, category, stage } => Ok(
                                    (
                                        CdcModel::INDEXABLE {
                                            id,
                                            category,
                                            stage,
                                            token: lossy(traw),
                                            size: rd_i64(data, e2),
                                        },
                                        e2 + 8,
                                    ),
                                ),
                                _ => Err(DecodeError::UnknownType),
                            }
                        }
                    },
                    Err(e) => Err(e),
                },
                Err(e) => Err(e),
            }
        } else if tag == 10 {
            match dec_str(data, p) {
                Ok((raw, end)) => Ok((CdcModel::COMMAND(lossy(raw)), end)),
                Err(e) => Err(e),
            }
        } else if tag == 11 {

            match dec_str(data, p) {
                Ok((hraw, e1)) => match parse_u64(hraw) {
                    Some(h) => match dec_str(data, advance(p, e1)) {
                        Ok((_tag_raw, e2)) => {
                            if reg.contains(h) {
                                Ok((CdcModel::CALLABLE(h), e2))
                            } else {
                                Err(DecodeError::MissingFunction)
                            }
                        },
                        Err(e) => Err(e),
                    },
                    None => Err(DecodeError::UnknownType),
                },
                Err(e) => Err(e),
            }
        } else if tag == 12 {

            match dec_str(data, p) {
                Ok((idraw, e1)) => match dec_str(data, advance(p, e1)) {
                    Ok((traw, e2)) => {
                        if e2 + 8 > data.len() {
                            Err(DecodeError::MissingData)
                        } else {
                            Ok(
                                (
                                    CdcModel::ERROR {
                                        id: lossy(idraw),
                                        text: lossy(traw),
                                        line: rd_i64(data, e2),
                                    },
                                    e2 + 8,
                                ),
                            )
                        }
                    },
                    Err(e) => Err(e),
                },
                Err(e) => Err(e),
            }
        } else if tag == 13 {

            match dec_str(data, p) {
                Ok((idraw, e1)) => match dec(data, advance(p, e1), reg) {
                    Ok((av, e2)) => match dec(data, advance(advance(p, e1), e2), reg) {
                        Ok((kv, e3)) => match av {
                            CdcModel::LIST(args) => match kv {
                                CdcModel::MAP(kwargs) => Ok(
                                    (CdcModel::TRAIT { id: lossy(idraw), args, kwargs }, e3),
                                ),
                                _ => Err(DecodeError::UnknownType),
                            },
                            _ => Err(DecodeError::UnknownType),
                        },
                        Err(e) => Err(e),
                    },
                    Err(e) => Err(e),
                },
                Err(e) => Err(e),
            }
        } else if tag == 14 {

            match dec_str(data, p) {
                Ok((tidraw, e1)) => match dec_str(data, advance(p, e1)) {
                    Ok((rraw, e2)) => {
                        if e2 + 8 > data.len() {
                            Err(DecodeError::MissingData)
                        } else {
                            match dec_pairs(data, e2 + 8, rd_u64(data, e2) as int, reg) {
                                Ok((attrs, end)) => Ok(
                                    (
                                        CdcModel::OBJECT {
                                            type_id: lossy(tidraw),
                                            repr: lossy(rraw),
                                            attributes: attrs,
                                        },
                                        end,
                                    ),
                                ),
                                Err(e) => Err(e),
                            }
                        }
                    },
                    Err(e) => Err(e),
                },
                Err(e) => Err(e),
            }
        } else if tag == 15 {

            match dec(data, p, reg) {
                Ok((pv, e1)) => match dec(data, advance(p, e1), reg) {
                    Ok((iv, e2)) => match dec_str(data, advance(advance(p, e1), e2)) {
                        Ok((kraw, e3)) => {
                            if e3 + 8 > data.len() {
                                Err(DecodeError::MissingData)
                            } else {
                                let n = rd_u64(data, e3) as int;
                                if e3 + 8 + 8 * n > data.len() {
                                    Err(DecodeError::MissingData)
                                } else {
                                    let e4 = e3 + 8 + 8 * n;
                                    if e4 + 2 > data.len() {
                                        Err(DecodeError::MissingData)
                                    } else {
                                        let selected = data[e4] != 0;
                                        if data[e4 + 1] != 0 {
                                            match dec(data, e4 + 2, reg) {
                                                Ok((tv, e5)) => Ok(
                                                    (
                                                        CdcModel::ARRAY {
                                                            project: Box::new(pv),
                                                            item: Box::new(iv),
                                                            key: lossy(kraw),
                                                            index: rd_i64s(data, e3 + 8, n),
                                                            selected,
                                                            transformation: Some(Box::new(tv)),
                                                        },
                                                        e5,
                                                    ),
                                                ),
                                                Err(e) => Err(e),
                                            }
                                        } else {
                                            Ok(
                                                (
                                                    CdcModel::ARRAY {
                                                        project: Box::new(pv),
                                                        item: Box::new(iv),
                                                        key: lossy(kraw),
                                                        index: rd_i64s(data, e3 + 8, n),
                                                        selected,
                                                        transformation: None,
                                                    },
                                                    e4 + 2,
                                                ),
                                            )
                                        }
                                    }
                                }
                            }
                        },
                        Err(e) => Err(e),
                    },
                    Err(e) => Err(e),
                },
                Err(e) => Err(e),
            }
        } else if tag == 16 {

            match dec_str(data, p) {
                Ok((rraw, e1)) => {
                    if e1 + 8 > data.len() {
                        Err(DecodeError::MissingData)
                    } else {
                        match dec_pairs(data, e1 + 8, rd_u64(data, e1) as int, reg) {
                            Ok((md, end)) => Ok(
                                (CdcModel::PACKAGE { reference: lossy(rraw), metadata: md }, end),
                            ),
                            Err(e) => Err(e),
                        }
                    }
                },
                Err(e) => Err(e),
            }
        } else if tag == 17 {
            if p + 16 > data.len() {
                Err(DecodeError::MissingData)
            } else {
                Ok((CdcModel::VEC2D { x: rd_u64(data, p), y: rd_u64(data, p + 8) }, p + 16))
            }
        } else if tag == 18 {
            if p + 24 > data.len() {
                Err(DecodeError::MissingData)
            } else {
                Ok(
                    (
                        CdcModel::VEC3D {
                            x: rd_u64(data, p),
                            y: rd_u64(data, p + 8),
                            z: rd_u64(data, p + 16),
                        },
                        p + 24,
                    ),
                )
            }
        } else if tag == 19 {
            Ok((CdcModel::RESOURCE_ACCESS, p))
        } else if tag == 20 {
            match dec_str(data, p) {
                Ok((raw, end)) => Ok((CdcModel::BLOB(raw), end)),
                Err(e) => Err(e),
            }
        } else {
            Err(DecodeError::UnknownType)
        }
    }
}

/// Reads `n` values back to back.
pub open spec fn dec_list(data: Seq<u8>, pos: int, n: int, reg: Seq<u64>) -> Result<
    (Seq<CdcModel>, int),
    DecodeError,
>
    decreases rem(data, pos), 2int, n,
{
    if n <= 0 {
        Ok((Seq::empty(), pos))
    } else {
        match dec(data, pos, reg) {
            Ok((m, end)) => match dec_list(data, advance(pos, end), n - 1, reg) {
                Ok((ms, e2)) => Ok((seq![m] + ms, e2)),
                Err(e) => Err(e),
            },
            Err(e) => Err(e),
        }
    }
}

/// Reads `n` string-keyed pairs back to back, in wire order.  A
/// repeated key keeps both pairs: the protocol reuses one key name in
/// an error frame, so the decoder preserves the pair sequence as sent.
pub open spec fn dec_pairs(data: Seq<u8>, pos: int, n: int, reg: Seq<u64>) -> Result<
    (Seq<(Seq<char>, CdcModel)>, int),
    DecodeError,
>
    decreases rem(data, pos), 2int, n,
{
    if n <= 0 {
        Ok((Seq::empty(), pos))
    } else {
        match dec_str(data, pos) {
            Ok((kraw, e1)) => match dec(data, advance(pos, e1), reg) {
                Ok((v, e2)) => match dec_pairs(data, advance(advance(pos, e1), e2), n - 1, reg) {
                    Ok((ps, e3)) => Ok((seq![(lossy(kraw), v)] + ps, e3)),
                    Err(e) => Err(e),
                },
                Err(e) => Err(e),
            },
            Err(e) => Err(e),
        }
    }
}

/// The callable registry after a value is encoded into it: each
/// callable handle met, in encoding order, is appended if absent;
/// nothing else changes.
pub open spec fn reg_after(reg: Seq<u64>, m: CdcModel) -> Seq<u64>
    decreases m,
{
    match m {
        CdcModel::CALLABLE(h) => if reg.contains(h) {
            reg
        } else {
            reg.push(h)
        },
        CdcModel::LIST(es) => reg_after_seq(reg, es),
        CdcModel::MAP(ps) => reg_after_pairs(reg, ps),
        CdcModel::TRAIT { args, kwargs, .. } => reg_after_pairs(reg_after_seq(reg, args), kwargs),
        CdcModel::OBJECT { attributes, .. } => reg_after_pairs(reg, attributes),
        CdcModel::ARRAY { project, item, transformation, .. } => {
            let r2 = reg_after(reg_after(reg, *project), *item);
            match transformation {
                Some(t) => reg_after(r2, *t),
                None => r2,
            }
        },
        CdcModel::PACKAGE { metadata, .. } => reg_after_pairs(reg, metadata),
        _ => reg,
    }
}

/// The registry after a sequence of values is encoded, in order.
pub open spec fn reg_after_seq(reg: Seq<u64>, es: Seq<CdcModel>) -> Seq<u64>
    decreases es,
{
    if es.len() == 0 {
        reg
    } else {
        reg_after_seq(reg_after(reg, es.first()), es.drop_first())
    }
}

/// The registry after the values of string-keyed pairs are encoded,
/// in order.
pub open spec fn reg_after_pairs(reg: Seq<u64>, ps: Seq<(Seq<char>, CdcModel)>) -> Seq<u64>
    decreases ps,
{
    if ps.len() == 0 {
        reg
    } else {
        reg_after_pairs(reg_after(reg, ps.first().1), ps.drop_first())
    }
}

/// Encoding one more element carries the registry one step further.
pub proof fn lemma_reg_after_seq_push(reg: Seq<u64>, es: Seq<CdcModel>, m: CdcModel)
    ensures
        reg_after_seq(reg, es.push(m)) == reg_after(reg_after_seq(reg, es), m),
    decreases es,
{
    assert(es.push(m).len() == es.len() + 1);
    if es.len() == 0 {
        assert(es.push(m).first() == m);
        assert(es.push(m).drop_first() =~= Seq::<CdcModel>::empty());
        assert(reg_after_seq(reg_after(reg, m), Seq::<CdcModel>::empty()) == reg_after(reg, m));
    } else {
        assert(es.push(m).first() == es.first());
        assert(es.push(m).drop_first() =~= es.drop_first().push(m));
        lemma_reg_after_seq_push(reg_after(reg, es.first()), es.drop_first(), m);
    }
}

/// Encoding one more pair carries the registry one step further.
pub proof fn lemma_reg_after_pairs_push(
    reg: Seq<u64>,
    ps: Seq<(Seq<char>, CdcModel)>,
    k: Seq<char>,
    v: CdcModel,
)
    ensures
        reg_after_pairs(reg, ps.push((k, v))) == reg_after(reg_after_pairs(reg, ps), v),
    decreases ps,
{
    assert(ps.push((k, v)).len() == ps.len() + 1);
    if ps.len() == 0 {
        assert(ps.push((k, v)).first() == (k, v));
        assert(ps.push((k, v)).drop_first() =~= Seq::<(Seq<char>, CdcModel)>::empty());
        assert(reg_after_pairs(reg_after(reg, v), Seq::<(Seq<char>, CdcModel)>::empty())
            == reg_after(reg, v));
    } else {
        assert(ps.push((k, v)).first() == ps.first());
        assert(ps.push((k, v)).drop_first() =~= ps.drop_first().push((k, v)));
        lemma_reg_after_pairs_push(reg_after(reg, ps.first().1), ps.drop_first(), k, v);
    }
}

/// The stateful codec: encodes values to fresh buffers and decodes
/// them back, carrying the callable registry across calls.
pub struct CdcEncoder {
    registered_callables: Vec<u64>,
}

impl CdcEncoder {
    /// The callable handles resident in the registry, in insertion
    /// order.
    pub closed spec fn registry(self) -> Seq<u64> {
        self.registered_callables@
    }

    /// A fresh codec with an empty callable registry.
    pub fn new() -> (r: Self)
        ensures
            r.registry() == Seq::<u64>::empty(),
    {
        CdcEncoder { registered_callables: Vec::new() }
    }

    /// True when the handle is resident in the registry.
    fn contains_handle(&self, h: u64) -> (r: bool)
        ensures
            r == self.registry().contains(h),
    {
        let n = self.registered_callables.len();
        let mut j: usize = 0;
        while j < n
            invariant
                j <= n,
                n == self.registered_callables@.len(),
                forall|k: int| 0 <= k < j ==> self.registered_callables@[k] != h,
            decreases n - j,
        {
            if self.registered_callables[j] == h {
                return true;
            }
            j += 1;
        }
        false
    }

    /// Encodes the value into a fresh buffer whose bytes are exactly
    /// the wire form of the value's model.  The registry afterwards is
    /// exactly the registry before, extended by the value's callable
    /// handles in first-encounter order: every handle in the value is
    /// resident, already-resident handles stay, and nothing else is
    /// added.
    pub fn encode(&mut self, obj: CdcValue) -> (r: Vec<u8>)
        ensures
            r@ == enc(obj.model()),
            wf(obj.model()),
            registered(obj.model(), final(self).registry()),
            final(self).registry() == reg_after(old(self).registry(), obj.model()),
            forall|h: u64|
                old(self).registry().contains(h) ==> final(self).registry().contains(h),
    {
        let mut buffer: Vec<u8> = Vec::new();
        self.encode_value(&mut buffer, &obj);
        buffer
    }

    /// Appends the length-prefixed UTF-8 bytes of the string.
    fn encode_string(buffer: &mut Vec<u8>, string: &String)
        ensures
            final(buffer)@ == old(buffer)@ + str_enc(string@),
            encode_utf8(string@).len() <= u64::MAX,
    {
        let mut bytes = string.as_str().as_bytes_vec();
        let count = bytes.len() as u64;
        push_u64_le(buffer, count);
        buffer.append(&mut bytes);
    }

    /// Appends the wire form of the value: its tag, then its payload.
    /// Encoding a callable inserts its handle into the registry.
    #[verifier::loop_isolation(false)]
    #[verifier::rlimit(100)]
    #[verifier::spinoff_prover]
    fn encode_value(&mut self, buffer: &mut Vec<u8>, value: &CdcValue)
        ensures
            final(buffer)@ == old(buffer)@ + enc(value.model()),
            wf(value.model()),
            registered(value.model(), final(self).registry()),
            final(self).registry() == reg_after(old(self).registry(), value.model()),
            forall|h: u64|
                old(self).registry().contains(h) ==> final(self).registry().contains(h),
        decreases value,
    {
        broadcast use vstd::std_specs::vec::group_vec_axioms, vstd::seq::group_seq_axioms;

        match value {
            CdcValue::NONE => {
                buffer.push(0u8);
                assert(final(buffer)@ =~= old(buffer)@ + enc(value.model()));
            },
            CdcValue::BOOL(b) => {
                buffer.push(1u8);
                buffer.push(if *b {
                    1u8
                } else {
                    0u8
                });
                assert(final(buffer)@ =~= old(buffer)@ + enc(value.model()));
            },
            CdcValue::INTEGER(i) => {
                buffer.push(2u8);
                push_i64_le(buffer, *i);
                assert(final(buffer)@ =~= old(buffer)@ + enc(value.model()));
            },
            CdcValue::FLOAT(bits) => {
                buffer.push(3u8);
                push_u64_le(buffer, *bits);
                assert(final(buffer)@ =~= old(buffer)@ + enc(value.model()));
            },
            CdcValue::STRING(s) => {
                buffer.push(4u8);
                Self::encode_string(buffer, s);
                assert(final(buffer)@ =~= old(buffer)@ + enc(value.model()));
            },
            CdcValue::LIST(es) => {
                buffer.push(5u8);
                push_u64_le(buffer, es.len() as u64);
                proof {
                    lemma_model_seq(es@);
                }
                self.encode_elements(buffer, es);
                assert(final(buffer)@ =~= old(buffer)@ + enc(value.model()));
            },
            CdcValue::MAP(ps) => {
                buffer.push(6u8);
                push_u64_le(buffer, ps.len() as u64);
                proof {
                    lemma_model_pairs(ps@);
                }
                self.encode_entries(buffer, ps);
                assert(final(buffer)@ =~= old(buffer)@ + enc(value.model()));
            },
            CdcValue::SLICE(sl) => {
                buffer.push(7u8);
                match sl.start {
                    Some(i) => {
                        buffer.push(2u8);
                        push_i64_le(buffer, i);
                    },
                    None => {
                        buffer.push(0u8);
                    },
                }
                match sl.stop {
                    Some(i) => {
                        buffer.push(2u8);
                        push_i64_le(buffer, i);
                    },
                    None => {
                        buffer.push(0u8);
                    },
                }
                assert(final(buffer)@ =~= old(buffer)@ + enc(value.model()));
            },
            CdcValue::ITEM(it) => {
                buffer.push(8u8);
                Self::encode_string(buffer, &it.id);
                push_i64_le(buffer, it.category as i64);
                push_i64_le(buffer, it.stage as i64);
                assert(final(buffer)@ =~= old(buffer)@ + enc(value.model()));
            },
            CdcValue::INDEXABLE(ix) => {
                buffer.push(9u8);
                buffer.push(8u8);
                Self::encode_string(buffer, &ix.item.id);
                push_i64_le(buffer, ix.item.category as i64);
                push_i64_le(buffer, ix.item.stage as i64);
                Self::encode_string(buffer, &ix.token);
                push_i64_le(buffer, ix.size);
                assert(final(buffer)@ =~= old(buffer)@ + enc(value.model()));
            },
            CdcValue::COMMAND(c) => {
                buffer.push(10u8);
                Self::encode_string(buffer, &c.name);
                assert(final(buffer)@ =~= old(buffer)@ + enc(value.model()));
            },
            CdcValue::CALLABLE(h) => {
                buffer.push(11u8);
                let mut digits: Vec<u8> = Vec::new();
                push_decimal(&mut digits, *h);
                push_u64_le(buffer, digits.len() as u64);
                buffer.append(&mut digits);
                push_u64_le(buffer, 13u64);
                let mut rf: Vec<u8> = Vec::new();
                rf.push(114u8);
                rf.push(117u8);
                rf.push(115u8);
                rf.push(116u8);
                rf.push(32u8);
                rf.push(102u8);
                rf.push(117u8);
                rf.push(110u8);
                rf.push(99u8);
                rf.push(116u8);
                rf.push(105u8);
                rf.push(111u8);
                rf.push(110u8);
                assert(rf@ =~= rust_function_bytes());
                buffer.append(&mut rf);
                if !self.contains_handle(*h) {
                    self.registered_callables.push(*h);
                    proof {
                        assert(self.registry()[self.registry().len() - 1] == *h);
                    }
                }
                assert(self.registry().contains(*h));
                assert forall|h0: u64|
                    old(self).registry().contains(h0) implies self.registry().contains(h0) by {
                    let i = choose|i: int|
                        0 <= i < old(self).registry().len() && old(self).registry()[i] == h0;
                    assert(self.registry()[i] == h0);
                }
                assert(final(buffer)@ =~= old(buffer)@ + enc(value.model()));
            },
            CdcValue::ERROR(e) => {
                buffer.push(12u8);
                Self::encode_string(buffer, &e.id);
                Self::encode_string(buffer, &e.text);
                push_i64_le(buffer, e.line);
                assert(final(buffer)@ =~= old(buffer)@ + enc(value.model()));
            },
            CdcValue::TRAIT(t) => {
                buffer.push(13u8);
                Self::encode_string(buffer, &t.id);
                buffer.push(5u8);
                push_u64_le(buffer, t.args.len() as u64);
                proof {
                    lemma_model_seq(t.args@);
                }
                self.encode_elements(buffer, &t.args);
                let ghost reg_mid = self.registry();
                buffer.push(6u8);
                push_u64_le(buffer, t.kwargs.len() as u64);
                proof {
                    lemma_model_pairs(t.kwargs@);
                }
                self.encode_entries(buffer, &t.kwargs);
                proof {
                    lemma_registered_seq_monotone(model_seq(t.args@), reg_mid, self.registry());
                }
                assert(final(buffer)@ =~= old(buffer)@ + enc(value.model()));
            },
            CdcValue::OBJECT(o) => {
                buffer.push(14u8);
                Self::encode_string(buffer, &o.type_id);
                Self::encode_string(buffer, &o.repr);
                push_u64_le(buffer, o.attributes.len() as u64);
                proof {
                    lemma_model_pairs(o.attributes@);
                }
                self.encode_entries(buffer, &o.attributes);
                assert(final(buffer)@ =~= old(buffer)@ + enc(value.model()));
            },
            CdcValue::ARRAY(a) => {
                buffer.push(15u8);
                self.encode_value(buffer, &a.project);
                let ghost reg_a = self.registry();
                self.encode_value(buffer, &a.item);
                proof {
                    lemma_registered_monotone_box(a.project.model(), reg_a, self.registry());
                }
                Self::encode_string(buffer, &a.key);
                push_u64_le(buffer, a.index.len() as u64);
                let n = a.index.len();
                let ghost pre = buffer@;
                let mut i: usize = 0;
                while i < n
                    invariant
                        i <= n,
                        buffer@ == pre + enc_i64s(a.index@.take(i as int)),
                    decreases n - i,
                {
                    proof {
                        lemma_enc_i64s_push(a.index@.take(i as int), a.index@[i as int]);
                        assert(a.index@.take(i as int + 1) =~= a.index@.take(i as int).push(
                            a.index@[i as int],
                        ));
                    }
                    push_i64_le(buffer, a.index[i]);
                    i += 1;
                }
                proof {
                    assert(a.index@.take(n as int) =~= a.index@);
                }
                buffer.push(
                    if a.selected {
                        1u8
                    } else {
                        0u8
                    },
                );
                let ghost reg_b = self.registry();
                match &a.transformation {
                    Some(t) => {
                        buffer.push(1u8);
                        self.encode_value(buffer, &**t);
                    },
                    None => {
                        buffer.push(0u8);
                    },
                }
                proof {
                    lemma_registered_monotone_box(a.project.model(), reg_b, self.registry());
                    lemma_registered_monotone_box(a.item.model(), reg_b, self.registry());
                }
                assert(final(buffer)@ =~= old(buffer)@ + enc(value.model()));
            },
            CdcValue::PACKAGE(p) => {
                buffer.push(16u8);
                Self::encode_string(buffer, &p.reference);
                push_u64_le(buffer, p.metadata.len() as u64);
                proof {
                    lemma_model_pairs(p.metadata@);
                }
                self.encode_entries(buffer, &p.metadata);
                assert(final(buffer)@ =~= old(buffer)@ + enc(value.model()));
            },
            CdcValue::VEC2D(v) => {
                buffer.push(17u8);
                push_u64_le(buffer, v.x);
                push_u64_le(buffer, v.y);
                assert(final(buffer)@ =~= old(buffer)@ + enc(value.model()));
            },
            CdcValue::VEC3D(v) => {
                buffer.push(18u8);
                push_u64_le(buffer, v.x);
                push_u64_le(buffer, v.y);
                push_u64_le(buffer, v.z);
                assert(final(buffer)@ =~= old(buffer)@ + enc(value.model()));
            },
            CdcValue::RESOURCE_ACCESS => {
                buffer.push(19u8);
                assert(final(buffer)@ =~= old(buffer)@ + enc(value.model()));
            },
            CdcValue::BLOB(b) => {
                buffer.push(20u8);
                push_u64_le(buffer, b.len() as u64);
                let ghost pre = buffer@;
                let n = b.len();
                let mut i: usize = 0;
                while i < n
                    invariant
                        i <= n,
                        buffer@ == pre + b@.take(i as int),
                    decreases n - i,
                {
                    proof {
                        assert(b@.take(i as int + 1) =~= b@.take(i as int).push(b@[i as int]));
                        assert(pre + b@.take(i as int).push(b@[i as int]) =~= (pre + b@.take(
                            i as int,
                        )).push(b@[i as int]));
                    }
                    buffer.push(b[i]);
                    i += 1;
                }
                proof {
                    assert(b@.take(n as int) =~= b@);
                }
                assert(final(buffer)@ =~= old(buffer)@ + enc(value.model()));
            },
        }
    }

    /// Appends the wire form of each element, in order.
    #[verifier::loop_isolation(false)]
    fn encode_elements(&mut self, buffer: &mut Vec<u8>, es: &Vec<CdcValue>)
        ensures
            final(buffer)@ == old(buffer)@ + enc_seq(model_seq(es@)),
            wf_seq(model_seq(es@)),
            registered_seq(model_seq(es@), final(self).registry()),
            final(self).registry() == reg_after_seq(old(self).registry(), model_seq(es@)),
            forall|h: u64|
                old(self).registry().contains(h) ==> final(self).registry().contains(h),
        decreases es,
    {
        broadcast use vstd::std_specs::vec::group_vec_axioms, vstd::seq::group_seq_axioms;

        let ghost pre = buffer@;
        let n = es.len();
        let mut i: usize = 0;
        while i < n
            invariant
                i <= n,
                buffer@ == pre + enc_seq(model_seq(es@.take(i as int))),
                wf_seq(model_seq(es@.take(i as int))),
                registered_seq(model_seq(es@.take(i as int)), self.registry()),
                self.registry() == reg_after_seq(
                    old(self).registry(),
                    model_seq(es@.take(i as int)),
                ),
                forall|h: u64| old(self).registry().contains(h) ==> self.registry().contains(h),
            decreases n - i,
        {
            let ghost reg0 = self.registry();
            let ghost msi = model_seq(es@.take(i as int));
            self.encode_value(buffer, &es[i]);
            proof {
                lemma_model_seq(es@.take(i as int));
                lemma_model_seq(es@.take(i as int + 1));
                assert(es@.take(i as int + 1) =~= es@.take(i as int).push(es@[i as int]));
                assert(model_seq(es@.take(i as int + 1)) =~= msi.push(es@[i as int].model()));
                lemma_enc_seq_push(msi, es@[i as int].model());
                lemma_seq_push(msi, es@[i as int].model(), self.registry());
                lemma_registered_seq_monotone(msi, reg0, self.registry());
                lemma_reg_after_seq_push(old(self).registry(), msi, es@[i as int].model());
                assert(pre + enc_seq(msi.push(es@[i as int].model())) =~= (pre + enc_seq(msi))
                    + enc(es@[i as int].model()));
            }
            i += 1;
        }
        proof {
            assert(es@.take(n as int) =~= es@);
        }
    }

    /// Appends the wire form of each pair, key then value, in order.
    #[verifier::loop_isolation(false)]
    fn encode_entries(&mut self, buffer: &mut Vec<u8>, ps: &Vec<(String, CdcValue)>)
        ensures
            final(buffer)@ == old(buffer)@ + enc_pairs(model_pairs(ps@)),
            wf_pairs(model_pairs(ps@)),
            registered_pairs(model_pairs(ps@), final(self).registry()),
            final(self).registry() == reg_after_pairs(old(self).registry(), model_pairs(ps@)),
            forall|h: u64|
                old(self).registry().contains(h) ==> final(self).registry().contains(h),
        decreases ps,
    {
        broadcast use vstd::std_specs::vec::group_vec_axioms, vstd::seq::group_seq_axioms;

        let ghost pre = buffer@;
        let n = ps.len();
        let mut i: usize = 0;
        while i < n
            invariant
                i <= n,
                buffer@ == pre + enc_pairs(model_pairs(ps@.take(i as int))),
                wf_pairs(model_pairs(ps@.take(i as int))),
                registered_pairs(model_pairs(ps@.take(i as int)), self.registry()),
                self.registry() == reg_after_pairs(
                    old(self).registry(),
                    model_pairs(ps@.take(i as int)),
                ),
                forall|h: u64| old(self).registry().contains(h) ==> self.registry().contains(h),
            decreases n - i,
        {
            let ghost reg0 = self.registry();
            let ghost psi = model_pairs(ps@.take(i as int));
            let ghost mid = buffer@;
            Self::encode_string(buffer, &ps[i].0);
            self.encode_value(buffer, &ps[i].1);
            proof {
                lemma_model_pairs(ps@.take(i as int));
                lemma_model_pairs(ps@.take(i as int + 1));
                assert(ps@.take(i as int + 1) =~= ps@.take(i as int).push(ps@[i as int]));
                assert(model_pairs(ps@.take(i as int + 1)) =~= psi.push(
                    (ps@[i as int].0@, ps@[i as int].1.model()),
                ));
                lemma_enc_pairs_push(psi, ps@[i as int].0@, ps@[i as int].1.model());
                lemma_pairs_push(
                    psi,
                    ps@[i as int].0@,
                    ps@[i as int].1.model(),
                    self.registry(),
                );
                lemma_registered_pairs_monotone(psi, reg0, self.registry());
                lemma_reg_after_pairs_push(
                    old(self).registry(),
                    psi,
                    ps@[i as int].0@,
                    ps@[i as int].1.model(),
                );
                assert(buffer@ =~= (pre + enc_pairs(psi)) + (str_enc(ps@[i as int].0@) + enc(
                    ps@[i as int].1.model(),
                )));
                assert(pre + enc_pairs(psi.push((ps@[i as int].0@, ps@[i as int].1.model())))
                    =~= (pre + enc_pairs(psi)) + (str_enc(ps@[i as int].0@) + enc(
                    ps@[i as int].1.model(),
                )));
            }
            i += 1;
        }
        proof {
            assert(ps@.take(n as int) =~= ps@);
        }
    }
}

/// Reads a length-prefixed byte string at `pos`.
fn decode_raw(data: &[u8], pos: usize) -> (r: Result<(Vec<u8>, usize), DecodeError>)
    requires
        pos <= data@.len(),
    ensures
        (match (r, dec_str(data@, pos as int)) {
            (Ok((b, end)), Ok((raw, e))) => b@ == raw && end as int == e && pos < end
                <= data@.len(),
            (Err(e1), Err(e2)) => e1 == e2,
            _ => false,
        }),
{
    let len = data.len();
    if len - pos < 8 {
        return Err(DecodeError::MissingData);
    }
    let n = crate::wire::read_u64_le(data, pos);
    let start = pos + 8;
    if n > (len - start) as u64 {
        return Err(DecodeError::MissingData);
    }
    let end = start + (n as usize);
    let b = vstd::slice::slice_subrange(data, start, end);
    let v = vstd::slice::slice_to_vec(b);
    Ok((v, end))
}

/// Reads a length-prefixed string at `pos`, decoding its bytes under
/// the lossy policy.
fn decode_string(data: &[u8], pos: usize) -> (r: Result<(String, usize), DecodeError>)
    requires
        pos <= data@.len(),
    ensures
        (match (r, dec_str(data@, pos as int)) {
            (Ok((st, end)), Ok((raw, e))) => st@ == lossy(raw) && end as int == e && pos < end
                <= data@.len(),
            (Err(e1), Err(e2)) => e1 == e2,
            _ => false,
        }),
{
    match decode_raw(data, pos) {
        Ok((b, end)) => {
            let st = utf8_to_string_lossy(b.as_slice());
            Ok((st, end))
        },
        Err(e) => Err(e),
    }
}

impl CdcEncoder {
    /// Reads one value at `pos` in the buffer, giving the value and
    /// the position just past it: the executable form of [`dec`],
    /// which states the result, and the classified error, for every
    /// buffer.  Decoded callables resolve against this codec's
    /// registry.
    #[verifier::loop_isolation(false)]
    #[verifier::rlimit(100)]
    #[verifier::spinoff_prover]
    pub fn decode_value(&self, data: &[u8], pos: usize) -> (r: Result<
        (CdcValue, usize),
        DecodeError,
    >)
        ensures
            (match r {
                Ok((v, end)) => pos < end <= data@.len() && dec(
                    data@,
                    pos as int,
                    self.registry(),
                ) == Ok::<(CdcModel, int), DecodeError>((v.model(), end as int)),
                Err(e) => dec(data@, pos as int, self.registry()) == Err::<
                    (CdcModel, int),
                    DecodeError,
                >(e),
            }),
        decreases rem(data@, pos as int), 1int, 1int,
    {
        broadcast use vstd::std_specs::vec::group_vec_axioms, vstd::seq::group_seq_axioms;

        let len = data.len();
        if pos >= len {
            return Err(DecodeError::MissingData);
        }
        let tag = data[pos];
        let p = pos + 1;
        if tag == 0 {
            Ok((CdcValue::NONE, p))
        } else if tag == 1 {
            if p >= len {
                return Err(DecodeError::MissingData);
            }
            let b = data[p];
            Ok((CdcValue::BOOL(b != 0), p + 1))
        } else if tag == 2 {
            if len - p < 8 {
                return Err(DecodeError::MissingData);
            }
            let i = crate::wire::read_i64_le(data, p);
            Ok((CdcValue::INTEGER(i), p + 8))
        } else if tag == 3 {
            if len - p < 8 {
                return Err(DecodeError::MissingData);
            }
            let bits = crate::wire::read_u64_le(data, p);
            Ok((CdcValue::FLOAT(bits), p + 8))
        } else if tag == 4 {
            match decode_string(data, p) {
                Ok((st, end)) => Ok((CdcValue::STRING(st), end)),
                Err(e) => Err(e),
            }
        } else if tag == 5 {
            if len - p < 8 {
                return Err(DecodeError::MissingData);
            }
            let n = crate::wire::read_u64_le(data, p);
            match self.decode_elements(data, p + 8, n) {
                Ok((vs, end)) => Ok((CdcValue::LIST(vs), end)),
                Err(e) => Err(e),
            }
        } else if tag == 6 {
            if len - p < 8 {
                return Err(DecodeError::MissingData);
            }
            let n = crate::wire::read_u64_le(data, p);
            match self.decode_entries(data, p + 8, n) {
                Ok((ps, end)) => Ok((CdcValue::MAP(ps), end)),
                Err(e) => Err(e),
            }
        } else if tag == 7 {
            self.decode_slice(data, pos)
        } else if tag == 8 {
            let (id, e1) = match decode_string(data, p) {
                Ok(x) => x,
                Err(e) => {
                    return Err(e);
                },
            };
            if len - e1 < 16 {
                return Err(DecodeError::MissingData);
            }
            let category = crate::wire::read_i64_le(data, e1) as i32;
            let stage = crate::wire::read_i64_le(data, e1 + 8) as i32;
            Ok((CdcValue::ITEM(crate::value::Item { id, category, stage }), e1 + 16))
        } else if tag == 9 {
            self.decode_indexable(data, pos)
        } else if tag == 10 {
            match decode_string(data, p) {
                Ok((name, end)) => Ok(
                    (CdcValue::COMMAND(crate::value::Command { name }), end),
                ),
                Err(e) => Err(e),
            }
        } else if tag == 11 {
            self.decode_callable(data, pos)
        } else if tag == 12 {
            self.decode_cdc_error(data, pos)
        } else if tag == 13 {
            self.decode_trait(data, pos)
        } else if tag == 14 {
            self.decode_object(data, pos)
        } else if tag == 15 {
            self.decode_array(data, pos)
        } else if tag == 16 {
            self.decode_package(data, pos)
        } else if tag == 17 {
            if len - p < 16 {
                return Err(DecodeError::MissingData);
            }
            let x = crate::wire::read_u64_le(data, p);
            let y = crate::wire::read_u64_le(data, p + 8);
            Ok((CdcValue::VEC2D(crate::value::Vec2d { x, y }), p + 16))
        } else if tag == 18 {
            if len - p < 24 {
                return Err(DecodeError::MissingData);
            }
            let x = crate::wire::read_u64_le(data, p);
            let y = crate::wire::read_u64_le(data, p + 8);
            let z = crate::wire::read_u64_le(data, p + 16);
            Ok((CdcValue::VEC3D(crate::value::Vec3d { x, y, z }), p + 24))
        } else if tag == 19 {
            Ok((CdcValue::RESOURCE_ACCESS, p))
        } else if tag == 20 {
            match decode_raw(data, p) {
                Ok((b, end)) => Ok((CdcValue::BLOB(b), end)),
                Err(e) => Err(e),
            }
        } else {
            Err(DecodeError::UnknownType)
        }
    }

    /// Reads the payload of a value whose tag byte at `pos` is 7.
    #[verifier::loop_isolation(false)]
    #[verifier::rlimit(100)]
    #[verifier::spinoff_prover]
    fn decode_slice(&self, data: &[u8], pos: usize) -> (r: Result<(CdcValue, usize), DecodeError>)
        requires
            pos < data@.len(),
            data@[pos as int] == 7,
        ensures
            (match r {
                Ok((v, end)) => pos < end <= data@.len() && dec(
                    data@,
                    pos as int,
                    self.registry(),
                ) == Ok::<(CdcModel, int), DecodeError>((v.model(), end as int)),
                Err(e) => dec(data@, pos as int, self.registry()) == Err::<
                    (CdcModel, int),
                    DecodeError,
                >(e),
            }),
        decreases rem(data@, pos as int), 1int, 0int,
    {
        broadcast use vstd::std_specs::vec::group_vec_axioms, vstd::seq::group_seq_axioms;

        let len = data.len();
        let p = pos + 1;

            let (av, e1) = match self.decode_value(data, p) {
                Ok(x) => x,
                Err(e) => {
                    return Err(e);
                },
            };
            proof {
                assert(advance(p as int, e1 as int) == e1 as int);
            }
            let (bv, e2) = match self.decode_value(data, e1) {
                Ok(x) => x,
                Err(e) => {
                    return Err(e);
                },
            };
            let start = match &av {
                CdcValue::NONE => None,
                CdcValue::INTEGER(i) => Some(*i),
                _ => {
                    return Err(DecodeError::UnknownType);
                },
            };
            let stop = match &bv {
                CdcValue::NONE => None,
                CdcValue::INTEGER(i) => Some(*i),
                _ => {
                    return Err(DecodeError::UnknownType);
                },
            };
            Ok((CdcValue::SLICE(crate::value::Slice { start, stop }), e2))
    }

    /// Reads the payload of a value whose tag byte at `pos` is 9.
    #[verifier::loop_isolation(false)]
    #[verifier::rlimit(100)]
    #[verifier::spinoff_prover]
    fn decode_indexable(&self, data: &[u8], pos: usize) -> (r: Result<(CdcValue, usize), DecodeError>)
        requires
            pos < data@.len(),
            data@[pos as int] == 9,
        ensures
            (match r {
                Ok((v, end)) => pos < end <= data@.len() && dec(
                    data@,
                    pos as int,
                    self.registry(),
                ) == Ok::<(CdcModel, int), DecodeError>((v.model(), end as int)),
                Err(e) => dec(data@, pos as int, self.registry()) == Err::<
                    (CdcModel, int),
                    DecodeError,
                >(e),
            }),
        decreases rem(data@, pos as int), 1int, 0int,
    {
        broadcast use vstd::std_specs::vec::group_vec_axioms, vstd::seq::group_seq_axioms;

        let len = data.len();
        let p = pos + 1;

            let (iv, e1) = match self.decode_value(data, p) {
                Ok(x) => x,
                Err(e) => {
                    return Err(e);
                },
            };
            proof {
                assert(advance(p as int, e1 as int) == e1 as int);
            }
            let (token, e2) = match decode_string(data, e1) {
                Ok(x) => x,
                Err(e) => {
                    return Err(e);
                },
            };
            if len - e2 < 8 {
                return Err(DecodeError::MissingData);
            }
            let size = crate::wire::read_i64_le(data, e2);
            match iv {
                CdcValue::ITEM(item) => Ok(
                    (
                        CdcValue::INDEXABLE(crate::value::Indexable { item, token, size }),
                        e2 + 8,
                    ),
                ),
                _ => Err(DecodeError::UnknownType),
            }
    }

    /// Reads the payload of a value whose tag byte at `pos` is 11.
    #[verifier::loop_isolation(false)]
    #[verifier::rlimit(100)]
    #[verifier::spinoff_prover]
    fn decode_callable(&self, data: &[u8], pos: usize) -> (r: Result<(CdcValue, usize), DecodeError>)
        requires
            pos < data@.len(),
            data@[pos as int] == 11,
        ensures
            (match r {
                Ok((v, end)) => pos < end <= data@.len() && dec(
                    data@,
                    pos as int,
                    self.registry(),
                ) == Ok::<(CdcModel, int), DecodeError>((v.model(), end as int)),
                Err(e) => dec(data@, pos as int, self.registry()) == Err::<
                    (CdcModel, int),
                    DecodeError,
                >(e),
            }),
        decreases rem(data@, pos as int), 1int, 0int,
    {
        broadcast use vstd::std_specs::vec::group_vec_axioms, vstd::seq::group_seq_axioms;

        let len = data.len();
        let p = pos + 1;

            let (hraw, e1) = match decode_raw(data, p) {
                Ok(x) => x,
                Err(e) => {
                    return Err(e);
                },
            };
            let h = match crate::wire::parse_decimal(hraw.as_slice()) {
                Some(h) => h,
                None => {
                    return Err(DecodeError::UnknownType);
                },
            };
            proof {
                assert(advance(p as int, e1 as int) == e1 as int);
            }
            let (_lang, e2) = match decode_raw(data, e1) {
                Ok(x) => x,
                Err(e) => {
                    return Err(e);
                },
            };
            if self.contains_handle(h) {
                Ok((CdcValue::CALLABLE(h), e2))
            } else {
                Err(DecodeError::MissingFunction)
            }
    }

    /// Reads the payload of a value whose tag byte at `pos` is 12.
    #[verifier::loop_isolation(false)]
    #[verifier::rlimit(100)]
    #[verifier::spinoff_prover]
    fn decode_cdc_error(&self, data: &[u8], pos: usize) -> (r: Result<(CdcValue, usize), DecodeError>)
        requires
            pos < data@.len(),
            data@[pos as int] == 12,
        ensures
            (match r {
                Ok((v, end)) => pos < end <= data@.len() && dec(
                    data@,
                    pos as int,
                    self.registry(),
                ) == Ok::<(CdcModel, int), DecodeError>((v.model(), end as int)),
                Err(e) => dec(data@, pos as int, self.registry()) == Err::<
                    (CdcModel, int),
                    DecodeError,
                >(e),
            }),
        decreases rem(data@, pos as int), 1int, 0int,
    {
        broadcast use vstd::std_specs::vec::group_vec_axioms, vstd::seq::group_seq_axioms;

        let len = data.len();
        let p = pos + 1;

            let (id, e1) = match decode_string(data, p) {
                Ok(x) => x,
                Err(e) => {
                    return Err(e);
                },
            };
            let (text, e2) = match decode_string(data, e1) {
                Ok(x) => x,
                Err(e) => {
                    return Err(e);
                },
            };
            if len - e2 < 8 {
                return Err(DecodeError::MissingData);
            }
            let line = crate::wire::read_i64_le(data, e2);
            Ok((CdcValue::ERROR(crate::value::CdcError { id, text, line }), e2 + 8))
    }

    /// Reads the payload of a value whose tag byte at `pos` is 13.
    #[verifier::loop_isolation(false)]
    #[verifier::rlimit(100)]
    #[verifier::spinoff_prover]
    fn decode_trait(&self, data: &[u8], pos: usize) -> (r: Result<(CdcValue, usize), DecodeError>)
        requires
            pos < data@.len(),
            data@[pos as int] == 13,
        ensures
            (match r {
                Ok((v, end)) => pos < end <= data@.len() && dec(
                    data@,
                    pos as int,
                    self.registry(),
                ) == Ok::<(CdcModel, int), DecodeError>((v.model(), end as int)),
                Err(e) => dec(data@, pos as int, self.registry()) == Err::<
                    (CdcModel, int),
                    DecodeError,
                >(e),
            }),
        decreases rem(data@, pos as int), 1int, 0int,
    {
        broadcast use vstd::std_specs::vec::group_vec_axioms, vstd::seq::group_seq_axioms;

        let len = data.len();
        let p = pos + 1;

            let (id, e1) = match decode_string(data, p) {
                Ok(x) => x,
                Err(e) => {
                    return Err(e);
                },
            };
            let (av, e2) = match self.decode_value(data, e1) {
                Ok(x) => x,
                Err(e) => {
                    return Err(e);
                },
            };
            proof {
                assert(advance(e1 as int, e2 as int) == e2 as int);
            }
            let (kv, e3) = match self.decode_value(data, e2) {
                Ok(x) => x,
                Err(e) => {
                    return Err(e);
                },
            };
            let args = match av {
                CdcValue::LIST(args) => args,
                _ => {
                    return Err(DecodeError::UnknownType);
                },
            };
            let kwargs = match kv {
                CdcValue::MAP(kwargs) => kwargs,
                _ => {
                    return Err(DecodeError::UnknownType);
                },
            };
            Ok((CdcValue::TRAIT(crate::value::Trait { id, args, kwargs }), e3))
    }

    /// Reads the payload of a value whose tag byte at `pos` is 14.
    #[verifier::loop_isolation(false)]
    #[verifier::rlimit(100)]
    #[verifier::spinoff_prover]
    fn decode_object(&self, data: &[u8], pos: usize) -> (r: Result<(CdcValue, usize), DecodeError>)
        requires
            pos < data@.len(),
            data@[pos as int] == 14,
        ensures
            (match r {
                Ok((v, end)) => pos < end <= data@.len() && dec(
                    data@,
                    pos as int,
                    self.registry(),
                ) == Ok::<(CdcModel, int), DecodeError>((v.model(), end as int)),
                Err(e) => dec(data@, pos as int, self.registry()) == Err::<
                    (CdcModel, int),
                    DecodeError,
                >(e),
            }),
        decreases rem(data@, pos as int), 1int, 0int,
    {
        broadcast use vstd::std_specs::vec::group_vec_axioms, vstd::seq::group_seq_axioms;

        let len = data.len();
        let p = pos + 1;

            let (type_id, e1) = match decode_string(data, p) {
                Ok(x) => x,
                Err(e) => {
                    return Err(e);
                },
            };
            let (repr, e2) = match decode_string(data, e1) {
                Ok(x) => x,
                Err(e) => {
                    return Err(e);
                },
            };
            if len - e2 < 8 {
                return Err(DecodeError::MissingData);
            }
            let n = crate::wire::read_u64_le(data, e2);
            match self.decode_entries(data, e2 + 8, n) {
                Ok((attributes, end)) => Ok(
                    (
                        CdcValue::OBJECT(crate::value::Object { type_id, repr, attributes }),
                        end,
                    ),
                ),
                Err(e) => Err(e),
            }
    }

    /// Reads the payload of a value whose tag byte at `pos` is 15.
    #[verifier::loop_isolation(false)]
    #[verifier::rlimit(100)]
    #[verifier::spinoff_prover]
    fn decode_array(&self, data: &[u8], pos: usize) -> (r: Result<(CdcValue, usize), DecodeError>)
        requires
            pos < data@.len(),
            data@[pos as int] == 15,
        ensures
            (match r {
                Ok((v, end)) => pos < end <= data@.len() && dec(
                    data@,
                    pos as int,
                    self.registry(),
                ) == Ok::<(CdcModel, int), DecodeError>((v.model(), end as int)),
                Err(e) => dec(data@, pos as int, self.registry()) == Err::<
                    (CdcModel, int),
                    DecodeError,
                >(e),
            }),
        decreases rem(data@, pos as int), 1int, 0int,
    {
        broadcast use vstd::std_specs::vec::group_vec_axioms, vstd::seq::group_seq_axioms;

        let len = data.len();
        let p = pos + 1;

            let (pv, e1) = match self.decode_value(data, p) {
                Ok(x) => x,
                Err(e) => {
                    return Err(e);
                },
            };
            proof {
                assert(advance(p as int, e1 as int) == e1 as int);
            }
            let (iv, e2) = match self.decode_value(data, e1) {
                Ok(x) => x,
                Err(e) => {
                    return Err(e);
                },
            };
            proof {
                assert(advance(e1 as int, e2 as int) == e2 as int);
            }
            let (key, e3) = match decode_string(data, e2) {
                Ok(x) => x,
                Err(e) => {
                    return Err(e);
                },
            };
            if len - e3 < 8 {
                return Err(DecodeError::MissingData);
            }
            let n = crate::wire::read_u64_le(data, e3);
            let idx_start = e3 + 8;
            if n > ((len - idx_start) / 8) as u64 {
                proof {
                    assert((n as int) * 8 + idx_start > len) by (nonlinear_arith)
                        requires
                            n as int > (len - idx_start) / 8,
                            0 <= idx_start <= len,
                    ;
                }
                return Err(DecodeError::MissingData);
            }
            proof {
                assert((n as int) * 8 + idx_start <= len) by (nonlinear_arith)
                    requires
                        n as int <= (len - idx_start) / 8,
                        0 <= idx_start <= len,
                ;
            }
            let mut index: Vec<i64> = Vec::new();
            let mut i: u64 = 0;
            while i < n
                invariant
                    i <= n,
                    index@ == rd_i64s(data@, idx_start as int, i as int),
                decreases n - i,
            {
                let x = crate::wire::read_i64_le(data, idx_start + (i as usize) * 8);
                proof {
                    assert(rd_i64s(data@, idx_start as int, i as int + 1) =~= rd_i64s(
                        data@,
                        idx_start as int,
                        i as int,
                    ).push(rd_i64(data@, idx_start as int + 8 * (i as int))));
                }
                index.push(x);
                i += 1;
            }
            let e4 = idx_start + (n as usize) * 8;
            if len - e4 < 2 {
                return Err(DecodeError::MissingData);
            }
            let selected = data[e4] != 0;
            let has_trans = data[e4 + 1] != 0;
            if has_trans {
                let (tv, e5) = match self.decode_value(data, e4 + 2) {
                    Ok(x) => x,
                    Err(e) => {
                        return Err(e);
                    },
                };
                Ok(
                    (
                        CdcValue::ARRAY(crate::value::Array {
                            project: Box::new(pv),
                            item: Box::new(iv),
                            key,
                            index,
                            selected,
                            transformation: Some(Box::new(tv)),
                        }),
                        e5,
                    ),
                )
            } else {
                Ok(
                    (
                        CdcValue::ARRAY(crate::value::Array {
                            project: Box::new(pv),
                            item: Box::new(iv),
                            key,
                            index,
                            selected,
                            transformation: None,
                        }),
                        e4 + 2,
                    ),
                )
            }
    }

    /// Reads the payload of a value whose tag byte at `pos` is 16.
    #[verifier::loop_isolation(false)]
    #[verifier::rlimit(100)]
    #[verifier::spinoff_prover]
    fn decode_package(&self, data: &[u8], pos: usize) -> (r: Result<(CdcValue, usize), DecodeError>)
        requires
            pos < data@.len(),
            data@[pos as int] == 16,
        ensures
            (match r {
                Ok((v, end)) => pos < end <= data@.len() && dec(
                    data@,
                    pos as int,
                    self.registry(),
                ) == Ok::<(CdcModel, int), DecodeError>((v.model(), end as int)),
                Err(e) => dec(data@, pos as int, self.registry()) == Err::<
                    (CdcModel, int),
                    DecodeError,
                >(e),
            }),
        decreases rem(data@, pos as int), 1int, 0int,
    {
        broadcast use vstd::std_specs::vec::group_vec_axioms, vstd::seq::group_seq_axioms;

        let len = data.len();
        let p = pos + 1;

            let (reference, e1) = match decode_string(data, p) {
                Ok(x) => x,
                Err(e) => {
                    return Err(e);
                },
            };
            if len - e1 < 8 {
                return Err(DecodeError::MissingData);
            }
            let n = crate::wire::read_u64_le(data, e1);
            match self.decode_entries(data, e1 + 8, n) {
                Ok((metadata, end)) => Ok(
                    (CdcValue::PACKAGE(crate::value::Package { reference, metadata }), end),
                ),
                Err(e) => Err(e),
            }
    }

    /// Reads `n` values back to back, as a list's elements.
    #[verifier::loop_isolation(false)]
    #[verifier::rlimit(60)]
    fn decode_elements(&self, data: &[u8], pos: usize, n: u64) -> (r: Result<
        (Vec<CdcValue>, usize),
        DecodeError,
    >)
        requires
            pos <= data@.len(),
        ensures
            (match r {
                Ok((vs, end)) => pos <= end <= data@.len() && dec_list(
                    data@,
                    pos as int,
                    n as int,
                    self.registry(),
                ) == Ok::<(Seq<CdcModel>, int), DecodeError>((model_seq(vs@), end as int)),
                Err(e) => dec_list(data@, pos as int, n as int, self.registry()) == Err::<
                    (Seq<CdcModel>, int),
                    DecodeError,
                >(e),
            }),
        decreases rem(data@, pos as int), 2int, n as int,
    {
        broadcast use vstd::std_specs::vec::group_vec_axioms, vstd::seq::group_seq_axioms;

        let ghost reg = self.registry();
        let mut out: Vec<CdcValue> = Vec::new();
        let mut cur: usize = pos;
        let mut i: u64 = 0;
        proof {
            assert(model_seq(out@) =~= Seq::<CdcModel>::empty());
        }
        while i < n
            invariant
                i <= n,
                pos <= cur <= data@.len(),
                (match dec_list(data@, cur as int, (n - i) as int, reg) {
                    Ok((ms, e)) => dec_list(data@, pos as int, n as int, reg) == Ok::<
                        (Seq<CdcModel>, int),
                        DecodeError,
                    >((model_seq(out@) + ms, e)),
                    Err(e) => dec_list(data@, pos as int, n as int, reg) == Err::<
                        (Seq<CdcModel>, int),
                        DecodeError,
                    >(e),
                }),
            decreases n - i,
        {
            let ghost out0 = out@;
            match self.decode_value(data, cur) {
                Ok((v, end)) => {
                    proof {
                        assert(advance(cur as int, end as int) == end as int);
                    }
                    let ghost prev = cur;
                    out.push(v);
                    cur = end;
                    i = i + 1;
                    proof {
                        lemma_model_seq(out0);
                        lemma_model_seq(out@);
                        assert(out@ =~= out0.push(v));
                        assert(model_seq(out@) =~= model_seq(out0).push(v.model()));
                        match dec_list(data@, cur as int, (n - i) as int, reg) {
                            Ok((ms2, e2)) => {
                                assert(model_seq(out0) + (seq![v.model()] + ms2) =~= model_seq(
                                    out@,
                                ) + ms2);
                            },
                            Err(e2) => {},
                        }
                    }
                },
                Err(e) => {
                    return Err(e);
                },
            }
        }
        Ok((out, cur))
    }

    /// Reads `n` string-keyed pairs back to back, as a map's entries,
    /// in wire order.
    #[verifier::loop_isolation(false)]
    #[verifier::rlimit(60)]
    fn decode_entries(&self, data: &[u8], pos: usize, n: u64) -> (r: Result<
        (Vec<(String, CdcValue)>, usize),
        DecodeError,
    >)
        requires
            pos <= data@.len(),
        ensures
            (match r {
                Ok((ps, end)) => pos <= end <= data@.len() && dec_pairs(
                    data@,
                    pos as int,
                    n as int,
                    self.registry(),
                ) == Ok::<(Seq<(Seq<char>, CdcModel)>, int), DecodeError>(
                    (model_pairs(ps@), end as int),
                ),
                Err(e) => dec_pairs(data@, pos as int, n as int, self.registry()) == Err::<
                    (Seq<(Seq<char>, CdcModel)>, int),
                    DecodeError,
                >(e),
            }),
        decreases rem(data@, pos as int), 2int, n as int,
    {
        broadcast use vstd::std_specs::vec::group_vec_axioms, vstd::seq::group_seq_axioms;

        let ghost reg = self.registry();
        let mut out: Vec<(String, CdcValue)> = Vec::new();
        let mut cur: usize = pos;
        let mut i: u64 = 0;
        proof {
            assert(model_pairs(out@) =~= Seq::<(Seq<char>, CdcModel)>::empty());
        }
        while i < n
            invariant
                i <= n,
                pos <= cur <= data@.len(),
                (match dec_pairs(data@, cur as int, (n - i) as int, reg) {
                    Ok((ps, e)) => dec_pairs(data@, pos as int, n as int, reg) == Ok::<
                        (Seq<(Seq<char>, CdcModel)>, int),
                        DecodeError,
                    >((model_pairs(out@) + ps, e)),
                    Err(e) => dec_pairs(data@, pos as int, n as int, reg) == Err::<
                        (Seq<(Seq<char>, CdcModel)>, int),
                        DecodeError,
                    >(e),
                }),
            decreases n - i,
        {
            let ghost out0 = out@;
            let (key, e1) = match decode_string(data, cur) {
                Ok(x) => x,
                Err(e) => {
                    return Err(e);
                },
            };
            proof {
                assert(advance(cur as int, e1 as int) == e1 as int);
            }
            let (val, e2) = match self.decode_value(data, e1) {
                Ok(x) => x,
                Err(e) => {
                    return Err(e);
                },
            };
            proof {
                assert(advance(e1 as int, e2 as int) == e2 as int);
            }
            let ghost kchars = key@;
            out.push((key, val));
            cur = e2;
            i = i + 1;
            proof {
                lemma_model_pairs(out0);
                lemma_model_pairs(out@);
                assert(out@ =~= out0.push((out@[out@.len() - 1].0, val)));
                assert(model_pairs(out@) =~= model_pairs(out0).push((kchars, val.model())));
                match dec_pairs(data@, cur as int, (n - i) as int, reg) {
                    Ok((ps2, e3)) => {
                        assert(model_pairs(out0) + (seq![(kchars, val.model())] + ps2)
                            =~= model_pairs(out@) + ps2);
                    },
                    Err(e3) => {},
                }
            }
        }
        Ok((out, cur))
    }
}

/// Registration of a boxed value survives growth of the registry.
proof fn lemma_registered_monotone_box(m: CdcModel, r1: Seq<u64>, r2: Seq<u64>)
    requires
        forall|h: u64| r1.contains(h) ==> r2.contains(h),
    ensures
        registered(m, r1) ==> registered(m, r2),
{
    if registered(m, r1) {
        crate::model::lemma_registered_monotone(m, r1, r2);
    }
}

} // verus!
