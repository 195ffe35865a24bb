//! Byte-level building blocks of the wire format: 64-bit little-endian
//! words, decimal renderings of callable handles, and positional
//! reasoning about byte regions.
use vstd::bytes::{
    spec_u64_from_le_bytes, spec_u64_to_le_bytes, lemma_auto_spec_u64_to_from_le_bytes,
    u64_from_le_bytes, u64_to_le_bytes,
};
use vstd::prelude::*;

verus! {

/// The eight little-endian bytes of a signed 64-bit word, written as its
/// two's-complement bit pattern.
pub open spec fn i64_le(i: i64) -> Seq<u8> {
    spec_u64_to_le_bytes(i as u64)
}

/// The unsigned 64-bit word read from eight little-endian bytes at `pos`.
pub open spec fn rd_u64(data: Seq<u8>, pos: int) -> u64 {
    spec_u64_from_le_bytes(data.subrange(pos, pos + 8))
}

/// The signed 64-bit word read from eight little-endian bytes at `pos`.
pub open spec fn rd_i64(data: Seq<u8>, pos: int) -> i64 {
    rd_u64(data, pos) as i64
}

/// Casting a signed word to its bit pattern and back is the identity.
pub proof fn lemma_i64_cast_roundtrip(x: i64)
    ensures
        (x as u64) as i64 == x,
{
    assert((x as u64) as i64 == x) by (bit_vector);
}

/// Appends the eight little-endian bytes of an unsigned word.
pub fn push_u64_le(buffer: &mut Vec<u8>, x: u64)
    ensures
        final(buffer)@ == old(buffer)@ + spec_u64_to_le_bytes(x),
{
    let mut word = u64_to_le_bytes(x);
    buffer.append(&mut word);
}

/// Appends the eight little-endian bytes of a signed word.
pub fn push_i64_le(buffer: &mut Vec<u8>, i: i64)
    ensures
        final(buffer)@ == old(buffer)@ + i64_le(i),
{
    push_u64_le(buffer, i as u64);
}

/// Reads the unsigned word at `pos`.
pub fn read_u64_le(data: &[u8], pos: usize) -> (x: u64)
    requires
        pos + 8 <= data@.len(),
    ensures
        x == rd_u64(data@, pos as int),
{
    let n = data.len();
    u64_from_le_bytes(&data[pos..pos + 8])
}

/// Reads the signed word at `pos`.
pub fn read_i64_le(data: &[u8], pos: usize) -> (x: i64)
    requires
        pos + 8 <= data@.len(),
    ensures
        x == rd_i64(data@, pos as int),
{
    read_u64_le(data, pos) as i64
}

/// Reading eight bytes that were written for a word gives the word back.
pub proof fn lemma_le_roundtrip(x: u64)
    ensures
        spec_u64_to_le_bytes(x).len() == 8,
        spec_u64_from_le_bytes(spec_u64_to_le_bytes(x)) == x,
{
    lemma_auto_spec_u64_to_from_le_bytes();
}

/// True when the bytes `s` stand in `data` starting at `pos`.
pub open spec fn bytes_at(data: Seq<u8>, pos: int, s: Seq<u8>) -> bool {
    0 <= pos && pos + s.len() <= data.len() && data.subrange(pos, pos + s.len()) == s
}

/// A concatenation stands at a position exactly when its parts stand
/// there one after the other.
pub proof fn lemma_bytes_at_concat(data: Seq<u8>, pos: int, a: Seq<u8>, b: Seq<u8>)
    ensures
        bytes_at(data, pos, a + b) <==> (bytes_at(data, pos, a) && bytes_at(
            data,
            pos + a.len(),
            b,
        )),
{
    if bytes_at(data, pos, a + b) {
        assert forall|i: int| 0 <= i < a.len() implies data.subrange(pos, pos + a.len())[i]
            == a[i] by {
            assert(data.subrange(pos, pos + (a + b).len())[i] == (a + b)[i]);
        }
        assert(data.subrange(pos, pos + a.len()) =~= a);
        assert forall|i: int|
            0 <= i < b.len() implies data.subrange(pos + a.len(), pos + a.len() + b.len())[i]
            == b[i] by {
            assert(data.subrange(pos, pos + (a + b).len())[a.len() + i] == (a + b)[a.len() + i]);
        }
        assert(data.subrange(pos + a.len(), pos + a.len() + b.len()) =~= b);
    }
    if bytes_at(data, pos, a) && bytes_at(data, pos + a.len(), b) {
        assert(data.subrange(pos, pos + a.len() + b.len()) =~= a + b);
    }
}

/// A single byte stands at a position exactly when it is the byte there.
pub proof fn lemma_bytes_at_one(data: Seq<u8>, pos: int, b: u8)
    ensures
        bytes_at(data, pos, seq![b]) <==> (0 <= pos < data.len() && data[pos] == b),
{
    if 0 <= pos < data.len() && data[pos] == b {
        assert(data.subrange(pos, pos + 1) =~= seq![b]);
    }
    if bytes_at(data, pos, seq![b]) {
        assert(data.subrange(pos, pos + 1)[0] == data[pos]);
    }
}

/// Where the word's bytes stand at a position, reading there gives the
/// word back.
pub proof fn lemma_rd_u64_at(data: Seq<u8>, pos: int, x: u64)
    requires
        bytes_at(data, pos, spec_u64_to_le_bytes(x)),
    ensures
        rd_u64(data, pos) == x,
{
    lemma_le_roundtrip(x);
    assert(data.subrange(pos, pos + 8) == spec_u64_to_le_bytes(x));
}

/// The decimal digits of an unsigned word, most significant first.
pub open spec fn dec_digits(h: u64) -> Seq<u8>
    decreases h,
{
    if h < 10 {
        seq![(48 + h) as u8]
    } else {
        dec_digits(h / 10).push((48 + h % 10) as u8)
    }
}

/// Appends the decimal digits of the word, most significant first.
pub fn push_decimal(buffer: &mut Vec<u8>, h: u64)
    ensures
        final(buffer)@ == old(buffer)@ + dec_digits(h),
    decreases h,
{
    if h < 10 {
        buffer.push((48 + h) as u8);
        assert(buffer@ =~= old(buffer)@ + dec_digits(h));
    } else {
        push_decimal(buffer, h / 10);
        buffer.push((48 + h % 10) as u8);
        assert(buffer@ =~= old(buffer)@ + dec_digits(h));
    }
}

/// True for an ASCII decimal digit.
pub open spec fn is_digit(b: u8) -> bool {
    48 <= b <= 57
}

/// True when every byte is an ASCII decimal digit.
pub open spec fn all_digits(b: Seq<u8>) -> bool {
    forall|i: int| 0 <= i < b.len() ==> is_digit(b[i])
}

/// The numeric value of a digit string, most significant first.
pub open spec fn digits_val(b: Seq<u8>) -> int
    decreases b.len(),
{
    if b.len() == 0 {
        0
    } else {
        digits_val(b.drop_last()) * 10 + (b.last() - 48)
    }
}

/// The decimal reading of a byte string, as `u64` text is read: an
/// optional leading plus sign, then at least one digit, rejecting
/// overflow.
pub open spec fn parse_u64(b: Seq<u8>) -> Option<u64> {
    let d = if b.len() > 0 && b[0] == 43 {
        b.drop_first()
    } else {
        b
    };
    if d.len() >= 1 && all_digits(d) && digits_val(d) <= u64::MAX {
        Some(digits_val(d) as u64)
    } else {
        None
    }
}

/// A digit string's value is never negative.
pub proof fn lemma_digits_val_nonneg(b: Seq<u8>)
    requires
        all_digits(b),
    ensures
        digits_val(b) >= 0,
    decreases b.len(),
{
    if b.len() > 0 {
        assert(all_digits(b.drop_last()));
        lemma_digits_val_nonneg(b.drop_last());
    }
}

/// A digit string's value only grows along its prefixes.
pub proof fn lemma_digits_val_prefix(b: Seq<u8>, k: int)
    requires
        all_digits(b),
        0 <= k <= b.len(),
    ensures
        digits_val(b.take(k)) <= digits_val(b),
    decreases b.len() - k,
{
    if k < b.len() {
        lemma_digits_val_prefix(b, k + 1);
        assert(b.take(k + 1).drop_last() =~= b.take(k));
        assert(all_digits(b.take(k)));
        lemma_digits_val_nonneg(b.take(k));
        assert(digits_val(b.take(k + 1)) == digits_val(b.take(k)) * 10 + (b.take(k + 1).last()
            - 48));
        assert(digits_val(b.take(k)) * 10 >= digits_val(b.take(k)));
    } else {
        assert(b.take(k) =~= b);
    }
}

/// The decimal digits of a word read back as that word.
pub proof fn lemma_parse_dec_digits(h: u64)
    ensures
        dec_digits(h).len() >= 1,
        all_digits(dec_digits(h)),
        digits_val(dec_digits(h)) == h,
        parse_u64(dec_digits(h)) == Some(h),
    decreases h,
{
    if h < 10 {
        let d0 = dec_digits(h);
        assert(d0.drop_last() =~= Seq::<u8>::empty());
        assert(digits_val(d0) == digits_val(Seq::<u8>::empty()) * 10 + ((48 + h) as u8 - 48));
    } else {
        lemma_parse_dec_digits(h / 10);
        let d = dec_digits(h / 10).push((48 + h % 10) as u8);
        assert(d.drop_last() =~= dec_digits(h / 10));
        assert(digits_val(d) == (h / 10) * 10 + h % 10);
        assert((h / 10) * 10 + h % 10 == h) by (nonlinear_arith);
    }
    assert(dec_digits(h)[0] != 43);
}

/// Powers of ten.
pub open spec fn pow10(k: nat) -> int
    decreases k,
{
    if k == 0 {
        1
    } else {
        10 * pow10((k - 1) as nat)
    }
}

/// Powers of ten are positive.
pub proof fn lemma_pow10_pos(k: nat)
    ensures
        pow10(k) >= 1,
    decreases k,
{
    if k > 0 {
        lemma_pow10_pos((k - 1) as nat);
    }
}

/// A word below the `k`-th power of ten has at most `k` digits.
proof fn lemma_dec_digits_le(h: u64, k: int)
    requires
        k >= 1,
        h < pow10(k as nat),
    ensures
        1 <= dec_digits(h).len() <= k,
    decreases h,
{
    if h >= 10 {
        assert(pow10(k as nat) == 10 * pow10((k - 1) as nat));
        lemma_pow10_pos((k - 1) as nat);
        if k == 1 {
            assert(pow10(1nat) == 10);
            assert(false);
        }
        assert(h / 10 < pow10((k - 1) as nat)) by (nonlinear_arith)
            requires
                h < 10 * pow10((k - 1) as nat),
                pow10((k - 1) as nat) >= 1,
        ;
        lemma_dec_digits_le(h / 10, k - 1);
    }
}

/// A word's decimal rendering has between one and twenty digits.
pub proof fn lemma_dec_digits_len(h: u64)
    ensures
        1 <= dec_digits(h).len() <= 20,
{
    assert(pow10(0nat) == 1);
    assert(pow10(1nat) == 10);
    assert(pow10(2nat) == 100);
    assert(pow10(3nat) == 1000);
    assert(pow10(4nat) == 10000);
    assert(pow10(5nat) == 100000);
    assert(pow10(6nat) == 1000000);
    assert(pow10(7nat) == 10000000);
    assert(pow10(8nat) == 100000000);
    assert(pow10(9nat) == 1000000000);
    assert(pow10(10nat) == 10000000000);
    assert(pow10(11nat) == 100000000000);
    assert(pow10(12nat) == 1000000000000);
    assert(pow10(13nat) == 10000000000000);
    assert(pow10(14nat) == 100000000000000);
    assert(pow10(15nat) == 1000000000000000);
    assert(pow10(16nat) == 10000000000000000);
    assert(pow10(17nat) == 100000000000000000);
    assert(pow10(18nat) == 1000000000000000000);
    assert(pow10(19nat) == 10000000000000000000);
    assert(pow10(20nat) == 100000000000000000000);
    lemma_dec_digits_le(h, 20);
}

/// Parses a decimal `u64` from bytes: an optional plus sign, then at
/// least one digit; anything else, or a value past the unsigned 64-bit
/// range, is rejected.
#[verifier::loop_isolation(false)]
pub fn parse_decimal(data: &[u8]) -> (r: Option<u64>)
    ensures
        r == parse_u64(data@),
{
    let n = data.len();
    let start: usize = if n > 0 && data[0] == 43 {
        1
    } else {
        0
    };
    let ghost d = if data@.len() > 0 && data@[0] == 43 {
        data@.drop_first()
    } else {
        data@
    };
    assert(d =~= data@.subrange(start as int, n as int));
    if start == n {
        return None;
    }
    let mut acc: u128 = 0;
    let mut j: usize = start;
    while j < n
        invariant
            start <= j <= n,
            n == data@.len(),
            start + d.len() == n,
            d =~= data@.subrange(start as int, n as int),
            all_digits(d.take(j - start)),
            acc == digits_val(d.take(j - start)),
            acc <= u64::MAX,
        decreases n - j,
    {
        let b = data[j];
        if b < 48 || b > 57 {
            assert(d[j - start] == b);
            assert(!all_digits(d));
            return None;
        }
        assert(d.take(j + 1 - start).drop_last() =~= d.take(j - start));
        assert(d.take(j + 1 - start).last() == b);
        acc = acc * 10 + ((b - 48) as u128);
        if acc > u64::MAX as u128 {
            proof {
                if all_digits(d) {
                    lemma_digits_val_prefix(d, j + 1 - start);
                }
            }
            return None;
        }
        j += 1;
    }
    assert(d.take(n - start) =~= d);
    Some(acc as u64)
}

} // verus!
