//! EBML variable-length integers.
//!
//! A value is encoded in 1 to 8 bytes. The position of the highest set bit of
//! the first byte — the length marker — declares the total encoded length:
//! `0x80` for 1 byte down to `0x01` for 8 bytes. The remaining bits of the
//! first byte, followed by the further bytes, hold the value itself in
//! big-endian order. A first byte of `0x00` declares no length at all; it is
//! read as a degenerate one-byte encoding of 0.
//!
//! With 8 bytes the marker occupies the whole first byte, so an encoded value
//! has at most 56 significant bits.

use vstd::arithmetic::div_mod::{
    lemma_div_denominator, lemma_mod_breakdown, lemma_small_mod,
};
use vstd::arithmetic::mul::lemma_mul_inequality;
use vstd::arithmetic::power2::{
    lemma2_to64, lemma2_to64_rest, lemma_pow2_adds, lemma_pow2_pos, lemma_pow2_strictly_increases,
    pow2,
};
use vstd::prelude::*;

verus! {

/// Values below this limit (`1 << 56`) are exactly the encodable ones.
pub const VALUE_LIMIT: u64 = 0x100000000000000;

/// Length in bytes of the minimal encoding of `value`: the smallest `n`
/// in 1..=8 such that `value` fits in `7 * n` bits.
pub open spec fn encoded_len(value: int) -> int {
    if value >= 0x2000000000000 {
        8
    } else if value >= 0x40000000000 {
        7
    } else if value >= 0x800000000 {
        6
    } else if value >= 0x10000000 {
        5
    } else if value >= 0x200000 {
        4
    } else if value >= 0x4000 {
        3
    } else if value >= 0x80 {
        2
    } else {
        1
    }
}

/// The marker bit that declares an encoding of `len` bytes.
pub open spec fn length_marker(len: int) -> u8 {
    if len == 1 {
        0x80
    } else if len == 2 {
        0x40
    } else if len == 3 {
        0x20
    } else if len == 4 {
        0x10
    } else if len == 5 {
        0x08
    } else if len == 6 {
        0x04
    } else if len == 7 {
        0x02
    } else {
        0x01
    }
}

/// The encoded length that the first byte of an encoding declares.
/// A first byte of `0x00` declares no length; it is treated as length 1.
pub open spec fn declared_len(first: u8) -> int {
    if first >= 0x80 {
        1
    } else if first >= 0x40 {
        2
    } else if first >= 0x20 {
        3
    } else if first >= 0x10 {
        4
    } else if first >= 0x08 {
        5
    } else if first >= 0x04 {
        6
    } else if first >= 0x02 {
        7
    } else if first >= 0x01 {
        8
    } else {
        1
    }
}

/// The first byte of an encoding with its length marker removed.
pub open spec fn strip_marker(first: u8) -> u8 {
    if first == 0 {
        0
    } else {
        (first - length_marker(declared_len(first))) as u8
    }
}

/// The value of `bytes` read as a big-endian unsigned integer.
pub open spec fn be_value(bytes: Seq<u8>) -> int
    decreases bytes.len(),
{
    if bytes.len() == 0 {
        0
    } else {
        256 * be_value(bytes.drop_last()) + bytes.last()
    }
}

/// The `n` low-order bytes of `value`, in big-endian order.
pub open spec fn be_bytes(value: int, n: nat) -> Seq<u8>
    decreases n,
{
    if n == 0 {
        Seq::empty()
    } else {
        be_bytes(value / 256, (n - 1) as nat).push((value % 256) as u8)
    }
}

/// The encoding of `value`: its `encoded_len(value)` big-endian bytes, with
/// the length marker set in the first.
pub open spec fn encoding(value: int) -> Seq<u8> {
    let len = encoded_len(value);
    let bytes = be_bytes(value, len as nat);
    bytes.update(0, (bytes[0] + length_marker(len)) as u8)
}

/// The value of one whole varint: the first byte with its marker stripped,
/// then the remaining declared bytes, read big-endian.
pub open spec fn decoded(bytes: Seq<u8>) -> int {
    be_value(seq![strip_marker(bytes[0])] + bytes.subrange(1, declared_len(bytes[0])))
}

/// `bytes` is exactly one well-formed varint.
pub open spec fn valid_encoding(bytes: Seq<u8>) -> bool {
    bytes.len() >= 1 && bytes.len() == declared_len(bytes[0])
}

/// Parsing one varint at position `pos` of `s`: the decoded value and the
/// position just after it, or `None` if `s` ends too early.
pub open spec fn parse_at(s: Seq<u8>, pos: int) -> Option<(int, int)> {
    if 0 <= pos < s.len() && pos + declared_len(s[pos]) <= s.len() {
        let end = pos + declared_len(s[pos]);
        Some((decoded(s.subrange(pos, end)), end))
    } else {
        None
    }
}

proof fn lemma_be_value_nonneg(bytes: Seq<u8>)
    ensures
        be_value(bytes) >= 0,
    decreases bytes.len(),
{
    if bytes.len() > 0 {
        lemma_be_value_nonneg(bytes.drop_last());
    }
}

/// A sequence of `n` bytes holds a big-endian value below `2^(8n)`.
pub proof fn lemma_be_value_bound(bytes: Seq<u8>)
    ensures
        0 <= be_value(bytes) < pow2(8 * bytes.len()),
    decreases bytes.len(),
{
    lemma2_to64();
    if bytes.len() == 0 {
    } else {
        let prefix = bytes.drop_last();
        lemma_be_value_bound(prefix);
        lemma_pow2_adds(8 * prefix.len(), 8);
        assert(256 * be_value(prefix) + bytes.last() < pow2(8 * prefix.len()) * pow2(8))
            by (nonlinear_arith)
            requires
                0 <= be_value(prefix) < pow2(8 * prefix.len()),
                bytes.last() < 256,
                pow2(8) == 256,
        ;
    }
}

/// A bound on the first byte bounds the whole big-endian value.
proof fn lemma_be_value_first_bound(bytes: Seq<u8>, bound: int)
    requires
        bytes.len() >= 1,
        0 <= bytes[0] < bound,
    ensures
        be_value(bytes) < bound * pow2((8 * (bytes.len() - 1)) as nat) as int,
    decreases bytes.len(),
{
    lemma2_to64();
    if bytes.len() == 1 {
        assert(be_value(bytes.drop_last()) == 0);
        assert(be_value(bytes) == bytes[0]);
        assert(pow2((8 * (bytes.len() - 1)) as nat) as int == 1);
        assert(be_value(bytes) < bound * 1);
    } else {
        let prefix = bytes.drop_last();
        lemma_be_value_first_bound(prefix, bound);
        lemma_pow2_adds((8 * (prefix.len() - 1)) as nat, 8);
        lemma_pow2_pos((8 * (prefix.len() - 1)) as nat);
        assert(256 * be_value(prefix) + bytes.last() < bound * (pow2((8 * (prefix.len() - 1)) as nat) as int
            * pow2(8))) by (nonlinear_arith)
            requires
                be_value(prefix) < bound * pow2((8 * (prefix.len() - 1)) as nat) as int,
                bytes.last() < 256,
                pow2(8) == 256,
                pow2((8 * (prefix.len() - 1)) as nat) as int >= 1,
                bound >= 1,
        ;
        assert(be_value(bytes) == 256 * be_value(prefix) + bytes.last());
        assert(pow2((8 * (bytes.len() - 1)) as nat) == pow2((8 * (prefix.len() - 1)) as nat)
            * pow2(8));
        assert(bound * (pow2((8 * (prefix.len() - 1)) as nat) as int * pow2(8)) == bound * (pow2(
            (8 * (bytes.len() - 1)) as nat,
        ) as int)) by (nonlinear_arith)
            requires
                pow2((8 * (bytes.len() - 1)) as nat) == pow2((8 * (prefix.len() - 1)) as nat)
                    * pow2(8),
        ;
    }
}

/// The first byte gives a lower bound on the whole big-endian value.
proof fn lemma_be_value_first_lower(bytes: Seq<u8>)
    requires
        bytes.len() >= 1,
    ensures
        be_value(bytes) >= bytes[0] * pow2((8 * (bytes.len() - 1)) as nat) as int,
    decreases bytes.len(),
{
    lemma2_to64();
    if bytes.len() == 1 {
        assert(be_value(bytes.drop_last()) == 0);
        assert(be_value(bytes) == bytes[0]);
        assert(pow2((8 * (bytes.len() - 1)) as nat) as int == 1);
        assert(be_value(bytes) >= bytes[0] * 1);
    } else {
        let prefix = bytes.drop_last();
        lemma_be_value_first_lower(prefix);
        lemma_pow2_adds((8 * (prefix.len() - 1)) as nat, 8);
        assert(256 * be_value(prefix) + bytes.last() >= bytes[0] * (pow2((8 * (prefix.len() - 1)) as nat) as int
            * pow2(8))) by (nonlinear_arith)
            requires
                be_value(prefix) >= bytes[0] * pow2((8 * (prefix.len() - 1)) as nat) as int,
                bytes.last() >= 0,
                pow2(8) == 256,
                bytes[0] >= 0,
        ;
        assert(be_value(bytes) == 256 * be_value(prefix) + bytes.last());
        assert(pow2((8 * (bytes.len() - 1)) as nat) == pow2((8 * (prefix.len() - 1)) as nat)
            * pow2(8));
        assert(bytes[0] * (pow2((8 * (prefix.len() - 1)) as nat) as int * pow2(8)) == bytes[0]
            * (pow2((8 * (bytes.len() - 1)) as nat) as int)) by (nonlinear_arith)
            requires
                pow2((8 * (bytes.len() - 1)) as nat) == pow2((8 * (prefix.len() - 1)) as nat)
                    * pow2(8),
        ;
    }
}

proof fn lemma_be_bytes_props(value: int, n: nat)
    requires
        value >= 0,
    ensures
        be_bytes(value, n).len() == n,
        be_value(be_bytes(value, n)) == value % (pow2(8 * n) as int),
    decreases n,
{
    lemma2_to64();
    if n == 0 {
        assert(value % 1 == 0);
    } else {
        let rest = value / 256;
        lemma_be_bytes_props(rest, (n - 1) as nat);
        let bytes = be_bytes(value, n);
        assert(bytes.drop_last() =~= be_bytes(rest, (n - 1) as nat));
        lemma_pow2_adds(8, (8 * (n - 1)) as nat);
        lemma_pow2_pos((8 * (n - 1)) as nat);
        lemma_mod_breakdown(value, 256, pow2((8 * (n - 1)) as nat) as int);
    }
}

/// Unfolding `be_bytes` from the front: the first of `n + 1` bytes holds the
/// highest-order 8 bits.
proof fn lemma_be_bytes_prepend(value: int, n: nat)
    requires
        value >= 0,
    ensures
        be_bytes(value, n + 1) == seq![((value / (pow2(8 * n) as int)) % 256) as u8] + be_bytes(value, n),
    decreases n,
{
    lemma2_to64();
    if n == 0 {
        assert(be_bytes(value / 256, 0) =~= Seq::<u8>::empty());
        assert(be_bytes(value, 0) =~= Seq::<u8>::empty());
        assert(pow2(0) == 1);
        assert(value / (pow2(0) as int) == value);
        assert(be_bytes(value, 1) =~= seq![((value / (pow2(0) as int)) % 256) as u8] + be_bytes(value, 0));
    } else {
        let rest = value / 256;
        lemma_be_bytes_prepend(rest, (n - 1) as nat);
        lemma_pow2_adds(8, (8 * (n - 1)) as nat);
        lemma_pow2_pos((8 * (n - 1)) as nat);
        lemma_div_denominator(value, 256, pow2((8 * (n - 1)) as nat) as int);
        assert(rest / (pow2((8 * (n - 1)) as nat) as int) == value / (pow2(8 * n) as int));
        let head = seq![((value / (pow2(8 * n) as int)) % 256) as u8];
        assert(be_bytes(value, n + 1) =~= head + be_bytes(value, n));
    }
}

/// The minimal length is in 1..=8, and the value fits in 7 bits per byte.
proof fn lemma_encoded_len_fits(value: int)
    requires
        0 <= value < VALUE_LIMIT,
    ensures
        1 <= encoded_len(value) <= 8,
        value < pow2((7 * encoded_len(value)) as nat) as int,
{
    lemma2_to64();
    lemma2_to64_rest();
}

/// Each length marker is the power of two just above the stripped first byte.
proof fn lemma_marker_is_pow2(len: int)
    requires
        1 <= len <= 8,
    ensures
        length_marker(len) as int == pow2((8 - len) as nat) as int,
{
    lemma2_to64();
}

/// The bytes of the minimal encoding before the marker is set: they carry
/// exactly `value`, and the first stays below the marker bit.
proof fn lemma_encoding_parts(value: int)
    requires
        0 <= value < VALUE_LIMIT,
    ensures
        be_bytes(value, encoded_len(value) as nat).len() == encoded_len(value),
        be_value(be_bytes(value, encoded_len(value) as nat)) == value,
        be_bytes(value, encoded_len(value) as nat)[0] < length_marker(encoded_len(value)),
{
    let len = encoded_len(value);
    lemma_encoded_len_fits(value);
    lemma_be_bytes_props(value, len as nat);
    lemma_marker_is_pow2(len);
    let bytes = be_bytes(value, len as nat);
    lemma2_to64();
    lemma_pow2_strictly_increases((7 * len) as nat, (8 * len) as nat);
    lemma_small_mod(value as nat, pow2((8 * len) as nat));
    assert(be_value(bytes) == value);
    lemma_be_value_first_lower(bytes);
    lemma_pow2_adds((8 - len) as nat, (8 * (len - 1)) as nat);
    assert(bytes[0] < length_marker(len)) by {
        if bytes[0] >= length_marker(len) {
            lemma_mul_inequality(
                pow2((8 - len) as nat) as int,
                bytes[0] as int,
                pow2((8 * (len - 1)) as nat) as int,
            );
            assert(value >= pow2((7 * len) as nat));
            assert(false);
        }
    }
}

/// A sequence of `len` bytes whose first stays below the marker for `len`
/// holds a value below the encodable limit.
proof fn lemma_stripped_value_bound(t: Seq<u8>, len: int)
    requires
        1 <= len <= 8,
        t.len() == len,
        t[0] < length_marker(len),
    ensures
        0 <= be_value(t) < pow2((7 * len) as nat) as int,
        be_value(t) < VALUE_LIMIT,
{
    lemma2_to64();
    lemma2_to64_rest();
    lemma_be_value_nonneg(t);
    lemma_marker_is_pow2(len);
    lemma_be_value_first_bound(t, length_marker(len) as int);
    lemma_pow2_adds((8 - len) as nat, (8 * (len - 1)) as nat);
    assert(be_value(t) < pow2((7 * len) as nat) as int);
    if 7 * len < 56 {
        lemma_pow2_strictly_increases((7 * len) as nat, 56);
    }
    assert(pow2(56) == VALUE_LIMIT);
}

/// The stripped first byte always stays below the marker its length declares.
proof fn lemma_strip_below_marker(first: u8)
    ensures
        1 <= declared_len(first) <= 8,
        strip_marker(first) < length_marker(declared_len(first)),
{
}

/// Round trip: decoding the encoding of any encodable value gives the value
/// back, and the encoding declares its own length correctly.
pub proof fn lemma_round_trip(value: int)
    requires
        0 <= value < VALUE_LIMIT,
    ensures
        encoding(value).len() == encoded_len(value),
        valid_encoding(encoding(value)),
        decoded(encoding(value)) == value,
{
    let len = encoded_len(value);
    lemma_encoded_len_fits(value);
    lemma_encoding_parts(value);
    lemma_marker_is_pow2(len);
    lemma2_to64();
    let bytes = be_bytes(value, len as nat);
    let marked = (bytes[0] + length_marker(len)) as u8;
    let enc = encoding(value);
    assert(enc[0] == marked);
    assert(declared_len(marked) == len);
    assert(strip_marker(marked) == bytes[0]);
    assert(seq![strip_marker(enc[0])] + enc.subrange(1, declared_len(enc[0])) =~= bytes);
}

/// Every well-formed varint decodes to a value below the encodable limit.
pub proof fn lemma_decoded_bound(bytes: Seq<u8>)
    requires
        valid_encoding(bytes),
    ensures
        0 <= decoded(bytes) < VALUE_LIMIT,
{
    let len = declared_len(bytes[0]);
    let t = seq![strip_marker(bytes[0])] + bytes.subrange(1, len);
    lemma_strip_below_marker(bytes[0]);
    lemma_stripped_value_bound(t, len);
}

/// Re-encoding: the decoded value of any well-formed varint, encoded again,
/// decodes to the same value. The bytes themselves need not be identical,
/// since the encoder always picks the minimal length.
pub proof fn lemma_reencode(bytes: Seq<u8>)
    requires
        valid_encoding(bytes),
    ensures
        decoded(encoding(decoded(bytes))) == decoded(bytes),
{
    lemma_decoded_bound(bytes);
    lemma_round_trip(decoded(bytes));
}

/// The encoded length that `first` declares, for driving a byte stream:
/// a reader takes one byte, learns the total length, and reads the rest.
pub fn header_len(first: u8) -> (len: usize)
    ensures
        len == declared_len(first),
        1 <= len <= 8,
{
    if first >= 0x80 {
        1
    } else if first >= 0x40 {
        2
    } else if first >= 0x20 {
        3
    } else if first >= 0x10 {
        4
    } else if first >= 0x08 {
        5
    } else if first >= 0x04 {
        6
    } else if first >= 0x02 {
        7
    } else if first >= 0x01 {
        8
    } else {
        1
    }
}

/// Encode `value` as one varint: the minimal number of big-endian bytes,
/// with the length marker set in the first.
pub fn encode(value: i64) -> (out: Vec<u8>)
    requires
        0 <= value < VALUE_LIMIT,
    ensures
        out@ == encoding(value as int),
        out@.len() == encoded_len(value as int),
        valid_encoding(out@),
        decoded(out@) == value,
{
    let (len, marker): (usize, u8) = if value >= 0x2000000000000 {
        (8, 0x01)
    } else if value >= 0x40000000000 {
        (7, 0x02)
    } else if value >= 0x800000000 {
        (6, 0x04)
    } else if value >= 0x10000000 {
        (5, 0x08)
    } else if value >= 0x200000 {
        (4, 0x10)
    } else if value >= 0x4000 {
        (3, 0x20)
    } else if value >= 0x80 {
        (2, 0x40)
    } else {
        (1, 0x80)
    };
    proof {
        lemma2_to64();
        assert(len == encoded_len(value as int));
        assert(marker == length_marker(len as int));
        assert(be_bytes(value as int, 0) =~= Seq::<u8>::empty());
        assert(pow2(0) == 1);
        assert(value as int / 1int == value as int);
    }
    let mut rest: u64 = value as u64;
    let mut buf: Vec<u8> = Vec::new();
    let mut i: usize = 0;
    while i < len
        invariant
            0 <= value < VALUE_LIMIT,
            len == encoded_len(value as int),
            i <= len <= 8,
            buf@ == be_bytes(value as int, i as nat),
            buf@.len() == i,
            rest == value as int / (pow2((8 * i) as nat) as int),
        decreases len - i,
    {
        let b: u8 = (rest % 256) as u8;
        let ghost prev = buf@;
        buf.insert(0, b);
        proof {
            lemma_be_bytes_prepend(value as int, i as nat);
            assert(prev.insert(0, b) =~= seq![b] + prev);
            lemma_pow2_adds((8 * i) as nat, 8);
            lemma_pow2_pos((8 * i) as nat);
            lemma2_to64();
            lemma_div_denominator(value as int, pow2((8 * i) as nat) as int, 256);
        }
        rest = rest / 256;
        i = i + 1;
    }
    proof {
        lemma_encoding_parts(value as int);
        lemma_round_trip(value as int);
    }
    let first = buf[0];
    buf.set(0, first + marker);
    buf
}

/// Decode one varint at position `pos` of `buf`. Returns the value and the
/// position just after it, or `None` if the buffer ends before the length
/// that the first byte declares.
pub fn decode(buf: &Vec<u8>, pos: usize) -> (r: Option<(i64, usize)>)
    ensures
        match r {
            Some(pair) => parse_at(buf@, pos as int) == Some((pair.0 as int, pair.1 as int))
                && 0 <= pair.0 < VALUE_LIMIT && pos < pair.1 <= buf@.len(),
            None => parse_at(buf@, pos as int) is None,
        },
{
    if pos >= buf.len() {
        return None;
    }
    let first = buf[pos];
    let len = header_len(first);
    if buf.len() - pos < len {
        return None;
    }
    let end = pos + len;
    let stripped: u8 = if first >= 0x80 {
        first - 0x80
    } else if first >= 0x40 {
        first - 0x40
    } else if first >= 0x20 {
        first - 0x20
    } else if first >= 0x10 {
        first - 0x10
    } else if first >= 0x08 {
        first - 0x08
    } else if first >= 0x04 {
        first - 0x04
    } else if first >= 0x02 {
        first - 0x02
    } else if first >= 0x01 {
        first - 0x01
    } else {
        0
    };
    let ghost t = seq![strip_marker(first)] + buf@.subrange(pos + 1, end as int);
    proof {
        assert(stripped == strip_marker(first));
        assert(t.len() == len);
        assert(t.subrange(0, 1) =~= seq![strip_marker(first)]);
        assert(be_value(t.subrange(0, 1).drop_last()) == 0);
        lemma_strip_below_marker(first);
    }
    let mut value: u64 = stripped as u64;
    let mut i: usize = pos + 1;
    while i < end
        invariant
            pos < i <= end <= buf@.len(),
            end == pos + len,
            1 <= len <= 8,
            len == declared_len(buf@[pos as int]),
            t == seq![strip_marker(buf@[pos as int])] + buf@.subrange(pos + 1, end as int),
            t.len() == len,
            t[0] < length_marker(len as int),
            value == be_value(t.subrange(0, i - pos)),
        decreases end - i,
    {
        let b = buf[i];
        proof {
            let k = i - pos;
            assert(t.subrange(0, k + 1).drop_last() =~= t.subrange(0, k));
            assert(t.subrange(0, k + 1).last() == t[k]);
            assert(t[k] == buf@[i as int]);
            lemma_be_value_bound(t.subrange(0, k));
            lemma_pow2_adds((8 * k) as nat, 8);
            lemma2_to64();
            lemma2_to64_rest();
            if 8 * k + 8 < 64 {
                lemma_pow2_strictly_increases((8 * k + 8) as nat, 64);
            }
            assert(value * 256 + b < pow2((8 * k) as nat) * 256) by (nonlinear_arith)
                requires
                    value < pow2((8 * k) as nat),
                    b < 256,
            ;
            assert(pow2((8 * k) as nat) * 256 == pow2((8 * k + 8) as nat));
            assert(value * 256 + b < pow2(64));
        }
        value = value * 256 + (b as u64);
        i = i + 1;
    }
    proof {
        assert(t.subrange(0, len as int) =~= t);
        lemma_stripped_value_bound(t, len as int);
        let s = buf@.subrange(pos as int, end as int);
        assert(s[0] == first);
        assert(seq![strip_marker(s[0])] + s.subrange(1, declared_len(s[0])) =~= t);
        assert(decoded(s) == be_value(t));
    }
    Some(((value as i64), end))
}

} // verus!
