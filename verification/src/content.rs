//! Interpretation of element payloads.
//!
//! A decoded payload is a plain byte buffer; [`ElementContent`] wraps one and
//! reinterprets it as one of the EBML primitive types. Each interpretation
//! consumes the content: a payload is read exactly once.

use crate::varint::{be_value, lemma_be_value_bound};
use vstd::arithmetic::div_mod::{
    lemma_add_mod_noop, lemma_mod_sub_multiples_vanish, lemma_mul_mod_noop_left, lemma_small_mod,
};
use vstd::arithmetic::power2::{lemma2_to64_rest, lemma_pow2_strictly_increases};
use vstd::prelude::*;

verus! {

/// A decoded element payload, owned for exactly one interpretation.
pub struct ElementContent(Vec<u8>);

impl View for ElementContent {
    type V = Seq<u8>;

    closed spec fn view(&self) -> Seq<u8> {
        self.0@
    }
}

/// The failure of interpreting a payload as text: the bytes are not valid
/// UTF-8.
#[derive(Clone, Copy, Debug, PartialEq, Eq, Structural)]
pub struct Utf8Error;

/// The low-order 64 bits of the big-endian value of `bytes`: a buffer of at
/// most 8 bytes is taken whole, a longer one wraps modulo `2^64`, so that
/// only its trailing 8 bytes contribute.
pub open spec fn uint_value(bytes: Seq<u8>) -> int {
    be_value(bytes) % 0x10000000000000000
}

/// The same 64 bits reinterpreted as a signed two's-complement value. A
/// buffer shorter than 8 bytes is not sign-extended: `[0xFF]` reads as 255,
/// not -1.
pub open spec fn int_value(bytes: Seq<u8>) -> int {
    if uint_value(bytes) < 0x8000000000000000 {
        uint_value(bytes)
    } else {
        uint_value(bytes) - 0x10000000000000000
    }
}

/// The text that UTF-8 decoding gives for `bytes`, if they are valid UTF-8.
pub uninterp spec fn utf8_decoded(bytes: Seq<u8>) -> Option<Seq<char>>;

/// Relies on std's `String::from_utf8`: it succeeds exactly when the bytes
/// are valid UTF-8, and the decoded text is a function of the bytes alone.
#[verifier::external_body]
fn string_from_utf8(bytes: Vec<u8>) -> (r: Option<String>)
    ensures
        r is Some <==> utf8_decoded(bytes@) is Some,
        r is Some ==> r.unwrap()@ == utf8_decoded(bytes@).unwrap(),
{
    match String::from_utf8(bytes) {
        Ok(text) => Some(text),
        Err(_) => None,
    }
}

impl ElementContent {
    /// Wrap a payload buffer for interpretation.
    pub fn new(data: Vec<u8>) -> (r: ElementContent)
        ensures
            r@ == data@,
    {
        ElementContent(data)
    }

    /// Interpret the content as raw binary data: the bytes, unchanged.
    pub fn into_binary(self) -> (r: Vec<u8>)
        ensures
            r@ == self@,
    {
        self.0
    }

    /// Interpret the content as a big-endian unsigned integer. A buffer
    /// longer than 8 bytes wraps modulo `2^64`: only its trailing 8 bytes
    /// contribute.
    pub fn into_uint(self) -> (r: u64)
        ensures
            r == uint_value(self@),
            self@.len() <= 8 ==> r == be_value(self@),
    {
        let buf = self.0;
        let mut value: u64 = 0;
        let mut i: usize = 0;
        proof {
            assert(buf@.subrange(0, 0) =~= Seq::<u8>::empty());
        }
        while i < buf.len()
            invariant
                i <= buf@.len(),
                value == be_value(buf@.subrange(0, i as int)) % 0x10000000000000000,
            decreases buf@.len() - i,
        {
            let b = buf[i];
            proof {
                let m: int = 0x10000000000000000;
                let prefix = buf@.subrange(0, i as int);
                let next = buf@.subrange(0, i + 1);
                assert(next.drop_last() =~= prefix);
                assert(next.last() == buf@[i as int]);
                let whole = be_value(prefix);
                lemma_mul_mod_noop_left(whole, 256, m);
                assert(((whole % m) * 256) % m == (whole * 256) % m);
                lemma_small_mod(b as nat, m as nat);
                lemma_add_mod_noop(whole * 256, b as int, m);
                let wm = ((value * 256) % m) as u64;
                if wm + b > u64::MAX {
                    lemma_mod_sub_multiples_vanish(wm + b, m);
                    lemma_small_mod((wm + b - m) as nat, m as nat);
                } else {
                    lemma_small_mod((wm + b) as nat, m as nat);
                }
            }
            value = value.wrapping_mul(256).wrapping_add(b as u64);
            i = i + 1;
        }
        proof {
            assert(buf@.subrange(0, buf@.len() as int) =~= buf@);
            if buf@.len() <= 8 {
                lemma_be_value_bound(buf@);
                lemma2_to64_rest();
                if buf@.len() < 8 {
                    lemma_pow2_strictly_increases(8 * buf@.len(), 64);
                }
                lemma_small_mod(be_value(buf@) as nat, 0x10000000000000000);
            }
        }
        value
    }

    /// Interpret the content as a big-endian signed integer: the same 64
    /// bits as the unsigned reading, reinterpreted as two's complement. A
    /// buffer shorter than 8 bytes is not sign-extended: `[0xFF]` reads as
    /// 255, not -1.
    pub fn into_int(self) -> (r: i64)
        ensures
            r == int_value(self@),
    {
        let value = self.into_uint();
        if value < 0x8000000000000000 {
            value as i64
        } else {
            ((value - 0x8000000000000000) as i64) + i64::MIN
        }
    }

    /// Interpret the content as UTF-8 text. Fails exactly when the bytes are
    /// not valid UTF-8; the bytes are not salvaged.
    pub fn into_utf8(self) -> (r: Result<String, Utf8Error>)
        ensures
            r is Ok <==> utf8_decoded(self@) is Some,
            r is Ok ==> r.unwrap()@ == utf8_decoded(self@).unwrap(),
    {
        match string_from_utf8(self.0) {
            Some(text) => Ok(text),
            None => Err(Utf8Error),
        }
    }
}

} // verus!
