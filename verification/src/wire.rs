//! Wire-typed primitives: varints, big-endian integers, length-prefixed
//! strings and sequences, and boolean-prefixed optionals.
//!
//! Every writer has a spec-level byte image and every reader a spec-level
//! parser; round-trip lemmas connect the two.

use vstd::prelude::*;
use vstd::arithmetic::power2::pow2;
use vstd::arithmetic::power2::lemma_pow2_adds;
use vstd::arithmetic::power2::lemma2_to64;

verus! {

/// Byte image of `n` as a varint: little-endian 7-bit groups, the top bit
/// set on every byte but the last.
pub open spec fn varint_bytes(n: nat) -> Seq<u8>
    decreases n,
{
    if n < 128 {
        seq![n as u8]
    } else {
        seq![(n % 128 + 128) as u8] + varint_bytes(n / 128)
    }
}

/// Parse a varint from the head of `s`, consuming at most `max` bytes.
/// Returns the value and the number of bytes consumed; `None` means no
/// terminating byte was found within `max` bytes of input.
pub open spec fn varint_parse(s: Seq<u8>, max: nat) -> Option<(nat, nat)>
    decreases max,
{
    if max == 0 || s.len() == 0 {
        None
    } else if s[0] < 128 {
        Some((s[0] as nat, 1))
    } else {
        match varint_parse(s.drop_first(), (max - 1) as nat) {
            Some(p) => Some((((s[0] - 128) as nat + 128 * p.0), p.1 + 1)),
            None => None,
        }
    }
}

/// True when `s` is a proper prefix of some varint: every byte seen so far
/// has its continuation bit set and the width limit is not yet reached.
/// More input may still complete the parse.
pub open spec fn varint_incomplete(s: Seq<u8>, max: nat) -> bool
    decreases max,
{
    s.len() < max && (s.len() == 0 || (s[0] >= 128 && varint_incomplete(
        s.drop_first(),
        (max - 1) as nat,
    )))
}

/// A parsed varint value is bounded by the width it was read from.
pub proof fn lemma_varint_parse_bound(s: Seq<u8>, max: nat)
    ensures
        varint_parse(s, max) matches Some(p) ==> p.0 < pow2(7 * max) && 1 <= p.1 <= max,
    decreases max,
{
    lemma2_to64();
    if max > 0 && s.len() > 0 && s[0] < 128 {
        if max > 1 {
            vstd::arithmetic::power2::lemma_pow2_strictly_increases(7, 7 * max);
        }
    }
    if max > 0 && s.len() > 0 && s[0] >= 128 {
        lemma_varint_parse_bound(s.drop_first(), (max - 1) as nat);
        match varint_parse(s.drop_first(), (max - 1) as nat) {
            Some(p) => {
                lemma_pow2_adds(7, 7 * (max - 1) as nat);
                assert((s[0] - 128) as nat + 128 * p.0 < 128 * (p.0 + 1));
                assert(128 * (p.0 + 1) <= 128 * pow2(7 * (max - 1) as nat)) by (nonlinear_arith)
                    requires
                        p.0 + 1 <= pow2(7 * (max - 1) as nat),
                ;
                assert(7 * max == 7 + 7 * (max - 1) as nat);
            },
            None => {},
        }
    }
}

/// The encoding of `n` is between 1 and `k` bytes whenever `n < 2^(7k)`.
pub proof fn lemma_varint_bytes_len(n: nat, k: nat)
    requires
        k >= 1,
        n < pow2(7 * k),
    ensures
        1 <= varint_bytes(n).len() <= k,
    decreases n,
{
    lemma2_to64();
    if n >= 128 {
        lemma_pow2_adds(7, 7 * (k - 1) as nat);
        assert(7 * k == 7 + 7 * (k - 1) as nat);
        assert(n / 128 < pow2(7 * (k - 1) as nat)) by (nonlinear_arith)
            requires
                n < 128 * pow2(7 * (k - 1) as nat),
        ;
        lemma_varint_bytes_len(n / 128, (k - 1) as nat);
    }
}

/// Varint round trip: parsing the encoding of `n`, with anything behind it,
/// yields `n` and consumes exactly the encoding, whenever the width limit
/// accommodates the encoding.
pub proof fn lemma_varint_round_trip(n: nat, rest: Seq<u8>, max: nat)
    requires
        varint_bytes(n).len() <= max,
    ensures
        varint_parse(varint_bytes(n) + rest, max) == Some((n, varint_bytes(n).len())),
    decreases n,
{
    let s = varint_bytes(n) + rest;
    if n < 128 {
        assert(s[0] == n as u8);
    } else {
        assert(s[0] == (n % 128 + 128) as u8);
        assert(s.drop_first() =~= varint_bytes(n / 128) + rest);
        lemma_varint_round_trip(n / 128, rest, (max - 1) as nat);
        assert((s[0] - 128) as nat + 128 * (n / 128) == n);
    }
}

/// Append the varint encoding of `n` to `out`.
pub fn write_varint_u32(out: &mut Vec<u8>, n: u32)
    ensures
        final(out)@ == old(out)@ + varint_bytes(n as nat),
    decreases n,
{
    if n < 128 {
        out.push(n as u8);
        assert(out@ =~= old(out)@ + varint_bytes(n as nat));
    } else {
        out.push(((n % 128) + 128) as u8);
        write_varint_u32(out, n / 128);
        assert(out@ =~= old(out)@ + varint_bytes(n as nat));
    }
}

/// Outcome of pulling a varint off a buffer.
pub enum VarRead {
    /// A value and the count of bytes it occupied.
    Val { value: u32, len: usize },
    /// The buffer ends inside the varint; more input may complete it.
    Incomplete,
    /// No terminator within the width limit, or the value overflows 32 bits.
    Malformed,
}

/// Read a varint whose value must fit in 32 bits, starting at `pos`.
pub fn read_varint_u32(buf: &Vec<u8>, pos: usize) -> (r: VarRead)
    requires
        pos <= buf.len(),
    ensures
        (match varint_parse(buf@.skip(pos as int), 5) {
            Some(p) => if p.0 <= u32::MAX as nat {
                r matches VarRead::Val { value, len } && value as nat == p.0 && len as nat == p.1
            } else {
                r is Malformed
            },
            None => if varint_incomplete(buf@.skip(pos as int), 5) {
                r is Incomplete
            } else {
                r is Malformed
            },
        }),
{
    match read_varint_raw(buf, pos, 5) {
        RawVar::Val { value, len } => {
            proof {
                lemma_varint_parse_bound(buf@.skip(pos as int), 5);
            }
            if value <= u32::MAX as u64 {
                VarRead::Val { value: value as u32, len }
            } else {
                VarRead::Malformed
            }
        },
        RawVar::Incomplete => VarRead::Incomplete,
        RawVar::Malformed => VarRead::Malformed,
    }
}

enum RawVar {
    Val { value: u64, len: usize },
    Incomplete,
    Malformed,
}

/// Read a varint of at most `max` bytes; the value accumulates in 64 bits.
fn read_varint_raw(buf: &Vec<u8>, pos: usize, max: usize) -> (r: RawVar)
    requires
        pos <= buf.len(),
        1 <= max <= 9,
    ensures
        (match varint_parse(buf@.skip(pos as int), max as nat) {
            Some(p) => r matches RawVar::Val { value, len } && value as nat == p.0 && len as nat
                == p.1,
            None => if varint_incomplete(buf@.skip(pos as int), max as nat) {
                r is Incomplete
            } else {
                r is Malformed
            },
        }),
    decreases max,
{
    proof {
        lemma_varint_parse_bound(buf@.skip(pos as int), max as nat);
    }
    if pos == buf.len() {
        return RawVar::Incomplete;
    }
    let b: u8 = buf[pos];
    if b < 128 {
        return RawVar::Val { value: b as u64, len: 1 };
    }
    if max == 1 {
        proof {
            assert(buf@.skip(pos as int)[0] == b);
            assert(varint_parse(buf@.skip(pos as int).drop_first(), 0) is None);
            assert(varint_parse(buf@.skip(pos as int), max as nat) is None);
            assert(!varint_incomplete(buf@.skip(pos as int), max as nat));
        }
        return RawVar::Malformed;
    }
    proof {
        assert(buf@.skip(pos as int).drop_first() =~= buf@.skip(pos as int + 1));
    }
    match read_varint_raw(buf, pos + 1, max - 1) {
        RawVar::Val { value, len } => {
            proof {
                lemma_varint_parse_bound(buf@.skip(pos as int + 1), (max - 1) as nat);
                let e: nat = 7 * ((max - 1) as nat);
                if e < 56 {
                    vstd::arithmetic::power2::lemma_pow2_strictly_increases(e, 56);
                }
                lemma2_to64();
                vstd::arithmetic::power2::lemma2_to64_rest();
                match varint_parse(buf@.skip(pos as int + 1), (max - 1) as nat) {
                    Some(p) => {
                        assert(value as nat == p.0);
                        assert(p.0 < pow2(e));
                        assert(value as nat <= 0xff_ffff_ffff_ffff);
                    },
                    None => {
                        assert(false);
                    },
                }
            }
            RawVar::Val { value: (b - 128) as u64 + 128 * value, len: len + 1 }
        },
        RawVar::Incomplete => RawVar::Incomplete,
        RawVar::Malformed => RawVar::Malformed,
    }
}

} // verus!

verus! {

/// Big-endian byte image of `v`, `n` bytes wide (the low `8n` bits of `v`).
pub open spec fn be_bytes(v: nat, n: nat) -> Seq<u8>
    decreases n,
{
    if n == 0 {
        Seq::empty()
    } else {
        be_bytes(v / 256, (n - 1) as nat).push((v % 256) as u8)
    }
}

/// Value of a big-endian byte string.
pub open spec fn be_value(s: Seq<u8>) -> nat
    decreases s.len(),
{
    if s.len() == 0 {
        0
    } else {
        be_value(s.drop_last()) * 256 + s.last() as nat
    }
}

pub proof fn lemma_be_bytes_len(v: nat, n: nat)
    ensures
        be_bytes(v, n).len() == n,
    decreases n,
{
    if n > 0 {
        lemma_be_bytes_len(v / 256, (n - 1) as nat);
    }
}

/// Big-endian round trip for any value that fits in `n` bytes.
pub proof fn lemma_be_round_trip(v: nat, n: nat)
    requires
        v < pow2(8 * n),
    ensures
        be_value(be_bytes(v, n)) == v,
    decreases n,
{
    if n == 0 {
        lemma2_to64();
        assert(pow2(0) == 1);
    } else {
        lemma_be_bytes_len(v / 256, (n - 1) as nat);
        assert(be_bytes(v, n).drop_last() =~= be_bytes(v / 256, (n - 1) as nat));
        lemma_pow2_adds(8, 8 * (n - 1) as nat);
        assert(8 * n == 8 + 8 * (n - 1) as nat);
        lemma2_to64();
        assert(v / 256 < pow2(8 * (n - 1) as nat)) by (nonlinear_arith)
            requires
                v < 256 * pow2(8 * (n - 1) as nat),
        ;
        lemma_be_round_trip(v / 256, (n - 1) as nat);
    }
}

/// Values of big-endian byte strings are bounded by their width.
pub proof fn lemma_be_value_bound(s: Seq<u8>)
    ensures
        be_value(s) < pow2(8 * s.len()),
    decreases s.len(),
{
    lemma2_to64();
    if s.len() > 0 {
        lemma_be_value_bound(s.drop_last());
        lemma_pow2_adds(8 * (s.len() - 1) as nat, 8);
        assert(8 * s.len() == 8 * (s.len() - 1) as nat + 8);
        assert(be_value(s.drop_last()) * 256 + s.last() < pow2(8 * (s.len() - 1) as nat) * 256)
            by (nonlinear_arith)
            requires
                be_value(s.drop_last()) + 1 <= pow2(8 * (s.len() - 1) as nat),
                s.last() < 256,
        ;
    }
}

/// Append the `n`-byte big-endian image of `v`.
pub fn write_be_u64(out: &mut Vec<u8>, v: u64, n: usize)
    requires
        n <= 8,
    ensures
        final(out)@ == old(out)@ + be_bytes(v as nat, n as nat),
    decreases n,
{
    if n > 0 {
        write_be_u64(out, v / 256, n - 1);
        out.push((v % 256) as u8);
        assert(out@ =~= old(out)@ + be_bytes(v as nat, n as nat));
    } else {
        assert(out@ =~= old(out)@ + be_bytes(v as nat, 0));
    }
}

/// Append the `n`-byte big-endian image of a 128-bit value.
pub fn write_be_u128(out: &mut Vec<u8>, v: u128, n: usize)
    requires
        n <= 16,
    ensures
        final(out)@ == old(out)@ + be_bytes(v as nat, n as nat),
    decreases n,
{
    if n > 0 {
        write_be_u128(out, v / 256, n - 1);
        out.push((v % 256) as u8);
        assert(out@ =~= old(out)@ + be_bytes(v as nat, n as nat));
    } else {
        assert(out@ =~= old(out)@ + be_bytes(v as nat, 0));
    }
}

/// Read `n` big-endian bytes at `pos` as a 64-bit value.
pub fn read_be_u64(buf: &Vec<u8>, pos: usize, n: usize) -> (r: u64)
    requires
        n <= 8,
        pos + n <= buf.len(),
    ensures
        r as nat == be_value(buf@.subrange(pos as int, pos as int + n as int)),
    decreases n,
{
    proof {
        lemma_be_value_bound(buf@.subrange(pos as int, pos as int + n as int));
        lemma_be_value_bound(buf@.subrange(pos as int, pos as int + n as int - 1));
        lemma2_to64();
        vstd::arithmetic::power2::lemma2_to64_rest();
        if 8 * n < 64 {
            vstd::arithmetic::power2::lemma_pow2_strictly_increases(8 * n as nat, 64);
        }
        if n > 0 && 8 * (n - 1) < 64 {
            vstd::arithmetic::power2::lemma_pow2_strictly_increases(8 * (n - 1) as nat, 64);
        }
    }
    if n == 0 {
        0
    } else {
        let hi: u64 = read_be_u64(buf, pos, n - 1);
        let s = Ghost(buf@.subrange(pos as int, pos as int + n as int));
        proof {
            assert(s@.drop_last() =~= buf@.subrange(pos as int, pos as int + n as int - 1));
            lemma_be_value_bound(s@);
            assert(be_value(s@) == be_value(s@.drop_last()) * 256 + s@.last());
            assert(s@.last() == buf@[pos as int + n as int - 1]);
        }
        hi * 256 + buf[pos + n - 1] as u64
    }
}

/// Read `n` big-endian bytes at `pos` as a 128-bit value.
pub fn read_be_u128(buf: &Vec<u8>, pos: usize, n: usize) -> (r: u128)
    requires
        n <= 16,
        pos + n <= buf.len(),
    ensures
        r as nat == be_value(buf@.subrange(pos as int, pos as int + n as int)),
    decreases n,
{
    if n == 0 {
        0
    } else {
        let hi: u128 = read_be_u128(buf, pos, n - 1);
        let s = Ghost(buf@.subrange(pos as int, pos as int + n as int));
        proof {
            assert(s@.drop_last() =~= buf@.subrange(pos as int, pos as int + n as int - 1));
            lemma_be_value_bound(s@.drop_last());
            if 8 * (n - 1) < 120 {
                vstd::arithmetic::power2::lemma_pow2_strictly_increases(8 * (n - 1) as nat, 120);
            }
            lemma_pow2_adds(64, 56);
            lemma2_to64();
            vstd::arithmetic::power2::lemma2_to64_rest();
            assert(pow2(120) == 0x10000000000000000 * 0x100000000000000);
            assert(hi as nat <= pow2(120) - 1);
            assert(be_value(s@) == be_value(s@.drop_last()) * 256 + s@.last());
            assert(s@.last() == buf@[pos as int + n as int - 1]);
        }
        hi * 256 + buf[pos + n - 1] as u128
    }
}

/// Copy `buf[start..end]` into a fresh vector.
pub fn copy_range(buf: &Vec<u8>, start: usize, end: usize) -> (r: Vec<u8>)
    requires
        start <= end <= buf.len(),
    ensures
        r@ == buf@.subrange(start as int, end as int),
{
    vstd::slice::slice_to_vec(vstd::slice::slice_subrange(buf.as_slice(), start, end))
}

} // verus!

verus! {

use vstd::utf8::encode_utf8;
use vstd::utf8::decode_utf8;
use vstd::utf8::valid_utf8;
use vstd::string::StringSliceAdditionalSpecFns;
use crate::error::ReadError;

/// A successful varint parse never consumes more than the input.
pub proof fn lemma_varint_parse_consumed(s: Seq<u8>, max: nat)
    ensures
        varint_parse(s, max) matches Some(p) ==> 1 <= p.1 <= s.len(),
    decreases max,
{
    if max > 0 && s.len() > 0 && s[0] >= 128 {
        lemma_varint_parse_consumed(s.drop_first(), (max - 1) as nat);
    }
}

/// Byte image of a varint-length-prefixed byte array.
pub open spec fn bytes_wire(b: Seq<u8>) -> Seq<u8> {
    varint_bytes(b.len()) + b
}

/// Parse a varint-length-prefixed byte array. Lengths beyond 32 bits are
/// malformed: the prefix is a 32-bit varint.
pub open spec fn bytes_parse(s: Seq<u8>) -> Option<(Seq<u8>, nat)> {
    match varint_parse(s, 5) {
        Some(p) => if p.0 <= u32::MAX as nat && p.1 + p.0 <= s.len() {
            Some((s.subrange(p.1 as int, (p.1 + p.0) as int), p.1 + p.0))
        } else {
            None
        },
        None => None,
    }
}

pub proof fn lemma_bytes_round_trip(b: Seq<u8>, rest: Seq<u8>)
    requires
        b.len() <= u32::MAX as nat,
    ensures
        bytes_wire(b).len() == varint_bytes(b.len()).len() + b.len(),
        bytes_parse(bytes_wire(b) + rest) == Some((b, bytes_wire(b).len())),
{
    lemma2_to64();
    vstd::arithmetic::power2::lemma2_to64_rest();
    lemma_varint_bytes_len(b.len(), 5);
    lemma_varint_round_trip(b.len(), b + rest, 5);
    let s = bytes_wire(b) + rest;
    let l = varint_bytes(b.len()).len();
    assert(s =~= varint_bytes(b.len()) + (b + rest));
    assert(s.subrange(l as int, (l + b.len()) as int) =~= b);
}

/// Byte image of a length-prefixed UTF-8 string: the prefix counts bytes.
pub open spec fn string_wire(s: Seq<char>) -> Seq<u8> {
    bytes_wire(encode_utf8(s))
}

/// Parse a length-prefixed UTF-8 string.
pub open spec fn string_parse(s: Seq<u8>) -> Option<(Seq<char>, nat)> {
    match bytes_parse(s) {
        Some(p) => if valid_utf8(p.0) {
            Some((decode_utf8(p.0), p.1))
        } else {
            None
        },
        None => None,
    }
}

pub proof fn lemma_string_round_trip(s: Seq<char>, rest: Seq<u8>)
    requires
        encode_utf8(s).len() <= u32::MAX as nat,
    ensures
        string_parse(string_wire(s) + rest) == Some((s, string_wire(s).len())),
{
    broadcast use vstd::utf8::encode_utf8_valid_utf8;
    broadcast use vstd::utf8::encode_utf8_decode_utf8;

    lemma_bytes_round_trip(encode_utf8(s), rest);
}

/// Append a length-prefixed byte array.
pub fn write_bytes_prefixed(out: &mut Vec<u8>, b: &Vec<u8>)
    requires
        b@.len() <= u32::MAX as nat,
    ensures
        final(out)@ == old(out)@ + bytes_wire(b@),
{
    write_varint_u32(out, b.len() as u32);
    out.extend_from_slice(b.as_slice());
    assert(out@ =~= old(out)@ + bytes_wire(b@));
}

/// Read a length-prefixed byte array starting at `pos`; on success the
/// returned position is just past it.
pub fn read_bytes_prefixed(buf: &Vec<u8>, pos: usize) -> (r: Result<(Vec<u8>, usize), ReadError>)
    requires
        pos <= buf.len(),
    ensures
        (match bytes_parse(buf@.skip(pos as int)) {
            Some(p) => r matches Ok(t) && t.0@ == p.0 && t.1 as nat == pos as nat + p.1 && t.1
                <= buf.len(),
            None => r is Err,
        }),
{
    proof {
        lemma_varint_parse_consumed(buf@.skip(pos as int), 5);
    }
    match read_varint_u32(buf, pos) {
        VarRead::Val { value, len } => {
            let start: usize = pos + len;
            if value as usize > buf.len() - start {
                return Err(ReadError::Decode);
            }
            let end: usize = start + value as usize;
            let body = copy_range(buf, start, end);
            proof {
                let s = buf@.skip(pos as int);
                match varint_parse(s, 5) {
                    Some(p) => {
                        assert(body@ =~= s.subrange(p.1 as int, (p.1 + p.0) as int));
                    },
                    None => {
                        assert(false);
                    },
                }
            }
            Ok((body, end))
        },
        VarRead::Incomplete => Err(ReadError::Decode),
        VarRead::Malformed => Err(ReadError::MalformedVarInt),
    }
}

/// Relies on std's String::from_utf8: it succeeds exactly on valid UTF-8
/// input, and the resulting string's characters decode those bytes.
#[verifier::external_body]
fn string_from_utf8(bytes: Vec<u8>) -> (r: Option<String>)
    ensures
        r matches Some(s) ==> valid_utf8(bytes@) && s@ == decode_utf8(bytes@),
        r is None ==> !valid_utf8(bytes@),
{
    match String::from_utf8(bytes) {
        Ok(s) => Some(s),
        Err(_) => None,
    }
}

/// Append a length-prefixed UTF-8 string.
pub fn write_string(out: &mut Vec<u8>, s: &str)
    requires
        s.spec_bytes().len() <= u32::MAX as nat,
    ensures
        final(out)@ == old(out)@ + string_wire(s@),
{
    let b: &[u8] = s.as_bytes();
    write_varint_u32(out, b.len() as u32);
    out.extend_from_slice(b);
    assert(out@ =~= old(out)@ + string_wire(s@));
}

/// Read a length-prefixed UTF-8 string starting at `pos`.
pub fn read_string(buf: &Vec<u8>, pos: usize) -> (r: Result<(String, usize), ReadError>)
    requires
        pos <= buf.len(),
    ensures
        (match string_parse(buf@.skip(pos as int)) {
            Some(p) => r matches Ok(t) && t.0@ == p.0 && t.1 as nat == pos as nat + p.1 && t.1
                <= buf.len(),
            None => r is Err,
        }),
{
    match read_bytes_prefixed(buf, pos) {
        Ok((body, end)) => {
            match string_from_utf8(body) {
                Some(s) => Ok((s, end)),
                None => Err(ReadError::Decode),
            }
        },
        Err(e) => Err(e),
    }
}

/// Append one byte standing for a boolean.
pub fn write_bool(out: &mut Vec<u8>, b: bool)
    ensures
        final(out)@ == old(out)@ + seq![(if b { 1u8 } else { 0u8 })],
{
    out.push(if b { 1u8 } else { 0u8 });
    assert(out@ =~= old(out)@ + seq![(if b { 1u8 } else { 0u8 })]);
}

} // verus!

verus! {

/// Concatenated varint images of a sequence of 32-bit values.
pub open spec fn varints_cat(v: Seq<u32>) -> Seq<u8>
    decreases v.len(),
{
    if v.len() == 0 {
        Seq::empty()
    } else {
        varint_bytes(v[0] as nat) + varints_cat(v.drop_first())
    }
}

/// Byte image of a varint-count-prefixed sequence of varints.
pub open spec fn u32s_wire(v: Seq<u32>) -> Seq<u8> {
    varint_bytes(v.len()) + varints_cat(v)
}

/// Parse exactly `count` varints, each a 32-bit value.
pub open spec fn varints_parse(s: Seq<u8>, count: nat) -> Option<(Seq<u32>, nat)>
    decreases count,
{
    if count == 0 {
        Some((Seq::empty(), 0))
    } else {
        match varint_parse(s, 5) {
            Some(p) => if p.0 <= u32::MAX as nat {
                match varints_parse(s.skip(p.1 as int), (count - 1) as nat) {
                    Some(q) => Some((seq![p.0 as u32] + q.0, p.1 + q.1)),
                    None => None,
                }
            } else {
                None
            },
            None => None,
        }
    }
}

/// Parse a varint-count-prefixed sequence of varints.
pub open spec fn u32s_parse(s: Seq<u8>) -> Option<(Seq<u32>, nat)> {
    match varint_parse(s, 5) {
        Some(p) => if p.0 <= u32::MAX as nat {
            match varints_parse(s.skip(p.1 as int), p.0) {
                Some(q) => Some((q.0, p.1 + q.1)),
                None => None,
            }
        } else {
            None
        },
        None => None,
    }
}

pub proof fn lemma_varints_cat_push(v: Seq<u32>, x: u32)
    ensures
        varints_cat(v.push(x)) == varints_cat(v) + varint_bytes(x as nat),
    decreases v.len(),
{
    if v.len() == 0 {
        assert(v.push(x).drop_first() =~= Seq::<u32>::empty());
        assert(v.push(x)[0] == x);
        assert(varints_cat(Seq::<u32>::empty()) == Seq::<u8>::empty());
        assert(varints_cat(v.push(x)) =~= varints_cat(v) + varint_bytes(x as nat));
    } else {
        assert(v.push(x).drop_first() =~= v.drop_first().push(x));
        assert(v.push(x)[0] == v[0]);
        lemma_varints_cat_push(v.drop_first(), x);
        assert(varints_cat(v.push(x)) == varint_bytes(v[0] as nat) + varints_cat(
            v.drop_first().push(x),
        ));
        assert(varints_cat(v.push(x)) =~= varints_cat(v) + varint_bytes(x as nat));
    }
}

pub proof fn lemma_varints_round_trip(v: Seq<u32>, rest: Seq<u8>)
    ensures
        varints_parse(varints_cat(v) + rest, v.len()) == Some((v, varints_cat(v).len())),
    decreases v.len(),
{
    lemma2_to64();
    vstd::arithmetic::power2::lemma2_to64_rest();
    if v.len() == 0 {
        assert(varints_cat(v) + rest =~= rest);
        assert(v =~= Seq::<u32>::empty());
    } else {
        let s = varints_cat(v) + rest;
        lemma_varint_bytes_len(v[0] as nat, 5);
        lemma_varint_round_trip(v[0] as nat, varints_cat(v.drop_first()) + rest, 5);
        assert(s =~= varint_bytes(v[0] as nat) + (varints_cat(v.drop_first()) + rest));
        let l = varint_bytes(v[0] as nat).len();
        assert(s.skip(l as int) =~= varints_cat(v.drop_first()) + rest);
        lemma_varints_round_trip(v.drop_first(), rest);
        assert(seq![v[0]] + v.drop_first() =~= v);
    }
}

pub proof fn lemma_u32s_round_trip(v: Seq<u32>, rest: Seq<u8>)
    requires
        v.len() <= u32::MAX as nat,
    ensures
        u32s_parse(u32s_wire(v) + rest) == Some((v, u32s_wire(v).len())),
{
    lemma2_to64();
    vstd::arithmetic::power2::lemma2_to64_rest();
    lemma_varint_bytes_len(v.len(), 5);
    lemma_varint_round_trip(v.len(), varints_cat(v) + rest, 5);
    let s = u32s_wire(v) + rest;
    assert(s =~= varint_bytes(v.len()) + (varints_cat(v) + rest));
    let l = varint_bytes(v.len()).len();
    assert(s.skip(l as int) =~= varints_cat(v) + rest);
    lemma_varints_round_trip(v, rest);
}

/// Append a varint-count-prefixed sequence of varints.
pub fn write_u32s(out: &mut Vec<u8>, v: &Vec<u32>)
    requires
        v@.len() <= u32::MAX as nat,
    ensures
        final(out)@ == old(out)@ + u32s_wire(v@),
{
    write_varint_u32(out, v.len() as u32);
    let ghost mid = out@;
    assert(varints_cat(v@.take(0)) =~= Seq::<u8>::empty());
    assert(out@ =~= mid + varints_cat(v@.take(0)));
    for i in 0..v.len()
        invariant
            out@ == mid + varints_cat(v@.take(i as int)),
            mid == old(out)@ + varint_bytes(v@.len()),
    {
        write_varint_u32(out, v[i]);
        proof {
            assert(v@.take(i + 1) =~= v@.take(i as int).push(v@[i as int]));
            lemma_varints_cat_push(v@.take(i as int), v@[i as int]);
            assert(out@ =~= mid + varints_cat(v@.take(i + 1)));
        }
    }
    proof {
        assert(v@.take(v@.len() as int) =~= v@);
        assert(out@ =~= old(out)@ + u32s_wire(v@));
    }
}

/// Read a varint-count-prefixed sequence of varints starting at `pos`.
pub fn read_u32s(buf: &Vec<u8>, pos: usize) -> (r: Result<(Vec<u32>, usize), ReadError>)
    requires
        pos <= buf.len(),
    ensures
        (match u32s_parse(buf@.skip(pos as int)) {
            Some(p) => r matches Ok(t) && t.0@ == p.0 && t.1 as nat == pos as nat + p.1 && t.1
                <= buf.len(),
            None => r is Err,
        }),
{
    proof {
        lemma_varint_parse_consumed(buf@.skip(pos as int), 5);
    }
    let (count, start) = match read_varint_u32(buf, pos) {
        VarRead::Val { value, len } => (value, pos + len),
        VarRead::Incomplete => {
            return Err(ReadError::Decode);
        },
        VarRead::Malformed => {
            return Err(ReadError::MalformedVarInt);
        },
    };
    let ghost base = buf@.skip(start as int);
    proof {
        assert(buf@.skip(pos as int).skip((start - pos) as int) =~= buf@.skip(start as int));
    }
    let mut acc: Vec<u32> = Vec::new();
    let mut cur: usize = start;
    let mut i: u32 = 0;
    assert(base.skip(0) =~= base);
    while i < count
        invariant
            i <= count,
            pos <= start,
            start <= cur <= buf.len(),
            pos <= buf.len(),
            acc@.len() == i as nat,
            base == buf@.skip(start as int),
            buf@.skip(pos as int).skip((start - pos) as int) == base,
            varint_parse(buf@.skip(pos as int), 5) == Some::<(nat, nat)>(
                (count as nat, (start - pos) as nat),
            ),
            (match varints_parse(buf@.skip(cur as int), (count - i) as nat) {
                Some(q) => varints_parse(base, count as nat) == Some::<(Seq<u32>, nat)>(
                    (acc@ + q.0, (cur - start) as nat + q.1),
                ),
                None => varints_parse(base, count as nat) is None,
            }),
        decreases count - i,
    {
        proof {
            lemma_varint_parse_consumed(buf@.skip(cur as int), 5);
        }
        match read_varint_u32(buf, cur) {
            VarRead::Val { value, len } => {
                proof {
                    assert(buf@.skip(cur as int).skip(len as int) =~= buf@.skip(
                        cur as int + len as int,
                    ));
                }
                let ghost prev_acc = acc@;
                acc.push(value);
                let ghost old_cur = cur as int;
                cur = cur + len;
                i = i + 1;
                proof {
                    match varints_parse(buf@.skip(cur as int), (count - i) as nat) {
                        Some(q) => {
                            assert(prev_acc.push(value) + q.0 =~= prev_acc + (seq![value] + q.0));
                        },
                        None => {},
                    }
                }
            },
            VarRead::Incomplete => {
                proof {
                    assert(varint_parse(buf@.skip(cur as int), 5) is None);
                    assert(count - i > 0);
                    assert(varints_parse(buf@.skip(cur as int), (count - i) as nat) is None);
                    assert(varints_parse(base, count as nat) is None);
                    assert(varints_parse(
                        buf@.skip(pos as int).skip((start - pos) as int),
                        count as nat,
                    ) is None);
                    assert(count as nat <= u32::MAX as nat);
                    assert(u32s_parse(buf@.skip(pos as int)) is None);
                }
                return Err(ReadError::Decode);
            },
            VarRead::Malformed => {
                proof {
                    assert(match varint_parse(buf@.skip(cur as int), 5) {
                        Some(p) => p.0 > u32::MAX as nat,
                        None => true,
                    });
                    assert(count - i > 0);
                    assert(varints_parse(buf@.skip(cur as int), (count - i) as nat) is None);
                    assert(varints_parse(base, count as nat) is None);
                    assert(u32s_parse(buf@.skip(pos as int)) is None);
                }
                return Err(ReadError::MalformedVarInt);
            },
        }
    }
    proof {
        assert(varints_parse(buf@.skip(cur as int), 0) == Some::<(Seq<u32>, nat)>(
            (Seq::empty(), 0),
        ));
        assert(acc@ + Seq::<u32>::empty() =~= acc@);
    }
    Ok((acc, cur))
}

} // verus!

verus! {

/// Concatenated 8-byte big-endian images of a sequence of 64-bit words.
pub open spec fn words_cat(v: Seq<u64>) -> Seq<u8>
    decreases v.len(),
{
    if v.len() == 0 {
        Seq::empty()
    } else {
        be_bytes(v[0] as nat, 8) + words_cat(v.drop_first())
    }
}

/// Byte image of a varint-count-prefixed sequence of 64-bit words.
pub open spec fn u64s_wire(v: Seq<u64>) -> Seq<u8> {
    varint_bytes(v.len()) + words_cat(v)
}

/// Parse a varint-count-prefixed sequence of 8-byte big-endian words.
pub open spec fn u64s_parse(s: Seq<u8>) -> Option<(Seq<u64>, nat)> {
    match varint_parse(s, 5) {
        Some(p) => if p.0 <= u32::MAX as nat && p.1 + 8 * p.0 <= s.len() {
            Some(
                (
                    Seq::new(
                        p.0,
                        |i: int|
                            be_value(
                                s.subrange(
                                    p.1 as int + 8 * i,
                                    p.1 as int + 8 * i + 8,
                                ),
                            ) as u64,
                    ),
                    p.1 + 8 * p.0,
                ),
            )
        } else {
            None
        },
        None => None,
    }
}

pub proof fn lemma_words_cat_len(v: Seq<u64>)
    ensures
        words_cat(v).len() == 8 * v.len(),
    decreases v.len(),
{
    if v.len() > 0 {
        lemma_be_bytes_len(v[0] as nat, 8);
        lemma_words_cat_len(v.drop_first());
    }
}

pub proof fn lemma_words_cat_index(v: Seq<u64>, i: int)
    requires
        0 <= i < v.len(),
    ensures
        words_cat(v).subrange(8 * i, 8 * i + 8) == be_bytes(v[i] as nat, 8),
    decreases i,
{
    lemma_words_cat_len(v);
    lemma_words_cat_len(v.drop_first());
    lemma_be_bytes_len(v[0] as nat, 8);
    if i == 0 {
        assert(words_cat(v).subrange(0, 8) =~= be_bytes(v[0] as nat, 8));
    } else {
        lemma_words_cat_index(v.drop_first(), i - 1);
        assert(words_cat(v).subrange(8 * i, 8 * i + 8) =~= words_cat(v.drop_first()).subrange(
            8 * (i - 1),
            8 * (i - 1) + 8,
        ));
    }
}

pub proof fn lemma_words_cat_push(v: Seq<u64>, x: u64)
    ensures
        words_cat(v.push(x)) == words_cat(v) + be_bytes(x as nat, 8),
    decreases v.len(),
{
    if v.len() == 0 {
        assert(v.push(x).drop_first() =~= Seq::<u64>::empty());
        assert(v.push(x)[0] == x);
        assert(words_cat(Seq::<u64>::empty()) == Seq::<u8>::empty());
        assert(words_cat(v.push(x)) =~= words_cat(v) + be_bytes(x as nat, 8));
    } else {
        assert(v.push(x).drop_first() =~= v.drop_first().push(x));
        assert(v.push(x)[0] == v[0]);
        lemma_words_cat_push(v.drop_first(), x);
        assert(words_cat(v.push(x)) =~= words_cat(v) + be_bytes(x as nat, 8));
    }
}

pub proof fn lemma_u64s_round_trip(v: Seq<u64>, rest: Seq<u8>)
    requires
        v.len() <= u32::MAX as nat,
    ensures
        u64s_parse(u64s_wire(v) + rest) == Some((v, u64s_wire(v).len())),
{
    lemma2_to64();
    vstd::arithmetic::power2::lemma2_to64_rest();
    lemma_varint_bytes_len(v.len(), 5);
    lemma_varint_round_trip(v.len(), words_cat(v) + rest, 5);
    lemma_words_cat_len(v);
    let s = u64s_wire(v) + rest;
    let l = varint_bytes(v.len()).len() as int;
    assert(s =~= varint_bytes(v.len()) + (words_cat(v) + rest));
    match u64s_parse(s) {
        Some(p) => {
            assert forall|i: int| 0 <= i < v.len() implies p.0[i] == v[i] by {
                lemma_words_cat_index(v, i);
                assert(s.subrange(l + 8 * i, l + 8 * i + 8) =~= words_cat(v).subrange(
                    8 * i,
                    8 * i + 8,
                ));
                lemma_be_round_trip(v[i] as nat, 8);
            }
            assert(p.0 =~= v);
        },
        None => {
            assert(false);
        },
    }
}

/// Append a varint-count-prefixed sequence of 8-byte big-endian words.
pub fn write_u64s(out: &mut Vec<u8>, v: &Vec<u64>)
    requires
        v@.len() <= u32::MAX as nat,
    ensures
        final(out)@ == old(out)@ + u64s_wire(v@),
{
    write_varint_u32(out, v.len() as u32);
    let ghost mid = out@;
    assert(words_cat(v@.take(0)) =~= Seq::<u8>::empty());
    assert(out@ =~= mid + words_cat(v@.take(0)));
    for i in 0..v.len()
        invariant
            out@ == mid + words_cat(v@.take(i as int)),
            mid == old(out)@ + varint_bytes(v@.len()),
    {
        write_be_u64(out, v[i], 8);
        proof {
            assert(v@.take(i + 1) =~= v@.take(i as int).push(v@[i as int]));
            lemma_words_cat_push(v@.take(i as int), v@[i as int]);
            assert(out@ =~= mid + words_cat(v@.take(i + 1)));
        }
    }
    proof {
        assert(v@.take(v@.len() as int) =~= v@);
        assert(out@ =~= old(out)@ + u64s_wire(v@));
    }
}

/// Read a varint-count-prefixed sequence of 8-byte big-endian words.
pub fn read_u64s(buf: &Vec<u8>, pos: usize) -> (r: Result<(Vec<u64>, usize), ReadError>)
    requires
        pos <= buf.len(),
    ensures
        (match u64s_parse(buf@.skip(pos as int)) {
            Some(p) => r matches Ok(t) && t.0@ == p.0 && t.1 as nat == pos as nat + p.1 && t.1
                <= buf.len(),
            None => r is Err,
        }),
{
    proof {
        lemma_varint_parse_consumed(buf@.skip(pos as int), 5);
    }
    let (count, start) = match read_varint_u32(buf, pos) {
        VarRead::Val { value, len } => (value, pos + len),
        VarRead::Incomplete => {
            return Err(ReadError::Decode);
        },
        VarRead::Malformed => {
            return Err(ReadError::MalformedVarInt);
        },
    };
    let avail: usize = buf.len() - start;
    if count as usize > avail / 8 {
        proof {
            assert(u64s_parse(buf@.skip(pos as int)) is None);
        }
        return Err(ReadError::Decode);
    }
    let ghost s = buf@.skip(pos as int);
    let ghost words = (match u64s_parse(s) {
        Some(p) => p.0,
        None => Seq::empty(),
    });
    proof {
        assert(8 * count as nat <= avail as nat);
        assert(u64s_parse(s) is Some);
    }
    let mut acc: Vec<u64> = Vec::new();
    let mut i: usize = 0;
    while i < count as usize
        invariant
            i <= count as usize,
            pos <= start <= buf.len(),
            start + 8 * count as nat <= buf.len(),
            s == buf@.skip(pos as int),
            varint_parse(s, 5) == Some::<(nat, nat)>((count as nat, (start - pos) as nat)),
            u64s_parse(s) matches Some(p) && p.0 == words && p.1 == (start - pos) as nat + 8
                * count as nat,
            words.len() == count as nat,
            acc@.len() == i,
            forall|j: int| 0 <= j < i ==> acc@[j] == words[j],
        decreases count as int - i as int,
    {
        let w: u64 = read_be_u64(buf, start + 8 * i, 8);
        proof {
            let j = i as int;
            assert(buf@.subrange(
                start as int + 8 * j,
                start as int + 8 * j + 8,
            ) =~= s.subrange((start - pos) as int + 8 * j, (start - pos) as int + 8 * j + 8));
            assert(words[j] == be_value(
                s.subrange((start - pos) as int + 8 * j, (start - pos) as int + 8 * j + 8),
            ) as u64);
        }
        acc.push(w);
        i = i + 1;
    }
    proof {
        assert(acc@ =~= words);
    }
    Ok((acc, start + 8 * count as usize))
}

} // verus!

verus! {

/// Varint round trip for 32-bit values: decoding the encoding of any `n`
/// yields `n` back, and the encoding is one to five bytes long.
pub proof fn lemma_varint_u32_round_trip(n: u32)
    ensures
        varint_parse(varint_bytes(n as nat), 5) == Some((n as nat, varint_bytes(n as nat).len())),
        1 <= varint_bytes(n as nat).len() <= 5,
{
    lemma2_to64();
    vstd::arithmetic::power2::lemma2_to64_rest();
    lemma_varint_bytes_len(n as nat, 5);
    lemma_varint_round_trip(n as nat, Seq::empty(), 5);
    assert(varint_bytes(n as nat) + Seq::<u8>::empty() =~= varint_bytes(n as nat));
}

} // verus!
