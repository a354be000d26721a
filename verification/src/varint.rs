//! Zigzag varint encoding of 64-bit signed integers.
//!
//! Zigzag maps signed integers to unsigned ones (0 -> 0, -1 -> 1, 1 -> 2,
//! -2 -> 3, ...), and the unsigned value is then written as base-128 groups,
//! least significant group first, with the high bit of every byte but the
//! last one set.

use vstd::prelude::*;

use crate::error::{varint_error, ErrorModel, HrestError};

verus! {

/// Largest number of bytes a 64-bit varint can occupy.
pub const MAX_VARINT_BYTES: usize = 10;

/// The zigzag image of a signed integer.
pub open spec fn zigzag(n: int) -> nat {
    if n >= 0 {
        (2 * n) as nat
    } else {
        (-2 * n - 1) as nat
    }
}

/// The signed integer whose zigzag image is `u`.
pub open spec fn unzigzag(u: nat) -> int {
    if u % 2 == 0 {
        (u / 2) as int
    } else {
        -((u / 2) as int) - 1
    }
}

/// Base-128 groups of `u`, least significant first, continuation bit set on
/// every byte but the last.
pub open spec fn leb128(u: nat) -> Seq<u8>
    decreases u,
{
    if u < 128 {
        seq![u as u8]
    } else {
        seq![(u % 128 + 128) as u8] + leb128(u / 128)
    }
}

/// The varint bytes of a signed integer.
pub open spec fn spec_encode_varint(n: i64) -> Seq<u8> {
    leb128(zigzag(n as int))
}

pub open spec fn pow128(i: nat) -> nat
    decreases i,
{
    if i == 0 {
        1
    } else {
        128 * pow128((i - 1) as nat)
    }
}

/// The value of the low seven bits of the first `n` bytes of `s`, as
/// base-128 digits, least significant first.
pub open spec fn accumulated(s: Seq<u8>, n: nat) -> nat
    decreases n,
{
    if n == 0 {
        0
    } else {
        accumulated(s, (n - 1) as nat) + (s[n - 1] % 128) as nat * pow128((n - 1) as nat)
    }
}

/// Why a varint could not be read.
#[derive(Clone, Copy, PartialEq, Eq, Debug)]
pub enum VarintFault {
    /// The value would exceed 64 bits: a last tenth byte carries more than
    /// bit 63, or an eleventh byte follows ten continuation bytes.
    Overflow,
    /// The bytes ended before a byte without the continuation bit.
    Truncated,
}

/// Reading a varint from `s`, looking at position `i` next: the value and
/// the number of bytes consumed, or why it failed.
pub open spec fn decode_varint_from(s: Seq<u8>, i: nat) -> Result<(int, nat), VarintFault>
    decreases s.len() - i,
{
    if i >= s.len() {
        Err(VarintFault::Truncated)
    } else if i >= 10 {
        Err(VarintFault::Overflow)
    } else if s[i as int] < 128 {
        if i == 9 && s[9] > 1 {
            Err(VarintFault::Overflow)
        } else {
            Ok((unzigzag(accumulated(s, i + 1)), i + 1))
        }
    } else {
        decode_varint_from(s, i + 1)
    }
}

/// Reading a varint from the start of `s`.
pub open spec fn spec_decode_varint(s: Seq<u8>) -> Result<(int, nat), VarintFault> {
    decode_varint_from(s, 0)
}


/// The error that a varint fault is reported as.
pub open spec fn varint_fault_error(f: VarintFault) -> ErrorModel {
    match f {
        VarintFault::Overflow => ErrorModel::VarintError(
            "Varint overflow: exceeds 64-bit capacity"@,
        ),
        VarintFault::Truncated => ErrorModel::VarintError(
            "Varint truncated: stream ended before terminating byte"@,
        ),
    }
}

proof fn lemma_leb128_bytes(u: nat)
    ensures
        leb128(u).len() >= 1,
        leb128(u).last() < 128,
        forall|j: int| 0 <= j < leb128(u).len() - 1 ==> leb128(u)[j] >= 128,
    decreases u,
{
    if u >= 128 {
        lemma_leb128_bytes(u / 128);
        let t = leb128(u / 128);
        assert(leb128(u) == seq![(u % 128 + 128) as u8] + t);
        assert forall|j: int| 0 <= j < leb128(u).len() - 1 implies leb128(u)[j] >= 128 by {
            if j > 0 {
                assert(leb128(u)[j] == t[j - 1]);
            }
        }
    }
}

proof fn lemma_leb128_len(u: nat, k: nat)
    requires
        k >= 1,
        u < pow128(k),
    ensures
        leb128(u).len() <= k,
    decreases u,
{
    if u >= 128 {
        assert(k >= 2) by {
            if k == 1 {
                assert(pow128(1) == 128 * pow128(0));
            }
        }
        assert(pow128(k) == 128 * pow128((k - 1) as nat));
        assert(u / 128 < pow128((k - 1) as nat));
        lemma_leb128_len(u / 128, (k - 1) as nat);
    }
}

proof fn lemma_pow128_10()
    ensures
        pow128(9) == 0x8000_0000_0000_0000,
        pow128(10) == 0x40_0000_0000_0000_0000,
{
    reveal_with_fuel(pow128, 11);
}

proof fn lemma_pow128_pos(i: nat)
    ensures
        pow128(i) >= 1,
    decreases i,
{
    if i > 0 {
        lemma_pow128_pos((i - 1) as nat);
    }
}

/// The value of `t`'s base-128 digits, least significant first.
spec fn horner(t: Seq<u8>) -> nat
    decreases t.len(),
{
    if t.len() == 0 {
        0
    } else {
        (t[0] % 128) as nat + 128 * horner(t.drop_first())
    }
}

proof fn lemma_horner_leb128(u: nat)
    ensures
        horner(leb128(u)) == u,
    decreases u,
{
    if u >= 128 {
        lemma_horner_leb128(u / 128);
        let t = leb128(u / 128);
        let e = seq![(u % 128 + 128) as u8] + t;
        assert(e.drop_first() == t);
        assert(e[0] % 128 == u % 128);
    } else {
        let e = seq![u as u8];
        assert(e.drop_first() =~= Seq::<u8>::empty());
        assert(horner(e.drop_first()) == 0);
    }
}

proof fn lemma_horner_push(t: Seq<u8>, b: u8)
    ensures
        horner(t.push(b)) == horner(t) + (b % 128) as nat * pow128(t.len()),
    decreases t.len(),
{
    if t.len() > 0 {
        lemma_horner_push(t.drop_first(), b);
        assert(t.push(b).drop_first() == t.drop_first().push(b));
        assert(t.push(b)[0] == t[0]);
        let x = horner(t.drop_first());
        let y = (b % 128) as nat;
        let p = pow128((t.len() - 1) as nat);
        assert(pow128(t.len()) == 128 * p);
        assert(128 * (x + y * p) == 128 * x + y * (128 * p)) by (nonlinear_arith);
    } else {
        assert(t.push(b).drop_first() =~= Seq::<u8>::empty());
        assert(horner(t.push(b).drop_first()) == 0);
        assert(t.push(b)[0] == b);
        assert(horner(t) == 0);
        assert(pow128(0) == 1);
    }
}

/// The accumulator is the base-128 value of the prefix.
proof fn lemma_accumulated_horner(s: Seq<u8>, n: nat)
    requires
        n <= s.len(),
    ensures
        accumulated(s, n) == horner(s.take(n as int)),
    decreases n,
{
    if n > 0 {
        lemma_accumulated_horner(s, (n - 1) as nat);
        assert(s.take(n as int) == s.take(n - 1).push(s[n - 1]));
        lemma_horner_push(s.take(n - 1), s[n - 1]);
    } else {
        assert(s.take(0) =~= Seq::<u8>::empty());
    }
}

proof fn lemma_accumulated_bound(s: Seq<u8>, n: nat)
    requires
        n <= s.len(),
        n <= 9,
    ensures
        accumulated(s, n) < pow128(n),
    decreases n,
{
    if n > 0 {
        lemma_accumulated_bound(s, (n - 1) as nat);
        let p = pow128((n - 1) as nat);
        let d = (s[n - 1] % 128) as nat;
        let a = accumulated(s, (n - 1) as nat);
        assert(d <= 127);
        assert(a + d * p < 128 * p) by (nonlinear_arith)
            requires
                a < p,
                d <= 127,
        ;
    }
}

proof fn lemma_decode_from_skips(s: Seq<u8>, i: nat, k: nat)
    requires
        i <= k,
        k < s.len(),
        k < 10,
        forall|j: int| i <= j < k ==> s[j] >= 128,
    ensures
        decode_varint_from(s, i) == decode_varint_from(s, k),
    decreases k - i,
{
    if i < k {
        lemma_decode_from_skips(s, i + 1, k);
    }
}

/// A successful read consumes at least one byte and no more than there are.
pub proof fn lemma_decode_varint_consumes(s: Seq<u8>, i: nat)
    ensures
        decode_varint_from(s, i) matches Ok((v, c)) ==> i < c <= s.len(),
    decreases s.len() - i,
{
    if i < s.len() && i < 10 && s[i as int] >= 128 {
        lemma_decode_varint_consumes(s, i + 1);
    }
}

proof fn lemma_unzigzag_zigzag(n: int)
    ensures
        unzigzag(zigzag(n)) == n,
{
}

/// Reading back the varint bytes of `n`, followed by anything, gives `n`
/// and consumes exactly those bytes.
pub proof fn lemma_varint_round_trip(n: i64, rest: Seq<u8>)
    ensures
        spec_decode_varint(spec_encode_varint(n) + rest) == Ok::<(int, nat), VarintFault>(
            (n as int, spec_encode_varint(n).len()),
        ),
        1 <= spec_encode_varint(n).len() <= 10,
{
    let u = zigzag(n as int);
    let e = leb128(u);
    let s = e + rest;
    lemma_leb128_bytes(u);
    lemma_pow128_10();
    assert(u < pow128(10));
    lemma_leb128_len(u, 10);
    let k = (e.len() - 1) as nat;
    assert(s[k as int] == e.last());
    assert forall|j: int| 0 <= j < k implies s[j] >= 128 by {
        assert(s[j] == e[j]);
    }
    lemma_decode_from_skips(s, 0, k);
    if e.len() == 10 {
        // The tenth byte carries what is left above bit 63, at most 1.
        lemma_horner_leb128(u);
        assert(s.take(10) == e);
        lemma_accumulated_horner(s, 9);
        lemma_accumulated_bound(s, 9);
        assert(horner(e) == horner(e.take(9)) + (e[9] % 128) as nat * pow128(9)) by {
            assert(e == e.take(9).push(e[9]));
            lemma_horner_push(e.take(9), e[9]);
        }
        assert(s.take(9) == e.take(9));
        assert((e[9] % 128) as nat * pow128(9) < 2 * pow128(9));
        assert(e[9] % 128 <= 1) by (nonlinear_arith)
            requires
                (e[9] % 128) as nat * pow128(9) < 2 * pow128(9),
                pow128(9) > 0,
        ;
    }
    lemma_accumulated_horner(s, e.len());
    assert(s.take(e.len() as int) == e);
    lemma_horner_leb128(u);
    lemma_unzigzag_zigzag(n as int);
}

/// Encode a signed 64-bit integer using zigzag varint encoding.
///
/// Output is 1-10 bytes. Small absolute values produce fewer bytes.
pub fn encode_varint(n: i64) -> (out: Vec<u8>)
    ensures
        out@ == spec_encode_varint(n),
        1 <= out@.len() <= MAX_VARINT_BYTES,
{
    // Zigzag: map signed -> unsigned
    let mut z: u64 = if n >= 0 {
        (n as u64) * 2
    } else {
        ((-(n + 1)) as u64) * 2 + 1
    };
    let ghost total = z as nat;
    let mut buf: Vec<u8> = Vec::with_capacity(MAX_VARINT_BYTES);
    loop
        invariant_except_break
            buf@ + leb128(z as nat) == leb128(total),
        invariant
            total == zigzag(n as int),
        ensures
            buf@ == leb128(total),
        decreases z,
    {
        // Take 7 low bits
        let byte: u8 = (z % 128) as u8;
        let ghost before = z as nat;
        z = z / 128;
        if z == 0 {
            // Last byte: continuation bit not set
            buf.push(byte);
            assert(leb128(before) == seq![byte]);
            assert(buf@ == leb128(total));
            break;
        } else {
            // More bytes follow: continuation bit set
            buf.push(byte + 128);
            assert(leb128(before) == seq![(byte + 128) as u8] + leb128(z as nat));
        }
    }
    proof {
        lemma_varint_round_trip(n, Seq::empty());
    }
    buf
}

/// Decode a zigzag varint from the start of `bytes`.
///
/// Returns `(value, bytes_consumed)`.
///
/// # Errors
/// - `HrestError::VarintError` — varint is truncated or overflows 64 bits.
pub fn decode_varint(bytes: &[u8]) -> (res: Result<(i64, usize), HrestError>)
    ensures
        match spec_decode_varint(bytes@) {
            Ok((v, c)) => res matches Ok((w, d)) && w == v && d == c,
            Err(f) => res matches Err(e) && e@ == varint_fault_error(f),
        },
{
    let mut result: u64 = 0;
    let mut mult: u64 = 1;
    let mut i: usize = 0;
    proof {
        lemma_pow128_10();
    }
    while i < bytes.len()
        invariant
            i <= bytes@.len(),
            i <= 10,
            i <= 9 ==> result == accumulated(bytes@, i as nat),
            i <= 9 ==> mult == pow128(i as nat),
            pow128(9) == 0x8000_0000_0000_0000,
            i <= 9 ==> accumulated(bytes@, i as nat) < pow128(i as nat),
            spec_decode_varint(bytes@) == decode_varint_from(bytes@, i as nat),
        decreases bytes.len() - i,
    {
        if i >= MAX_VARINT_BYTES {
            return Err(varint_error("Varint overflow: exceeds 64-bit capacity"));
        }
        let byte = bytes[i];
        if i == 9 {
            if byte > 1 && byte < 128 {
                // Only bit 63 is left for a last tenth byte.
                return Err(varint_error("Varint overflow: exceeds 64-bit capacity"));
            }
            if byte >= 128 {
                // A tenth continuation byte: what follows decides the fault.
                i = i + 1;
                continue;
            }
        }
        // Accumulate the data bits of this byte
        proof {
            lemma_pow128_pos(i as nat);
        }
        let d: u64 = (byte % 128) as u64;
        assert(accumulated(bytes@, i as nat + 1) == result + d * mult);
        if i == 9 {
            assert(d <= 1);
            assert(d * mult <= mult) by (nonlinear_arith)
                requires
                    d <= 1,
            ;
        } else {
            assert(d * mult < 128 * mult) by (nonlinear_arith)
                requires
                    d < 128,
                    mult >= 1,
            ;
            assert(pow128(i as nat + 1) == 128 * pow128(i as nat));
            assert(pow128(9) >= pow128(i as nat + 1)) by {
                lemma_pow128_mono(i as nat + 1, 9);
            }
        }
        result = result + d * mult;
        if byte < 128 {
            // Continuation bit not set: last byte. Zigzag decode.
            let decoded: i64 = if result % 2 == 0 {
                (result / 2) as i64
            } else {
                -((result / 2) as i64) - 1
            };
            return Ok((decoded, i + 1));
        }
        proof {
            lemma_accumulated_bound(bytes@, i as nat + 1);
            assert(pow128(i as nat + 1) == 128 * pow128(i as nat));
        }
        mult = mult * 128;
        i = i + 1;
    }
    Err(varint_error("Varint truncated: stream ended before terminating byte"))
}

proof fn lemma_pow128_mono(i: nat, j: nat)
    requires
        i <= j,
    ensures
        pow128(i) <= pow128(j),
    decreases j - i,
{
    if i < j {
        lemma_pow128_mono(i, (j - 1) as nat);
        lemma_pow128_pos((j - 1) as nat);
    }
}

} // verus!
