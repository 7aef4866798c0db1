//! Binary primitives: big-endian integer reads and writes over byte buffers,
//! bounded byte slicing, and the 1-to-9-byte variable-length integer codec.
//!
//! Every reader is total over the error model: on truncated input it returns
//! `EndOfInput` instead of panicking. Positions are explicit indices into the
//! input, so a caller can keep addressing the same buffer absolutely.

use vstd::prelude::*;
use crate::error::{Error, ErrorKind};

verus! {

/// The big-endian 16-bit value spelled by `b[i]` and `b[i + 1]`.
pub open spec fn be16_at(b: Seq<u8>, i: int) -> u16
    recommends
        0 <= i,
        i + 2 <= b.len(),
{
    ((b[i] as u16) << 8) | (b[i + 1] as u16)
}

/// The big-endian 32-bit value spelled by the four bytes from `b[i]` on.
pub open spec fn be32_at(b: Seq<u8>, i: int) -> u32
    recommends
        0 <= i,
        i + 4 <= b.len(),
{
    ((b[i] as u32) << 24) | ((b[i + 1] as u32) << 16) | ((b[i + 2] as u32) << 8) | (b[i + 3] as u32)
}

/// The two bytes that spell `v` big-endian.
pub open spec fn u16_bytes(v: u16) -> Seq<u8> {
    seq![(v >> 8) as u8, v as u8]
}

/// The four bytes that spell `v` big-endian.
pub open spec fn u32_bytes(v: u32) -> Seq<u8> {
    seq![(v >> 24) as u8, (v >> 16) as u8, (v >> 8) as u8, v as u8]
}

/// Reading back the two bytes of a 16-bit value yields the value.
pub proof fn lemma_u16_bytes_roundtrip(v: u16)
    ensures
        be16_at(u16_bytes(v), 0) == v,
{
    assert((((v >> 8) as u8 as u16) << 8 | (v as u8 as u16)) == v) by (bit_vector);
}

/// Re-emitting a decoded 16-bit value reproduces the two source bytes.
pub proof fn lemma_be16_roundtrip(b0: u8, b1: u8)
    ensures
        u16_bytes(((b0 as u16) << 8) | (b1 as u16)) == seq![b0, b1],
{
    assert(((((b0 as u16) << 8) | (b1 as u16)) >> 8) as u8 == b0 && (((b0 as u16) << 8) | (b1
        as u16)) as u8 == b1) by (bit_vector);
    assert(u16_bytes(((b0 as u16) << 8) | (b1 as u16)) =~= seq![b0, b1]);
}

/// Reading back the four bytes of a 32-bit value yields the value.
pub proof fn lemma_u32_bytes_roundtrip(v: u32)
    ensures
        be32_at(u32_bytes(v), 0) == v,
{
    assert(((v >> 24) as u8 as u32) << 24 | ((v >> 16) as u8 as u32) << 16 | ((v >> 8) as u8
        as u32) << 8 | (v as u8 as u32) == v) by (bit_vector);
}

/// Re-emitting a decoded 32-bit value reproduces the four source bytes.
pub proof fn lemma_be32_roundtrip(b0: u8, b1: u8, b2: u8, b3: u8)
    ensures
        u32_bytes(((b0 as u32) << 24) | ((b1 as u32) << 16) | ((b2 as u32) << 8) | (b3 as u32))
            == seq![b0, b1, b2, b3],
{
    assert({
        let v: u32 = ((b0 as u32) << 24) | ((b1 as u32) << 16) | ((b2 as u32) << 8) | (b3 as u32);
        (v >> 24) as u8 == b0 && (v >> 16) as u8 == b1 && (v >> 8) as u8 == b2 && v as u8 == b3
    }) by (bit_vector);
    assert(u32_bytes(((b0 as u32) << 24) | ((b1 as u32) << 16) | ((b2 as u32) << 8) | (b3 as u32))
        =~= seq![b0, b1, b2, b3]);
}

/// 128 raised to the `k`-th power: the weight of the `k`-th 7-bit group of a
/// variable-length integer.
pub open spec fn p128(k: int) -> int
    decreases k,
{
    if k <= 0 {
        1
    } else {
        128 * p128(k - 1)
    }
}

/// Decodes a variable-length integer whose first `k` continuation bytes,
/// already folded into `v`, lie just before `pos`. Up to eight 7-bit groups
/// most-significant first; a ninth byte contributes all eight bits. `None`
/// exactly when the input ends before the integer does.
pub open spec fn varint_rec(b: Seq<u8>, pos: int, k: int, v: int) -> Option<(int, int)>
    decreases 8 - k,
{
    if pos >= b.len() || pos < 0 || k < 0 {
        None
    } else if k >= 8 {
        Some((v * 256 + b[pos], 9))
    } else if b[pos] < 128 {
        Some((v * 128 + b[pos], k + 1))
    } else {
        varint_rec(b, pos + 1, k + 1, v * 128 + b[pos] - 128)
    }
}

/// The variable-length integer starting at `pos`: its value and its width in
/// bytes (1 to 9), or `None` on truncated input.
pub open spec fn varint_at(b: Seq<u8>, pos: int) -> Option<(int, int)> {
    varint_rec(b, pos, 0, 0)
}

/// The minimum number of bytes that encode `n`: the least width whose 7-bit
/// groups (8-bit in the ninth byte) can hold `n`.
pub open spec fn varint_len(n: u64) -> int {
    if n < 0x80 {
        1
    } else if n < 0x4000 {
        2
    } else if n < 0x20_0000 {
        3
    } else if n < 0x1000_0000 {
        4
    } else if n < 0x8_0000_0000 {
        5
    } else if n < 0x400_0000_0000 {
        6
    } else if n < 0x2_0000_0000_0000 {
        7
    } else if n < 0x100_0000_0000_0000 {
        8
    } else {
        9
    }
}

/// The minimal encoding of `n`: 7-bit groups most-significant first, the high
/// bit marking continuation; a 9-byte encoding ends with all eight low bits.
pub open spec fn varint_enc(n: u64) -> Seq<u8> {
    let l = varint_len(n);
    if l <= 8 {
        Seq::new(
            l as nat,
            |j: int|
                if j < l - 1 {
                    (128 + (n as int / p128(l - 1 - j)) % 128) as u8
                } else {
                    (n as int % 128) as u8
                },
        )
    } else {
        Seq::new(
            9,
            |j: int|
                if j < 8 {
                    (128 + ((n as int / 256) / p128(7 - j)) % 128) as u8
                } else {
                    (n as int % 256) as u8
                },
        )
    }
}

/// Group weights are positive.
pub proof fn lemma_p128_pos(k: int)
    ensures
        p128(k) >= 1,
    decreases k,
{
    if k > 0 {
        lemma_p128_pos(k - 1);
    }
}

/// Group weights grow with the group index.
pub proof fn lemma_p128_mono(a: int, b: int)
    requires
        a <= b,
    ensures
        p128(a) <= p128(b),
    decreases b - a,
{
    if a < b {
        lemma_p128_mono(a, b - 1);
        lemma_p128_pos(b - 1);
    }
}

/// The numeric values of the group weights used by the codec.
pub proof fn lemma_p128_values()
    ensures
        p128(0) == 1,
        p128(1) == 0x80,
        p128(2) == 0x4000,
        p128(3) == 0x20_0000,
        p128(4) == 0x1000_0000,
        p128(5) == 0x8_0000_0000,
        p128(6) == 0x400_0000_0000,
        p128(7) == 0x2_0000_0000_0000,
        p128(8) == 0x100_0000_0000_0000,
{
    reveal_with_fuel(p128, 10);
}

/// Folding one more 7-bit group into an accumulator advances the quotient by
/// one group: `(m / 128^(e+1)) * 128 + (m / 128^e) % 128 == m / 128^e`.
proof fn lemma_digit_step(m: int, e: int)
    requires
        m >= 0,
        e >= 0,
    ensures
        (m / p128(e + 1)) * 128 + (m / p128(e)) % 128 == m / p128(e),
{
    lemma_p128_pos(e);
    vstd::arithmetic::div_mod::lemma_div_denominator(m, p128(e), 128);
    assert(p128(e + 1) == p128(e) * 128) by {
        assert(p128(e + 1) == 128 * p128(e));
    }
    vstd::arithmetic::div_mod::lemma_fundamental_div_mod(m / p128(e), 128);
}

/// Decoding a run of continuation groups of `n` (below the terminal byte at
/// `l - 1`) from position `j` onward yields `n` with width `l`.
proof fn lemma_varint_dec_groups(b: Seq<u8>, n: int, l: int, j: int)
    requires
        0 <= j < l <= 8,
        l <= b.len(),
        0 <= n < p128(l),
        forall|t: int|
            j <= t < l - 1 ==> b[t] == (128 + (n / p128(l - 1 - t)) % 128) as u8,
        b[l - 1] == (n % 128) as u8,
    ensures
        varint_rec(b, j, j, n / p128(l - j)) == Some((n, l)),
    decreases l - j,
{
    lemma_p128_pos(l - j);
    lemma_p128_pos(l - 1 - j);
    vstd::arithmetic::div_mod::lemma_mod_bound(n, 128);
    if j == l - 1 {
        vstd::arithmetic::div_mod::lemma_fundamental_div_mod(n, 128);
        assert(p128(1) == 128) by {
            lemma_p128_values();
        }
        assert(b[j] == (n % 128) as u8);
        assert(b[j] < 128);
        assert(varint_rec(b, j, j, n / 128) == Some(((n / 128) * 128 + n % 128, l)));
    } else {
        let e = l - 1 - j;
        let digit = (n / p128(e)) % 128;
        vstd::arithmetic::div_mod::lemma_mod_bound(n / p128(e), 128);
        assert(b[j] == (128 + digit) as u8);
        assert(128 <= 128 + digit < 256);
        lemma_digit_step(n, e);
        assert((n / p128(l - j)) * 128 + (b[j] - 128) == n / p128(e));
        lemma_varint_dec_groups(b, n, l, j + 1);
    }
}

/// Decoding the eight continuation groups of a nine-byte encoding accumulates
/// the high 56 bits `m`; the ninth byte then supplies the low eight.
proof fn lemma_varint_dec_groups9(b: Seq<u8>, m: int, j: int)
    requires
        0 <= j <= 8,
        9 <= b.len(),
        0 <= m < p128(8),
        forall|t: int| 0 <= t < 8 ==> b[t] == (128 + (m / p128(7 - t)) % 128) as u8,
    ensures
        varint_rec(b, j, j, m / p128(8 - j)) == Some((m * 256 + b[8], 9int)),
    decreases 8 - j,
{
    lemma_p128_pos(8 - j);
    if j == 8 {
        assert(m / p128(0) == m) by {
            lemma_p128_values();
        }
    } else {
        let e = 7 - j;
        let digit = (m / p128(e)) % 128;
        vstd::arithmetic::div_mod::lemma_mod_bound(m / p128(e), 128);
        lemma_p128_pos(e);
        assert(b[j] == (128 + digit) as u8);
        lemma_digit_step(m, e);
        assert((m / p128(8 - j)) * 128 + (b[j] - 128) == m / p128(e));
        lemma_varint_dec_groups9(b, m, j + 1);
    }
}

/// The codec round trip: decoding the minimal encoding of any 64-bit value
/// returns the value together with the minimal width.
pub proof fn lemma_varint_roundtrip(n: u64)
    ensures
        varint_at(varint_enc(n), 0) == Some((n as int, varint_len(n))),
{
    let l = varint_len(n);
    let b = varint_enc(n);
    lemma_p128_values();
    if l <= 8 {
        assert(n < p128(l));
        vstd::arithmetic::div_mod::lemma_basic_div(n as int, p128(l));
        lemma_varint_dec_groups(b, n as int, l, 0);
    } else {
        let m = n as int / 256;
        vstd::arithmetic::div_mod::lemma_fundamental_div_mod(n as int, 256);
        vstd::arithmetic::div_mod::lemma_mod_bound(n as int, 256);
        assert(m < p128(8));
        vstd::arithmetic::div_mod::lemma_basic_div(m, p128(8));
        lemma_varint_dec_groups9(b, m, 0);
        assert(b[8] == (n as int % 256) as u8);
        assert(varint_rec(b, 0, 0, 0) == Some((m * 256 + n as int % 256, 9int)));
    }
}

/// Reads a variable-length integer at `pos`: the value and the width
/// consumed, or `EndOfInput` if the integer runs past the buffer's end.
pub fn read_varint(b: &[u8], pos: usize) -> (r: Result<(u64, usize), Error>)
    ensures
        match r {
            Ok((n, l)) => {
                &&& varint_at(b@, pos as int) == Some((n as int, l as int))
                &&& 1 <= l <= 9
                &&& pos + l <= b@.len()
            },
            Err(e) => varint_at(b@, pos as int) is None && e.kind == ErrorKind::EndOfInput,
        },
{
    let mut i: usize = 0;
    let mut v: u64 = 0;
    proof {
        lemma_p128_values();
    }
    while i < 8
        invariant
            i <= 8,
            0 <= v < p128(i as int),
            pos + i <= usize::MAX,
            varint_at(b@, pos as int) == varint_rec(b@, pos + i, i as int, v as int),
        decreases 8 - i,
    {
        proof {
            lemma_p128_values();
            lemma_p128_mono(i as int, 7);
        }
        if pos >= b.len() || i >= b.len() - pos {
            return Err(Error::new(ErrorKind::EndOfInput, "input ended inside a varint"));
        }
        let byte = b[pos + i];
        if byte < 128 {
            let n = v * 128 + byte as u64;
            return Ok((n, i + 1));
        }
        v = v * 128 + (byte - 128) as u64;
        i = i + 1;
    }
    proof {
        lemma_p128_values();
    }
    if pos >= b.len() || 8 >= b.len() - pos {
        return Err(Error::new(ErrorKind::EndOfInput, "input ended inside a varint"));
    }
    let byte = b[pos + 8];
    Ok((v * 256 + byte as u64, 9))
}

/// The width, in bytes, of the minimal encoding of `n`.
pub fn varint_width(n: u64) -> (l: usize)
    ensures
        l as int == varint_len(n),
{
    if n < 0x80 {
        1
    } else if n < 0x4000 {
        2
    } else if n < 0x20_0000 {
        3
    } else if n < 0x1000_0000 {
        4
    } else if n < 0x8_0000_0000 {
        5
    } else if n < 0x400_0000_0000 {
        6
    } else if n < 0x2_0000_0000_0000 {
        7
    } else if n < 0x100_0000_0000_0000 {
        8
    } else {
        9
    }
}

/// 128 raised to the `k`-th power, for the widths the codec uses.
fn pow128(k: usize) -> (r: u64)
    requires
        k <= 8,
    ensures
        r as int == p128(k as int),
        r >= 1,
{
    proof {
        lemma_p128_values();
    }
    let mut r: u64 = 1;
    let mut j: usize = 0;
    while j < k
        invariant
            j <= k <= 8,
            r as int == p128(j as int),
        decreases k - j,
    {
        proof {
            lemma_p128_values();
            lemma_p128_mono(j as int, 7);
        }
        r = r * 128;
        j = j + 1;
    }
    proof {
        lemma_p128_pos(k as int);
    }
    r
}

/// Appends the minimal variable-length encoding of `n`.
pub fn write_varint(writer: &mut Vec<u8>, n: u64)
    ensures
        final(writer)@ == old(writer)@ + varint_enc(n),
{
    let l = varint_width(n);
    proof {
        lemma_p128_values();
    }
    if l <= 8 {
        let mut j: usize = 0;
        while j < l
            invariant
                j <= l,
                l as int == varint_len(n),
                l <= 8,
                writer@ == old(writer)@ + varint_enc(n).subrange(0, j as int),
            decreases l - j,
        {
            let p = pow128(l - 1 - j);
            let d = ((n / p) % 128) as u8;
            let byte: u8 = if j < l - 1 {
                128 + d
            } else {
                proof {
                    lemma_p128_values();
                    assert(n as int / p128(0) == n as int);
                }
                d
            };
            assert(byte == varint_enc(n)[j as int]);
            writer.push(byte);
            assert(writer@ =~= old(writer)@ + varint_enc(n).subrange(0, j + 1));
            j = j + 1;
        }
        assert(varint_enc(n).subrange(0, l as int) =~= varint_enc(n));
    } else {
        let m = n / 256;
        let mut j: usize = 0;
        while j < 8
            invariant
                j <= 8,
                varint_len(n) == 9,
                m == n / 256,
                writer@ == old(writer)@ + varint_enc(n).subrange(0, j as int),
            decreases 8 - j,
        {
            let p = pow128(7 - j);
            let byte: u8 = 128 + ((m / p) % 128) as u8;
            assert(byte == varint_enc(n)[j as int]);
            writer.push(byte);
            assert(writer@ =~= old(writer)@ + varint_enc(n).subrange(0, j + 1));
            j = j + 1;
        }
        let byte: u8 = (n % 256) as u8;
        assert(byte == varint_enc(n)[8]);
        writer.push(byte);
        assert(writer@ =~= old(writer)@ + varint_enc(n));
    }
}

/// Reads the byte at `pos`, or `EndOfInput` past the buffer's end.
pub fn read_u8(b: &[u8], pos: usize) -> (r: Result<u8, Error>)
    ensures
        match r {
            Ok(v) => pos + 1 <= b@.len() && v == b@[pos as int],
            Err(e) => pos + 1 > b@.len() && e.kind == ErrorKind::EndOfInput,
        },
{
    if pos < b.len() {
        Ok(b[pos])
    } else {
        Err(Error::new(ErrorKind::EndOfInput, "input ended inside a 1-byte read"))
    }
}

/// Reads a big-endian 16-bit integer at `pos`, or `EndOfInput`.
pub fn read_u16(b: &[u8], pos: usize) -> (r: Result<u16, Error>)
    ensures
        match r {
            Ok(v) => pos + 2 <= b@.len() && v == be16_at(b@, pos as int),
            Err(e) => pos + 2 > b@.len() && e.kind == ErrorKind::EndOfInput,
        },
{
    if pos < b.len() && b.len() - pos >= 2 {
        Ok(((b[pos] as u16) << 8) | (b[pos + 1] as u16))
    } else {
        Err(Error::new(ErrorKind::EndOfInput, "input ended inside a 2-byte read"))
    }
}

/// Reads a big-endian 32-bit integer at `pos`, or `EndOfInput`.
pub fn read_u32(b: &[u8], pos: usize) -> (r: Result<u32, Error>)
    ensures
        match r {
            Ok(v) => pos + 4 <= b@.len() && v == be32_at(b@, pos as int),
            Err(e) => pos + 4 > b@.len() && e.kind == ErrorKind::EndOfInput,
        },
{
    if pos < b.len() && b.len() - pos >= 4 {
        Ok(
            ((b[pos] as u32) << 24) | ((b[pos + 1] as u32) << 16) | ((b[pos + 2] as u32) << 8) | (
            b[pos + 3] as u32),
        )
    } else {
        Err(Error::new(ErrorKind::EndOfInput, "input ended inside a 4-byte read"))
    }
}

/// Copies `n` bytes starting at `pos` into an owned buffer, or `EndOfInput`.
pub fn read_bytes(b: &[u8], pos: usize, n: usize) -> (r: Result<Vec<u8>, Error>)
    ensures
        match r {
            Ok(v) => pos + n <= b@.len() && v@ == b@.subrange(pos as int, pos + n),
            Err(e) => pos + n > b@.len() && e.kind == ErrorKind::EndOfInput,
        },
{
    if n <= b.len() && pos <= b.len() - n {
        let mut out: Vec<u8> = Vec::new();
        let mut i: usize = 0;
        while i < n
            invariant
                i <= n,
                pos + n <= b@.len(),
                pos + n <= usize::MAX,
                out@ == b@.subrange(pos as int, pos + i),
            decreases n - i,
        {
            out.push(b[pos + i]);
            assert(out@ =~= b@.subrange(pos as int, pos + i + 1));
            i = i + 1;
        }
        Ok(out)
    } else {
        Err(Error::new(ErrorKind::EndOfInput, "input ended inside a bounded read"))
    }
}

/// Appends a raw byte run to the output buffer.
pub fn write_bytes(writer: &mut Vec<u8>, value: &[u8])
    ensures
        final(writer)@ == old(writer)@ + value@,
{
    let mut i: usize = 0;
    while i < value.len()
        invariant
            i <= value@.len(),
            writer@ == old(writer)@ + value@.subrange(0, i as int),
        decreases value@.len() - i,
    {
        writer.push(value[i]);
        assert(writer@ =~= old(writer)@ + value@.subrange(0, i + 1));
        i = i + 1;
    }
    assert(writer@ =~= old(writer)@ + value@);
}

/// Appends one byte to the output buffer.
pub fn write_byte(writer: &mut Vec<u8>, value: u8)
    ensures
        final(writer)@ == old(writer)@ + seq![value],
{
    writer.push(value);
    assert(writer@ =~= old(writer)@ + seq![value]);
}

/// Appends a 16-bit integer big-endian.
pub fn write_u16(writer: &mut Vec<u8>, value: u16)
    ensures
        final(writer)@ == old(writer)@ + u16_bytes(value),
{
    writer.push((value >> 8) as u8);
    writer.push(value as u8);
    assert(writer@ =~= old(writer)@ + u16_bytes(value));
}

/// Appends a 32-bit integer big-endian.
pub fn write_u32(writer: &mut Vec<u8>, value: u32)
    ensures
        final(writer)@ == old(writer)@ + u32_bytes(value),
{
    writer.push((value >> 24) as u8);
    writer.push((value >> 16) as u8);
    writer.push((value >> 8) as u8);
    writer.push(value as u8);
    assert(writer@ =~= old(writer)@ + u32_bytes(value));
}

} // verus!
