use vstd::prelude::*;

verus! {

/// The value of a byte sequence read as a little-endian unsigned integer.
pub open spec fn le_val(s: Seq<u8>) -> nat
    decreases s.len(),
{
    if s.len() == 0 {
        0
    } else {
        s[0] as nat + 256 * le_val(s.skip(1))
    }
}

/// The `w` little-endian bytes of `n`, low byte first.
pub open spec fn le_bytes(n: nat, w: nat) -> Seq<u8>
    decreases w,
{
    if w == 0 {
        Seq::<u8>::empty()
    } else {
        seq![(n % 256) as u8] + le_bytes(n / 256, (w - 1) as nat)
    }
}

pub open spec fn pow256(w: nat) -> nat
    decreases w,
{
    if w == 0 {
        1
    } else {
        256 * pow256((w - 1) as nat)
    }
}

pub proof fn lemma_le_bytes_len(n: nat, w: nat)
    ensures
        le_bytes(n, w).len() == w,
    decreases w,
{
    if w > 0 {
        lemma_le_bytes_len(n / 256, (w - 1) as nat);
    }
}

pub proof fn lemma_le_val_bound(s: Seq<u8>)
    ensures
        le_val(s) < pow256(s.len() as nat),
    decreases s.len(),
{
    if s.len() > 0 {
        lemma_le_val_bound(s.skip(1));
    }
}

/// Reading back the little-endian bytes of `n` yields `n`, for any `n` that
/// fits in `w` bytes.
pub proof fn lemma_le_round_trip(n: nat, w: nat)
    requires
        n < pow256(w),
    ensures
        le_val(le_bytes(n, w)) == n,
    decreases w,
{
    if w > 0 {
        assert(n / 256 < pow256((w - 1) as nat)) by (nonlinear_arith)
            requires
                n < 256 * pow256((w - 1) as nat),
        ;
        lemma_le_round_trip(n / 256, (w - 1) as nat);
        let s = le_bytes(n, w);
        assert(s.skip(1) =~= le_bytes(n / 256, (w - 1) as nat));
        assert(s[0] as nat + 256 * le_val(s.skip(1)) == n % 256 + 256 * (n / 256));
    }
}

/// The smallest byte count in {1, 4, 8} whose little-endian range holds `n`.
pub open spec fn min_len_width(n: u64) -> nat {
    if n <= 255 {
        1
    } else if n <= 0xFFFF_FFFF {
        4
    } else {
        8
    }
}

/// The wire form of a length field: one byte giving the byte count, then that
/// many little-endian bytes of the value, with the smallest count that fits.
pub open spec fn len_enc(n: u64) -> Seq<u8> {
    seq![min_len_width(n) as u8] + le_bytes(n as nat, min_len_width(n))
}

/// How a length field decodes.
#[derive(Debug, Clone, Copy, PartialEq, Eq, Structural)]
pub enum LenError {
    /// The first byte was not 1, 4 or 8.
    BadCount(u8),
    /// The input ended inside the field.
    Truncated,
}

/// Decoding a length field of the byte sequence `s` at position `i`: the value
/// and the position just past the field, or the reason it cannot be read.
pub open spec fn dec_len_at(s: Seq<u8>, i: int) -> Result<(nat, int), LenError> {
    if i < 0 || i >= s.len() {
        Err(LenError::Truncated)
    } else if s[i] != 1 && s[i] != 4 && s[i] != 8 {
        Err(LenError::BadCount(s[i]))
    } else if i + 1 + s[i] > s.len() {
        Err(LenError::Truncated)
    } else {
        Ok((le_val(s.subrange(i + 1, i + 1 + s[i])), i + 1 + s[i]))
    }
}

/// Whether a byte is an accepted count of length bytes, and which count.
pub fn num_length_bytes(b: u8) -> (r: Option<u8>)
    ensures
        r == if b == 1 || b == 4 || b == 8 {
            Some(b)
        } else {
            None::<u8>
        },
{
    if b == 1 || b == 4 || b == 8 {
        Some(b)
    } else {
        None
    }
}

/// Read `w` little-endian bytes of `input` at `pos` as an unsigned integer.
pub fn read_le(input: &[u8], pos: usize, w: usize) -> (r: u64)
    requires
        pos + w <= input@.len(),
        w <= 8,
    ensures
        r as nat == le_val(input@.subrange(pos as int, pos + w)),
    decreases w,
{
    if w == 0 {
        assert(input@.subrange(pos as int, pos as int) =~= Seq::<u8>::empty());
        0
    } else {
        let b = input[pos];
        let rest = read_le(input, pos + 1, w - 1);
        proof {
            lemma_le_val_bound(input@.subrange(pos + 1, pos + w));
            lemma_pow256_vals();
            assert(pow256((w - 1) as nat) <= pow256(7)) by {
                lemma_pow256_le((w - 1) as nat, 7);
            }
            assert(input@.subrange(pos as int, pos + w).skip(1) =~= input@.subrange(
                pos + 1,
                pos + w,
            ));
        }
        b as u64 + 256 * rest
    }
}

/// The concrete powers of 256 the codec widths use.
pub proof fn lemma_pow256_vals()
    ensures
        pow256(1) == 256,
        pow256(2) == 0x1_0000,
        pow256(4) == 0x1_0000_0000,
        pow256(7) == 0x100_0000_0000_0000,
        pow256(8) == 0x1_0000_0000_0000_0000,
{
    assert(pow256(0) == 1);
    assert(pow256(1) == 256);
    assert(pow256(2) == 0x1_0000);
    assert(pow256(3) == 0x100_0000);
    assert(pow256(4) == 0x1_0000_0000);
    assert(pow256(5) == 0x100_0000_0000);
    assert(pow256(6) == 0x1_0000_0000_0000);
    assert(pow256(7) == 0x100_0000_0000_0000);
    assert(pow256(8) == 0x1_0000_0000_0000_0000);
}

proof fn lemma_pow256_le(a: nat, b: nat)
    requires
        a <= b,
    ensures
        pow256(a) <= pow256(b),
    decreases b,
{
    if a < b && b > 0 {
        lemma_pow256_le(a, (b - 1) as nat);
        assert(pow256((b - 1) as nat) <= 256 * pow256((b - 1) as nat)) by (nonlinear_arith)
            requires
                pow256((b - 1) as nat) >= 0,
        ;
    }
}

/// Decode a length field of `input` at `pos`.
pub fn decode_length(input: &[u8], pos: usize) -> (r: Result<(u64, usize), LenError>)
    ensures
        match r {
            Ok((n, next)) => dec_len_at(input@, pos as int) == Ok::<(nat, int), LenError>(
                (n as nat, next as int),
            ) && pos < next && next <= input@.len(),
            Err(e) => dec_len_at(input@, pos as int) == Err::<(nat, int), LenError>(e),
        },
{
    if pos >= input.len() {
        return Err(LenError::Truncated);
    }
    let c = input[pos];
    if !(c == 1 || c == 4 || c == 8) {
        return Err(LenError::BadCount(c));
    }
    let w = c as usize;
    if input.len() - pos - 1 < w {
        return Err(LenError::Truncated);
    }
    let n = read_le(input, pos + 1, w);
    proof {
        lemma_le_val_bound(input@.subrange(pos + 1, pos + 1 + w));
        lemma_pow256_vals();
        lemma_pow256_le(w as nat, 8);
    }
    Ok((n, pos + 1 + w))
}

/// Append the wire form of the length field for `n` to `out`.
pub fn encode_length(out: &mut Vec<u8>, n: u64)
    ensures
        final(out)@ == old(out)@ + len_enc(n),
{
    let w: usize = if n <= 255 {
        1
    } else if n <= 0xFFFF_FFFF {
        4
    } else {
        8
    };
    let ghost mid = out@;
    out.push(w as u8);
    le_write(out, n, w);
    proof {
        lemma_le_bytes_len(n as nat, w as nat);
        assert(out@ =~= mid + len_enc(n));
    }
}

/// Append the `w` little-endian bytes of `n` to `out`.
pub fn le_write(out: &mut Vec<u8>, n: u64, w: usize)
    ensures
        final(out)@ == old(out)@ + le_bytes(n as nat, w as nat),
    decreases w,
{
    if w == 0 {
        assert(out@ =~= out@ + le_bytes(n as nat, 0));
    } else {
        let ghost start = out@;
        out.push((n % 256) as u8);
        le_write(out, n / 256, w - 1);
        assert(out@ =~= start + le_bytes(n as nat, w as nat));
    }
}

/// The encoder's width choice is minimal: one byte exactly for values up to
/// 255, four exactly up to the 32-bit maximum, eight above.
pub proof fn lemma_len_enc_minimal(n: u64)
    ensures
        len_enc(n).len() == 1 + min_len_width(n),
        len_enc(n)[0] == 1 <==> n <= 255,
        len_enc(n)[0] == 4 <==> 255 < n <= 0xFFFF_FFFF,
        len_enc(n)[0] == 8 <==> n > 0xFFFF_FFFF,
{
    lemma_le_bytes_len(n as nat, min_len_width(n));
}

/// The length codec round trip: a length field written for `n` reads back as
/// exactly `n`, whatever bytes follow it, consuming the field alone.
pub proof fn lemma_length_round_trip(n: u64, rest: Seq<u8>)
    ensures
        dec_len_at(len_enc(n) + rest, 0) == Ok::<(nat, int), LenError>(
            (n as nat, 1 + min_len_width(n) as int),
        ),
{
    let w = min_len_width(n);
    lemma_pow256_vals();
    lemma_le_bytes_len(n as nat, w);
    let s = len_enc(n) + rest;
    assert(s[0] == w as u8);
    assert(s.subrange(1, 1 + w as int) =~= le_bytes(n as nat, w));
    lemma_le_round_trip(n as nat, w);
}

} // verus!
