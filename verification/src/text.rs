use vstd::prelude::*;
use vstd::string::*;
use vstd::utf8::*;

verus! {

/// The numeric value of an ASCII digit sequence, read as decimal.
pub open spec fn dec_val(s: Seq<u8>) -> nat
    decreases s.len(),
{
    if s.len() == 0 {
        0
    } else {
        (dec_val(s.drop_last()) * 10 + (s.last() - 48)) as nat
    }
}

/// Whether every byte of `s` is an ASCII decimal digit.
pub open spec fn all_digits(s: Seq<u8>) -> bool {
    forall|i: int| 0 <= i < s.len() ==> 48 <= #[trigger] s[i] <= 57
}

/// Whether `s` is a plain decimal numeral: digits only, at least one.
pub open spec fn is_dec(s: Seq<u8>) -> bool {
    s.len() > 0 && all_digits(s)
}

/// Parse a plain decimal numeral into a `u32`: the value when `s` is all
/// digits and fits, nothing otherwise.
pub fn parse_u32_dec(s: &[u8]) -> (r: Option<u32>)
    ensures
        r == if is_dec(s@) && dec_val(s@) <= u32::MAX {
            Some(dec_val(s@) as u32)
        } else {
            None::<u32>
        },
{
    if s.len() == 0 {
        return None;
    }
    let mut acc: u64 = 0;
    let mut i: usize = 0;
    while i < s.len()
        invariant
            0 <= i <= s@.len(),
            s@.len() > 0,
            all_digits(s@.take(i as int)),
            acc == if dec_val(s@.take(i as int)) <= u32::MAX as nat {
                dec_val(s@.take(i as int))
            } else {
                0x1_0000_0000 as nat
            },
        decreases s@.len() - i,
    {
        let b = s[i];
        if b < 48 || b > 57 {
            return None;
        }
        let d = (b - 48) as u64;
        let next = acc * 10 + d;
        proof {
            assert(s@.take(i + 1).drop_last() =~= s@.take(i as int));
            assert(s@.take(i + 1).last() == s@[i as int]);
            if dec_val(s@.take(i as int)) > u32::MAX as nat {
                assert(dec_val(s@.take(i as int)) * 10 + (s@[i as int] - 48) >= 0x1_0000_0000 * 10)
                    by (nonlinear_arith)
                    requires
                        dec_val(s@.take(i as int)) >= 0x1_0000_0000,
                        s@[i as int] >= 48,
                ;
            }
        }
        if next > 0xFFFF_FFFF {
            acc = 0x1_0000_0000;
        } else {
            acc = next;
        }
        i = i + 1;
    }
    proof {
        assert(s@.take(s@.len() as int) =~= s@);
    }
    if acc <= 0xFFFF_FFFF {
        Some(acc as u32)
    } else {
        None
    }
}

/// The ASCII decimal digits of `n`, most significant first.
pub open spec fn dec_digits(n: nat) -> Seq<u8>
    decreases n,
{
    if n < 10 {
        seq![(48 + n) as u8]
    } else {
        dec_digits(n / 10) + seq![(48 + n % 10) as u8]
    }
}

pub proof fn lemma_dec_digits_are_digits(n: nat)
    ensures
        all_digits(dec_digits(n)),
        dec_digits(n).len() > 0,
    decreases n,
{
    if n >= 10 {
        lemma_dec_digits_are_digits(n / 10);
    }
}

fn push_dec_digits(out: &mut Vec<u8>, n: u64)
    ensures
        final(out)@ == old(out)@ + dec_digits(n as nat),
    decreases n,
{
    if n < 10 {
        out.push((48 + n) as u8);
        assert(out@ =~= old(out)@ + dec_digits(n as nat));
    } else {
        let ghost start = out@;
        push_dec_digits(out, n / 10);
        out.push((48 + n % 10) as u8);
        assert(out@ =~= start + dec_digits(n as nat));
    }
}

/// Turn valid UTF-8 bytes into an owned string.
///
/// Relies on String::from_utf8: it succeeds exactly on valid UTF-8 and keeps
/// the bytes.
#[verifier::external_body]
pub fn bytes_to_string(b: Vec<u8>) -> (r: Option<String>)
    ensures
        r matches Some(s) ==> valid_utf8(b@) && encode_utf8(s@) == b@,
        valid_utf8(b@) ==> r is Some,
{
    String::from_utf8(b).ok()
}

/// The decimal numeral of `n`, as a string.
pub fn u64_to_dec_string(n: u64) -> (r: String)
    ensures
        encode_utf8(r@) == dec_digits(n as nat),
{
    let mut digits: Vec<u8> = Vec::new();
    push_dec_digits(&mut digits, n);
    proof {
        lemma_dec_digits_are_digits(n as nat);
        lemma_ascii_bytes_valid_utf8(digits@);
    }
    match bytes_to_string(digits) {
        Some(s) => s,
        None => {
            proof {
                assert(false);
            }
            String::new()
        },
    }
}

/// Every all-ASCII byte sequence is valid UTF-8.
pub proof fn lemma_ascii_bytes_valid_utf8(b: Seq<u8>)
    requires
        forall|i: int| 0 <= i < b.len() ==> #[trigger] b[i] < 128,
    ensures
        valid_utf8(b),
    decreases b.len(),
{
    if b.len() > 0 {
        assert(b.skip(1) =~= b.subrange(1, b.len() as int));
        lemma_ascii_bytes_valid_utf8(b.skip(1));
        assert(is_leading_byte_width_1(b[0]));
        assert(valid_utf8(b)) by {
            assert(b.subrange(1, b.len() as int) =~= b.skip(1));
        }
    }
}

/// Whether two byte slices hold the same bytes.
pub fn bytes_eq(a: &[u8], b: &[u8]) -> (r: bool)
    ensures
        r == (a@ == b@),
{
    if a.len() != b.len() {
        assert(a@.len() != b@.len());
        return false;
    }
    let mut i: usize = 0;
    while i < a.len()
        invariant
            0 <= i <= a@.len(),
            a@.len() == b@.len(),
            forall|j: int| 0 <= j < i ==> a@[j] == b@[j],
        decreases a@.len() - i,
    {
        if a[i] != b[i] {
            return false;
        }
        i = i + 1;
    }
    proof {
        assert(a@ =~= b@);
    }
    true
}

/// ASCII lowercase of one byte.
pub open spec fn lower_byte(b: u8) -> u8 {
    if 65 <= b <= 90 {
        (b + 32) as u8
    } else {
        b
    }
}

/// ASCII lowercase of a byte sequence.
pub open spec fn lower_bytes(s: Seq<u8>) -> Seq<u8> {
    s.map_values(|b: u8| lower_byte(b))
}

/// The ASCII lowercase of a byte slice, as a fresh vector.
pub fn to_lower_bytes(s: &[u8]) -> (r: Vec<u8>)
    ensures
        r@ == lower_bytes(s@),
{
    let mut out: Vec<u8> = Vec::new();
    let mut i: usize = 0;
    while i < s.len()
        invariant
            0 <= i <= s@.len(),
            out@.len() == i,
            forall|j: int| 0 <= j < i ==> out@[j] == lower_byte(s@[j]),
        decreases s@.len() - i,
    {
        let b = s[i];
        if 65 <= b && b <= 90 {
            out.push(b + 32);
        } else {
            out.push(b);
        }
        i = i + 1;
    }
    proof {
        assert(out@ =~= lower_bytes(s@));
    }
    out
}

/// A copy of the bytes of `s` from `from` (inclusive) to `to` (exclusive).
pub fn copy_range(s: &[u8], from: usize, to: usize) -> (r: Vec<u8>)
    requires
        from <= to <= s@.len(),
    ensures
        r@ == s@.subrange(from as int, to as int),
{
    let mut out: Vec<u8> = Vec::new();
    let mut i: usize = from;
    while i < to
        invariant
            from <= i <= to <= s@.len(),
            out@.len() == i - from,
            forall|j: int| 0 <= j < out@.len() ==> out@[j] == s@[from + j],
        decreases to - i,
    {
        out.push(s[i]);
        i = i + 1;
    }
    proof {
        assert(out@ =~= s@.subrange(from as int, to as int));
    }
    out
}

/// A copy of the tail of a byte slice, from `from` to the end.
pub fn tail_bytes(s: &[u8], from: usize) -> (r: Vec<u8>)
    requires
        from <= s@.len(),
    ensures
        r@ == s@.skip(from as int),
{
    let mut out: Vec<u8> = Vec::new();
    let mut i: usize = from;
    while i < s.len()
        invariant
            from <= i <= s@.len(),
            out@.len() == i - from,
            forall|j: int| 0 <= j < out@.len() ==> out@[j] == s@[from + j],
        decreases s@.len() - i,
    {
        out.push(s[i]);
        i = i + 1;
    }
    proof {
        assert(out@ =~= s@.skip(from as int));
    }
    out
}

} // verus!
