use vstd::prelude::*;
use vstd::utf8::{decode_utf8, encode_utf8, encode_utf8_decode_utf8, encode_utf8_valid_utf8};

use crate::errors::ParseError;
use crate::length::{
    dec_len_at, le_bytes, le_val, lemma_le_bytes_len, lemma_le_round_trip, lemma_pow256_vals,
    len_enc, LenError,
};
use crate::parse::{
    dec_fixed_values, dec_sample_at, dec_samples_at, dec_samples_content, dec_string_values,
    dec_values_at, fmt_width,
};
use crate::writer::{
    batch_ok, enc_batch, enc_i16s, enc_i32s, enc_i64s, enc_i8s, enc_samples_content, enc_strs,
    enc_u32s, enc_u64s, enc_values,
};
use crate::raw::{frame_bytes, scan_chunks, tag_of_num, RawChunkV, ScanError};
use crate::{Format, SampleV, Tag, ValuesV};

verus! {

proof fn lemma_enc_i8s_len(xs: Seq<i8>)
    ensures
        enc_i8s(xs).len() == xs.len(),
    decreases xs.len(),
{
    if xs.len() > 0 {
        lemma_enc_i8s_len(xs.drop_last());
        lemma_le_bytes_len((xs.last() as u8) as nat, 1);
    }
}

proof fn lemma_enc_i16s_len(xs: Seq<i16>)
    ensures
        enc_i16s(xs).len() == 2 * xs.len(),
    decreases xs.len(),
{
    if xs.len() > 0 {
        lemma_enc_i16s_len(xs.drop_last());
        lemma_le_bytes_len((xs.last() as u16) as nat, 2);
    }
}

proof fn lemma_enc_i32s_len(xs: Seq<i32>)
    ensures
        enc_i32s(xs).len() == 4 * xs.len(),
    decreases xs.len(),
{
    if xs.len() > 0 {
        lemma_enc_i32s_len(xs.drop_last());
        lemma_le_bytes_len((xs.last() as u32) as nat, 4);
    }
}

proof fn lemma_enc_i64s_len(xs: Seq<i64>)
    ensures
        enc_i64s(xs).len() == 8 * xs.len(),
    decreases xs.len(),
{
    if xs.len() > 0 {
        lemma_enc_i64s_len(xs.drop_last());
        lemma_le_bytes_len((xs.last() as u64) as nat, 8);
    }
}

proof fn lemma_enc_u32s_len(xs: Seq<u32>)
    ensures
        enc_u32s(xs).len() == 4 * xs.len(),
    decreases xs.len(),
{
    if xs.len() > 0 {
        lemma_enc_u32s_len(xs.drop_last());
        lemma_le_bytes_len(xs.last() as nat, 4);
    }
}

proof fn lemma_enc_u64s_len(xs: Seq<u64>)
    ensures
        enc_u64s(xs).len() == 8 * xs.len(),
    decreases xs.len(),
{
    if xs.len() > 0 {
        lemma_enc_u64s_len(xs.drop_last());
        lemma_le_bytes_len(xs.last() as nat, 8);
    }
}

proof fn lemma_enc_i16s_block(xs: Seq<i16>, k: int)
    requires
        0 <= k < xs.len(),
    ensures
        enc_i16s(xs).len() == 2 * xs.len(),
        enc_i16s(xs).subrange(2 * k, 2 * k + 2) == le_bytes((xs[k] as u16) as nat, 2),
    decreases xs.len(),
{
    lemma_enc_i16s_len(xs);
    lemma_le_bytes_len((xs.last() as u16) as nat, 2);
    if k == xs.len() - 1 {
        lemma_enc_i16s_len(xs.drop_last());
        assert(enc_i16s(xs).subrange(2 * k, 2 * k + 2) =~= le_bytes((xs.last() as u16) as nat, 2));
    } else {
        lemma_enc_i16s_block(xs.drop_last(), k);
        assert(enc_i16s(xs).subrange(2 * k, 2 * k + 2) =~= enc_i16s(xs.drop_last()).subrange(
            2 * k,
            2 * k + 2,
        ));
    }
}

proof fn lemma_cast_i16(x: i16)
    ensures
        ((x as u16) as i16) == x,
{
    assert(((x as u16) as i16) == x) by (bit_vector);
}

proof fn lemma_dec_enc_i16s(s: Seq<u8>, i: int, xs: Seq<i16>)
    requires
        0 <= i,
        i + 2 * xs.len() <= s.len(),
        s.subrange(i, i + 2 * xs.len()) == enc_i16s(xs),
    ensures
        dec_fixed_values(s, i, Format::Int16, xs.len()) == ValuesV::I16(xs),
{
    lemma_pow256_vals();
    assert forall|k: int| 0 <= k < xs.len() implies (le_val(
        s.subrange(i + 2 * k, i + 2 * k + 2),
    ) as u16) as i16 == xs[k] by {
        lemma_enc_i16s_block(xs, k);
        assert(s.subrange(i + 2 * k, i + 2 * k + 2) =~= s.subrange(i, i + 2 * xs.len()).subrange(
            2 * k,
            2 * k + 2,
        ));
        lemma_le_round_trip((xs[k] as u16) as nat, 2);
        lemma_cast_i16(xs[k]);
    }
    assert(Seq::new(
        xs.len(),
        |k: int| (le_val(s.subrange(i + 2 * k, i + 2 * k + 2)) as u16) as i16,
    ) =~= xs);
}

proof fn lemma_enc_i8s_block(xs: Seq<i8>, k: int)
    requires
        0 <= k < xs.len(),
    ensures
        enc_i8s(xs).len() == 1 * xs.len(),
        enc_i8s(xs).subrange(1 * k, 1 * k + 1) == le_bytes((xs[k] as u8) as nat, 1),
    decreases xs.len(),
{
    lemma_enc_i8s_len(xs);
    lemma_le_bytes_len((xs.last() as u8) as nat, 1);
    if k == xs.len() - 1 {
        lemma_enc_i8s_len(xs.drop_last());
        assert(enc_i8s(xs).subrange(1 * k, 1 * k + 1) =~= le_bytes((xs.last() as u8) as nat, 1));
    } else {
        lemma_enc_i8s_block(xs.drop_last(), k);
        assert(enc_i8s(xs).subrange(1 * k, 1 * k + 1) =~= enc_i8s(xs.drop_last()).subrange(
            1 * k,
            1 * k + 1,
        ));
    }
}

proof fn lemma_enc_i32s_block(xs: Seq<i32>, k: int)
    requires
        0 <= k < xs.len(),
    ensures
        enc_i32s(xs).len() == 4 * xs.len(),
        enc_i32s(xs).subrange(4 * k, 4 * k + 4) == le_bytes((xs[k] as u32) as nat, 4),
    decreases xs.len(),
{
    lemma_enc_i32s_len(xs);
    lemma_le_bytes_len((xs.last() as u32) as nat, 4);
    if k == xs.len() - 1 {
        lemma_enc_i32s_len(xs.drop_last());
        assert(enc_i32s(xs).subrange(4 * k, 4 * k + 4) =~= le_bytes((xs.last() as u32) as nat, 4));
    } else {
        lemma_enc_i32s_block(xs.drop_last(), k);
        assert(enc_i32s(xs).subrange(4 * k, 4 * k + 4) =~= enc_i32s(xs.drop_last()).subrange(
            4 * k,
            4 * k + 4,
        ));
    }
}

proof fn lemma_enc_i64s_block(xs: Seq<i64>, k: int)
    requires
        0 <= k < xs.len(),
    ensures
        enc_i64s(xs).len() == 8 * xs.len(),
        enc_i64s(xs).subrange(8 * k, 8 * k + 8) == le_bytes((xs[k] as u64) as nat, 8),
    decreases xs.len(),
{
    lemma_enc_i64s_len(xs);
    lemma_le_bytes_len((xs.last() as u64) as nat, 8);
    if k == xs.len() - 1 {
        lemma_enc_i64s_len(xs.drop_last());
        assert(enc_i64s(xs).subrange(8 * k, 8 * k + 8) =~= le_bytes((xs.last() as u64) as nat, 8));
    } else {
        lemma_enc_i64s_block(xs.drop_last(), k);
        assert(enc_i64s(xs).subrange(8 * k, 8 * k + 8) =~= enc_i64s(xs.drop_last()).subrange(
            8 * k,
            8 * k + 8,
        ));
    }
}

proof fn lemma_enc_u32s_block(xs: Seq<u32>, k: int)
    requires
        0 <= k < xs.len(),
    ensures
        enc_u32s(xs).len() == 4 * xs.len(),
        enc_u32s(xs).subrange(4 * k, 4 * k + 4) == le_bytes(xs[k] as nat, 4),
    decreases xs.len(),
{
    lemma_enc_u32s_len(xs);
    lemma_le_bytes_len(xs.last() as nat, 4);
    if k == xs.len() - 1 {
        lemma_enc_u32s_len(xs.drop_last());
        assert(enc_u32s(xs).subrange(4 * k, 4 * k + 4) =~= le_bytes(xs.last() as nat, 4));
    } else {
        lemma_enc_u32s_block(xs.drop_last(), k);
        assert(enc_u32s(xs).subrange(4 * k, 4 * k + 4) =~= enc_u32s(xs.drop_last()).subrange(
            4 * k,
            4 * k + 4,
        ));
    }
}

proof fn lemma_enc_u64s_block(xs: Seq<u64>, k: int)
    requires
        0 <= k < xs.len(),
    ensures
        enc_u64s(xs).len() == 8 * xs.len(),
        enc_u64s(xs).subrange(8 * k, 8 * k + 8) == le_bytes(xs[k] as nat, 8),
    decreases xs.len(),
{
    lemma_enc_u64s_len(xs);
    lemma_le_bytes_len(xs.last() as nat, 8);
    if k == xs.len() - 1 {
        lemma_enc_u64s_len(xs.drop_last());
        assert(enc_u64s(xs).subrange(8 * k, 8 * k + 8) =~= le_bytes(xs.last() as nat, 8));
    } else {
        lemma_enc_u64s_block(xs.drop_last(), k);
        assert(enc_u64s(xs).subrange(8 * k, 8 * k + 8) =~= enc_u64s(xs.drop_last()).subrange(
            8 * k,
            8 * k + 8,
        ));
    }
}

proof fn lemma_cast_i8(x: i8)
    ensures
        ((x as u8) as i8) == x,
{
    assert(((x as u8) as i8) == x) by (bit_vector);
}

proof fn lemma_cast_i32(x: i32)
    ensures
        ((x as u32) as i32) == x,
{
    assert(((x as u32) as i32) == x) by (bit_vector);
}

proof fn lemma_cast_i64(x: i64)
    ensures
        ((x as u64) as i64) == x,
{
    assert(((x as u64) as i64) == x) by (bit_vector);
}

/// Decoding a length field of `s` at `i` whose bytes were written by the
/// encoder yields the encoded value and the position just past the field.
proof fn lemma_dec_len_at_pos(s: Seq<u8>, i: int, n: u64)
    requires
        0 <= i,
        i + len_enc(n).len() <= s.len(),
        s.subrange(i, i + len_enc(n).len()) == len_enc(n),
    ensures
        dec_len_at(s, i) == Ok::<(nat, int), LenError>((n as nat, i + len_enc(n).len())),
{
    let w = crate::length::min_len_width(n);
    lemma_pow256_vals();
    lemma_le_bytes_len(n as nat, w);
    assert(len_enc(n).len() == 1 + w);
    assert(s[i] == len_enc(n)[0]);
    assert(len_enc(n)[0] == w as u8);
    assert(s.subrange(i + 1, i + 1 + w as int) =~= len_enc(n).subrange(1, 1 + w as int));
    assert(len_enc(n).subrange(1, 1 + w as int) =~= le_bytes(n as nat, w));
    lemma_le_round_trip(n as nat, w);
}

proof fn lemma_dec_enc_fixed(s: Seq<u8>, i: int, v: ValuesV, fmt: Format, chan: nat)
    requires
        fmt != Format::String,
        v.has_format(fmt),
        v.len() == chan,
        0 <= i,
        i + enc_values(v).len() <= s.len(),
        s.subrange(i, i + enc_values(v).len()) == enc_values(v),
    ensures
        enc_values(v).len() == fmt_width(fmt) * chan,
        dec_values_at(s, i, fmt, chan) == Ok::<(ValuesV, int), ParseError>(
            (v, i + fmt_width(fmt) * chan),
        ),
{
    lemma_pow256_vals();
    match v {
        ValuesV::I8(xs) => {
            lemma_enc_i8s_len(xs);
            assert forall|k: int| 0 <= k < xs.len() implies s[i + k] as i8 == xs[k] by {
                lemma_enc_i8s_block(xs, k);
                assert(s.subrange(i + 1 * k, i + 1 * k + 1) =~= s.subrange(
                    i,
                    i + enc_values(v).len(),
                ).subrange(1 * k, 1 * k + 1));
                assert(le_bytes((xs[k] as u8) as nat, 1) =~= seq![xs[k] as u8]);
                assert(s[i + k] == s.subrange(i + 1 * k, i + 1 * k + 1)[0]);
                assert(s[i + k] == xs[k] as u8);
                lemma_cast_i8(xs[k]);
            }
            assert(Seq::new(chan, |k: int| s[i + k] as i8) =~= xs);
        },
        ValuesV::I16(xs) => {
            lemma_enc_i16s_len(xs);
            assert(s.subrange(i, i + 2 * xs.len()) == enc_i16s(xs));
            lemma_dec_enc_i16s(s, i, xs);
        },
        ValuesV::I32(xs) => {
            lemma_enc_i32s_len(xs);
            assert forall|k: int| 0 <= k < xs.len() implies (le_val(
                s.subrange(i + 4 * k, i + 4 * k + 4),
            ) as u32) as i32 == xs[k] by {
                lemma_enc_i32s_block(xs, k);
                assert(s.subrange(i + 4 * k, i + 4 * k + 4) =~= s.subrange(
                    i,
                    i + enc_values(v).len(),
                ).subrange(4 * k, 4 * k + 4));
                lemma_le_round_trip((xs[k] as u32) as nat, 4);
                lemma_cast_i32(xs[k]);
            }
            assert(Seq::new(
                chan,
                |k: int| (le_val(s.subrange(i + 4 * k, i + 4 * k + 4)) as u32) as i32,
            ) =~= xs);
        },
        ValuesV::I64(xs) => {
            lemma_enc_i64s_len(xs);
            assert forall|k: int| 0 <= k < xs.len() implies (le_val(
                s.subrange(i + 8 * k, i + 8 * k + 8),
            ) as u64) as i64 == xs[k] by {
                lemma_enc_i64s_block(xs, k);
                assert(s.subrange(i + 8 * k, i + 8 * k + 8) =~= s.subrange(
                    i,
                    i + enc_values(v).len(),
                ).subrange(8 * k, 8 * k + 8));
                lemma_le_round_trip((xs[k] as u64) as nat, 8);
                lemma_cast_i64(xs[k]);
            }
            assert(Seq::new(
                chan,
                |k: int| (le_val(s.subrange(i + 8 * k, i + 8 * k + 8)) as u64) as i64,
            ) =~= xs);
        },
        ValuesV::F32(xs) => {
            lemma_enc_u32s_len(xs);
            assert forall|k: int| 0 <= k < xs.len() implies le_val(
                s.subrange(i + 4 * k, i + 4 * k + 4),
            ) as u32 == xs[k] by {
                lemma_enc_u32s_block(xs, k);
                assert(s.subrange(i + 4 * k, i + 4 * k + 4) =~= s.subrange(
                    i,
                    i + enc_values(v).len(),
                ).subrange(4 * k, 4 * k + 4));
                lemma_le_round_trip(xs[k] as nat, 4);
            }
            assert(Seq::new(
                chan,
                |k: int| le_val(s.subrange(i + 4 * k, i + 4 * k + 4)) as u32,
            ) =~= xs);
        },
        ValuesV::F64(xs) => {
            lemma_enc_u64s_len(xs);
            assert forall|k: int| 0 <= k < xs.len() implies le_val(
                s.subrange(i + 8 * k, i + 8 * k + 8),
            ) as u64 == xs[k] by {
                lemma_enc_u64s_block(xs, k);
                assert(s.subrange(i + 8 * k, i + 8 * k + 8) =~= s.subrange(
                    i,
                    i + enc_values(v).len(),
                ).subrange(8 * k, 8 * k + 8));
                lemma_le_round_trip(xs[k] as nat, 8);
            }
            assert(Seq::new(
                chan,
                |k: int| le_val(s.subrange(i + 8 * k, i + 8 * k + 8)) as u64,
            ) =~= xs);
        },
        ValuesV::Str(_) => {},
    }
}

/// One string's wire bytes: its UTF-8 byte count as a length field, then the
/// bytes.
pub open spec fn enc_one_str(x: Seq<char>) -> Seq<u8> {
    len_enc(encode_utf8(x).len() as u64) + encode_utf8(x)
}

proof fn lemma_enc_strs_front(xs: Seq<Seq<char>>)
    requires
        xs.len() > 0,
    ensures
        enc_strs(xs) == enc_one_str(xs[0]) + enc_strs(xs.skip(1)),
    decreases xs.len(),
{
    if xs.len() == 1 {
        assert(xs.drop_last() =~= Seq::<Seq<char>>::empty());
        assert(xs.skip(1) =~= Seq::<Seq<char>>::empty());
        assert(enc_strs(xs) =~= enc_one_str(xs[0]) + enc_strs(xs.skip(1)));
    } else {
        let pre = xs.drop_last();
        lemma_enc_strs_front(pre);
        assert(pre[0] == xs[0]);
        assert(xs.skip(1).drop_last() =~= pre.skip(1));
        assert(xs.skip(1).last() == xs.last());
        assert(enc_strs(xs.skip(1)) == enc_strs(pre.skip(1)) + len_enc(
            encode_utf8(xs.last()).len() as u64,
        ) + encode_utf8(xs.last()));
        assert(enc_strs(xs) =~= enc_one_str(xs[0]) + enc_strs(xs.skip(1)));
    }
}

proof fn lemma_extract(s: Seq<u8>, i: int, whole: Seq<u8>, a: int, b: int)
    requires
        0 <= i,
        i + whole.len() <= s.len(),
        s.subrange(i, i + whole.len()) == whole,
        i <= a <= b <= i + whole.len(),
    ensures
        s.subrange(a, b) == whole.subrange(a - i, b - i),
{
    assert(s.subrange(a, b) =~= s.subrange(i, i + whole.len()).subrange(a - i, b - i));
}

proof fn lemma_dec_enc_strs(s: Seq<u8>, i: int, xs: Seq<Seq<char>>)
    requires
        0 <= i,
        i + enc_strs(xs).len() <= s.len(),
        s.subrange(i, i + enc_strs(xs).len()) == enc_strs(xs),
        forall|k: int| 0 <= k < xs.len() ==> (#[trigger] encode_utf8(xs[k])).len() <= u64::MAX,
    ensures
        dec_string_values(s, i, xs.len()) == Ok::<(Seq<Seq<char>>, int), ParseError>(
            (xs, i + enc_strs(xs).len()),
        ),
    decreases xs.len(),
{
    if xs.len() == 0 {
        assert(xs =~= Seq::<Seq<char>>::empty());
    } else {
        lemma_enc_strs_front(xs);
        let x0 = xs[0];
        let b0 = encode_utf8(x0);
        let head = enc_one_str(x0);
        let whole = enc_strs(xs);
        let lf = len_enc(b0.len() as u64);
        lemma_extract(s, i, whole, i, i + lf.len() as int);
        assert(whole.subrange(0, lf.len() as int) =~= lf);
        lemma_dec_len_at_pos(s, i, b0.len() as u64);
        let p = i + lf.len() as int;
        lemma_extract(s, i, whole, p, p + b0.len());
        assert(whole.subrange(p - i, p - i + b0.len()) =~= b0);
        encode_utf8_valid_utf8(x0);
        encode_utf8_decode_utf8(x0);
        let rest = xs.skip(1);
        let i2 = p + b0.len();
        lemma_extract(s, i, whole, i2, i2 + enc_strs(rest).len() as int);
        assert(whole.subrange(i2 - i, i2 - i + enc_strs(rest).len() as int) =~= enc_strs(rest));
        assert(s.subrange(i2, i2 + enc_strs(rest).len() as int) == enc_strs(rest));
        assert forall|k: int| 0 <= k < rest.len() implies (#[trigger] encode_utf8(
            rest[k],
        )).len() <= u64::MAX by {
            assert(rest[k] == xs[k + 1]);
            assert(encode_utf8(xs[k + 1]).len() <= u64::MAX);
        }
        lemma_dec_enc_strs(s, i2, rest);
        assert(seq![decode_utf8(s.subrange(p, p + b0.len()))] + rest =~= xs);
    }
}

proof fn lemma_dec_enc_values(s: Seq<u8>, i: int, v: ValuesV, fmt: Format, chan: nat)
    requires
        v.has_format(fmt),
        v.len() == chan,
        0 <= i,
        i + enc_values(v).len() <= s.len(),
        s.subrange(i, i + enc_values(v).len()) == enc_values(v),
        fmt == Format::String ==> (match v {
            ValuesV::Str(xs) => forall|k: int|
                0 <= k < xs.len() ==> (#[trigger] encode_utf8(xs[k])).len() <= u64::MAX,
            _ => true,
        }),
    ensures
        dec_values_at(s, i, fmt, chan) == Ok::<(ValuesV, int), ParseError>(
            (v, i + enc_values(v).len()),
        ),
{
    if fmt == Format::String {
        match v {
            ValuesV::Str(xs) => {
                lemma_dec_enc_strs(s, i, xs);
            },
            _ => {},
        }
    } else {
        lemma_dec_enc_fixed(s, i, v, fmt, chan);
    }
}

/// The samples a written batch reads back as: each row's values, the batch
/// timestamp on the first sample when one was given, none on the rest.
pub open spec fn round_trip_samples(batch: Seq<ValuesV>, ts: Option<u64>) -> Seq<SampleV> {
    Seq::new(
        batch.len(),
        |k: int|
            SampleV {
                timestamp: if k == 0 {
                    ts
                } else {
                    None::<u64>
                },
                values: batch[k],
            },
    )
}

/// Whether every string value in the batch fits the length field that
/// prefixes it on the wire.
pub open spec fn batch_strings_fit(batch: Seq<ValuesV>) -> bool {
    forall|m: int|
        0 <= m < batch.len() ==> (match #[trigger] batch[m] {
            ValuesV::Str(xs) => forall|k: int|
                0 <= k < xs.len() ==> (#[trigger] encode_utf8(xs[k])).len() <= u64::MAX,
            _ => true,
        })
}

proof fn lemma_dec_samples_at_step(s: Seq<u8>, i: int, fmt: Format, chan: nat, k: nat)
    requires
        k > 0,
    ensures
        dec_samples_at(s, i, fmt, chan, k) == (match dec_sample_at(s, i, fmt, chan) {
            Err(e) => Err::<(Seq<SampleV>, int), ParseError>(e),
            Ok((smp, j)) => match dec_samples_at(s, j, fmt, chan, (k - 1) as nat) {
                Err(e) => Err::<(Seq<SampleV>, int), ParseError>(e),
                Ok((rest, end)) => Ok::<(Seq<SampleV>, int), ParseError>((seq![smp] + rest, end)),
            },
        }),
{
}

#[verifier::rlimit(100)]
proof fn lemma_dec_enc_batch(
    s: Seq<u8>,
    i: int,
    batch: Seq<ValuesV>,
    m: int,
    ts: Option<u64>,
    fmt: Format,
    chan: nat,
)
    requires
        batch_ok(batch, chan, fmt),
        batch_strings_fit(batch),
        0 <= m <= batch.len(),
        0 <= i,
        i + enc_batch(batch, m, ts).len() <= s.len(),
        s.subrange(i, i + enc_batch(batch, m, ts).len()) == enc_batch(batch, m, ts),
    ensures
        dec_samples_at(s, i, fmt, chan, (batch.len() - m) as nat) == Ok::<
            (Seq<SampleV>, int),
            ParseError,
        >(
            (
                Seq::new(
                    (batch.len() - m) as nat,
                    |k: int|
                        SampleV {
                            timestamp: if m + k == 0 {
                                ts
                            } else {
                                None::<u64>
                            },
                            values: batch[m + k],
                        },
                ),
                i + enc_batch(batch, m, ts).len(),
            ),
        ),
    decreases batch.len() - m,
{
    if m == batch.len() {
        assert(Seq::new(
            (batch.len() - m) as nat,
            |k: int|
                SampleV {
                    timestamp: if m + k == 0 {
                        ts
                    } else {
                        None::<u64>
                    },
                    values: batch[m + k],
                },
        ) =~= Seq::<SampleV>::empty());
    } else {
        let whole = enc_batch(batch, m, ts);
        let head: Seq<u8> = if m == 0 && ts is Some {
            seq![8u8] + le_bytes(ts->Some_0 as nat, 8)
        } else {
            seq![0u8]
        };
        let ev = enc_values(batch[m]);
        let tail = enc_batch(batch, m + 1, ts);
        assert(whole == head + ev + tail);
        lemma_pow256_vals();
        let iv: int = if m == 0 && ts is Some {
            i + 9
        } else {
            i + 1
        };
        if m == 0 && ts is Some {
            lemma_le_bytes_len(ts->Some_0 as nat, 8);
            assert(s[i] == 8u8) by {
                assert(s.subrange(i, i + whole.len())[0] == whole[0]);
            }
            lemma_extract(s, i, whole, i + 1, i + 9);
            assert(whole.subrange(1, 9) =~= le_bytes(ts->Some_0 as nat, 8));
            lemma_le_round_trip(ts->Some_0 as nat, 8);
        } else {
            assert(s[i] == 0u8) by {
                assert(s.subrange(i, i + whole.len())[0] == whole[0]);
            }
        }
        lemma_extract(s, i, whole, iv, iv + ev.len() as int);
        assert(whole.subrange(iv - i, iv - i + ev.len() as int) =~= ev);
        lemma_dec_enc_values(s, iv, batch[m], fmt, chan);
        let i2 = iv + ev.len() as int;
        lemma_extract(s, i, whole, i2, i2 + tail.len() as int);
        assert(whole.subrange(i2 - i, i2 - i + tail.len() as int) =~= tail);
        lemma_dec_enc_batch(s, i2, batch, m + 1, ts, fmt, chan);
        let smp = SampleV {
            timestamp: if m == 0 && ts is Some {
                Some(ts->Some_0)
            } else {
                None::<u64>
            },
            values: batch[m],
        };
        assert(dec_sample_at(s, i, fmt, chan) == Ok::<(SampleV, int), ParseError>((smp, i2)));
        assert(i2 + tail.len() == i + whole.len());
        assert(dec_samples_at(s, i2, fmt, chan, ((batch.len() - m) as nat - 1) as nat)
            == dec_samples_at(s, i2, fmt, chan, (batch.len() - (m + 1)) as nat));
        let ihseq = Seq::new(
            (batch.len() - (m + 1)) as nat,
            |k: int|
                SampleV {
                    timestamp: if m + 1 + k == 0 {
                        ts
                    } else {
                        None::<u64>
                    },
                    values: batch[m + 1 + k],
                },
        );
        assert(dec_samples_at(s, i2, fmt, chan, (batch.len() - (m + 1)) as nat) == Ok::<
            (Seq<SampleV>, int),
            ParseError,
        >((ihseq, i2 + tail.len())));
        lemma_dec_samples_at_step(s, i, fmt, chan, (batch.len() - m) as nat);
        assert(dec_samples_at(s, i, fmt, chan, (batch.len() - m) as nat) == Ok::<
            (Seq<SampleV>, int),
            ParseError,
        >((seq![smp] + ihseq, i2 + tail.len())));
        assert(seq![smp] + ihseq =~= Seq::new(
            (batch.len() - m) as nat,
            |k: int|
                SampleV {
                    timestamp: if m + k == 0 {
                        ts
                    } else {
                        None::<u64>
                    },
                    values: batch[m + k],
                },
        ));
    }
}

/// The samples round trip: the content of a samples chunk written for a
/// batch decodes, under the batch's channel count and format, back to
/// exactly the batch: the same stream id, one sample per row holding that
/// row's values, the batch timestamp on the first sample when one was given
/// and none on the rest.
#[verifier::rlimit(60)]
pub proof fn lemma_samples_round_trip(
    id: u32,
    ts: Option<u64>,
    batch: Seq<ValuesV>,
    fmt: Format,
    chan: nat,
)
    requires
        batch_ok(batch, chan, fmt),
        batch_strings_fit(batch),
        batch.len() <= u64::MAX,
    ensures
        dec_samples_content(enc_samples_content(id, ts, batch), fmt, chan) == Ok::<
            (u32, Seq<SampleV>),
            ParseError,
        >((id, round_trip_samples(batch, ts))),
{
    let s = enc_samples_content(id, ts, batch);
    let n = batch.len() as u64;
    lemma_pow256_vals();
    lemma_le_bytes_len(id as nat, 4);
    lemma_le_bytes_len(n as nat, crate::length::min_len_width(n));
    assert(s.subrange(0, 4) =~= le_bytes(id as nat, 4));
    lemma_le_round_trip(id as nat, 4);
    assert(s.subrange(4, 4 + len_enc(n).len() as int) =~= len_enc(n));
    lemma_dec_len_at_pos(s, 4, n);
    let p: int = 4 + len_enc(n).len() as int;
    assert(s.subrange(p, p + enc_batch(batch, 0, ts).len()) =~= enc_batch(batch, 0, ts));
    lemma_dec_enc_batch(s, p, batch, 0, ts, fmt, chan);
    assert(Seq::new(
        batch.len(),
        |k: int|
            SampleV {
                timestamp: if 0 + k == 0 {
                    ts
                } else {
                    None::<u64>
                },
                values: batch[0 + k],
            },
    ) =~= round_trip_samples(batch, ts));
}

/// Scanning at a framed chunk inside a larger stream yields that chunk and
/// continues right after it: the writer's append of one frame is read back
/// as one chunk, wherever in the file it stands.
pub proof fn lemma_scan_frame_at(s: Seq<u8>, i: int, t: Tag, content: Seq<u8>)
    requires
        0 <= i,
        content.len() + 2 <= u64::MAX,
        i + frame_bytes(t, content).len() <= s.len(),
        s.subrange(i, i + frame_bytes(t, content).len()) == frame_bytes(t, content),
    ensures
        scan_chunks(s, i) == (match scan_chunks(s, i + frame_bytes(t, content).len()) {
            Ok(rest) => Ok::<Seq<RawChunkV>, ScanError>(
                seq![RawChunkV { tag: t, content }] + rest,
            ),
            Err(e) => Err::<Seq<RawChunkV>, ScanError>(e),
        }),
{
    let n = (content.len() + 2) as u64;
    let whole = frame_bytes(t, content);
    let lf = len_enc(n);
    let w = crate::length::min_len_width(n);
    lemma_pow256_vals();
    lemma_le_bytes_len(n as nat, w);
    lemma_extract(s, i, whole, i, i + lf.len() as int);
    assert(whole.subrange(0, lf.len() as int) =~= lf);
    lemma_dec_len_at_pos(s, i, n);
    let p = i + lf.len() as int;
    assert(s[p] == crate::tag_num(t)) by {
        assert(s.subrange(i, i + whole.len())[p - i] == whole[p - i]);
        assert(whole[p - i] == crate::tag_bytes(t)[0]);
    }
    assert(s[p + 1] == 0u8) by {
        assert(s.subrange(i, i + whole.len())[p + 1 - i] == whole[p + 1 - i]);
        assert(whole[p + 1 - i] == crate::tag_bytes(t)[1]);
    }
    assert((s[p] as int + 256 * (s[p + 1] as int)) as u16 == crate::tag_num(t) as u16);
    assert(tag_of_num(crate::tag_num(t) as u16) == Some(t));
    lemma_extract(s, i, whole, p + 2, p + n as int);
    assert(whole.subrange(p + 2 - i, p + n - i) =~= content);
    assert(s.subrange(p + 2, p + n) == content);
    assert(p + n == i + whole.len());
}

/// A written samples batch survives the read path. The frame the writer
/// appends for a batch scans back as one raw samples chunk, and its content
/// decodes, under the stream's channel count and format, to exactly the
/// batch: the same stream id, one sample per row with that row's values, the
/// batch timestamp on the first sample when one was given and none on the
/// rest.
pub proof fn lemma_write_read_samples(
    s: Seq<u8>,
    i: int,
    id: u32,
    ts: Option<u64>,
    batch: Seq<ValuesV>,
    fmt: Format,
    chan: nat,
)
    requires
        batch_ok(batch, chan, fmt),
        batch_strings_fit(batch),
        batch.len() <= u64::MAX,
        0 <= i,
        enc_samples_content(id, ts, batch).len() + 2 <= u64::MAX,
        i + frame_bytes(Tag::Samples, enc_samples_content(id, ts, batch)).len() <= s.len(),
        s.subrange(i, i + frame_bytes(Tag::Samples, enc_samples_content(id, ts, batch)).len())
            == frame_bytes(Tag::Samples, enc_samples_content(id, ts, batch)),
    ensures
        ({
            let content = enc_samples_content(id, ts, batch);
            &&& scan_chunks(s, i) == (match scan_chunks(s, i + frame_bytes(
                Tag::Samples,
                content,
            ).len()) {
                Ok(rest) => Ok::<Seq<RawChunkV>, ScanError>(
                    seq![RawChunkV { tag: Tag::Samples, content }] + rest,
                ),
                Err(e) => Err::<Seq<RawChunkV>, ScanError>(e),
            })
            &&& dec_samples_content(content, fmt, chan) == Ok::<(u32, Seq<SampleV>), ParseError>(
                (id, round_trip_samples(batch, ts)),
            )
        }),
{
    lemma_scan_frame_at(s, i, Tag::Samples, enc_samples_content(id, ts, batch));
    lemma_samples_round_trip(id, ts, batch, fmt, chan);
}

} // verus!
