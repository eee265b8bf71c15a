use vstd::prelude::*;
use vstd::string::StringSliceAdditionalSpecFns;
use vstd::utf8::{decode_utf8, encode_utf8, valid_utf8};

use crate::errors::{ParseError, StreamError, XDFError, XMLError};
use crate::fbits::{f32_of_decimal, f64_of_decimal, is_zero_bits, F32_ONE_BITS};
use crate::length::{dec_len_at, decode_length, le_val, pow256, read_le, LenError};
use crate::text::{
    bytes_eq, bytes_to_string, copy_range, is_dec, dec_val, lower_bytes, parse_u32_dec,
    tail_bytes, to_lower_bytes,
};
use crate::xmlio::{copy_str, get_text_from_child, xml_parse};
use crate::fbits::{f32_parse, f64_is_zero, f64_parse};
use crate::{Format, Sample, SampleV, Values, ValuesV};

verus! {

/// The first chunk of every file: the format version it declares, as the bit
/// pattern of an IEEE-754 single, and its XML tree.
#[derive(Debug)]
pub struct FileHeaderChunk {
    pub version: u32,
    pub xml: xmltree::Element,
}

/// The fields the reader needs from a stream-header's XML.
#[derive(Debug)]
pub struct StreamHeaderChunkInfo {
    pub channel_count: u32,
    pub nominal_srate: Option<u64>,
    pub channel_format: Format,
    pub name: Option<String>,
    pub stream_type: Option<String>,
}

/// A stream-header chunk: the stream id, the decoded fields, and the XML tree.
#[derive(Debug)]
pub struct StreamHeaderChunk {
    pub stream_id: u32,
    pub info: StreamHeaderChunkInfo,
    pub xml: xmltree::Element,
}

/// A batch of samples for one stream.
#[derive(Debug)]
pub struct SamplesChunk {
    pub stream_id: u32,
    pub samples: Vec<Sample>,
}

/// One clock-offset measurement for a stream; both fields are bit patterns of
/// IEEE-754 doubles giving seconds.
#[derive(Debug, Clone, Copy, PartialEq, Eq, Structural)]
pub struct ClockOffsetChunk {
    pub stream_id: u32,
    pub collection_time: u64,
    pub offset_value: u64,
}

/// A boundary marker; its content is discarded.
#[derive(Debug)]
pub struct BoundaryChunk {}

/// A stream-footer chunk: the stream id and the XML tree.
#[derive(Debug)]
pub struct StreamFooterChunk {
    pub stream_id: u32,
    pub xml: xmltree::Element,
}

/// One decoded chunk of any kind.
#[derive(Debug)]
pub enum Chunk {
    FileHeader(FileHeaderChunk),
    StreamHeader(StreamHeaderChunk),
    Samples(SamplesChunk),
    ClockOffset(ClockOffsetChunk),
    Boundary(BoundaryChunk),
    StreamFooter(StreamFooterChunk),
}

/// The fixed width in bytes of one value of a numeric format.
pub open spec fn fmt_width(f: Format) -> nat
    recommends
        f != Format::String,
{
    match f {
        Format::Int8 => 1,
        Format::Int16 => 2,
        Format::Int32 => 4,
        Format::Int64 => 8,
        Format::Float32 => 4,
        Format::Float64 => 8,
        Format::String => 0,
    }
}

/// The `chan` fixed-width values of a numeric format, decoded little-endian
/// from `s` at `i`.
pub open spec fn dec_fixed_values(s: Seq<u8>, i: int, fmt: Format, chan: nat) -> ValuesV
    recommends
        fmt != Format::String,
        i + fmt_width(fmt) * chan <= s.len(),
{
    match fmt {
        Format::Int8 => ValuesV::I8(Seq::new(chan, |k: int| s[i + k] as i8)),
        Format::Int16 => ValuesV::I16(
            Seq::new(chan, |k: int| (le_val(s.subrange(i + 2 * k, i + 2 * k + 2)) as u16) as i16),
        ),
        Format::Int32 => ValuesV::I32(
            Seq::new(chan, |k: int| (le_val(s.subrange(i + 4 * k, i + 4 * k + 4)) as u32) as i32),
        ),
        Format::Int64 => ValuesV::I64(
            Seq::new(chan, |k: int| (le_val(s.subrange(i + 8 * k, i + 8 * k + 8)) as u64) as i64),
        ),
        Format::Float32 => ValuesV::F32(
            Seq::new(chan, |k: int| le_val(s.subrange(i + 4 * k, i + 4 * k + 4)) as u32),
        ),
        Format::Float64 => ValuesV::F64(
            Seq::new(chan, |k: int| le_val(s.subrange(i + 8 * k, i + 8 * k + 8)) as u64),
        ),
        Format::String => ValuesV::Str(Seq::<Seq<char>>::empty()),
    }
}

/// The `chan` string values decoded from `s` at `i`: each one a length field
/// followed by that many UTF-8 bytes.
pub open spec fn dec_string_values(s: Seq<u8>, i: int, chan: nat) -> Result<
    (Seq<Seq<char>>, int),
    ParseError,
>
    decreases chan,
{
    if chan == 0 {
        Ok((Seq::<Seq<char>>::empty(), i))
    } else {
        match dec_len_at(s, i) {
            Err(LenError::BadCount(c)) => Err(ParseError::InvalidNumCountBytes(c)),
            Err(LenError::Truncated) => Err(ParseError::ChunkParse),
            Ok((slen, p)) => if p + slen > s.len() {
                Err(ParseError::ChunkParse)
            } else {
                let bytes = s.subrange(p, p + slen);
                if !valid_utf8(bytes) {
                    Err(ParseError::Utf8)
                } else {
                    match dec_string_values(s, p + slen, (chan - 1) as nat) {
                        Err(e) => Err(e),
                        Ok((rest, end)) => Ok((seq![decode_utf8(bytes)] + rest, end)),
                    }
                }
            },
        }
    }
}

/// The values of one sample, decoded from `s` at `i` for the given format and
/// channel count, with the position just past them.
pub open spec fn dec_values_at(s: Seq<u8>, i: int, fmt: Format, chan: nat) -> Result<
    (ValuesV, int),
    ParseError,
> {
    if fmt == Format::String {
        match dec_string_values(s, i, chan) {
            Err(e) => Err(e),
            Ok((vals, end)) => Ok((ValuesV::Str(vals), end)),
        }
    } else {
        if i + fmt_width(fmt) * chan > s.len() {
            Err(ParseError::ChunkParse)
        } else {
            Ok((dec_fixed_values(s, i, fmt, chan), i + fmt_width(fmt) * chan))
        }
    }
}

/// One sample decoded from `s` at `i`: a timestamp flag byte of 0 or 8, the
/// eight timestamp bytes when the flag is 8, then the values.
pub open spec fn dec_sample_at(s: Seq<u8>, i: int, fmt: Format, chan: nat) -> Result<
    (SampleV, int),
    ParseError,
> {
    if i < 0 || i >= s.len() {
        Err(ParseError::ChunkParse)
    } else if s[i] == 0 {
        match dec_values_at(s, i + 1, fmt, chan) {
            Err(e) => Err(e),
            Ok((vals, end)) => Ok((SampleV { timestamp: None, values: vals }, end)),
        }
    } else if s[i] == 8 {
        if i + 9 > s.len() {
            Err(ParseError::ChunkParse)
        } else {
            let ts = le_val(s.subrange(i + 1, i + 9)) as u64;
            match dec_values_at(s, i + 9, fmt, chan) {
                Err(e) => Err(e),
                Ok((vals, end)) => Ok((SampleV { timestamp: Some(ts), values: vals }, end)),
            }
        }
    } else {
        Err(ParseError::InvalidSample)
    }
}

/// `k` consecutive samples decoded from `s` at `i`.
pub open spec fn dec_samples_at(s: Seq<u8>, i: int, fmt: Format, chan: nat, k: nat) -> Result<
    (Seq<SampleV>, int),
    ParseError,
>
    decreases k,
{
    if k == 0 {
        Ok((Seq::<SampleV>::empty(), i))
    } else {
        match dec_sample_at(s, i, fmt, chan) {
            Err(e) => Err(e),
            Ok((smp, j)) => match dec_samples_at(s, j, fmt, chan, (k - 1) as nat) {
                Err(e) => Err(e),
                Ok((rest, end)) => Ok((seq![smp] + rest, end)),
            },
        }
    }
}

/// The content of a samples chunk: the stream id, a length field giving the
/// sample count, then the samples back to back. Trailing bytes are ignored.
pub open spec fn dec_samples_content(s: Seq<u8>, fmt: Format, chan: nat) -> Result<
    (u32, Seq<SampleV>),
    ParseError,
> {
    if s.len() < 4 {
        Err(ParseError::ChunkParse)
    } else {
        let id = le_val(s.subrange(0, 4)) as u32;
        match dec_len_at(s, 4) {
            Err(LenError::BadCount(c)) => Err(ParseError::InvalidNumCountBytes(c)),
            Err(LenError::Truncated) => Err(ParseError::ChunkParse),
            Ok((n, p)) => match dec_samples_at(s, p, fmt, chan, n) {
                Err(e) => Err(e),
                Ok((smps, _end)) => Ok((id, smps)),
            },
        }
    }
}

/// Whether every sample of `smps` has `chan` values of format `fmt`.
pub open spec fn samples_wf(smps: Seq<SampleV>, chan: nat, fmt: Format) -> bool {
    forall|k: int|
        0 <= k < smps.len() ==> (#[trigger] smps[k].values).len() == chan && smps[k].values.has_format(
            fmt,
        )
}

pub proof fn lemma_dec_samples_wf(s: Seq<u8>, i: int, fmt: Format, chan: nat, k: nat)
    ensures
        dec_samples_at(s, i, fmt, chan, k) matches Ok((smps, _)) ==> samples_wf(smps, chan, fmt),
    decreases k,
{
    if k > 0 {
        match dec_sample_at(s, i, fmt, chan) {
            Err(_) => {},
            Ok((smp, j)) => {
                lemma_dec_samples_wf(s, j, fmt, chan, (k - 1) as nat);
                lemma_dec_sample_wf(s, i, fmt, chan);
            },
        }
    }
}

pub proof fn lemma_dec_sample_wf(s: Seq<u8>, i: int, fmt: Format, chan: nat)
    ensures
        dec_sample_at(s, i, fmt, chan) matches Ok((smp, _)) ==> smp.values.len() == chan
            && smp.values.has_format(fmt),
{
    lemma_dec_values_wf(s, i + 1, fmt, chan);
    lemma_dec_values_wf(s, i + 9, fmt, chan);
}

pub proof fn lemma_dec_values_wf(s: Seq<u8>, i: int, fmt: Format, chan: nat)
    ensures
        dec_values_at(s, i, fmt, chan) matches Ok((vals, _)) ==> vals.len() == chan
            && vals.has_format(fmt),
{
    if fmt == Format::String {
        lemma_dec_string_values_len(s, i, chan);
    }
}

pub proof fn lemma_dec_string_values_len(s: Seq<u8>, i: int, chan: nat)
    ensures
        dec_string_values(s, i, chan) matches Ok((vals, _)) ==> vals.len() == chan,
    decreases chan,
{
    if chan > 0 {
        match dec_len_at(s, i) {
            Err(_) => {},
            Ok((slen, p)) => {
                lemma_dec_string_values_len(s, p + slen, (chan - 1) as nat);
            },
        }
    }
}

/// The views of a sample vector.
pub open spec fn sample_views(s: Seq<Sample>) -> Seq<SampleV> {
    s.map_values(|x: Sample| x@)
}

fn read_fixed_raw(s: &[u8], pos: usize, w: usize, chan: usize) -> (r: Vec<u64>)
    requires
        1 <= w <= 8,
        pos + w * chan <= s@.len(),
    ensures
        r@.len() == chan,
        forall|k: int|
            0 <= k < chan ==> (#[trigger] r@[k]) as nat == le_val(
                s@.subrange(pos + w * k, pos + w * k + w),
            ) && r@[k] < pow256(w as nat),
{
    let n_total = s.len();
    proof {
        assert(s@.len() <= usize::MAX);
    }
    let mut out: Vec<u64> = Vec::new();
    let mut k: usize = 0;
    while k < chan
        invariant
            0 <= k <= chan,
            1 <= w <= 8,
            pos + w * chan <= s@.len(),
            s@.len() <= usize::MAX,
            out@.len() == k,
            forall|j: int|
                0 <= j < k ==> (#[trigger] out@[j]) as nat == le_val(
                    s@.subrange(pos + w * j, pos + w * j + w),
                ) && out@[j] < pow256(w as nat),
        decreases chan - k,
    {
        proof {
            assert(w * k + w <= w * chan) by (nonlinear_arith)
                requires
                    k < chan,
                    1 <= w,
            ;
            assert(w * k >= 0) by (nonlinear_arith)
                requires
                    k >= 0,
                    w >= 1,
            ;
        }
        let v = read_le(s, pos + w * k, w);
        proof {
            crate::length::lemma_le_val_bound(s@.subrange(pos + w * k, pos + w * k + w));
        }
        out.push(v);
        k = k + 1;
    }
    out
}

fn parse_fixed_values(s: &[u8], pos: usize, fmt: Format, chan: u32) -> (r: Result<
    (Values, usize),
    ParseError,
>)
    requires
        fmt != Format::String,
        pos <= s@.len(),
    ensures
        match r {
            Ok((vals, end)) => dec_values_at(s@, pos as int, fmt, chan as nat) == Ok::<
                (ValuesV, int),
                ParseError,
            >((vals@, end as int)) && pos <= end <= s@.len(),
            Err(e) => dec_values_at(s@, pos as int, fmt, chan as nat) == Err::<
                (ValuesV, int),
                ParseError,
            >(e),
        },
{
    let w: usize = match fmt {
        Format::Int8 => 1,
        Format::Int16 => 2,
        Format::Int32 => 4,
        Format::Int64 => 8,
        Format::Float32 => 4,
        Format::Float64 => 8,
        Format::String => 1,
    };
    let total: u64 = (w as u64) * (chan as u64);
    if total > (s.len() - pos) as u64 {
        proof {
            assert(pos + fmt_width(fmt) * (chan as nat) > s@.len());
        }
        return Err(ParseError::ChunkParse);
    }
    let total_us: usize = total as usize;
    proof {
        assert(pos + w * (chan as int) <= s@.len());
        crate::length::lemma_pow256_vals();
    }
    let raw = read_fixed_raw(s, pos, w, chan as usize);
    let end = pos + total_us;
    match fmt {
        Format::Int8 => {
            let mut v: Vec<i8> = Vec::new();
            let mut k: usize = 0;
            while k < raw.len()
                invariant
                    0 <= k <= raw@.len(),
                    raw@.len() == chan,
                    v@.len() == k,
                    pos + 1 * chan <= s@.len(),
                    forall|j: int|
                        0 <= j < raw@.len() ==> (#[trigger] raw@[j]) as nat == le_val(
                            s@.subrange(pos + 1 * j, pos + 1 * j + 1),
                        ) && raw@[j] < 256,
                    forall|j: int| 0 <= j < k ==> #[trigger] v@[j] == s@[pos + j] as i8,
                decreases raw@.len() - k,
            {
                proof {
                    let j = k as int;
                    assert(s@.subrange(pos + 1 * j, pos + 1 * j + 1) =~= seq![s@[pos + j]]);
                    assert(seq![s@[pos + j]].skip(1) =~= Seq::<u8>::empty());
                    assert(raw@[j] == s@[pos + j]);
                }
                v.push((raw[k] as u8) as i8);
                k = k + 1;
            }
            proof {
                assert(v@ =~= Seq::new(chan as nat, |k: int| s@[pos + k] as i8));
            }
            Ok((Values::Int8(v), end))
        },
        Format::Int16 => {
            let mut v: Vec<i16> = Vec::new();
            let mut k: usize = 0;
            while k < raw.len()
                invariant
                    0 <= k <= raw@.len(),
                    raw@.len() == chan,
                    v@.len() == k,
                    pos + 2 * chan <= s@.len(),
                    forall|j: int|
                        0 <= j < raw@.len() ==> (#[trigger] raw@[j]) as nat == le_val(
                            s@.subrange(pos + 2 * j, pos + 2 * j + 2),
                        ) && raw@[j] < 0x1_0000,
                    forall|j: int|
                        0 <= j < k ==> #[trigger] v@[j] == (le_val(
                            s@.subrange(pos + 2 * j, pos + 2 * j + 2),
                        ) as u16) as i16,
                decreases raw@.len() - k,
            {
                v.push((raw[k] as u16) as i16);
                k = k + 1;
            }
            proof {
                assert(v@ =~= Seq::new(
                    chan as nat,
                    |k: int| (le_val(s@.subrange(pos + 2 * k, pos + 2 * k + 2)) as u16) as i16,
                ));
            }
            Ok((Values::Int16(v), end))
        },
        Format::Int32 => {
            let mut v: Vec<i32> = Vec::new();
            let mut k: usize = 0;
            while k < raw.len()
                invariant
                    0 <= k <= raw@.len(),
                    raw@.len() == chan,
                    v@.len() == k,
                    pos + 4 * chan <= s@.len(),
                    forall|j: int|
                        0 <= j < raw@.len() ==> (#[trigger] raw@[j]) as nat == le_val(
                            s@.subrange(pos + 4 * j, pos + 4 * j + 4),
                        ) && raw@[j] < 0x1_0000_0000,
                    forall|j: int|
                        0 <= j < k ==> #[trigger] v@[j] == (le_val(
                            s@.subrange(pos + 4 * j, pos + 4 * j + 4),
                        ) as u32) as i32,
                decreases raw@.len() - k,
            {
                v.push((raw[k] as u32) as i32);
                k = k + 1;
            }
            proof {
                assert(v@ =~= Seq::new(
                    chan as nat,
                    |k: int| (le_val(s@.subrange(pos + 4 * k, pos + 4 * k + 4)) as u32) as i32,
                ));
            }
            Ok((Values::Int32(v), end))
        },
        Format::Int64 => {
            let mut v: Vec<i64> = Vec::new();
            let mut k: usize = 0;
            while k < raw.len()
                invariant
                    0 <= k <= raw@.len(),
                    raw@.len() == chan,
                    v@.len() == k,
                    pos + 8 * chan <= s@.len(),
                    forall|j: int|
                        0 <= j < raw@.len() ==> (#[trigger] raw@[j]) as nat == le_val(
                            s@.subrange(pos + 8 * j, pos + 8 * j + 8),
                        ),
                    forall|j: int|
                        0 <= j < k ==> #[trigger] v@[j] == (le_val(
                            s@.subrange(pos + 8 * j, pos + 8 * j + 8),
                        ) as u64) as i64,
                decreases raw@.len() - k,
            {
                v.push(raw[k] as i64);
                k = k + 1;
            }
            proof {
                assert(v@ =~= Seq::new(
                    chan as nat,
                    |k: int| (le_val(s@.subrange(pos + 8 * k, pos + 8 * k + 8)) as u64) as i64,
                ));
            }
            Ok((Values::Int64(v), end))
        },
        Format::Float32 => {
            let mut v: Vec<u32> = Vec::new();
            let mut k: usize = 0;
            while k < raw.len()
                invariant
                    0 <= k <= raw@.len(),
                    raw@.len() == chan,
                    v@.len() == k,
                    pos + 4 * chan <= s@.len(),
                    forall|j: int|
                        0 <= j < raw@.len() ==> (#[trigger] raw@[j]) as nat == le_val(
                            s@.subrange(pos + 4 * j, pos + 4 * j + 4),
                        ) && raw@[j] < 0x1_0000_0000,
                    forall|j: int|
                        0 <= j < k ==> #[trigger] v@[j] == le_val(
                            s@.subrange(pos + 4 * j, pos + 4 * j + 4),
                        ) as u32,
                decreases raw@.len() - k,
            {
                v.push(raw[k] as u32);
                k = k + 1;
            }
            proof {
                assert(v@ =~= Seq::new(
                    chan as nat,
                    |k: int| le_val(s@.subrange(pos + 4 * k, pos + 4 * k + 4)) as u32,
                ));
            }
            Ok((Values::Float32(v), end))
        },
        Format::Float64 => {
            let mut v: Vec<u64> = Vec::new();
            let mut k: usize = 0;
            while k < raw.len()
                invariant
                    0 <= k <= raw@.len(),
                    raw@.len() == chan,
                    v@.len() == k,
                    pos + 8 * chan <= s@.len(),
                    forall|j: int|
                        0 <= j < raw@.len() ==> (#[trigger] raw@[j]) as nat == le_val(
                            s@.subrange(pos + 8 * j, pos + 8 * j + 8),
                        ),
                    forall|j: int|
                        0 <= j < k ==> #[trigger] v@[j] == le_val(
                            s@.subrange(pos + 8 * j, pos + 8 * j + 8),
                        ) as u64,
                decreases raw@.len() - k,
            {
                v.push(raw[k]);
                k = k + 1;
            }
            proof {
                assert(v@ =~= Seq::new(
                    chan as nat,
                    |k: int| le_val(s@.subrange(pos + 8 * k, pos + 8 * k + 8)) as u64,
                ));
            }
            Ok((Values::Float64(v), end))
        },
        Format::String => Err(ParseError::ChunkParse),
    }
}

fn parse_string_values(s: &[u8], pos: usize, chan: u32) -> (r: Result<
    (Vec<String>, usize),
    ParseError,
>)
    requires
        pos <= s@.len(),
    ensures
        match r {
            Ok((vals, end)) => dec_string_values(s@, pos as int, chan as nat) == Ok::<
                (Seq<Seq<char>>, int),
                ParseError,
            >((vals.deep_view(), end as int)) && pos <= end <= s@.len(),
            Err(e) => dec_string_values(s@, pos as int, chan as nat) == Err::<
                (Seq<Seq<char>>, int),
                ParseError,
            >(e),
        },
{
    let mut out: Vec<String> = Vec::new();
    let mut pos_cur: usize = pos;
    let mut k: u32 = 0;
    proof {
        match dec_string_values(s@, pos as int, chan as nat) {
            Ok((r0, _e0)) => {
                assert(out.deep_view() + r0 =~= r0);
            },
            Err(_) => {},
        }
    }
    while k < chan
        invariant
            0 <= k <= chan,
            pos <= pos_cur <= s@.len(),
            out.deep_view().len() == k,
            dec_string_values(s@, pos as int, chan as nat) == (match dec_string_values(
                s@,
                pos_cur as int,
                (chan - k) as nat,
            ) {
                Ok((rest, end)) => Ok::<(Seq<Seq<char>>, int), ParseError>(
                    (out.deep_view() + rest, end),
                ),
                Err(e) => Err::<(Seq<Seq<char>>, int), ParseError>(e),
            }),
        decreases chan - k,
    {
        let ghost pos0 = pos_cur as int;
        let (slen, p) = match decode_length(s, pos_cur) {
            Ok(x) => x,
            Err(LenError::BadCount(c)) => {
                return Err(ParseError::InvalidNumCountBytes(c));
            },
            Err(LenError::Truncated) => {
                return Err(ParseError::ChunkParse);
            },
        };
        if slen > (s.len() - p) as u64 {
            proof {
                assert(pos0 + 1 + s@[pos0] + slen > s@.len());
            }
            return Err(ParseError::ChunkParse);
        }
        let sl = slen as usize;
        let bytes = copy_range(s, p, p + sl);
        let ghost bytes_spec = s@.subrange(p as int, p + sl);
        let st = match bytes_to_string(bytes) {
            None => {
                return Err(ParseError::Utf8);
            },
            Some(st) => st,
        };
        proof {
            vstd::utf8::encode_utf8_decode_utf8(st@);
            assert(decode_utf8(bytes_spec) == st@);
        }
        let ghost prev_deep = out.deep_view();
        out.push(st);
        pos_cur = p + sl;
        k = k + 1;
        proof {
            assert(out.deep_view() =~= prev_deep + seq![st@]);
            match dec_string_values(s@, pos_cur as int, (chan - k) as nat) {
                Ok((rest, _end)) => {
                    assert(dec_string_values(s@, pos0, (chan - (k - 1)) as nat) == Ok::<
                        (Seq<Seq<char>>, int),
                        ParseError,
                    >((seq![st@] + rest, _end)));
                    assert(prev_deep + (seq![st@] + rest) =~= out.deep_view() + rest);
                },
                Err(_) => {},
            }
        }
    }
    proof {
        assert(out.deep_view() + Seq::<Seq<char>>::empty() =~= out.deep_view());
    }
    Ok((out, pos_cur))
}

fn parse_values(s: &[u8], pos: usize, fmt: Format, chan: u32) -> (r: Result<
    (Values, usize),
    ParseError,
>)
    requires
        pos <= s@.len(),
    ensures
        match r {
            Ok((vals, end)) => dec_values_at(s@, pos as int, fmt, chan as nat) == Ok::<
                (ValuesV, int),
                ParseError,
            >((vals@, end as int)) && pos <= end <= s@.len(),
            Err(e) => dec_values_at(s@, pos as int, fmt, chan as nat) == Err::<
                (ValuesV, int),
                ParseError,
            >(e),
        },
{
    if fmt == Format::String {
        match parse_string_values(s, pos, chan) {
            Ok((vals, end)) => Ok((Values::Strings(vals), end)),
            Err(e) => Err(e),
        }
    } else {
        parse_fixed_values(s, pos, fmt, chan)
    }
}

fn parse_one_sample(s: &[u8], pos: usize, fmt: Format, chan: u32) -> (r: Result<
    (Sample, usize),
    ParseError,
>)
    requires
        pos <= s@.len(),
    ensures
        match r {
            Ok((smp, end)) => dec_sample_at(s@, pos as int, fmt, chan as nat) == Ok::<
                (SampleV, int),
                ParseError,
            >((smp@, end as int)) && pos < end <= s@.len(),
            Err(e) => dec_sample_at(s@, pos as int, fmt, chan as nat) == Err::<
                (SampleV, int),
                ParseError,
            >(e),
        },
{
    if pos >= s.len() {
        return Err(ParseError::ChunkParse);
    }
    let flag = s[pos];
    if flag == 0 {
        match parse_values(s, pos + 1, fmt, chan) {
            Ok((vals, end)) => Ok((Sample { timestamp: None, values: vals }, end)),
            Err(e) => Err(e),
        }
    } else if flag == 8 {
        if s.len() - pos < 9 {
            return Err(ParseError::ChunkParse);
        }
        let ts = read_le(s, pos + 1, 8);
        proof {
            crate::length::lemma_le_val_bound(s@.subrange(pos + 1, pos + 9));
            crate::length::lemma_pow256_vals();
        }
        match parse_values(s, pos + 9, fmt, chan) {
            Ok((vals, end)) => Ok((Sample { timestamp: Some(ts), values: vals }, end)),
            Err(e) => Err(e),
        }
    } else {
        Err(ParseError::InvalidSample)
    }
}

/// Decode the content of a samples chunk: the stream id, a length field with
/// the sample count, then that many samples of the given format and channel
/// count.
pub fn parse_samples_content(s: &[u8], fmt: Format, chan: u32) -> (r: Result<
    (u32, Vec<Sample>),
    ParseError,
>)
    ensures
        match r {
            Ok((id, smps)) => dec_samples_content(s@, fmt, chan as nat) == Ok::<
                (u32, Seq<SampleV>),
                ParseError,
            >((id, sample_views(smps@))) && samples_wf(sample_views(smps@), chan as nat, fmt),
            Err(e) => dec_samples_content(s@, fmt, chan as nat) == Err::<
                (u32, Seq<SampleV>),
                ParseError,
            >(e),
        },
{
    if s.len() < 4 {
        return Err(ParseError::ChunkParse);
    }
    let id64 = read_le(s, 0, 4);
    proof {
        crate::length::lemma_le_val_bound(s@.subrange(0, 4));
        crate::length::lemma_pow256_vals();
    }
    let id = id64 as u32;
    let (n, p_start) = match decode_length(s, 4) {
        Ok(x) => x,
        Err(LenError::BadCount(c)) => {
            return Err(ParseError::InvalidNumCountBytes(c));
        },
        Err(LenError::Truncated) => {
            return Err(ParseError::ChunkParse);
        },
    };
    let ghost p0 = p_start as int;
    let mut out: Vec<Sample> = Vec::new();
    let mut pos_cur: usize = p_start;
    let mut k: u64 = 0;
    proof {
        match dec_samples_at(s@, p0, fmt, chan as nat, n as nat) {
            Ok((r0, _e0)) => {
                assert(sample_views(out@) + r0 =~= r0);
            },
            Err(_) => {},
        }
    }
    while k < n
        invariant
            0 <= k <= n,
            p_start <= pos_cur <= s@.len(),
            p0 == p_start as int,
            s@.len() >= 4,
            dec_len_at(s@, 4) == Ok::<(nat, int), LenError>((n as nat, p_start as int)),
            sample_views(out@).len() == k,
            dec_samples_at(s@, p0, fmt, chan as nat, n as nat) == (match dec_samples_at(
                s@,
                pos_cur as int,
                fmt,
                chan as nat,
                (n - k) as nat,
            ) {
                Ok((rest, end)) => Ok::<(Seq<SampleV>, int), ParseError>(
                    (sample_views(out@) + rest, end),
                ),
                Err(e) => Err::<(Seq<SampleV>, int), ParseError>(e),
            }),
        decreases n - k,
    {
        let ghost posk = pos_cur as int;
        let (smp, end) = match parse_one_sample(s, pos_cur, fmt, chan) {
            Ok(x) => x,
            Err(e) => {
                proof {
                    assert(dec_samples_at(s@, posk, fmt, chan as nat, (n - k) as nat) == Err::<
                        (Seq<SampleV>, int),
                        ParseError,
                    >(e));
                    assert(dec_samples_at(s@, p0, fmt, chan as nat, n as nat) == Err::<
                        (Seq<SampleV>, int),
                        ParseError,
                    >(e));
                }
                return Err(e);
            },
        };
        let ghost prev = sample_views(out@);
        let ghost smpv = smp@;
        out.push(smp);
        pos_cur = end;
        k = k + 1;
        proof {
            assert(sample_views(out@) =~= prev + seq![smpv]);
            match dec_samples_at(s@, pos_cur as int, fmt, chan as nat, (n - k) as nat) {
                Ok((rest, _end)) => {
                    assert(dec_samples_at(s@, posk, fmt, chan as nat, (n - (k - 1)) as nat)
                        == Ok::<(Seq<SampleV>, int), ParseError>((seq![smpv] + rest, _end)));
                    assert(prev + (seq![smpv] + rest) =~= sample_views(out@) + rest);
                },
                Err(_) => {},
            }
        }
    }
    proof {
        assert(sample_views(out@) + Seq::<SampleV>::empty() =~= sample_views(out@));
        lemma_dec_samples_wf(s@, p0, fmt, chan as nat, n as nat);
    }
    Ok((id, out))
}

/// Decode the content of a clock-offset chunk: the stream id, then the
/// collection time and offset value as little-endian IEEE-754 double bit
/// patterns. Content past the twentieth byte is ignored.
pub fn parse_clock_offset(content: &[u8]) -> (r: Result<ClockOffsetChunk, ParseError>)
    ensures
        content@.len() >= 20 ==> r == Ok::<ClockOffsetChunk, ParseError>(
            ClockOffsetChunk {
                stream_id: le_val(content@.subrange(0, 4)) as u32,
                collection_time: le_val(content@.subrange(4, 12)) as u64,
                offset_value: le_val(content@.subrange(12, 20)) as u64,
            },
        ),
        content@.len() < 20 ==> r == Err::<ClockOffsetChunk, ParseError>(
            ParseError::InvalidClockOffset,
        ),
{
    if content.len() < 20 {
        return Err(ParseError::InvalidClockOffset);
    }
    let id64 = read_le(content, 0, 4);
    let ct = read_le(content, 4, 8);
    let ov = read_le(content, 12, 8);
    proof {
        crate::length::lemma_le_val_bound(content@.subrange(0, 4));
        crate::length::lemma_le_val_bound(content@.subrange(4, 12));
        crate::length::lemma_le_val_bound(content@.subrange(12, 20));
        crate::length::lemma_pow256_vals();
    }
    Ok(ClockOffsetChunk { stream_id: id64 as u32, collection_time: ct, offset_value: ov })
}

/// The stream format a channel-format name denotes, compared byte for byte.
pub open spec fn format_of_bytes(b: Seq<u8>) -> Option<Format> {
    if b == "int8".spec_bytes() {
        Some(Format::Int8)
    } else if b == "int16".spec_bytes() {
        Some(Format::Int16)
    } else if b == "int32".spec_bytes() {
        Some(Format::Int32)
    } else if b == "int64".spec_bytes() {
        Some(Format::Int64)
    } else if b == "float32".spec_bytes() {
        Some(Format::Float32)
    } else if b == "float64".spec_bytes() || b == "double64".spec_bytes() {
        Some(Format::Float64)
    } else if b == "string".spec_bytes() {
        Some(Format::String)
    } else {
        None
    }
}

/// The stream format a channel-format name denotes, without regard to ASCII
/// case: one of int8, int16, int32, int64, float32, float64, double64,
/// string.
pub fn str_to_format(input: &str) -> (r: Option<Format>)
    ensures
        r == format_of_bytes(lower_bytes(input.spec_bytes())),
{
    let lowered = to_lower_bytes(input.as_bytes());
    let l = lowered.as_slice();
    if bytes_eq(l, "int8".as_bytes()) {
        Some(Format::Int8)
    } else if bytes_eq(l, "int16".as_bytes()) {
        Some(Format::Int16)
    } else if bytes_eq(l, "int32".as_bytes()) {
        Some(Format::Int32)
    } else if bytes_eq(l, "int64".as_bytes()) {
        Some(Format::Int64)
    } else if bytes_eq(l, "float32".as_bytes()) {
        Some(Format::Float32)
    } else if bytes_eq(l, "float64".as_bytes()) || bytes_eq(l, "double64".as_bytes()) {
        Some(Format::Float64)
    } else if bytes_eq(l, "string".as_bytes()) {
        Some(Format::String)
    } else {
        None
    }
}

/// The version a version text denotes, as the bit pattern of an IEEE-754
/// single; `ParseFloat` exactly when the text is not a decimal number.
pub fn version_bits_of_text(text: &str) -> (r: Result<u32, XDFError>)
    ensures
        match r {
            Ok(b) => f32_of_decimal(text@) == Some(b),
            Err(e) => f32_of_decimal(text@) is None && e matches XDFError::Parse(
                ParseError::ParseFloat,
            ),
        },
{
    match f32_parse(text) {
        Some(b) => Ok(b),
        None => Err(XDFError::Parse(ParseError::ParseFloat)),
    }
}

/// The version declared by a file-header XML tree: the text of its
/// `<version>` child read as a decimal number, as single-precision bits.
pub fn parse_version(root: &xmltree::Element) -> (r: Result<u32, XDFError>)
    ensures
        match r {
            Ok(b) => exists|t: Seq<char>| f32_of_decimal(t) == Some(b),
            Err(e) => {
                ||| (e matches XDFError::Xml(XMLError::BadElement(n)) && n@ == "version"@)
                ||| e matches XDFError::Parse(ParseError::ParseFloat)
            },
        },
{
    let text = match get_text_from_child(root, "version") {
        Ok(t) => t,
        Err(e) => {
            return Err(e);
        },
    };
    version_bits_of_text(text.as_str())
}

/// The nominal sampling rate a text denotes: absent when the text is not a
/// decimal number or denotes zero, else the bit pattern of the rate.
pub open spec fn spec_srate_of(t: Seq<char>) -> Option<u64> {
    match f64_of_decimal(t) {
        Some(b) => if is_zero_bits(b) {
            None
        } else {
            Some(b)
        },
        None => None,
    }
}

/// Build the decoded header fields from the texts of the three required
/// children and the two optional ones. The channel count must be a decimal
/// numeral of at least 1 that fits a `u32`; the format name must be one of
/// the seven accepted names, compared without regard to case; a sampling
/// rate that is not a positive decimal number is recorded as absent.
pub fn stream_info_from_texts(
    channel_count_text: &str,
    nominal_srate_text: &str,
    channel_format_text: &str,
    name: Option<String>,
    stream_type: Option<String>,
) -> (r: Result<StreamHeaderChunkInfo, XDFError>)
    ensures
        match r {
            Ok(info) => {
                &&& is_dec(channel_count_text.spec_bytes())
                &&& 1 <= dec_val(channel_count_text.spec_bytes()) <= u32::MAX
                &&& info.channel_count == dec_val(channel_count_text.spec_bytes())
                &&& format_of_bytes(lower_bytes(channel_format_text.spec_bytes())) == Some(
                    info.channel_format,
                )
                &&& info.nominal_srate == spec_srate_of(nominal_srate_text@)
                &&& info.name == name
                &&& info.stream_type == stream_type
            },
            Err(e) => {
                ||| {
                    &&& e matches XDFError::Xml(XMLError::BadElement(n))
                    &&& n@ == "channel_count"@
                    &&& !(is_dec(channel_count_text.spec_bytes()) && 1 <= dec_val(
                        channel_count_text.spec_bytes(),
                    ) <= u32::MAX)
                }
                ||| {
                    &&& e matches XDFError::Xml(XMLError::BadElement(n))
                    &&& n@ == "channel_format"@
                    &&& is_dec(channel_count_text.spec_bytes()) && 1 <= dec_val(
                        channel_count_text.spec_bytes(),
                    ) <= u32::MAX
                    &&& format_of_bytes(lower_bytes(channel_format_text.spec_bytes())) is None
                }
            },
        },
{
    let cc = match parse_u32_dec(channel_count_text.as_bytes()) {
        Some(c) => c,
        None => {
            return Err(XDFError::Xml(XMLError::BadElement(copy_str("channel_count"))));
        },
    };
    if cc == 0 {
        return Err(XDFError::Xml(XMLError::BadElement(copy_str("channel_count"))));
    }
    let fmt = match str_to_format(channel_format_text) {
        Some(f) => f,
        None => {
            return Err(XDFError::Xml(XMLError::BadElement(copy_str("channel_format"))));
        },
    };
    let nominal_srate = match f64_parse(nominal_srate_text) {
        Some(b) => if f64_is_zero(b) {
            None
        } else {
            Some(b)
        },
        None => None,
    };
    Ok(
        StreamHeaderChunkInfo {
            channel_count: cc,
            nominal_srate,
            channel_format: fmt,
            name,
            stream_type,
        },
    )
}

/// Decode a stream-header chunk: the stream id, then an XML tree whose
/// required children give the channel count, sampling rate and format.
pub fn parse_stream_header(content: &[u8]) -> (r: Result<StreamHeaderChunk, XDFError>)
    ensures
        r matches Ok(h) ==> content@.len() >= 4 && h.stream_id == le_val(
            content@.subrange(0, 4),
        ) as u32 && h.info.channel_count >= 1,
        content@.len() < 4 ==> (r matches Err(e) && e matches XDFError::Parse(
            ParseError::ChunkParse,
        )),
        r matches Err(e) ==> {
            ||| (e matches XDFError::Parse(ParseError::ChunkParse) && content@.len() < 4)
            ||| e matches XDFError::Xml(XMLError::ParseError)
            ||| (e matches XDFError::Xml(XMLError::BadElement(n)) && (n@ == "channel_count"@
                || n@ == "nominal_srate"@ || n@ == "channel_format"@))
        },
{
    if content.len() < 4 {
        return Err(XDFError::Parse(ParseError::ChunkParse));
    }
    let id64 = read_le(content, 0, 4);
    proof {
        crate::length::lemma_le_val_bound(content@.subrange(0, 4));
        crate::length::lemma_pow256_vals();
    }
    let xml_bytes = tail_bytes(content, 4);
    let xml = match xml_parse(xml_bytes.as_slice()) {
        Some(x) => x,
        None => {
            return Err(XDFError::Xml(XMLError::ParseError));
        },
    };
    let cc_text = match get_text_from_child(&xml, "channel_count") {
        Ok(t) => t,
        Err(e) => {
            return Err(e);
        },
    };
    let sr_text = match get_text_from_child(&xml, "nominal_srate") {
        Ok(t) => t,
        Err(e) => {
            return Err(e);
        },
    };
    let fmt_text = match get_text_from_child(&xml, "channel_format") {
        Ok(t) => t,
        Err(e) => {
            return Err(e);
        },
    };
    let name = match get_text_from_child(&xml, "name") {
        Ok(t) => Some(t),
        Err(_) => None,
    };
    let stream_type = match get_text_from_child(&xml, "type") {
        Ok(t) => Some(t),
        Err(_) => None,
    };
    let info = match stream_info_from_texts(
        cc_text.as_str(),
        sr_text.as_str(),
        fmt_text.as_str(),
        name,
        stream_type,
    ) {
        Ok(i) => i,
        Err(e) => {
            return Err(e);
        },
    };
    Ok(StreamHeaderChunk { stream_id: id64 as u32, info, xml })
}

/// Decode a stream-footer chunk: the stream id, then an XML tree kept for the
/// caller.
pub fn parse_stream_footer(content: &[u8]) -> (r: Result<StreamFooterChunk, XDFError>)
    ensures
        r matches Ok(f) ==> content@.len() >= 4 && f.stream_id == le_val(
            content@.subrange(0, 4),
        ) as u32,
        content@.len() < 4 ==> (r matches Err(e) && e matches XDFError::Parse(
            ParseError::ChunkParse,
        )),
        r matches Err(e) ==> {
            ||| (e matches XDFError::Parse(ParseError::ChunkParse) && content@.len() < 4)
            ||| e matches XDFError::Xml(XMLError::ParseError)
        },
{
    if content.len() < 4 {
        return Err(XDFError::Parse(ParseError::ChunkParse));
    }
    let id64 = read_le(content, 0, 4);
    proof {
        crate::length::lemma_le_val_bound(content@.subrange(0, 4));
        crate::length::lemma_pow256_vals();
    }
    let xml_bytes = tail_bytes(content, 4);
    let xml = match xml_parse(xml_bytes.as_slice()) {
        Some(x) => x,
        None => {
            return Err(XDFError::Xml(XMLError::ParseError));
        },
    };
    Ok(StreamFooterChunk { stream_id: id64 as u32, xml })
}

/// Decode a file-header chunk: an XML tree whose `<version>` child must
/// denote 1.0, the only supported version.
pub fn parse_file_header(content: &[u8]) -> (r: Result<FileHeaderChunk, XDFError>)
    ensures
        r matches Ok(c) ==> c.version == F32_ONE_BITS,
        r matches Err(e) ==> {
            ||| e matches XDFError::Xml(XMLError::ParseError)
            ||| (e matches XDFError::Xml(XMLError::BadElement(n)) && n@ == "version"@)
            ||| e matches XDFError::Parse(ParseError::ParseFloat)
            ||| (e matches XDFError::Stream(StreamError::UnsupportedVersion(b)) && b
                != F32_ONE_BITS && exists|t: Seq<char>| f32_of_decimal(t) == Some(b))
        },
{
    let xml = match xml_parse(content) {
        Some(x) => x,
        None => {
            return Err(XDFError::Xml(XMLError::ParseError));
        },
    };
    let vbits = match parse_version(&xml) {
        Ok(v) => v,
        Err(e) => {
            return Err(e);
        },
    };
    if vbits != F32_ONE_BITS {
        return Err(XDFError::Stream(StreamError::UnsupportedVersion(vbits)));
    }
    Ok(FileHeaderChunk { version: vbits, xml })
}

/// Whether a chunk is the stream header of the given id.
pub open spec fn chunk_is_header_for(c: Chunk, id: u32) -> bool {
    match c {
        Chunk::StreamHeader(h) => h.stream_id == id,
        _ => false,
    }
}

/// Whether `chunks[j]` is the first stream header for `id`.
pub open spec fn first_header_at(chunks: Seq<Chunk>, j: int, id: u32) -> bool {
    &&& 0 <= j < chunks.len()
    &&& chunk_is_header_for(chunks[j], id)
    &&& forall|j2: int| 0 <= j2 < j ==> !chunk_is_header_for(#[trigger] chunks[j2], id)
}

/// The channel count and format a stream-header chunk declares.
pub open spec fn header_info_of(c: Chunk) -> (u32, Format)
    recommends
        c is StreamHeader,
{
    match c {
        Chunk::StreamHeader(h) => (h.info.channel_count, h.info.channel_format),
        _ => (0u32, Format::Int8),
    }
}

/// Whether the chunk kind matches the wire tag.
pub open spec fn kind_matches(c: Chunk, t: crate::Tag) -> bool {
    match c {
        Chunk::FileHeader(_) => t == crate::Tag::FileHeader,
        Chunk::StreamHeader(_) => t == crate::Tag::StreamHeader,
        Chunk::Samples(_) => t == crate::Tag::Samples,
        Chunk::ClockOffset(_) => t == crate::Tag::ClockOffset,
        Chunk::Boundary(_) => t == crate::Tag::Boundary,
        Chunk::StreamFooter(_) => t == crate::Tag::StreamFooter,
    }
}

/// Whether every sample of a samples chunk fits the channel count and format
/// that the stream header `h` declares.
pub open spec fn samples_fit_header(sc: SamplesChunk, h: Chunk) -> bool
    recommends
        h is StreamHeader,
{
    samples_wf(sample_views(sc.samples@), header_info_of(h).0 as nat, header_info_of(h).1)
}

/// Whether some position before `i` holds the first stream header for the
/// id of the samples chunk `sc`, and the samples fit it.
pub open spec fn samples_witnessed(sc: SamplesChunk, chunks: Seq<Chunk>, i: int) -> bool {
    exists|j: int|
        j < i && #[trigger] first_header_at(chunks, j, sc.stream_id) && samples_fit_header(
            sc,
            chunks[j],
        )
}

/// Every samples chunk in `chunks` has an earlier stream header, the first
/// for its id, and its samples fit that header.
pub open spec fn samples_match_headers(chunks: Seq<Chunk>) -> bool {
    forall|i: int|
        0 <= i < chunks.len() ==> match #[trigger] chunks[i] {
            Chunk::Samples(sc) => samples_witnessed(sc, chunks, i),
            _ => true,
        }
}

/// Whether the table holds an entry for `id`.
pub open spec fn table_has_id(table: Seq<(u32, u32, Format)>, id: u32) -> bool {
    exists|a: int| 0 <= a < table.len() && (#[trigger] table[a]).0 == id
}

/// Whether some position in `chunks` holds the first stream header for the
/// id of the table entry `t`, declaring the entry's channel count and format.
pub open spec fn entry_witnessed(t: (u32, u32, Format), chunks: Seq<Chunk>) -> bool {
    exists|j: int|
        #[trigger] first_header_at(chunks, j, t.0) && header_info_of(chunks[j]) == (t.1, t.2)
}

/// Whether a raw chunk is a stream-header chunk declaring the given id.
pub open spec fn raw_is_header_for(rc: crate::raw::RawChunkV, id: u32) -> bool {
    rc.tag == crate::Tag::StreamHeader && rc.content.len() >= 4 && le_val(
        rc.content.subrange(0, 4),
    ) as u32 == id
}

/// Whether some raw samples chunk declares the given id with no raw stream
/// header for that id anywhere before it.
pub open spec fn samples_without_header(raws: Seq<crate::raw::RawChunkV>, id: u32) -> bool {
    exists|i: int|
        #![trigger raws[i]]
        {
            &&& 0 <= i < raws.len()
            &&& raws[i].tag == crate::Tag::Samples
            &&& raws[i].content.len() >= 4
            &&& le_val(raws[i].content.subrange(0, 4)) as u32 == id
            &&& forall|j: int| 0 <= j < i ==> !raw_is_header_for(#[trigger] raws[j], id)
        }
}

/// Whether the bytes of a raw chunk can answer with the decode error `p`:
/// a samples chunk under some channel count and format, or a chunk whose
/// content is too short for its kind, or a file header whose version text is
/// not a number.
pub open spec fn raw_parse_error(rc: crate::raw::RawChunkV, p: ParseError) -> bool {
    match rc.tag {
        crate::Tag::FileHeader => p == ParseError::ParseFloat,
        crate::Tag::StreamHeader => rc.content.len() < 4 && p == ParseError::ChunkParse,
        crate::Tag::StreamFooter => rc.content.len() < 4 && p == ParseError::ChunkParse,
        crate::Tag::Samples => is_samples_decode_error(p) && ((rc.content.len() < 4 && p
            == ParseError::ChunkParse) || exists|fmt: Format, chan: nat|
            #[trigger] dec_samples_content(rc.content, fmt, chan) == Err::<
                (u32, Seq<SampleV>),
                ParseError,
            >(p)),
        crate::Tag::ClockOffset => rc.content.len() < 20 && p == ParseError::InvalidClockOffset,
        crate::Tag::Boundary => false,
    }
}

/// The decode errors the body of a samples chunk can raise.
pub open spec fn is_samples_decode_error(p: ParseError) -> bool {
    ||| p == ParseError::ChunkParse
    ||| p matches ParseError::InvalidNumCountBytes(_)
    ||| p == ParseError::InvalidSample
    ||| p == ParseError::Utf8
}

/// Whether a samples chunk's samples are exactly the decode of `content`
/// under the channel count and format of the first header of its id, which
/// stands before position `i`.
pub open spec fn samples_decoded_from(
    sc: SamplesChunk,
    chunks: Seq<Chunk>,
    i: int,
    content: Seq<u8>,
) -> bool {
    exists|j: int|
        {
            &&& j < i
            &&& #[trigger] first_header_at(chunks, j, sc.stream_id)
            &&& dec_samples_content(
                content,
                header_info_of(chunks[j]).1,
                header_info_of(chunks[j]).0 as nat,
            ) == Ok::<(u32, Seq<SampleV>), ParseError>((sc.stream_id, sample_views(sc.samples@)))
        }
}

/// Whether a typed chunk carries exactly what its raw chunk's bytes hold:
/// the matching tag, the little-endian stream id where the kind has one, the
/// exact clock-offset fields, and for samples the decode under the first
/// header of the id.
pub open spec fn chunk_content_matches(
    c: Chunk,
    rc: crate::raw::RawChunkV,
    chunks: Seq<Chunk>,
    i: int,
) -> bool {
    match c {
        Chunk::FileHeader(fh) => rc.tag == crate::Tag::FileHeader && fh.version == F32_ONE_BITS,
        Chunk::StreamHeader(h) => rc.tag == crate::Tag::StreamHeader && rc.content.len() >= 4
            && h.stream_id == le_val(rc.content.subrange(0, 4)) as u32 && h.info.channel_count
            >= 1,
        Chunk::Samples(sc) => rc.tag == crate::Tag::Samples && samples_decoded_from(
            sc,
            chunks,
            i,
            rc.content,
        ),
        Chunk::ClockOffset(c0) => rc.tag == crate::Tag::ClockOffset && rc.content.len() >= 20
            && c0 == ClockOffsetChunk {
            stream_id: le_val(rc.content.subrange(0, 4)) as u32,
            collection_time: le_val(rc.content.subrange(4, 12)) as u64,
            offset_value: le_val(rc.content.subrange(12, 20)) as u64,
        },
        Chunk::Boundary(_) => rc.tag == crate::Tag::Boundary,
        Chunk::StreamFooter(f) => rc.tag == crate::Tag::StreamFooter && rc.content.len() >= 4
            && f.stream_id == le_val(rc.content.subrange(0, 4)) as u32,
    }
}

/// Whether every typed chunk carries exactly what its raw chunk holds.
pub open spec fn chunks_match_raws(chunks: Seq<Chunk>, raws: Seq<crate::raw::RawChunkV>) -> bool {
    &&& chunks.len() == raws.len()
    &&& forall|i: int|
        0 <= i < chunks.len() ==> chunk_content_matches(#[trigger] chunks[i], raws[i], chunks, i)
}

spec fn table_ok(table: Seq<(u32, u32, Format)>, chunks: Seq<Chunk>) -> bool {
    &&& forall|a: int, b: int|
        0 <= a < b < table.len() ==> (#[trigger] table[a]).0 != (#[trigger] table[b]).0
    &&& forall|a: int| 0 <= a < table.len() ==> entry_witnessed(#[trigger] table[a], chunks)
    &&& forall|j: int|
        0 <= j < chunks.len() && (#[trigger] chunks[j]) is StreamHeader ==> table_has_id(
            table,
            header_info_id(chunks[j]),
        )
}

/// The stream id a stream-header chunk declares.
pub open spec fn header_info_id(c: Chunk) -> u32
    recommends
        c is StreamHeader,
{
    match c {
        Chunk::StreamHeader(h) => h.stream_id,
        _ => 0u32,
    }
}

fn table_lookup(table: &Vec<(u32, u32, Format)>, id: u32) -> (r: Option<(u32, Format)>)
    ensures
        match r {
            Some((c, f)) => exists|a: int|
                0 <= a < table@.len() && #[trigger] table@[a] == (id, c, f),
            None => forall|a: int| 0 <= a < table@.len() ==> (#[trigger] table@[a]).0 != id,
        },
{
    let mut a: usize = 0;
    while a < table.len()
        invariant
            0 <= a <= table@.len(),
            forall|b: int| 0 <= b < a ==> (#[trigger] table@[b]).0 != id,
        decreases table@.len() - a,
    {
        let (tid, c, f) = table[a];
        if tid == id {
            proof {
                assert(table@[a as int] == (id, c, f));
            }
            return Some((c, f));
        }
        a = a + 1;
    }
    None
}


proof fn lemma_first_header_push(chunks: Seq<Chunk>, j: int, id: u32, c: Chunk)
    requires
        first_header_at(chunks, j, id),
    ensures
        first_header_at(chunks.push(c), j, id),
{
    let chunks2 = chunks.push(c);
    assert(chunks2[j] == chunks[j]);
    assert forall|j2: int| 0 <= j2 < j implies !chunk_is_header_for(#[trigger] chunks2[j2], id) by {
        assert(chunks2[j2] == chunks[j2]);
    }
}

proof fn lemma_witness_push(t: (u32, u32, Format), chunks: Seq<Chunk>, c: Chunk)
    requires
        entry_witnessed(t, chunks),
    ensures
        entry_witnessed(t, chunks.push(c)),
{
    let j0 = choose|j: int|
        #[trigger] first_header_at(chunks, j, t.0) && header_info_of(chunks[j]) == (t.1, t.2);
    lemma_first_header_push(chunks, j0, t.0, c);
    assert(chunks.push(c)[j0] == chunks[j0]);
    assert(first_header_at(chunks.push(c), j0, t.0));
}

#[verifier::rlimit(30)]
proof fn lemma_samples_push(chunks: Seq<Chunk>, c: Chunk)
    requires
        samples_match_headers(chunks),
        match c {
            Chunk::Samples(sc) => samples_witnessed(sc, chunks, chunks.len() as int),
            _ => true,
        },
    ensures
        samples_match_headers(chunks.push(c)),
{
    let chunks2 = chunks.push(c);
    assert forall|i: int| 0 <= i < chunks2.len() implies match #[trigger] chunks2[i] {
        Chunk::Samples(sc) => samples_witnessed(sc, chunks2, i),
        _ => true,
    } by {
        if i < chunks.len() {
            assert(chunks2[i] == chunks[i]);
            match chunks[i] {
                Chunk::Samples(sc) => {
                    let j0 = choose|j: int|
                        j < i && #[trigger] first_header_at(chunks, j, sc.stream_id)
                            && samples_fit_header(sc, chunks[j]);
                    lemma_first_header_push(chunks, j0, sc.stream_id, c);
                    assert(chunks2[j0] == chunks[j0]);
                    assert(samples_witnessed(sc, chunks2, i));
                },
                _ => {},
            }
        } else {
            match c {
                Chunk::Samples(sc) => {
                    let j0 = choose|j: int|
                        j < chunks.len() && #[trigger] first_header_at(chunks, j, sc.stream_id)
                            && samples_fit_header(sc, chunks[j]);
                    lemma_first_header_push(chunks, j0, sc.stream_id, c);
                    assert(chunks2[j0] == chunks[j0]);
                    assert(samples_witnessed(sc, chunks2, i));
                },
                _ => {},
            }
        }
    }
}

#[verifier::rlimit(30)]
proof fn lemma_table_ok_push_other(table: Seq<(u32, u32, Format)>, chunks: Seq<Chunk>, c: Chunk)
    requires
        table_ok(table, chunks),
        !(c is StreamHeader),
    ensures
        table_ok(table, chunks.push(c)),
{
    let chunks2 = chunks.push(c);
    assert forall|a: int| 0 <= a < table.len() implies entry_witnessed(
        #[trigger] table[a],
        chunks2,
    ) by {
        lemma_witness_push(table[a], chunks, c);
    }
    assert forall|j: int|
        0 <= j < chunks2.len() && (#[trigger] chunks2[j]) is StreamHeader implies table_has_id(
        table,
        header_info_id(chunks2[j]),
    ) by {
        assert(chunks2[j] == chunks[j]);
    }
}

#[verifier::rlimit(30)]
proof fn lemma_table_ok_push_new_header(
    table: Seq<(u32, u32, Format)>,
    chunks: Seq<Chunk>,
    c: Chunk,
)
    requires
        table_ok(table, chunks),
        c is StreamHeader,
        !table_has_id(table, header_info_id(c)),
    ensures
        table_ok(
            table.push((header_info_id(c), header_info_of(c).0, header_info_of(c).1)),
            chunks.push(c),
        ),
        first_header_at(chunks.push(c), chunks.len() as int, header_info_id(c)),
{
    let id = header_info_id(c);
    let tnew = (id, header_info_of(c).0, header_info_of(c).1);
    let chunks2 = chunks.push(c);
    let table2 = table.push(tnew);
    let jnew = chunks.len() as int;
    let anew = table.len() as int;
    assert(chunk_is_header_for(chunks2[jnew], id));
    assert forall|j2: int| 0 <= j2 < jnew implies !chunk_is_header_for(
        #[trigger] chunks2[j2],
        id,
    ) by {
        assert(chunks2[j2] == chunks[j2]);
        if chunk_is_header_for(chunks[j2], id) {
            assert(chunks[j2] is StreamHeader);
            assert(table_has_id(table, header_info_id(chunks[j2])));
        }
    }
    assert(first_header_at(chunks2, jnew, id));
    assert forall|a: int, b: int| 0 <= a < b < table2.len() implies (#[trigger] table2[a]).0 != (
    #[trigger] table2[b]).0 by {
        if b == anew {
            assert(table2[a] == table[a]);
            if table[a].0 == id {
                assert(table_has_id(table, id));
            }
        } else {
            assert(table2[a] == table[a] && table2[b] == table[b]);
        }
    }
    assert forall|a: int| 0 <= a < table2.len() implies entry_witnessed(
        #[trigger] table2[a],
        chunks2,
    ) by {
        if a < anew {
            assert(table2[a] == table[a]);
            assert(entry_witnessed(table[a], chunks));
            lemma_witness_push(table[a], chunks, c);
        } else {
            assert(table2[a] == tnew);
            assert(first_header_at(chunks2, jnew, tnew.0));
            assert(header_info_of(chunks2[jnew]) == (tnew.1, tnew.2));
        }
    }
    assert forall|j: int|
        0 <= j < chunks2.len() && (#[trigger] chunks2[j]) is StreamHeader implies table_has_id(
        table2,
        header_info_id(chunks2[j]),
    ) by {
        if j < jnew {
            assert(chunks2[j] == chunks[j]);
            assert(table_has_id(table, header_info_id(chunks[j])));
            let a1 = choose|a: int|
                0 <= a < table.len() && (#[trigger] table[a]).0 == header_info_id(chunks[j]);
            assert(table2[a1] == table[a1]);
            assert(table_has_id(table2, header_info_id(chunks2[j])));
        } else {
            assert(table2[anew].0 == id);
            assert(table_has_id(table2, id));
        }
    }
}

#[verifier::rlimit(30)]
proof fn lemma_table_ok_push_dup_header(
    table: Seq<(u32, u32, Format)>,
    chunks: Seq<Chunk>,
    c: Chunk,
)
    requires
        table_ok(table, chunks),
        c is StreamHeader,
        table_has_id(table, header_info_id(c)),
    ensures
        table_ok(table, chunks.push(c)),
{
    let chunks2 = chunks.push(c);
    assert forall|a: int| 0 <= a < table.len() implies entry_witnessed(
        #[trigger] table[a],
        chunks2,
    ) by {
        lemma_witness_push(table[a], chunks, c);
    }
    assert forall|j: int|
        0 <= j < chunks2.len() && (#[trigger] chunks2[j]) is StreamHeader implies table_has_id(
        table,
        header_info_id(chunks2[j]),
    ) by {
        if j < chunks.len() {
            assert(chunks2[j] == chunks[j]);
        } else {
            assert(chunks2[j] == c);
        }
    }
}

proof fn lemma_dec_string_values_error_kinds(s: Seq<u8>, i: int, chan: nat)
    ensures
        dec_string_values(s, i, chan) matches Err(p) ==> is_samples_decode_error(p),
    decreases chan,
{
    if chan > 0 {
        match dec_len_at(s, i) {
            Err(_) => {},
            Ok((slen, p0)) => {
                lemma_dec_string_values_error_kinds(s, p0 + slen, (chan - 1) as nat);
            },
        }
    }
}

proof fn lemma_dec_values_error_kinds(s: Seq<u8>, i: int, fmt: Format, chan: nat)
    ensures
        dec_values_at(s, i, fmt, chan) matches Err(p) ==> is_samples_decode_error(p),
{
    if fmt == Format::String {
        lemma_dec_string_values_error_kinds(s, i, chan);
    }
}

proof fn lemma_dec_sample_error_kinds(s: Seq<u8>, i: int, fmt: Format, chan: nat)
    ensures
        dec_sample_at(s, i, fmt, chan) matches Err(p) ==> is_samples_decode_error(p),
{
    lemma_dec_values_error_kinds(s, i + 1, fmt, chan);
    lemma_dec_values_error_kinds(s, i + 9, fmt, chan);
}

proof fn lemma_dec_samples_error_kinds(s: Seq<u8>, i: int, fmt: Format, chan: nat, k: nat)
    ensures
        dec_samples_at(s, i, fmt, chan, k) matches Err(p) ==> is_samples_decode_error(p),
    decreases k,
{
    if k > 0 {
        lemma_dec_sample_error_kinds(s, i, fmt, chan);
        match dec_sample_at(s, i, fmt, chan) {
            Err(_) => {},
            Ok((_smp, j)) => {
                lemma_dec_samples_error_kinds(s, j, fmt, chan, (k - 1) as nat);
            },
        }
    }
}

/// Any error of the samples-content decode is one of its own kinds.
pub proof fn lemma_dec_samples_content_error_kinds(s: Seq<u8>, fmt: Format, chan: nat)
    ensures
        dec_samples_content(s, fmt, chan) matches Err(p) ==> is_samples_decode_error(p),
{
    if s.len() >= 4 {
        match dec_len_at(s, 4) {
            Err(_) => {},
            Ok((n, p0)) => {
                lemma_dec_samples_error_kinds(s, p0, fmt, chan, n);
            },
        }
    }
}

proof fn lemma_cmr_push(
    chunks: Seq<Chunk>,
    raws: Seq<crate::raw::RawChunkV>,
    c: Chunk,
    rc: crate::raw::RawChunkV,
)
    requires
        chunks_match_raws(chunks, raws),
        chunk_content_matches(c, rc, chunks.push(c), chunks.len() as int),
    ensures
        chunks_match_raws(chunks.push(c), raws.push(rc)),
{
    let chunks2 = chunks.push(c);
    let raws2 = raws.push(rc);
    assert forall|i: int| 0 <= i < chunks2.len() implies chunk_content_matches(
        #[trigger] chunks2[i],
        raws2[i],
        chunks2,
        i,
    ) by {
        if i < chunks.len() {
            assert(chunks2[i] == chunks[i]);
            assert(raws2[i] == raws[i]);
            assert(chunk_content_matches(chunks[i], raws[i], chunks, i));
            match chunks[i] {
                Chunk::Samples(sc) => {
                    let j0 = choose|j: int|
                        {
                            &&& j < i
                            &&& #[trigger] first_header_at(chunks, j, sc.stream_id)
                            &&& dec_samples_content(
                                raws[i].content,
                                header_info_of(chunks[j]).1,
                                header_info_of(chunks[j]).0 as nat,
                            ) == Ok::<(u32, Seq<SampleV>), ParseError>(
                                (sc.stream_id, sample_views(sc.samples@)),
                            )
                        };
                    lemma_first_header_push(chunks, j0, sc.stream_id, c);
                    assert(chunks2[j0] == chunks[j0]);
                    assert(samples_decoded_from(sc, chunks2, i, raws2[i].content));
                },
                _ => {},
            }
        } else {
            assert(chunks2[i] == c && raws2[i] == rc);
        }
    }
}

/// Decode each raw chunk into its typed form, carrying a side table from
/// stream id to the channel count and format of the first header seen for
/// that id, which sample decoding needs. A samples chunk whose id has no
/// prior header is an error; a later header for an id already seen is kept
/// as a chunk but does not change the table.
#[verifier::rlimit(100)]
pub fn parse_chunks(raws: &Vec<crate::raw::RawChunk>) -> (r: Result<Vec<Chunk>, XDFError>)
    ensures
        r matches Ok(chunks) ==> {
            &&& chunks@.len() == raws@.len()
            &&& forall|i: int|
                0 <= i < chunks@.len() ==> kind_matches(#[trigger] chunks@[i], raws@[i].tag)
            &&& samples_match_headers(chunks@)
            &&& chunks_match_raws(chunks@, crate::raw::raw_views(raws@))
            &&& forall|i: int|
                0 <= i < chunks@.len() ==> (match #[trigger] chunks@[i] {
                    Chunk::FileHeader(c) => c.version == F32_ONE_BITS,
                    Chunk::StreamHeader(h) => h.info.channel_count >= 1,
                    _ => true,
                })
        },
        r matches Err(e) ==> match e {
            XDFError::Parse(p) => exists|i: int|
                0 <= i < raws@.len() && raw_parse_error(
                    #[trigger] crate::raw::raw_views(raws@)[i],
                    p,
                ),
            XDFError::Stream(se) => match se {
                StreamError::MissingHeader(id) => samples_without_header(
                    crate::raw::raw_views(raws@),
                    id,
                ),
                StreamError::UnsupportedVersion(b) => b != F32_ONE_BITS,
                _ => false,
            },
            XDFError::Xml(_) => true,
        },
{
    let mut out: Vec<Chunk> = Vec::new();
    let mut table: Vec<(u32, u32, Format)> = Vec::new();
    let mut i: usize = 0;
    proof {
        assert(crate::raw::raw_views(raws@).take(0) =~= Seq::<crate::raw::RawChunkV>::empty());
    }
    while i < raws.len()
        invariant
            0 <= i <= raws@.len(),
            out@.len() == i,
            table_ok(table@, out@),
            samples_match_headers(out@),
            chunks_match_raws(out@, crate::raw::raw_views(raws@).take(i as int)),
            forall|j: int| 0 <= j < i ==> kind_matches(#[trigger] out@[j], raws@[j].tag),
            forall|j: int|
                0 <= j < i && (#[trigger] crate::raw::raw_views(raws@)[j]).tag
                    == crate::Tag::StreamHeader ==> crate::raw::raw_views(raws@)[j].content.len()
                    >= 4 && table_has_id(
                    table@,
                    le_val(crate::raw::raw_views(raws@)[j].content.subrange(0, 4)) as u32,
                ),
            forall|j: int|
                0 <= j < out@.len() ==> (match #[trigger] out@[j] {
                    Chunk::FileHeader(c) => c.version == F32_ONE_BITS,
                    Chunk::StreamHeader(h) => h.info.channel_count >= 1,
                    _ => true,
                }),
        decreases raws@.len() - i,
    {
        let raw = &raws[i];
        let content = raw.content.as_slice();
        let ghost prev = out@;
        let ghost tprev = table@;
        let ghost rv = crate::raw::raw_views(raws@);
        let ghost rc = rv[i as int];
        proof {
            assert(rc.content == raws@[i as int].content@);
        }
        match raw.tag {
            crate::Tag::FileHeader => {
                let c = match parse_file_header(content) {
                    Ok(c) => c,
                    Err(e) => {
                        proof {
                            assert(rc.tag == crate::Tag::FileHeader);
                            match e {
                                XDFError::Parse(ref p) => {
                                    assert(*p == ParseError::ParseFloat);
                                    assert(raw_parse_error(rv[i as int], *p));
                                },
                                _ => {},
                            }
                        }
                        return Err(e);
                    },
                };
                let cc = Chunk::FileHeader(c);
                proof {
                    lemma_table_ok_push_other(tprev, prev, cc);
                    lemma_samples_push(prev, cc);
                    assert(chunk_content_matches(cc, rc, prev.push(cc), prev.len() as int));
                    lemma_cmr_push(prev, rv.take(i as int), cc, rc);
                    assert(rv.take(i + 1) =~= rv.take(i as int).push(rc));
                }
                out.push(cc);
            },
            crate::Tag::StreamHeader => {
                let h = match parse_stream_header(content) {
                    Ok(h) => h,
                    Err(e) => {
                        proof {
                            assert(rc.tag == crate::Tag::StreamHeader);
                            match e {
                                XDFError::Parse(ref p) => {
                                    assert(*p == ParseError::ChunkParse && rc.content.len() < 4);
                                    assert(raw_parse_error(rv[i as int], *p));
                                },
                                _ => {},
                            }
                        }
                        return Err(e);
                    },
                };
                let id = h.stream_id;
                let chan = h.info.channel_count;
                let fmt = h.info.channel_format;
                let known = table_lookup(&table, id);
                let cc = Chunk::StreamHeader(h);
                proof {
                    assert(header_info_id(cc) == id);
                    assert(header_info_of(cc) == (chan, fmt));
                    lemma_samples_push(prev, cc);
                    assert(chunk_content_matches(cc, rc, prev.push(cc), prev.len() as int));
                    lemma_cmr_push(prev, rv.take(i as int), cc, rc);
                    assert(rv.take(i + 1) =~= rv.take(i as int).push(rc));
                }
                if known.is_none() {
                    proof {
                        assert(!table_has_id(tprev, id));
                        lemma_table_ok_push_new_header(tprev, prev, cc);
                    }
                    out.push(cc);
                    table.push((id, chan, fmt));
                    proof {
                        assert forall|j: int|
                            0 <= j < i + 1 && (#[trigger] rv[j]).tag
                                == crate::Tag::StreamHeader implies rv[j].content.len() >= 4
                            && table_has_id(
                            table@,
                            le_val(rv[j].content.subrange(0, 4)) as u32,
                        ) by {
                            if j == i as int {
                                assert(table@[table@.len() - 1].0 == id);
                                assert(table_has_id(table@, id));
                            } else {
                                let jid = le_val(rv[j].content.subrange(0, 4)) as u32;
                                assert(table_has_id(tprev, jid));
                                let a1 = choose|a: int|
                                    0 <= a < tprev.len() && (#[trigger] tprev[a]).0 == jid;
                                assert(table@[a1] == tprev[a1]);
                                assert(table_has_id(table@, jid));
                            }
                        }
                    }
                } else {
                    proof {
                        assert(table_has_id(tprev, id));
                        lemma_table_ok_push_dup_header(tprev, prev, cc);
                        assert forall|j: int|
                            0 <= j < i + 1 && (#[trigger] rv[j]).tag
                                == crate::Tag::StreamHeader implies rv[j].content.len() >= 4
                            && table_has_id(
                            table@,
                            le_val(rv[j].content.subrange(0, 4)) as u32,
                        ) by {
                            if j == i as int {
                                assert(table_has_id(table@, id));
                            }
                        }
                    }
                    out.push(cc);
                }
            },
            crate::Tag::Samples => {
                if content.len() < 4 {
                    proof {
                        assert(rc.tag == crate::Tag::Samples && rc.content.len() < 4);
                        assert(raw_parse_error(rv[i as int], ParseError::ChunkParse));
                    }
                    return Err(XDFError::Parse(ParseError::ChunkParse));
                }
                let id64 = read_le(content, 0, 4);
                proof {
                    crate::length::lemma_le_val_bound(content@.subrange(0, 4));
                    crate::length::lemma_pow256_vals();
                }
                let id = id64 as u32;
                let (chan, fmt) = match table_lookup(&table, id) {
                    Some(x) => x,
                    None => {
                        proof {
                            assert(rc.tag == crate::Tag::Samples && rc.content.len() >= 4);
                            assert(le_val(rc.content.subrange(0, 4)) as u32 == id);
                            assert forall|j: int| 0 <= j < i as int implies !raw_is_header_for(
                                #[trigger] rv[j],
                                id,
                            ) by {
                                if raw_is_header_for(rv[j], id) {
                                    assert(table_has_id(table@, id));
                                    let a1 = choose|a: int|
                                        0 <= a < table@.len() && (#[trigger] table@[a]).0 == id;
                                    assert(false);
                                }
                            }
                            assert(samples_without_header(rv, id));
                        }
                        return Err(XDFError::Stream(StreamError::MissingHeader(id)));
                    },
                };
                let (sid, samples) = match parse_samples_content(content, fmt, chan) {
                    Ok(x) => x,
                    Err(e) => {
                        proof {
                            assert(rc.tag == crate::Tag::Samples);
                            assert(dec_samples_content(rc.content, fmt, chan as nat) == Err::<
                                (u32, Seq<SampleV>),
                                ParseError,
                            >(e));
                            lemma_dec_samples_content_error_kinds(rc.content, fmt, chan as nat);
                            assert(raw_parse_error(rv[i as int], e));
                        }
                        return Err(XDFError::Parse(e));
                    },
                };
                proof {
                    assert(sid == id);
                }
                let sc = SamplesChunk { stream_id: sid, samples };
                let ghost scg = sc;
                let cc = Chunk::Samples(sc);
                let ghost ccg = cc;
                proof {
                    let a0 = choose|a: int|
                        0 <= a < tprev.len() && #[trigger] tprev[a] == (id, chan, fmt);
                    let j0 = choose|j: int|
                        #[trigger] first_header_at(prev, j, tprev[a0].0) && header_info_of(
                            prev[j],
                        ) == (tprev[a0].1, tprev[a0].2);
                    match ccg {
                        Chunk::Samples(ref sc2) => {
                            assert(first_header_at(prev, j0, sc2.stream_id));
                            assert(samples_fit_header(*sc2, prev[j0]));
                            assert(samples_witnessed(*sc2, prev, prev.len() as int));
                        },
                        _ => {},
                    }
                    lemma_samples_push(prev, ccg);
                    lemma_table_ok_push_other(tprev, prev, ccg);
                    let chunks2 = prev.push(ccg);
                    lemma_first_header_push(prev, j0, id, ccg);
                    assert(chunks2[j0] == prev[j0]);
                    assert(header_info_of(chunks2[j0]) == (chan, fmt));
                    assert(dec_samples_content(
                        rc.content,
                        header_info_of(chunks2[j0]).1,
                        header_info_of(chunks2[j0]).0 as nat,
                    ) == Ok::<(u32, Seq<SampleV>), ParseError>(
                        (scg.stream_id, sample_views(scg.samples@)),
                    ));
                    assert(samples_decoded_from(scg, chunks2, prev.len() as int, rc.content));
                    assert(chunk_content_matches(ccg, rc, chunks2, prev.len() as int));
                    lemma_cmr_push(prev, rv.take(i as int), ccg, rc);
                    assert(rv.take(i + 1) =~= rv.take(i as int).push(rc));
                }
                out.push(cc);
            },
            crate::Tag::ClockOffset => {
                let c = match parse_clock_offset(content) {
                    Ok(c) => c,
                    Err(e) => {
                        proof {
                            assert(rc.tag == crate::Tag::ClockOffset);
                            assert(rc.content.len() < 20 && e == ParseError::InvalidClockOffset);
                            assert(raw_parse_error(rv[i as int], e));
                        }
                        return Err(XDFError::Parse(e));
                    },
                };
                let cc = Chunk::ClockOffset(c);
                proof {
                    lemma_table_ok_push_other(tprev, prev, cc);
                    lemma_samples_push(prev, cc);
                    assert(chunk_content_matches(cc, rc, prev.push(cc), prev.len() as int));
                    lemma_cmr_push(prev, rv.take(i as int), cc, rc);
                    assert(rv.take(i + 1) =~= rv.take(i as int).push(rc));
                }
                out.push(cc);
            },
            crate::Tag::Boundary => {
                let cc = Chunk::Boundary(BoundaryChunk {  });
                proof {
                    lemma_table_ok_push_other(tprev, prev, cc);
                    lemma_samples_push(prev, cc);
                    assert(chunk_content_matches(cc, rc, prev.push(cc), prev.len() as int));
                    lemma_cmr_push(prev, rv.take(i as int), cc, rc);
                    assert(rv.take(i + 1) =~= rv.take(i as int).push(rc));
                }
                out.push(cc);
            },
            crate::Tag::StreamFooter => {
                let f = match parse_stream_footer(content) {
                    Ok(f) => f,
                    Err(e) => {
                        proof {
                            assert(rc.tag == crate::Tag::StreamFooter);
                            match e {
                                XDFError::Parse(ref p) => {
                                    assert(*p == ParseError::ChunkParse && rc.content.len() < 4);
                                    assert(raw_parse_error(rv[i as int], *p));
                                },
                                _ => {},
                            }
                        }
                        return Err(e);
                    },
                };
                let cc = Chunk::StreamFooter(f);
                proof {
                    lemma_table_ok_push_other(tprev, prev, cc);
                    lemma_samples_push(prev, cc);
                    assert(chunk_content_matches(cc, rc, prev.push(cc), prev.len() as int));
                    lemma_cmr_push(prev, rv.take(i as int), cc, rc);
                    assert(rv.take(i + 1) =~= rv.take(i as int).push(rc));
                }
                out.push(cc);
            },
        }
        i = i + 1;
    }
    proof {
        assert(crate::raw::raw_views(raws@).take(raws@.len() as int) =~= crate::raw::raw_views(
            raws@,
        ));
    }
    Ok(out)
}

} // verus!
