use vstd::prelude::*;

use crate::fbits::{
    add_bits, div_bits, f64_add, f64_div, f64_from_u64, f64_gt, f64_lt, f64_mul, f64_of_u64,
    f64_sub, lt_bits, mul_bits, sub_bits, F64_ONE_BITS,
};
use crate::errors::{StreamError, XDFError};
use crate::parse::{
    chunk_is_header_for, first_header_at, header_info_of, sample_views, samples_fit_header,
    samples_match_headers, samples_wf, samples_witnessed, Chunk, ClockOffsetChunk,
    FileHeaderChunk,
};
use crate::xmlio::xml_clone;
use crate::{Format, Sample, SampleV, Stream};

verus! {

/// The index of the nearest sample before `i` that carries a timestamp, if
/// any.
pub open spec fn anchor_before(raw: Seq<SampleV>, i: int) -> Option<int>
    decreases i,
{
    if i <= 0 {
        None
    } else if raw[i - 1].timestamp is Some {
        Some(i - 1)
    } else {
        anchor_before(raw, i - 1)
    }
}

/// The timestamp of sample `i` before clock correction, under a known
/// sampling rate `srate`: its own when it carries one; otherwise the anchor's
/// timestamp plus the elapsed sample count over the rate; absent when no
/// earlier sample carries a timestamp.
pub open spec fn synth_ts_at(raw: Seq<SampleV>, srate: u64, i: int) -> Option<u64> {
    match raw[i].timestamp {
        Some(ts) => Some(ts),
        None => match anchor_before(raw, i) {
            None => None,
            Some(j) => Some(
                add_bits(
                    raw[j].timestamp->Some_0,
                    div_bits(f64_of_u64((i - j) as u64), srate),
                ),
            ),
        },
    }
}

/// The cursor after advancing while the timestamp lies beyond the next
/// offset's collection time.
pub open spec fn advance_cursor(ts: u64, offs: Seq<ClockOffsetChunk>, k: int) -> int
    recommends
        0 <= k < offs.len(),
    decreases offs.len() - k,
{
    if k + 1 < offs.len() && lt_bits(offs[k + 1].collection_time, ts) {
        advance_cursor(ts, offs, k + 1)
    } else {
        k
    }
}

/// One clock correction: the corrected timestamp and the cursor after it.
/// A timestamp before the first offset gets the first offset; one between two
/// offsets gets their linear interpolation; one past the last offset gets the
/// last offset; with no offsets it is returned unchanged.
pub open spec fn interp_step(ts: u64, offs: Seq<ClockOffsetChunk>, k0: int) -> (u64, int) {
    if offs.len() == 0 {
        (ts, k0)
    } else {
        let kc = if 0 <= k0 < offs.len() {
            k0
        } else {
            offs.len() - 1
        };
        if lt_bits(ts, offs[0].collection_time) {
            (add_bits(ts, offs[0].offset_value), kc)
        } else {
            let k = advance_cursor(ts, offs, kc);
            let off = if k + 1 < offs.len() {
                let l = offs[k];
                let nx = offs[k + 1];
                let dt = sub_bits(nx.collection_time, l.collection_time);
                if lt_bits(0u64, dt) {
                    let u = div_bits(sub_bits(ts, l.collection_time), dt);
                    add_bits(
                        mul_bits(l.offset_value, sub_bits(F64_ONE_BITS, u)),
                        mul_bits(nx.offset_value, u),
                    )
                } else {
                    l.offset_value
                }
            } else {
                offs[k].offset_value
            };
            (add_bits(ts, off), k)
        }
    }
}

/// The samples from `i` on, timestamps synthesized and clock-corrected, with
/// the offset cursor at `k`. Without a sampling rate no timestamp is
/// synthesized, but every sample that carries one is still clock-corrected.
pub open spec fn process_from(
    raw: Seq<SampleV>,
    offs: Seq<ClockOffsetChunk>,
    srate: Option<u64>,
    i: int,
    k: int,
) -> Seq<SampleV>
    decreases raw.len() - i,
{
    if i < 0 || i >= raw.len() {
        Seq::<SampleV>::empty()
    } else {
        match srate {
            None => match raw[i].timestamp {
                None => seq![raw[i]] + process_from(raw, offs, srate, i + 1, k),
                Some(t) => {
                    let stepped = interp_step(t, offs, k);
                    seq![SampleV { timestamp: Some(stepped.0), values: raw[i].values }]
                        + process_from(raw, offs, srate, i + 1, stepped.1)
                },
            },
            Some(sr) => match synth_ts_at(raw, sr, i) {
                None => seq![SampleV { timestamp: None, values: raw[i].values }] + process_from(
                    raw,
                    offs,
                    srate,
                    i + 1,
                    k,
                ),
                Some(ts) => {
                    let stepped = interp_step(ts, offs, k);
                    seq![SampleV { timestamp: Some(stepped.0), values: raw[i].values }]
                        + process_from(raw, offs, srate, i + 1, stepped.1)
                },
            },
        }
    }
}

/// All samples, timestamps synthesized and clock-corrected in order.
pub open spec fn processed_samples(
    raw: Seq<SampleV>,
    offs: Seq<ClockOffsetChunk>,
    srate: Option<u64>,
) -> Seq<SampleV> {
    process_from(raw, offs, srate, 0, 0)
}

/// The measured sampling rate: the span from first to last timestamp divided
/// by the sample count, only when a nominal rate was declared and both ends
/// carry timestamps.
pub open spec fn measured_of(samples: Seq<SampleV>, srate: Option<u64>) -> Option<u64> {
    if srate is Some && samples.len() > 0 && samples[0].timestamp is Some && samples[samples.len()
        - 1].timestamp is Some {
        Some(
            div_bits(
                sub_bits(
                    samples[samples.len() - 1].timestamp->Some_0,
                    samples[0].timestamp->Some_0,
                ),
                f64_of_u64(samples.len() as u64),
            ),
        )
    } else {
        None
    }
}

/// Clock-correct one timestamp against a stream's offsets, advancing the
/// cursor monotonically. Mirrors `interp_step` exactly.
///
/// When timestamps come in order, the cursor is still zero whenever a
/// timestamp precedes the first offset's collection time; a recorder is
/// expected to keep that invariant. Unordered input can break it, and is
/// answered here by clamping the cursor and applying the first offset,
/// rather than by rejecting the call: this library's functions never panic.
pub fn interpolate_and_add_offsets(
    ts: u64,
    stream_offsets: &Vec<ClockOffsetChunk>,
    offset_index: &mut usize,
) -> (r: u64)
    ensures
        ({
            let stepped = interp_step(ts, stream_offsets@, *old(offset_index) as int);
            r == stepped.0 && *final(offset_index) as int == stepped.1
        }),
{
    let n = stream_offsets.len();
    if n == 0 {
        return ts;
    }
    if *offset_index >= n {
        *offset_index = n - 1;
    }
    if f64_lt(ts, stream_offsets[0].collection_time) {
        return f64_add(ts, stream_offsets[0].offset_value);
    }
    while *offset_index + 1 < n && f64_gt(ts, stream_offsets[*offset_index + 1].collection_time)
        invariant
            n == stream_offsets@.len(),
            n > 0,
            0 <= *offset_index < n,
            advance_cursor(ts, stream_offsets@, *old(offset_index) as int) ==
                advance_cursor(ts, stream_offsets@, *offset_index as int) ||
                *old(offset_index) >= n,
            *old(offset_index) >= n ==> advance_cursor(ts, stream_offsets@, n - 1) ==
                advance_cursor(ts, stream_offsets@, *offset_index as int),
        decreases n - *offset_index,
    {
        *offset_index = *offset_index + 1;
    }
    let k = *offset_index;
    let off: u64 = if k + 1 < n {
        let l = stream_offsets[k];
        let nx = stream_offsets[k + 1];
        let dt = f64_sub(nx.collection_time, l.collection_time);
        if f64_lt(0, dt) {
            let u = f64_div(f64_sub(ts, l.collection_time), dt);
            f64_add(
                f64_mul(l.offset_value, f64_sub(F64_ONE_BITS, u)),
                f64_mul(nx.offset_value, u),
            )
        } else {
            l.offset_value
        }
    } else {
        stream_offsets[k].offset_value
    };
    f64_add(ts, off)
}

/// Synthesize missing timestamps from the nominal rate and clock-correct
/// every timestamp against the stream's offsets, in sample order with one
/// monotonically advancing cursor. Without a nominal rate no timestamp is
/// synthesized, but the ones present are still corrected.
pub fn process_samples(
    samples: Vec<Sample>,
    stream_offsets: &Vec<ClockOffsetChunk>,
    nominal_srate: Option<u64>,
) -> (r: Vec<Sample>)
    ensures
        sample_views(r@) == processed_samples(sample_views(samples@), stream_offsets@, nominal_srate),
{
    let ghost samples0 = samples@;
    let ghost rawv = sample_views(samples@);
    let n = samples.len();
    let mut input = samples;
    let mut out: Vec<Sample> = Vec::new();
    let mut i: usize = 0;
    let mut offset_index: usize = 0;
    let mut anchor: Option<(usize, u64)> = None;
    proof {
        assert(sample_views(out@) + process_from(rawv, stream_offsets@, nominal_srate, 0, 0)
            =~= process_from(rawv, stream_offsets@, nominal_srate, 0, 0));
    }
    while i < n
        invariant
            0 <= i <= n,
            n == rawv.len(),
            rawv == sample_views(samples0),
            samples0.len() == n,
            input@ == samples0.skip(i as int),
            out@.len() == i,
            processed_samples(rawv, stream_offsets@, nominal_srate) == sample_views(out@)
                + process_from(rawv, stream_offsets@, nominal_srate, i as int, offset_index as int),
            nominal_srate is Some ==> (match anchor {
                None => anchor_before(rawv, i as int) is None,
                Some((j, t)) => anchor_before(rawv, i as int) == Some(j as int) && j < i && rawv[(
                j as int)].timestamp == Some(t),
            }),
        decreases n - i,
    {
        proof {
            assert(input@[0] == samples0[i as int]);
            assert(input@.remove(0) =~= samples0.skip(i + 1));
        }
        let s = input.remove(0);
        let ghost k0 = offset_index as int;
        let ghost prev_views = sample_views(out@);
        proof {
            assert(s@ == rawv[i as int]);
        }
        let result_sample: Sample;
        match nominal_srate {
            None => {
                match s.timestamp {
                    Some(t) => {
                        let ts2 = interpolate_and_add_offsets(t, stream_offsets, &mut offset_index);
                        result_sample = Sample { timestamp: Some(ts2), values: s.values };
                    },
                    None => {
                        result_sample = s;
                    },
                }
            },
            Some(sr) => {
                let own_ts = s.timestamp;
                let pre_ts: Option<u64> = match own_ts {
                    Some(ts) => Some(ts),
                    None => match anchor {
                        Some((j, t)) => Some(
                            f64_add(t, f64_div(f64_from_u64((i - j) as u64), sr)),
                        ),
                        None => None,
                    },
                };
                proof {
                    assert(pre_ts == synth_ts_at(rawv, sr, i as int));
                }
                if let Some(ts0) = own_ts {
                    anchor = Some((i, ts0));
                }
                let ts2 = match pre_ts {
                    Some(ts) => Some(interpolate_and_add_offsets(ts, stream_offsets, &mut offset_index)),
                    None => None,
                };
                result_sample = Sample { timestamp: ts2, values: s.values };
            },
        }
        let ghost rsv = result_sample@;
        out.push(result_sample);
        i = i + 1;
        proof {
            assert(sample_views(out@) =~= prev_views + seq![rsv]);
            let iv = i - 1;
            let rest = process_from(
                rawv,
                stream_offsets@,
                nominal_srate,
                i as int,
                offset_index as int,
            );
            assert(process_from(rawv, stream_offsets@, nominal_srate, iv, k0) == seq![rsv] + rest);
            assert(prev_views + (seq![rsv] + rest) =~= sample_views(out@) + rest);
            if nominal_srate is Some {
                match anchor {
                    None => {},
                    Some((j, t)) => {
                        assert(anchor_before(rawv, i as int) == Some(j as int));
                    },
                }
            }
        }
    }
    proof {
        assert(sample_views(input@).len() == 0);
        assert(process_from(rawv, stream_offsets@, nominal_srate, n as int, offset_index as int)
            =~= Seq::<SampleV>::empty());
        assert(sample_views(out@) + Seq::<SampleV>::empty() =~= sample_views(out@));
    }
    out
}

/// Synthesis and correction keep each sample's values and the sample count.
pub proof fn lemma_process_from_values(
    raw: Seq<SampleV>,
    offs: Seq<ClockOffsetChunk>,
    sr: Option<u64>,
    i: int,
    k: int,
)
    requires
        0 <= i <= raw.len(),
    ensures
        process_from(raw, offs, sr, i, k).len() == raw.len() - i,
        forall|m: int|
            0 <= m < raw.len() - i ==> (#[trigger] process_from(raw, offs, sr, i, k)[m]).values
                == raw[i + m].values,
    decreases raw.len() - i,
{
    if i < raw.len() {
        match sr {
            None => {
                match raw[i].timestamp {
                    None => {
                        lemma_process_from_values(raw, offs, sr, i + 1, k);
                    },
                    Some(t) => {
                        lemma_process_from_values(raw, offs, sr, i + 1, interp_step(t, offs, k).1);
                    },
                }
            },
            Some(r) => {
                match synth_ts_at(raw, r, i) {
                    None => {
                        lemma_process_from_values(raw, offs, sr, i + 1, k);
                    },
                    Some(ts) => {
                        lemma_process_from_values(raw, offs, sr, i + 1, interp_step(ts, offs, k).1);
                    },
                }
            },
        }
    }
}

proof fn lemma_process_from_empty_offsets(raw: Seq<SampleV>, sr: u64, i: int, k: int, m: int)
    requires
        0 <= i <= m < raw.len(),
    ensures
        process_from(raw, Seq::<ClockOffsetChunk>::empty(), Some(sr), i, k)[m - i].timestamp
            == synth_ts_at(raw, sr, m),
    decreases m - i,
{
    let offs = Seq::<ClockOffsetChunk>::empty();
    let whole = process_from(raw, offs, Some(sr), i, k);
    if m == i {
        match synth_ts_at(raw, sr, i) {
            None => {
                assert(whole == seq![SampleV { timestamp: None, values: raw[i].values }]
                    + process_from(raw, offs, Some(sr), i + 1, k));
                assert(whole[0].timestamp == None::<u64>);
            },
            Some(ts) => {
                assert(interp_step(ts, offs, k) == (ts, k));
                assert(whole == seq![SampleV { timestamp: Some(ts), values: raw[i].values }]
                    + process_from(raw, offs, Some(sr), i + 1, k));
                assert(whole[0].timestamp == Some(ts));
            },
        }
    } else {
        match synth_ts_at(raw, sr, i) {
            None => {
                lemma_process_from_empty_offsets(raw, sr, i + 1, k, m);
                lemma_process_from_values(raw, offs, Some(sr), i + 1, k);
                assert(whole == seq![SampleV { timestamp: None, values: raw[i].values }]
                    + process_from(raw, offs, Some(sr), i + 1, k));
                assert(whole[m - i] == process_from(raw, offs, Some(sr), i + 1, k)[m - i - 1]);
            },
            Some(ts) => {
                let k2 = interp_step(ts, offs, k).1;
                lemma_process_from_empty_offsets(raw, sr, i + 1, k2, m);
                lemma_process_from_values(raw, offs, Some(sr), i + 1, k2);
                assert(whole == seq![SampleV { timestamp: Some(interp_step(ts, offs, k).0), values: raw[i].values }]
                    + process_from(raw, offs, Some(sr), i + 1, k2));
                assert(whole[m - i] == process_from(raw, offs, Some(sr), i + 1, k2)[m - i - 1]);
            },
        }
    }
}

proof fn lemma_anchor_run(raw: Seq<SampleV>, ia: int, i: int)
    requires
        0 <= ia < i < raw.len(),
        raw[ia].timestamp is Some,
        forall|m: int| ia < m < i ==> (#[trigger] raw[m].timestamp) is None,
    ensures
        anchor_before(raw, i) == Some(ia),
    decreases i,
{
    if i - 1 == ia {
    } else {
        lemma_anchor_run(raw, ia, i - 1);
    }
}

/// Missing-timestamp synthesis: in a run of samples without timestamps under
/// a known sampling rate `r`, starting right after an anchor sample `ia` that
/// carries one, the synthesized timestamp of sample `i` is the anchor's plus
/// `(i - ia) / r`, computed in IEEE-754 double arithmetic. Stated without
/// clock offsets, which would further shift every timestamp.
pub proof fn lemma_timestamp_synthesis(raw: Seq<SampleV>, r: u64, ia: int, i: int)
    requires
        0 <= ia < i < raw.len(),
        raw[ia].timestamp is Some,
        forall|m: int| ia < m <= i ==> (#[trigger] raw[m].timestamp) is None,
    ensures
        processed_samples(raw, Seq::<ClockOffsetChunk>::empty(), Some(r))[i].timestamp == Some(
            add_bits(raw[ia].timestamp->Some_0, div_bits(f64_of_u64((i - ia) as u64), r)),
        ),
{
    lemma_anchor_run(raw, ia, i);
    lemma_process_from_empty_offsets(raw, r, 0, 0, i);
}

proof fn lemma_advance_to_end(ts: u64, offs: Seq<ClockOffsetChunk>, k: int)
    requires
        0 <= k < offs.len(),
        forall|j: int| 0 <= j < offs.len() ==> lt_bits((#[trigger] offs[j]).collection_time, ts),
    ensures
        advance_cursor(ts, offs, k) == offs.len() - 1,
    decreases offs.len() - k,
{
    if k + 1 < offs.len() {
        lemma_advance_to_end(ts, offs, k + 1);
    }
}

/// Clock-offset correction at the boundaries: a timestamp ordered below the
/// first offset's collection time is shifted by exactly the first offset, and
/// one ordered above every collection time is shifted by exactly the last
/// offset, whatever the cursor position.
pub proof fn lemma_offset_interpolation_bounds(ts: u64, offs: Seq<ClockOffsetChunk>, k0: int)
    requires
        offs.len() > 0,
        0 <= k0 < offs.len(),
    ensures
        lt_bits(ts, offs[0].collection_time) ==> interp_step(ts, offs, k0).0 == add_bits(
            ts,
            offs[0].offset_value,
        ),
        (!lt_bits(ts, offs[0].collection_time) && (forall|j: int|
            0 <= j < offs.len() ==> lt_bits((#[trigger] offs[j]).collection_time, ts)))
            ==> interp_step(ts, offs, k0).0 == add_bits(ts, offs[offs.len() - 1].offset_value),
{
    if !lt_bits(ts, offs[0].collection_time) && (forall|j: int|
        0 <= j < offs.len() ==> lt_bits((#[trigger] offs[j]).collection_time, ts)) {
        lemma_advance_to_end(ts, offs, k0);
    }
}

/// The samples of every samples chunk for stream `id`, flattened in chunk
/// order.
pub open spec fn chunk_samples_for(chunks: Seq<Chunk>, id: u32) -> Seq<SampleV>
    decreases chunks.len(),
{
    if chunks.len() == 0 {
        Seq::<SampleV>::empty()
    } else {
        chunk_samples_for(chunks.drop_last(), id) + (match chunks.last() {
            Chunk::Samples(sc) => if sc.stream_id == id {
                sample_views(sc.samples@)
            } else {
                Seq::<SampleV>::empty()
            },
            _ => Seq::<SampleV>::empty(),
        })
    }
}

/// The clock offsets recorded for stream `id`, in chunk order.
pub open spec fn offsets_for(chunks: Seq<Chunk>, id: u32) -> Seq<ClockOffsetChunk>
    decreases chunks.len(),
{
    if chunks.len() == 0 {
        Seq::<ClockOffsetChunk>::empty()
    } else {
        offsets_for(chunks.drop_last(), id) + (match chunks.last() {
            Chunk::ClockOffset(c) => if c.stream_id == id {
                seq![c]
            } else {
                Seq::<ClockOffsetChunk>::empty()
            },
            _ => Seq::<ClockOffsetChunk>::empty(),
        })
    }
}

/// Whether two optional strings hold the same text.
pub open spec fn opt_string_eqv(a: Option<String>, b: Option<String>) -> bool {
    match (a, b) {
        (Option::None, Option::None) => true,
        (Option::Some(x), Option::Some(y)) => x@ == y@,
        _ => false,
    }
}

/// Whether the stream `st` carries exactly what the stream-header chunk `hc`
/// declares and what the chunks of its id hold: the header's channel count,
/// format and rate, and the samples of its chunks in order, timestamps
/// synthesized and clock-corrected.
pub open spec fn stream_matches_header(st: Stream, hc: Chunk, chunks: Seq<Chunk>) -> bool {
    match hc {
        Chunk::StreamHeader(h) => {
            &&& st.channel_count == h.info.channel_count
            &&& st.format == h.info.channel_format
            &&& st.nominal_srate == h.info.nominal_srate
            &&& opt_string_eqv(st.name, h.info.name)
            &&& opt_string_eqv(st.content_type, h.info.stream_type)
            &&& sample_views(st.samples@) == processed_samples(
                chunk_samples_for(chunks, st.id),
                offsets_for(chunks, st.id),
                h.info.nominal_srate,
            )
            &&& st.measured_srate == measured_of(sample_views(st.samples@), h.info.nominal_srate)
            &&& st.footer is Some <==> has_footer_for(chunks, st.id)
        },
        _ => false,
    }
}

/// Whether the stream was reconstructed from the first header of its id.
pub open spec fn stream_from_chunks(st: Stream, chunks: Seq<Chunk>) -> bool {
    exists|j: int|
        #[trigger] first_header_at(chunks, j, st.id) && stream_matches_header(st, chunks[j], chunks)
}

/// Whether every sample of the stream has one value per channel, in the
/// stream's format.
pub open spec fn stream_samples_wf(st: Stream) -> bool {
    forall|k: int|
        0 <= k < st.samples@.len() ==> (#[trigger] st.samples@[k])@.values.len()
            == st.channel_count && st.samples@[k]@.values.has_format(st.format)
}

proof fn lemma_first_header_unique(chunks: Seq<Chunk>, j1: int, j2: int, id: u32)
    requires
        first_header_at(chunks, j1, id),
        first_header_at(chunks, j2, id),
    ensures
        j1 == j2,
{
    if j1 < j2 {
        assert(chunk_is_header_for(chunks[j1], id));
    } else if j2 < j1 {
        assert(chunk_is_header_for(chunks[j2], id));
    }
}

proof fn lemma_samples_match_prefix(chunks: Seq<Chunk>)
    requires
        samples_match_headers(chunks),
        chunks.len() > 0,
    ensures
        samples_match_headers(chunks.drop_last()),
{
    let pre = chunks.drop_last();
    assert forall|i: int| 0 <= i < pre.len() implies match #[trigger] pre[i] {
        Chunk::Samples(sc) => samples_witnessed(sc, pre, i),
        _ => true,
    } by {
        assert(pre[i] == chunks[i]);
        match chunks[i] {
            Chunk::Samples(sc) => {
                let j0 = choose|j: int|
                    j < i && #[trigger] first_header_at(chunks, j, sc.stream_id)
                        && samples_fit_header(sc, chunks[j]);
                assert(pre[j0] == chunks[j0]);
                assert forall|j2: int| 0 <= j2 < j0 implies !chunk_is_header_for(
                    #[trigger] pre[j2],
                    sc.stream_id,
                ) by {
                    assert(pre[j2] == chunks[j2]);
                }
                assert(first_header_at(pre, j0, sc.stream_id));
                assert(samples_witnessed(sc, pre, i));
            },
            _ => {},
        }
    }
}

proof fn lemma_no_header_no_samples(chunks: Seq<Chunk>, id: u32)
    requires
        samples_match_headers(chunks),
        forall|j: int| 0 <= j < chunks.len() ==> !chunk_is_header_for(#[trigger] chunks[j], id),
    ensures
        chunk_samples_for(chunks, id) =~= Seq::<SampleV>::empty(),
    decreases chunks.len(),
{
    if chunks.len() > 0 {
        let pre = chunks.drop_last();
        lemma_samples_match_prefix(chunks);
        assert forall|j: int| 0 <= j < pre.len() implies !chunk_is_header_for(
            #[trigger] pre[j],
            id,
        ) by {
            assert(pre[j] == chunks[j]);
        }
        lemma_no_header_no_samples(pre, id);
        match chunks.last() {
            Chunk::Samples(sc) => {
                if sc.stream_id == id {
                    let i = chunks.len() - 1;
                    let j0 = choose|j: int|
                        j < i && #[trigger] first_header_at(chunks, j, sc.stream_id)
                            && samples_fit_header(sc, chunks[j]);
                    assert(chunk_is_header_for(chunks[j0], id));
                    assert(false);
                }
            },
            _ => {},
        }
    }
}

proof fn lemma_chunk_samples_wf(chunks: Seq<Chunk>, j: int, id: u32)
    requires
        samples_match_headers(chunks),
        first_header_at(chunks, j, id),
    ensures
        samples_wf(
            chunk_samples_for(chunks, id),
            header_info_of(chunks[j]).0 as nat,
            header_info_of(chunks[j]).1,
        ),
    decreases chunks.len(),
{
    let chan = header_info_of(chunks[j]).0 as nat;
    let fmt = header_info_of(chunks[j]).1;
    let pre = chunks.drop_last();
    lemma_samples_match_prefix(chunks);
    if j == chunks.len() - 1 {
        assert forall|j2: int| 0 <= j2 < pre.len() implies !chunk_is_header_for(
            #[trigger] pre[j2],
            id,
        ) by {
            assert(pre[j2] == chunks[j2]);
        }
        lemma_no_header_no_samples(pre, id);
        match chunks.last() {
            Chunk::Samples(_) => {},
            _ => {},
        }
        assert(samples_wf(chunk_samples_for(chunks, id), chan, fmt));
    } else {
        assert(pre[j] == chunks[j]);
        assert forall|j2: int| 0 <= j2 < j implies !chunk_is_header_for(
            #[trigger] pre[j2],
            id,
        ) by {
            assert(pre[j2] == chunks[j2]);
        }
        assert(first_header_at(pre, j, id));
        lemma_chunk_samples_wf(pre, j, id);
        match chunks.last() {
            Chunk::Samples(sc) => {
                if sc.stream_id == id {
                    let i = chunks.len() - 1;
                    let j0 = choose|j2: int|
                        j2 < i && #[trigger] first_header_at(chunks, j2, sc.stream_id)
                            && samples_fit_header(sc, chunks[j2]);
                    lemma_first_header_unique(chunks, j0, j, id);
                    let tail = sample_views(sc.samples@);
                    let whole = chunk_samples_for(chunks, id);
                    assert(whole == chunk_samples_for(pre, id) + tail);
                    assert forall|k: int| 0 <= k < whole.len() implies (
                    #[trigger] whole[k]).values.len() == chan && whole[k].values.has_format(
                        fmt,
                    ) by {
                        if k < chunk_samples_for(pre, id).len() {
                            assert(whole[k] == chunk_samples_for(pre, id)[k]);
                        } else {
                            assert(whole[k] == tail[k - chunk_samples_for(pre, id).len()]);
                        }
                    }
                }
            },
            _ => {},
        }
    }
}

fn no_prior_header(chunks: &Vec<Chunk>, i: usize, id: u32) -> (r: bool)
    requires
        i <= chunks@.len(),
    ensures
        r == forall|j: int| 0 <= j < i ==> !chunk_is_header_for(#[trigger] chunks@[j], id),
{
    let mut j: usize = 0;
    while j < i
        invariant
            0 <= j <= i <= chunks@.len(),
            forall|j2: int| 0 <= j2 < j ==> !chunk_is_header_for(#[trigger] chunks@[j2], id),
        decreases i - j,
    {
        match &chunks[j] {
            Chunk::StreamHeader(h) => {
                if h.stream_id == id {
                    return false;
                }
            },
            _ => {},
        }
        j = j + 1;
    }
    true
}

fn collect_samples(chunks: &Vec<Chunk>, id: u32) -> (r: Vec<Sample>)
    ensures
        sample_views(r@) == chunk_samples_for(chunks@, id),
{
    let mut out: Vec<Sample> = Vec::new();
    let mut i: usize = 0;
    proof {
        assert(chunk_samples_for(chunks@.take(0), id) =~= Seq::<SampleV>::empty());
        assert(sample_views(out@) =~= Seq::<SampleV>::empty());
    }
    while i < chunks.len()
        invariant
            0 <= i <= chunks@.len(),
            sample_views(out@) == chunk_samples_for(chunks@.take(i as int), id),
        decreases chunks@.len() - i,
    {
        let ghost prev = sample_views(out@);
        match &chunks[i] {
            Chunk::Samples(sc) => {
                if sc.stream_id == id {
                    let mut m: usize = 0;
                    while m < sc.samples.len()
                        invariant
                            0 <= m <= sc.samples@.len(),
                            sample_views(out@) =~= prev + sample_views(sc.samples@.take(m as int)),
                        decreases sc.samples@.len() - m,
                    {
                        let ghost before = sample_views(out@);
                        out.push(sc.samples[m].duplicate());
                        proof {
                            assert(sample_views(out@) =~= before + seq![sc.samples@[m as int]@]);
                            assert(sample_views(sc.samples@.take(m + 1)) =~= sample_views(
                                sc.samples@.take(m as int),
                            ) + seq![sc.samples@[m as int]@]);
                        }
                        m = m + 1;
                    }
                    proof {
                        assert(sc.samples@.take(sc.samples@.len() as int) =~= sc.samples@);
                    }
                }
            },
            _ => {},
        }
        i = i + 1;
        proof {
            assert(chunks@.take(i as int).drop_last() =~= chunks@.take(i - 1));
            assert(chunks@.take(i as int).last() == chunks@[i - 1]);
            assert(sample_views(out@) =~= chunk_samples_for(chunks@.take(i as int), id));
        }
    }
    proof {
        assert(chunks@.take(chunks@.len() as int) =~= chunks@);
    }
    out
}

fn collect_offsets(chunks: &Vec<Chunk>, id: u32) -> (r: Vec<ClockOffsetChunk>)
    ensures
        r@ == offsets_for(chunks@, id),
{
    let mut out: Vec<ClockOffsetChunk> = Vec::new();
    let mut i: usize = 0;
    proof {
        assert(offsets_for(chunks@.take(0), id) =~= Seq::<ClockOffsetChunk>::empty());
    }
    while i < chunks.len()
        invariant
            0 <= i <= chunks@.len(),
            out@ == offsets_for(chunks@.take(i as int), id),
        decreases chunks@.len() - i,
    {
        match &chunks[i] {
            Chunk::ClockOffset(c) => {
                if c.stream_id == id {
                    out.push(*c);
                }
            },
            _ => {},
        }
        i = i + 1;
        proof {
            assert(chunks@.take(i as int).drop_last() =~= chunks@.take(i - 1));
            assert(chunks@.take(i as int).last() == chunks@[i - 1]);
            assert(out@ =~= offsets_for(chunks@.take(i as int), id));
        }
    }
    proof {
        assert(chunks@.take(chunks@.len() as int) =~= chunks@);
    }
    out
}

/// Whether some chunk is a stream footer for the given id.
pub open spec fn has_footer_for(chunks: Seq<Chunk>, id: u32) -> bool {
    exists|j: int|
        0 <= j < chunks.len() && (match #[trigger] chunks[j] {
            Chunk::StreamFooter(f) => f.stream_id == id,
            _ => false,
        })
}

fn find_footer(chunks: &Vec<Chunk>, id: u32) -> (r: Option<xmltree::Element>)
    ensures
        r is Some <==> has_footer_for(chunks@, id),
{
    let mut found: Option<xmltree::Element> = None;
    let mut i: usize = 0;
    while i < chunks.len()
        invariant
            0 <= i <= chunks@.len(),
            found is Some <==> exists|j: int|
                0 <= j < i && (match #[trigger] chunks@[j] {
                    Chunk::StreamFooter(f) => f.stream_id == id,
                    _ => false,
                }),
        decreases chunks@.len() - i,
    {
        match &chunks[i] {
            Chunk::StreamFooter(f) => {
                if f.stream_id == id {
                    found = Some(xml_clone(&f.xml));
                }
            },
            _ => {},
        }
        i = i + 1;
    }
    found
}

fn clone_opt_string(o: &Option<String>) -> (r: Option<String>)
    ensures
        opt_string_eqv(r, *o),
{
    match o {
        Some(s) => Some(s.clone()),
        None => None,
    }
}

/// Whether some stream in the sequence has the given id.
pub open spec fn streams_have_id(streams: Seq<Stream>, id: u32) -> bool {
    exists|a: int| 0 <= a < streams.len() && (#[trigger] streams[a]).id == id
}

/// Reconstruct one stream per stream id: take the first header for each id,
/// flatten that id's sample chunks in on-disk order, synthesize and
/// clock-correct timestamps, compute the measured rate, and attach the last
/// footer for the id when one exists.
#[verifier::rlimit(60)]
pub fn process_streams(chunks: &Vec<Chunk>) -> (r: Vec<Stream>)
    requires
        samples_match_headers(chunks@),
    ensures
        forall|a: int, b: int| 0 <= a < b < r@.len() ==> (#[trigger] r@[a]).id != (#[trigger] r@[b]).id,
        forall|a: int| 0 <= a < r@.len() ==> stream_from_chunks(#[trigger] r@[a], chunks@),
        forall|a: int| 0 <= a < r@.len() ==> stream_samples_wf(#[trigger] r@[a]),
        forall|j: int, id: u32|
            #[trigger] first_header_at(chunks@, j, id) ==> streams_have_id(r@, id),
{
    let n = chunks.len();
    let mut streams: Vec<Stream> = Vec::new();
    let mut i: usize = 0;
    while i < n
        invariant
            0 <= i <= n,
            n == chunks@.len(),
            samples_match_headers(chunks@),
            forall|a: int, b: int|
                0 <= a < b < streams@.len() ==> (#[trigger] streams@[a]).id != (
                #[trigger] streams@[b]).id,
            forall|a: int|
                0 <= a < streams@.len() ==> stream_from_chunks(#[trigger] streams@[a], chunks@),
            forall|a: int|
                0 <= a < streams@.len() ==> stream_samples_wf(#[trigger] streams@[a]),
            forall|a: int|
                #![trigger streams@[a]]
                0 <= a < streams@.len() ==> exists|j: int|
                    0 <= j < i && #[trigger] first_header_at(chunks@, j, (streams@[a]).id),
            forall|j: int, id: u32|
                0 <= j < i && #[trigger] first_header_at(chunks@, j, id) ==> streams_have_id(
                    streams@,
                    id,
                ),
        decreases n - i,
    {
        let ghost prev = streams@;
        let mut added: bool = false;
        let ghost mut new_id: u32 = 0u32;
        match &chunks[i] {
            Chunk::StreamHeader(h) => {
                let id = h.stream_id;
                if no_prior_header(chunks, i, id) {
                    proof {
                        assert(chunk_is_header_for(chunks@[i as int], id));
                        assert(first_header_at(chunks@, i as int, id));
                    }
                    let raw_samples = collect_samples(chunks, id);
                    let offsets = collect_offsets(chunks, id);
                    let ghost rawv = sample_views(raw_samples@);
                    let samples = process_samples(raw_samples, &offsets, h.info.nominal_srate);
                    let measured_srate: Option<u64> = if h.info.nominal_srate.is_some()
                        && samples.len() > 0 {
                        let first_ts = samples[0].timestamp;
                        let last_ts = samples[samples.len() - 1].timestamp;
                        match (first_ts, last_ts) {
                            (Some(f), Some(l)) => Some(
                                f64_div(f64_sub(l, f), f64_from_u64(samples.len() as u64)),
                            ),
                            _ => None,
                        }
                    } else {
                        None
                    };
                    proof {
                        let pv = sample_views(samples@);
                        if samples@.len() > 0 {
                            assert(pv[0] == samples@[0]@);
                            assert(pv[pv.len() - 1] == samples@[samples@.len() - 1]@);
                        }
                        assert(measured_srate == measured_of(pv, h.info.nominal_srate));
                    }
                    let footer = find_footer(chunks, id);
                    let st = Stream {
                        id,
                        channel_count: h.info.channel_count,
                        nominal_srate: h.info.nominal_srate,
                        format: h.info.channel_format,
                        name: clone_opt_string(&h.info.name),
                        content_type: clone_opt_string(&h.info.stream_type),
                        header: xml_clone(&h.xml),
                        footer,
                        measured_srate,
                        samples,
                    };
                    proof {
                        assert(stream_matches_header(st, chunks@[i as int], chunks@));
                        lemma_chunk_samples_wf(chunks@, i as int, id);
                        lemma_process_from_values(
                            chunk_samples_for(chunks@, id),
                            offsets_for(chunks@, id),
                            h.info.nominal_srate,
                            0,
                            0,
                        );
                        assert forall|k: int| 0 <= k < st.samples@.len() implies (
                        #[trigger] st.samples@[k])@.values.len() == st.channel_count
                            && st.samples@[k]@.values.has_format(st.format) by {
                            let pv = sample_views(st.samples@);
                            assert(pv[k] == st.samples@[k]@);
                            assert(pv[k].values == chunk_samples_for(chunks@, id)[k].values);
                        }
                        assert(stream_samples_wf(st));
                    }
                    streams.push(st);
                    added = true;
                    proof {
                        new_id = id;
                        assert(streams@[streams@.len() - 1].id == id);
                        assert(stream_from_chunks(streams@[streams@.len() - 1], chunks@));
                    }
                }
            },
            _ => {},
        }
        i = i + 1;
        proof {
            if added {
                let last = streams@[streams@.len() - 1];
                assert forall|a: int, b: int| 0 <= a < b < streams@.len() implies (
                #[trigger] streams@[a]).id != (#[trigger] streams@[b]).id by {
                    if b == streams@.len() - 1 {
                        assert(streams@[a] == prev[a]);
                        if prev[a].id == last.id {
                            let ja = choose|j: int|
                                0 <= j < i - 1 && #[trigger] first_header_at(
                                    chunks@,
                                    j,
                                    prev[a].id,
                                );
                            lemma_first_header_unique(chunks@, ja, i - 1, last.id);
                            assert(false);
                        }
                    } else {
                        assert(streams@[a] == prev[a] && streams@[b] == prev[b]);
                    }
                }
                assert forall|j: int, id: u32|
                    0 <= j < i && #[trigger] first_header_at(chunks@, j, id) implies streams_have_id(
                    streams@,
                    id,
                ) by {
                    if j < i - 1 {
                        assert(streams_have_id(prev, id));
                        let a0 = choose|a: int|
                            0 <= a < prev.len() && (#[trigger] prev[a]).id == id;
                        assert(streams@[a0] == prev[a0]);
                        assert(streams_have_id(streams@, id));
                    } else {
                        assert(streams@[streams@.len() - 1].id == id) by {
                            lemma_first_header_unique(chunks@, j, i - 1, id);
                        }
                        assert(streams_have_id(streams@, id));
                    }
                }
            } else {
                assert forall|j: int, id: u32|
                    0 <= j < i && #[trigger] first_header_at(chunks@, j, id) implies streams_have_id(
                    streams@,
                    id,
                ) by {
                    if j == i - 1 {
                        assert(chunk_is_header_for(chunks@[j], id));
                        match chunks@[j] {
                            Chunk::StreamHeader(h2) => {
                                assert(h2.stream_id == id);
                                assert(!(forall|j2: int|
                                    0 <= j2 < j ==> !chunk_is_header_for(
                                        #[trigger] chunks@[j2],
                                        id,
                                    )) ==> false) by {
                                    if exists|j2: int|
                                        0 <= j2 < j && chunk_is_header_for(
                                            #[trigger] chunks@[j2],
                                            id,
                                        ) {
                                        let j2 = choose|j2: int|
                                            0 <= j2 < j && chunk_is_header_for(
                                                #[trigger] chunks@[j2],
                                                id,
                                            );
                                        assert(!chunk_is_header_for(chunks@[j2], id));
                                    }
                                }
                            },
                            _ => {},
                        }
                    }
                }
            }
        }
    }
    streams
}

/// Check the file-level invariant and take the file header: the first chunk
/// must be the one file header, and no other chunk may be one.
pub fn group_chunks(chunks: &Vec<Chunk>) -> (r: Result<FileHeaderChunk, XDFError>)
    ensures
        match r {
            Ok(fh) => {
                &&& chunks@.len() > 0
                &&& chunks@[0] is FileHeader
                &&& fh.version == file_header_version(chunks@[0])
                &&& forall|i: int| 1 <= i < chunks@.len() ==> !((#[trigger] chunks@[i]) is FileHeader)
            },
            Err(XDFError::Stream(StreamError::MissingFileHeader)) => chunks@.len() == 0 || !(
            chunks@[0] is FileHeader),
            Err(XDFError::Stream(StreamError::MultipleFileHeader)) => exists|i: int|
                1 <= i < chunks@.len() && (#[trigger] chunks@[i]) is FileHeader,
            Err(_) => false,
        },
{
    if chunks.len() == 0 {
        return Err(XDFError::Stream(StreamError::MissingFileHeader));
    }
    let fh: FileHeaderChunk = match &chunks[0] {
        Chunk::FileHeader(c) => FileHeaderChunk { version: c.version, xml: xml_clone(&c.xml) },
        _ => {
            return Err(XDFError::Stream(StreamError::MissingFileHeader));
        },
    };
    let mut i: usize = 1;
    while i < chunks.len()
        invariant
            1 <= i <= chunks@.len(),
            forall|j: int| 1 <= j < i ==> !((#[trigger] chunks@[j]) is FileHeader),
        decreases chunks@.len() - i,
    {
        match &chunks[i] {
            Chunk::FileHeader(_) => {
                return Err(XDFError::Stream(StreamError::MultipleFileHeader));
            },
            _ => {},
        }
        i = i + 1;
    }
    Ok(fh)
}

/// The version bits a file-header chunk declares.
pub open spec fn file_header_version(c: Chunk) -> u32
    recommends
        c is FileHeader,
{
    match c {
        Chunk::FileHeader(fh) => fh.version,
        _ => 0u32,
    }
}

} // verus!
