use vstd::prelude::*;
use vstd::string::StringSliceAdditionalSpecFns;
use vstd::utf8::encode_utf8;

use crate::fbits::{add_bits, div_bits, f64_add, f64_div, f64_from_u64, f64_of_u64, f64_to_decimal};
use crate::length::{encode_length, le_bytes, le_write, len_enc};
use crate::raw::frame_bytes;
use crate::text::u64_to_dec_string;
use crate::xmlio::copy_str;
use crate::xmlio::{
    xml_add_element_child, xml_add_text_child, xml_new, xml_take_child, xml_write,
};
use crate::{Format, Tag, Values, ValuesV};

verus! {

/// Marker for stream writers whose batches carry a first timestamp.
pub struct HasTimestamps;

/// Marker for stream writers whose samples never carry timestamps.
pub struct NoTimestamps;

/// The two timestamp modes, as a runtime value.
pub enum TimestampEnum {
    HasTimestamps,
    NoTimestamps,
}

/// The timestamp mode a marker type stands for.
pub trait TimestampTrait {
    fn get_enum() -> TimestampEnum;

    fn is_timestamped() -> bool;
}

impl TimestampTrait for HasTimestamps {
    fn get_enum() -> TimestampEnum {
        TimestampEnum::HasTimestamps
    }

    fn is_timestamped() -> bool {
        true
    }
}

impl TimestampTrait for NoTimestamps {
    fn get_enum() -> TimestampEnum {
        TimestampEnum::NoTimestamps
    }

    fn is_timestamped() -> bool {
        false
    }
}

/// Errors the writer can raise.
#[derive(Debug)]
pub enum XDFWriterError {
    /// Serializing an XML tree failed.
    XMLTree(xmltree::Error),
    /// A count does not fit the integer width the wire format needs.
    Conversion,
    /// A sample holds a different number of values than the stream has
    /// channels.
    LengthMismatch { expected: usize, actual: usize },
    /// A sample holds values of a different format than the stream declares.
    FormatMismatch,
}

/// What a caller declares about a stream before writing it: the channel
/// count and, unless sampling is irregular, the nominal rate as the bit
/// pattern of a positive IEEE-754 double.
#[derive(Debug, Clone, Copy, PartialEq, Eq, Structural)]
pub struct StreamInfo {
    pub channel_count: usize,
    pub nominal_srate: Option<u64>,
}

impl StreamInfo {
    pub fn new(channel_count: usize, nominal_srate: Option<u64>) -> (r: StreamInfo)
        ensures
            r.channel_count == channel_count,
            r.nominal_srate == nominal_srate,
    {
        StreamInfo { channel_count, nominal_srate }
    }
}

/// The sentinel bytes of a boundary chunk.
pub open spec fn boundary_uuid() -> Seq<u8> {
    seq![
        0x43u8, 0xA5u8, 0x46u8, 0xDCu8, 0xCBu8, 0xF5u8, 0x41u8, 0x0Fu8, 0xB3u8, 0x0Eu8, 0xD5u8,
        0x46u8, 0x73u8, 0x83u8, 0xCBu8, 0xE4u8,
    ]
}

fn push_bytes(out: &mut Vec<u8>, b: &[u8])
    ensures
        final(out)@ == old(out)@ + b@,
{
    let mut i: usize = 0;
    while i < b.len()
        invariant
            0 <= i <= b@.len(),
            out@ == old(out)@ + b@.take(i as int),
        decreases b@.len() - i,
    {
        out.push(b[i]);
        proof {
            assert(old(out)@ + b@.take(i as int) + seq![b@[i as int]] =~= old(out)@ + b@.take(
                i + 1,
            ));
        }
        i = i + 1;
    }
    proof {
        assert(b@.take(b@.len() as int) =~= b@);
    }
}

/// Append one framed chunk: the length field counting tag and payload, the
/// tag bytes, then the payload.
pub fn write_chunk(buf: &mut Vec<u8>, tag: Tag, payload: &Vec<u8>)
    requires
        payload@.len() + 2 <= u64::MAX,
    ensures
        final(buf)@ == old(buf)@ + frame_bytes(tag, payload@),
{
    let ghost start = buf@;
    encode_length(buf, payload.len() as u64 + 2);
    let tb = tag.as_bytes();
    buf.push(tb[0]);
    buf.push(tb[1]);
    push_bytes(buf, payload.as_slice());
    proof {
        assert(buf@ =~= start + frame_bytes(tag, payload@));
    }
}

fn write_boundary_chunk(buf: &mut Vec<u8>)
    ensures
        final(buf)@ == old(buf)@ + frame_bytes(Tag::Boundary, boundary_uuid()),
{
    let mut payload: Vec<u8> = Vec::new();
    payload.push(0x43);
    payload.push(0xA5);
    payload.push(0x46);
    payload.push(0xDC);
    payload.push(0xCB);
    payload.push(0xF5);
    payload.push(0x41);
    payload.push(0x0F);
    payload.push(0xB3);
    payload.push(0x0E);
    payload.push(0xD5);
    payload.push(0x46);
    payload.push(0x73);
    payload.push(0x83);
    payload.push(0xCB);
    payload.push(0xE4);
    proof {
        assert(payload@ =~= boundary_uuid());
    }
    write_chunk(buf, Tag::Boundary, &payload);
}

/// A writer for one XDF byte stream: the bytes written so far and the count
/// of streams added.
pub struct XDFWriter {
    pub buf: Vec<u8>,
    pub num_streams: u32,
}

impl XDFWriter {
    /// Append a boundary chunk.
    pub fn write_boundary(&mut self) -> (r: Result<(), XDFWriterError>)
        ensures
            r is Ok,
            final(self).buf@ == old(self).buf@ + frame_bytes(Tag::Boundary, boundary_uuid()),
            final(self).num_streams == old(self).num_streams,
    {
        write_boundary_chunk(&mut self.buf);
        Ok(())
    }

    /// Begin a new stream under the next stream id, counting from 1.
    pub fn add_stream<T: TimestampTrait>(&mut self, stream_info: StreamInfo, format: Format) -> (r:
        StreamBuilder<T>)
        requires
            old(self).num_streams < u32::MAX,
        ensures
            final(self).num_streams == old(self).num_streams + 1,
            final(self).buf@ == old(self).buf@,
            r.id == old(self).num_streams + 1,
            r.info == stream_info,
            r.format == format,
    {
        self.num_streams = self.num_streams + 1;
        StreamBuilder {
            id: self.num_streams,
            info: stream_info,
            format,
            metadata: xml_new("info"),
            desc: xml_new("desc"),
            _timestamp_marker: core::marker::PhantomData,
        }
    }

    /// The bytes written, consuming the writer.
    pub fn into_bytes(self) -> (r: Vec<u8>)
        ensures
            r@ == self.buf@,
    {
        self.buf
    }
}

/// Append one chunk whose payload is a stream id followed by already
/// serialized XML bytes. Succeeds exactly when the payload fits the length
/// field; nothing is written on failure.
pub fn append_id_xml_chunk(w: &mut XDFWriter, tag: Tag, id: u32, xml_bytes: &Vec<u8>) -> (r:
    Result<(), XDFWriterError>)
    ensures
        xml_bytes@.len() + 6 <= u64::MAX ==> r is Ok && final(w).buf@ == old(w).buf@
            + frame_bytes(tag, le_bytes(id as nat, 4) + xml_bytes@),
        xml_bytes@.len() + 6 > u64::MAX ==> r == Err::<(), XDFWriterError>(
            XDFWriterError::Conversion,
        ) && final(w).buf@ == old(w).buf@,
        final(w).num_streams == old(w).num_streams,
{
    let xlen = xml_bytes.len();
    if xlen as u64 > u64::MAX - 6 {
        return Err(XDFWriterError::Conversion);
    }
    let mut payload: Vec<u8> = Vec::new();
    le_write(&mut payload, id as u64, 4);
    push_bytes(&mut payload, xml_bytes.as_slice());
    proof {
        crate::length::lemma_le_bytes_len(id as nat, 4);
        assert(payload@ =~= le_bytes(id as nat, 4) + xml_bytes@);
        assert(payload@.len() == 4 + xlen);
        assert(payload@.len() + 2 <= u64::MAX);
    }
    write_chunk(&mut w.buf, tag, &payload);
    Ok(())
}

/// Accumulates the file-header XML before any bytes are written.
pub struct XDFBuilder {
    pub file_header: xmltree::Element,
    pub desc: xmltree::Element,
}

/// Builders that hold a metadata tree and a `<desc>` tree.
pub trait HasMetadataAndDesc: Sized {
    /// Add `<key>value</key>` to the top-level metadata, replacing an
    /// existing child of that name.
    fn add_metadata_key(self, key: &str, value: &str) -> Self;

    /// Add `<key>value</key>` to the `<desc>` tree, replacing an existing
    /// child of that name.
    fn add_desc_key(self, key: &str, value: &str) -> Self;
}

fn xml_overwrite_child(e: &mut xmltree::Element, name: &str, text: &str) {
    let _old_child = xml_take_child(e, name);
    xml_add_text_child(e, name, text);
}

impl XDFBuilder {
    pub fn new() -> XDFBuilder {
        XDFBuilder { file_header: xml_new("info"), desc: xml_new("desc") }
    }

    /// Write the magic number and the file-header chunk, whose XML declares
    /// version 1.0, and hand back the writer for the chunks that follow.
    pub fn build(self) -> (r: Result<XDFWriter, XDFWriterError>)
        ensures
            r matches Ok(w) ==> w.num_streams == 0 && exists|xb: Seq<u8>|
                w.buf@ == crate::raw::magic() + frame_bytes(Tag::FileHeader, xb),
            r matches Err(e) ==> (e matches XDFWriterError::XMLTree(_) || e matches
            XDFWriterError::Conversion),
    {
        let mut header = self.file_header;
        xml_overwrite_child(&mut header, "version", "1.0");
        xml_add_element_child(&mut header, self.desc);
        let xml_bytes = match xml_write(&header) {
            Ok(b) => b,
            Err(e) => {
                return Err(XDFWriterError::XMLTree(e));
            },
        };
        if xml_bytes.len() as u64 > u64::MAX - 2 {
            return Err(XDFWriterError::Conversion);
        }
        let mut buf: Vec<u8> = Vec::new();
        buf.push(88);
        buf.push(68);
        buf.push(70);
        buf.push(58);
        proof {
            assert(buf@ =~= crate::raw::magic());
        }
        write_chunk(&mut buf, Tag::FileHeader, &xml_bytes);
        Ok(XDFWriter { buf, num_streams: 0 })
    }
}

impl HasMetadataAndDesc for XDFBuilder {
    fn add_metadata_key(self, key: &str, value: &str) -> Self {
        let mut s = self;
        xml_overwrite_child(&mut s.file_header, key, value);
        s
    }

    fn add_desc_key(self, key: &str, value: &str) -> Self {
        let mut s = self;
        xml_overwrite_child(&mut s.desc, key, value);
        s
    }
}

/// Accumulates one stream's header XML before the stream-header chunk is
/// written.
pub struct StreamBuilder<T: TimestampTrait> {
    pub id: u32,
    pub info: StreamInfo,
    pub format: Format,
    pub metadata: xmltree::Element,
    pub desc: xmltree::Element,
    pub _timestamp_marker: core::marker::PhantomData<T>,
}

/// The channel-format name written into stream headers.
pub fn format_name(f: Format) -> &'static str {
    match f {
        Format::Int8 => "int8",
        Format::Int16 => "int16",
        Format::Int32 => "int32",
        Format::Int64 => "int64",
        Format::Float32 => "float32",
        Format::Float64 => "double64",
        Format::String => "string",
    }
}

impl<T: TimestampTrait> StreamBuilder<T> {
    /// Name the stream in its header XML.
    pub fn name(self, name: &str) -> (r: Self)
        ensures
            r.id == self.id && r.info == self.info && r.format == self.format,
    {
        let mut s = self;
        xml_overwrite_child(&mut s.metadata, "name", name);
        s
    }

    /// Record the stream's content type in its header XML.
    pub fn content_type(self, content_type: &str) -> (r: Self)
        ensures
            r.id == self.id && r.info == self.info && r.format == self.format,
    {
        let mut s = self;
        xml_overwrite_child(&mut s.metadata, "type", content_type);
        s
    }

    /// Write the stream-header chunk, with the declared channel count,
    /// nominal rate and format overriding any metadata of those names, and
    /// hand back the stream writer.
    pub fn start_stream(self, w: &mut XDFWriter) -> (r: Result<StreamWriter<T>, XDFWriterError>)
        ensures
            match r {
                Ok(sw) => {
                    &&& sw.id == self.id
                    &&& sw.channel_count == self.info.channel_count
                    &&& sw.format == self.format
                    &&& sw.nominal_srate == self.info.nominal_srate
                    &&& sw.first_timestamp is None
                    &&& sw.last_timestamp is None
                    &&& sw.num_samples_written == 0
                    &&& final(w).num_streams == old(w).num_streams
                    &&& exists|xb: Seq<u8>|
                        final(w).buf@ == old(w).buf@ + frame_bytes(
                            Tag::StreamHeader,
                            le_bytes(self.id as nat, 4) + xb,
                        )
                },
                Err(e) => {
                    &&& final(w).buf@ == old(w).buf@
                    &&& final(w).num_streams == old(w).num_streams
                    &&& (e matches XDFWriterError::XMLTree(_) || e matches
                    XDFWriterError::Conversion)
                },
            },
    {
        let mut metadata = self.metadata;
        let _old_desc = xml_take_child(&mut metadata, "desc");
        xml_add_element_child(&mut metadata, self.desc);
        let cc_text = u64_to_dec_string(self.info.channel_count as u64);
        let srate_text: String = match self.info.nominal_srate {
            Some(b) => f64_to_decimal(b),
            None => copy_str("0"),
        };
        xml_overwrite_child(&mut metadata, "channel_count", cc_text.as_str());
        xml_overwrite_child(&mut metadata, "nominal_srate", srate_text.as_str());
        xml_overwrite_child(&mut metadata, "channel_format", format_name(self.format));
        let xml_bytes = match xml_write(&metadata) {
            Ok(b) => b,
            Err(e) => {
                return Err(XDFWriterError::XMLTree(e));
            },
        };
        match append_id_xml_chunk(w, Tag::StreamHeader, self.id, &xml_bytes) {
            Ok(()) => {},
            Err(e) => {
                return Err(e);
            },
        }
        Ok(
            StreamWriter {
                id: self.id,
                channel_count: self.info.channel_count,
                format: self.format,
                nominal_srate: self.info.nominal_srate,
                first_timestamp: None,
                last_timestamp: None,
                num_samples_written: 0,
                _timestamp_marker: core::marker::PhantomData,
            },
        )
    }
}

impl<T: TimestampTrait> HasMetadataAndDesc for StreamBuilder<T> {
    fn add_metadata_key(self, key: &str, value: &str) -> Self {
        let mut s = self;
        xml_overwrite_child(&mut s.metadata, key, value);
        s
    }

    fn add_desc_key(self, key: &str, value: &str) -> Self {
        let mut s = self;
        xml_overwrite_child(&mut s.desc, key, value);
        s
    }
}

/// Writes sample batches for one stream and keeps what its footer will need:
/// the first and last effective timestamps and the sample count.
pub struct StreamWriter<T: TimestampTrait> {
    pub id: u32,
    pub channel_count: usize,
    pub format: Format,
    pub nominal_srate: Option<u64>,
    pub first_timestamp: Option<u64>,
    pub last_timestamp: Option<u64>,
    pub num_samples_written: usize,
    pub _timestamp_marker: core::marker::PhantomData<T>,
}

/// The wire bytes of one value sequence, little-endian per value; strings
/// are length-prefixed UTF-8.
pub open spec fn enc_values(v: ValuesV) -> Seq<u8> {
    match v {
        ValuesV::I8(xs) => enc_i8s(xs),
        ValuesV::I16(xs) => enc_i16s(xs),
        ValuesV::I32(xs) => enc_i32s(xs),
        ValuesV::I64(xs) => enc_i64s(xs),
        ValuesV::F32(xs) => enc_u32s(xs),
        ValuesV::F64(xs) => enc_u64s(xs),
        ValuesV::Str(xs) => enc_strs(xs),
    }
}

pub open spec fn enc_i8s(xs: Seq<i8>) -> Seq<u8>
    decreases xs.len(),
{
    if xs.len() == 0 {
        Seq::<u8>::empty()
    } else {
        enc_i8s(xs.drop_last()) + le_bytes((xs.last() as u8) as nat, 1)
    }
}

pub open spec fn enc_i16s(xs: Seq<i16>) -> Seq<u8>
    decreases xs.len(),
{
    if xs.len() == 0 {
        Seq::<u8>::empty()
    } else {
        enc_i16s(xs.drop_last()) + le_bytes((xs.last() as u16) as nat, 2)
    }
}

pub open spec fn enc_i32s(xs: Seq<i32>) -> Seq<u8>
    decreases xs.len(),
{
    if xs.len() == 0 {
        Seq::<u8>::empty()
    } else {
        enc_i32s(xs.drop_last()) + le_bytes((xs.last() as u32) as nat, 4)
    }
}

pub open spec fn enc_i64s(xs: Seq<i64>) -> Seq<u8>
    decreases xs.len(),
{
    if xs.len() == 0 {
        Seq::<u8>::empty()
    } else {
        enc_i64s(xs.drop_last()) + le_bytes((xs.last() as u64) as nat, 8)
    }
}

pub open spec fn enc_u32s(xs: Seq<u32>) -> Seq<u8>
    decreases xs.len(),
{
    if xs.len() == 0 {
        Seq::<u8>::empty()
    } else {
        enc_u32s(xs.drop_last()) + le_bytes(xs.last() as nat, 4)
    }
}

pub open spec fn enc_u64s(xs: Seq<u64>) -> Seq<u8>
    decreases xs.len(),
{
    if xs.len() == 0 {
        Seq::<u8>::empty()
    } else {
        enc_u64s(xs.drop_last()) + le_bytes(xs.last() as nat, 8)
    }
}

pub open spec fn enc_strs(xs: Seq<Seq<char>>) -> Seq<u8>
    decreases xs.len(),
{
    if xs.len() == 0 {
        Seq::<u8>::empty()
    } else {
        enc_strs(xs.drop_last()) + len_enc(encode_utf8(xs.last()).len() as u64) + encode_utf8(
            xs.last(),
        )
    }
}

/// The views of a batch of value rows.
pub open spec fn values_views(s: Seq<Values>) -> Seq<ValuesV> {
    s.map_values(|v: Values| v@)
}

/// Whether every row of the batch has `chan` values of format `fmt`.
pub open spec fn batch_ok(batch: Seq<ValuesV>, chan: nat, fmt: Format) -> bool {
    forall|k: int|
        0 <= k < batch.len() ==> (#[trigger] batch[k]).len() == chan && batch[k].has_format(fmt)
}

/// The wire bytes of the samples of a batch from row `i` on: a timestamp
/// flag per sample, the timestamp bytes on the first sample when one is
/// given, then the values.
pub open spec fn enc_batch(batch: Seq<ValuesV>, i: int, ts: Option<u64>) -> Seq<u8>
    decreases batch.len() - i,
{
    if i < 0 || i >= batch.len() {
        Seq::<u8>::empty()
    } else {
        (if i == 0 && ts is Some {
            seq![8u8] + le_bytes(ts->Some_0 as nat, 8)
        } else {
            seq![0u8]
        }) + enc_values(batch[i]) + enc_batch(batch, i + 1, ts)
    }
}

/// The content of a samples chunk for a batch: the stream id, the length
/// field with the row count, then the samples.
pub open spec fn enc_samples_content(id: u32, ts: Option<u64>, batch: Seq<ValuesV>) -> Seq<u8> {
    le_bytes(id as nat, 4) + len_enc(batch.len() as u64) + enc_batch(batch, 0, ts)
}

/// The format a value row carries.
fn values_format(v: &Values) -> (r: Format)
    ensures
        v@.has_format(r),
{
    match v {
        Values::Int8(_) => Format::Int8,
        Values::Int16(_) => Format::Int16,
        Values::Int32(_) => Format::Int32,
        Values::Int64(_) => Format::Int64,
        Values::Float32(_) => Format::Float32,
        Values::Float64(_) => Format::Float64,
        Values::Strings(_) => Format::String,
    }
}

fn push_values(out: &mut Vec<u8>, v: &Values)
    ensures
        final(out)@ == old(out)@ + enc_values(v@),
{
    match v {
        Values::Int8(xs) => {
            let mut i: usize = 0;
            while i < xs.len()
                invariant
                    0 <= i <= xs@.len(),
                    out@ == old(out)@ + enc_i8s(xs@.take(i as int)),
                decreases xs@.len() - i,
            {
                let ghost st = out@;
                le_write(out, (xs[i] as u8) as u64, 1);
                proof {
                    assert(xs@.take(i + 1).drop_last() =~= xs@.take(i as int));
                    assert(out@ =~= old(out)@ + enc_i8s(xs@.take(i + 1)));
                }
                i = i + 1;
            }
            proof {
                assert(xs@.take(xs@.len() as int) =~= xs@);
            }
        },
        Values::Int16(xs) => {
            let mut i: usize = 0;
            while i < xs.len()
                invariant
                    0 <= i <= xs@.len(),
                    out@ == old(out)@ + enc_i16s(xs@.take(i as int)),
                decreases xs@.len() - i,
            {
                le_write(out, (xs[i] as u16) as u64, 2);
                proof {
                    assert(xs@.take(i + 1).drop_last() =~= xs@.take(i as int));
                    assert(out@ =~= old(out)@ + enc_i16s(xs@.take(i + 1)));
                }
                i = i + 1;
            }
            proof {
                assert(xs@.take(xs@.len() as int) =~= xs@);
            }
        },
        Values::Int32(xs) => {
            let mut i: usize = 0;
            while i < xs.len()
                invariant
                    0 <= i <= xs@.len(),
                    out@ == old(out)@ + enc_i32s(xs@.take(i as int)),
                decreases xs@.len() - i,
            {
                le_write(out, (xs[i] as u32) as u64, 4);
                proof {
                    assert(xs@.take(i + 1).drop_last() =~= xs@.take(i as int));
                    assert(out@ =~= old(out)@ + enc_i32s(xs@.take(i + 1)));
                }
                i = i + 1;
            }
            proof {
                assert(xs@.take(xs@.len() as int) =~= xs@);
            }
        },
        Values::Int64(xs) => {
            let mut i: usize = 0;
            while i < xs.len()
                invariant
                    0 <= i <= xs@.len(),
                    out@ == old(out)@ + enc_i64s(xs@.take(i as int)),
                decreases xs@.len() - i,
            {
                le_write(out, xs[i] as u64, 8);
                proof {
                    assert(xs@.take(i + 1).drop_last() =~= xs@.take(i as int));
                    assert(out@ =~= old(out)@ + enc_i64s(xs@.take(i + 1)));
                }
                i = i + 1;
            }
            proof {
                assert(xs@.take(xs@.len() as int) =~= xs@);
            }
        },
        Values::Float32(xs) => {
            let mut i: usize = 0;
            while i < xs.len()
                invariant
                    0 <= i <= xs@.len(),
                    out@ == old(out)@ + enc_u32s(xs@.take(i as int)),
                decreases xs@.len() - i,
            {
                le_write(out, xs[i] as u64, 4);
                proof {
                    assert(xs@.take(i + 1).drop_last() =~= xs@.take(i as int));
                    assert(out@ =~= old(out)@ + enc_u32s(xs@.take(i + 1)));
                }
                i = i + 1;
            }
            proof {
                assert(xs@.take(xs@.len() as int) =~= xs@);
            }
        },
        Values::Float64(xs) => {
            let mut i: usize = 0;
            while i < xs.len()
                invariant
                    0 <= i <= xs@.len(),
                    out@ == old(out)@ + enc_u64s(xs@.take(i as int)),
                decreases xs@.len() - i,
            {
                le_write(out, xs[i], 8);
                proof {
                    assert(xs@.take(i + 1).drop_last() =~= xs@.take(i as int));
                    assert(out@ =~= old(out)@ + enc_u64s(xs@.take(i + 1)));
                }
                i = i + 1;
            }
            proof {
                assert(xs@.take(xs@.len() as int) =~= xs@);
            }
        },
        Values::Strings(xs) => {
            let mut i: usize = 0;
            proof {
                assert(xs.deep_view().take(0) =~= Seq::<Seq<char>>::empty());
            }
            while i < xs.len()
                invariant
                    0 <= i <= xs@.len(),
                    xs@.len() == xs.deep_view().len(),
                    out@ == old(out)@ + enc_strs(xs.deep_view().take(i as int)),
                decreases xs@.len() - i,
            {
                let ghost mid0 = out@;
                let st: &String = &xs[i];
                let s_str = st.as_str();
                let sb = s_str.as_bytes();
                encode_length(out, sb.len() as u64);
                push_bytes(out, sb);
                proof {
                    assert(s_str@ == xs@[i as int]@);
                    assert(sb@ == encode_utf8(xs@[i as int]@));
                    assert(out@ =~= mid0 + len_enc(sb@.len() as u64) + encode_utf8(
                        xs@[i as int]@,
                    ));
                    assert(xs.deep_view()[i as int] == xs@[i as int]@);
                    assert(xs.deep_view().take(i + 1).drop_last() =~= xs.deep_view().take(i as int));
                    assert(xs.deep_view().take(i + 1).last() == xs@[i as int]@);
                    assert(enc_strs(xs.deep_view().take(i + 1)) == enc_strs(
                        xs.deep_view().take(i as int),
                    ) + len_enc(encode_utf8(xs@[i as int]@).len() as u64) + encode_utf8(
                        xs@[i as int]@,
                    ));
                    assert(out@ =~= old(out)@ + enc_strs(xs.deep_view().take(i + 1)));
                }
                i = i + 1;
            }
            proof {
                assert(xs.deep_view().take(xs.deep_view().len() as int) =~= xs.deep_view());
            }
        },
    }
}

/// The effective timestamp tracked for the footer after writing a batch of
/// `n` samples whose first carries `ts`: the first timestamp plus the last
/// sample's index over the rate, or the first timestamp alone for an
/// irregular stream.
pub open spec fn batch_last_timestamp(ts: u64, n: nat, srate: Option<u64>) -> u64 {
    match srate {
        Some(sr) => add_bits(ts, div_bits(f64_of_u64((n - 1) as u64), sr)),
        None => ts,
    }
}

/// Whether the error `e` names the first row of the batch that does not fit
/// the channel count and format: a wrong format gives `FormatMismatch`, a
/// format-correct row of the wrong length gives `LengthMismatch` carrying
/// the channel count and that row's length.
pub open spec fn names_first_bad_row(
    e: XDFWriterError,
    batch: Seq<ValuesV>,
    chan: nat,
    fmt: Format,
) -> bool {
    exists|k: int|
        #![trigger batch[k]]
        {
            &&& 0 <= k < batch.len()
            &&& forall|j: int|
                0 <= j < k ==> (#[trigger] batch[j]).len() == chan && batch[j].has_format(fmt)
            &&& if !batch[k].has_format(fmt) {
                e matches XDFWriterError::FormatMismatch
            } else {
                &&& batch[k].len() != chan
                &&& e matches XDFWriterError::LengthMismatch { expected, actual } && expected
                    == chan && actual == batch[k].len()
            }
        }
}

fn check_batch(samples: &Vec<Values>, chan: usize, fmt: Format) -> (r: Result<
    (),
    XDFWriterError,
>)
    ensures
        match r {
            Ok(()) => batch_ok(values_views(samples@), chan as nat, fmt),
            Err(e) => !batch_ok(values_views(samples@), chan as nat, fmt)
                && names_first_bad_row(e, values_views(samples@), chan as nat, fmt),
        },
{
    let mut k: usize = 0;
    while k < samples.len()
        invariant
            0 <= k <= samples@.len(),
            forall|j: int|
                0 <= j < k ==> (#[trigger] values_views(samples@)[j]).len() == chan as nat
                    && values_views(samples@)[j].has_format(fmt),
        decreases samples@.len() - k,
    {
        let row = &samples[k];
        if values_format(row) != fmt {
            proof {
                assert(values_views(samples@)[k as int] == samples@[k as int]@);
                assert(!samples@[k as int]@.has_format(fmt));
            }
            let e = XDFWriterError::FormatMismatch;
            proof {
                assert(names_first_bad_row(e, values_views(samples@), chan as nat, fmt));
            }
            return Err(e);
        }
        let len = row.len();
        if len != chan {
            proof {
                assert(values_views(samples@)[k as int] == samples@[k as int]@);
            }
            let ghost e = XDFWriterError::LengthMismatch { expected: chan, actual: len };
            proof {
                assert(names_first_bad_row(e, values_views(samples@), chan as nat, fmt));
            }
            return Err(XDFWriterError::LengthMismatch { expected: chan, actual: len });
        }
        proof {
            assert(values_views(samples@)[k as int] == samples@[k as int]@);
        }
        k = k + 1;
    }
    Ok(())
}

fn build_samples_payload(id: u32, samples: &Vec<Values>, ts: Option<u64>) -> (r: Vec<u8>)
    ensures
        r@ == enc_samples_content(id, ts, values_views(samples@)),
{
    let mut payload: Vec<u8> = Vec::new();
    le_write(&mut payload, id as u64, 4);
    encode_length(&mut payload, samples.len() as u64);
    let ghost base = payload@;
    let ghost views = values_views(samples@);
    let mut k: usize = 0;
    while k < samples.len()
        invariant
            0 <= k <= samples@.len(),
            views == values_views(samples@),
            views.len() == samples@.len(),
            payload@ == base + (enc_batch_prefix(views, k as int, ts)),
            base == le_bytes(id as nat, 4) + len_enc(samples@.len() as u64),
        decreases samples@.len() - k,
    {
        let ghost before = payload@;
        if k == 0 && ts.is_some() {
            payload.push(8u8);
            let tsv = match ts {
                Some(t) => t,
                None => 0u64,
            };
            le_write(&mut payload, tsv, 8);
        } else {
            payload.push(0u8);
        }
        push_values(&mut payload, &samples[k]);
        proof {
            assert(views[k as int] == samples@[k as int]@);
            lemma_enc_batch_prefix_step(views, k as int, ts);
            assert(payload@ =~= base + enc_batch_prefix(views, k + 1, ts));
        }
        k = k + 1;
    }
    proof {
        lemma_enc_batch_prefix_full(views, ts);
        assert(payload@ =~= enc_samples_content(id, ts, views));
    }
    payload
}

/// The wire bytes of the first `i` rows of a batch.
pub open spec fn enc_batch_prefix(batch: Seq<ValuesV>, i: int, ts: Option<u64>) -> Seq<u8>
    decreases i,
{
    if i <= 0 || i > batch.len() {
        Seq::<u8>::empty()
    } else {
        enc_batch_prefix(batch, i - 1, ts) + (if i - 1 == 0 && ts is Some {
            seq![8u8] + le_bytes(ts->Some_0 as nat, 8)
        } else {
            seq![0u8]
        }) + enc_values(batch[i - 1])
    }
}

proof fn lemma_enc_batch_prefix_step(batch: Seq<ValuesV>, k: int, ts: Option<u64>)
    requires
        0 <= k < batch.len(),
    ensures
        enc_batch_prefix(batch, k + 1, ts) == enc_batch_prefix(batch, k, ts) + (if k == 0
            && ts is Some {
            seq![8u8] + le_bytes(ts->Some_0 as nat, 8)
        } else {
            seq![0u8]
        }) + enc_values(batch[k]),
{
}

proof fn lemma_enc_batch_prefix_full(batch: Seq<ValuesV>, ts: Option<u64>)
    ensures
        enc_batch_prefix(batch, batch.len() as int, ts) == enc_batch(batch, 0, ts),
{
    lemma_enc_batch_split(batch, 0, ts);
}

proof fn lemma_enc_batch_split(batch: Seq<ValuesV>, i: int, ts: Option<u64>)
    requires
        0 <= i <= batch.len(),
    ensures
        enc_batch_prefix(batch, batch.len() as int, ts) == enc_batch_prefix(batch, i, ts)
            + enc_batch(batch, i, ts),
    decreases batch.len() - i,
{
    if i == batch.len() {
        assert(enc_batch_prefix(batch, i, ts) + enc_batch(batch, i, ts) =~= enc_batch_prefix(
            batch,
            i,
            ts,
        ));
    } else {
        lemma_enc_batch_split(batch, i + 1, ts);
        lemma_enc_batch_prefix_step(batch, i, ts);
        assert(enc_batch_prefix(batch, i, ts) + ((if i == 0 && ts is Some {
            seq![8u8] + le_bytes(ts->Some_0 as nat, 8)
        } else {
            seq![0u8]
        }) + enc_values(batch[i]) + enc_batch(batch, i + 1, ts)) =~= (enc_batch_prefix(batch, i, ts)
            + (if i == 0 && ts is Some {
            seq![8u8] + le_bytes(ts->Some_0 as nat, 8)
        } else {
            seq![0u8]
        }) + enc_values(batch[i])) + enc_batch(batch, i + 1, ts));
    }
}

impl StreamWriter<HasTimestamps> {
    /// Write one samples chunk for a batch whose first sample carries
    /// `first_timestamp`; each row must hold one value per channel in the
    /// stream's format. An empty batch writes nothing. The footer bookkeeping
    /// advances by the batch.
    pub fn write_samples(
        &mut self,
        w: &mut XDFWriter,
        samples: &Vec<Values>,
        first_timestamp: u64,
    ) -> (r: Result<(), XDFWriterError>)
        ensures
            match r {
                Ok(()) => {
                    &&& batch_ok(
                        values_views(samples@),
                        old(self).channel_count as nat,
                        old(self).format,
                    )
                    &&& samples@.len() == 0 ==> *final(self) == *old(self) && final(w).buf@ == old(w).buf@
                    &&& samples@.len() > 0 ==> {
                        &&& final(w).buf@ == old(w).buf@ + frame_bytes(
                            Tag::Samples,
                            enc_samples_content(
                                old(self).id,
                                Some(first_timestamp),
                                values_views(samples@),
                            ),
                        )
                        &&& final(self).num_samples_written == old(self).num_samples_written
                            + samples@.len()
                        &&& final(self).first_timestamp == (if old(self).first_timestamp is Some {
                            old(self).first_timestamp
                        } else {
                            Some(first_timestamp)
                        })
                        &&& final(self).last_timestamp == Some(
                            batch_last_timestamp(
                                first_timestamp,
                                samples@.len(),
                                old(self).nominal_srate,
                            ),
                        )
                    }
                    &&& final(self).id == old(self).id && final(self).channel_count == old(self).channel_count && final(self).format == old(self).format && final(self).nominal_srate == old(self).nominal_srate
                    &&& final(w).num_streams == old(w).num_streams
                },
                Err(e) => {
                    &&& *final(self) == *old(self)
                    &&& final(w).buf@ == old(w).buf@
                    &&& final(w).num_streams == old(w).num_streams
                    &&& match e {
                        XDFWriterError::LengthMismatch { .. } | XDFWriterError::FormatMismatch => {
                            &&& !batch_ok(
                                values_views(samples@),
                                old(self).channel_count as nat,
                                old(self).format,
                            )
                            &&& names_first_bad_row(
                                e,
                                values_views(samples@),
                                old(self).channel_count as nat,
                                old(self).format,
                            )
                        },
                        XDFWriterError::Conversion => {
                            &&& batch_ok(
                                values_views(samples@),
                                old(self).channel_count as nat,
                                old(self).format,
                            )
                            &&& samples@.len() > 0
                            &&& old(self).num_samples_written + samples@.len() > usize::MAX
                                || enc_samples_content(
                                old(self).id,
                                Some(first_timestamp),
                                values_views(samples@),
                            ).len() + 2 > u64::MAX
                        },
                        XDFWriterError::XMLTree(_) => false,
                    }
                },
            },
            samples@.len() == 0 ==> r is Ok,
            batch_ok(values_views(samples@), old(self).channel_count as nat, old(self).format)
                && old(self).num_samples_written + samples@.len() <= usize::MAX
                && enc_samples_content(old(self).id, Some(first_timestamp), values_views(samples@)).len()
                + 2 <= u64::MAX ==> r is Ok,
            !batch_ok(values_views(samples@), old(self).channel_count as nat, old(self).format)
                ==> r is Err,
    {
        if samples.len() == 0 {
            proof {
                assert(batch_ok(
                    values_views(samples@),
                    old(self).channel_count as nat,
                    old(self).format,
                ));
            }
            return Ok(());
        }
        match check_batch(samples, self.channel_count, self.format) {
            Ok(()) => {},
            Err(e) => {
                return Err(e);
            },
        }
        if self.num_samples_written > usize::MAX - samples.len() {
            return Err(XDFWriterError::Conversion);
        }
        let payload = build_samples_payload(self.id, samples, Some(first_timestamp));
        if payload.len() as u64 > u64::MAX - 2 {
            return Err(XDFWriterError::Conversion);
        }
        write_chunk(&mut w.buf, Tag::Samples, &payload);
        self.num_samples_written = self.num_samples_written + samples.len();
        if self.first_timestamp.is_none() {
            self.first_timestamp = Some(first_timestamp);
        }
        let last = match self.nominal_srate {
            Some(sr) => f64_add(
                first_timestamp,
                f64_div(f64_from_u64((samples.len() - 1) as u64), sr),
            ),
            None => first_timestamp,
        };
        self.last_timestamp = Some(last);
        Ok(())
    }
}

impl StreamWriter<NoTimestamps> {
    /// Write one samples chunk for a batch without timestamps; each row must
    /// hold one value per channel in the stream's format. An empty batch
    /// writes nothing. Only the sample count advances.
    pub fn write_samples(&mut self, w: &mut XDFWriter, samples: &Vec<Values>) -> (r: Result<
        (),
        XDFWriterError,
    >)
        ensures
            match r {
                Ok(()) => {
                    &&& batch_ok(
                        values_views(samples@),
                        old(self).channel_count as nat,
                        old(self).format,
                    )
                    &&& samples@.len() == 0 ==> *final(self) == *old(self) && final(w).buf@ == old(w).buf@
                    &&& samples@.len() > 0 ==> {
                        &&& final(w).buf@ == old(w).buf@ + frame_bytes(
                            Tag::Samples,
                            enc_samples_content(old(self).id, None, values_views(samples@)),
                        )
                        &&& final(self).num_samples_written == old(self).num_samples_written
                            + samples@.len()
                        &&& final(self).first_timestamp == old(self).first_timestamp
                        &&& final(self).last_timestamp == old(self).last_timestamp
                    }
                    &&& final(self).id == old(self).id && final(self).channel_count == old(self).channel_count && final(self).format == old(self).format && final(self).nominal_srate == old(self).nominal_srate
                    &&& final(w).num_streams == old(w).num_streams
                },
                Err(e) => {
                    &&& *final(self) == *old(self)
                    &&& final(w).buf@ == old(w).buf@
                    &&& final(w).num_streams == old(w).num_streams
                    &&& match e {
                        XDFWriterError::LengthMismatch { .. } | XDFWriterError::FormatMismatch => {
                            &&& !batch_ok(
                                values_views(samples@),
                                old(self).channel_count as nat,
                                old(self).format,
                            )
                            &&& names_first_bad_row(
                                e,
                                values_views(samples@),
                                old(self).channel_count as nat,
                                old(self).format,
                            )
                        },
                        XDFWriterError::Conversion => {
                            &&& batch_ok(
                                values_views(samples@),
                                old(self).channel_count as nat,
                                old(self).format,
                            )
                            &&& samples@.len() > 0
                            &&& old(self).num_samples_written + samples@.len() > usize::MAX
                                || enc_samples_content(
                                old(self).id,
                                None::<u64>,
                                values_views(samples@),
                            ).len() + 2 > u64::MAX
                        },
                        XDFWriterError::XMLTree(_) => false,
                    }
                },
            },
            samples@.len() == 0 ==> r is Ok,
            batch_ok(values_views(samples@), old(self).channel_count as nat, old(self).format)
                && old(self).num_samples_written + samples@.len() <= usize::MAX
                && enc_samples_content(old(self).id, None::<u64>, values_views(samples@)).len()
                + 2 <= u64::MAX ==> r is Ok,
            !batch_ok(values_views(samples@), old(self).channel_count as nat, old(self).format)
                ==> r is Err,
    {
        if samples.len() == 0 {
            proof {
                assert(batch_ok(
                    values_views(samples@),
                    old(self).channel_count as nat,
                    old(self).format,
                ));
            }
            return Ok(());
        }
        match check_batch(samples, self.channel_count, self.format) {
            Ok(()) => {},
            Err(e) => {
                return Err(e);
            },
        }
        if self.num_samples_written > usize::MAX - samples.len() {
            return Err(XDFWriterError::Conversion);
        }
        let payload = build_samples_payload(self.id, samples, None);
        if payload.len() as u64 > u64::MAX - 2 {
            return Err(XDFWriterError::Conversion);
        }
        write_chunk(&mut w.buf, Tag::Samples, &payload);
        self.num_samples_written = self.num_samples_written + samples.len();
        Ok(())
    }
}

impl<T: TimestampTrait> StreamWriter<T> {
    /// Append a boundary chunk.
    pub fn write_boundary(&mut self, w: &mut XDFWriter) -> (r: Result<(), XDFWriterError>)
        ensures
            r is Ok,
            final(w).buf@ == old(w).buf@ + frame_bytes(Tag::Boundary, boundary_uuid()),
            *final(self) == *old(self),
            final(w).num_streams == old(w).num_streams,
    {
        write_boundary_chunk(&mut w.buf);
        Ok(())
    }

    /// End the stream: write its footer chunk, whose XML carries the first
    /// and last effective timestamps when any batch was written, and the
    /// sample count. Consumes the writer, so a stream is closed once.
    pub fn close(self, w: &mut XDFWriter) -> (r: Result<(), XDFWriterError>)
        ensures
            final(w).num_streams == old(w).num_streams,
            match r {
                Ok(()) => exists|xb: Seq<u8>|
                    final(w).buf@ == old(w).buf@ + frame_bytes(
                        Tag::StreamFooter,
                        le_bytes(self.id as nat, 4) + xb,
                    ),
                Err(e) => {
                    &&& final(w).buf@ == old(w).buf@
                    &&& (e matches XDFWriterError::XMLTree(_) || e matches
                    XDFWriterError::Conversion)
                },
            },
    {
        let mut footer = xml_new("info");
        match self.first_timestamp {
            Some(b) => {
                let t = f64_to_decimal(b);
                xml_add_text_child(&mut footer, "first_timestamp", t.as_str());
            },
            None => {},
        }
        match self.last_timestamp {
            Some(b) => {
                let t = f64_to_decimal(b);
                xml_add_text_child(&mut footer, "last_timestamp", t.as_str());
            },
            None => {},
        }
        let count_text = u64_to_dec_string(self.num_samples_written as u64);
        xml_add_text_child(&mut footer, "sample_count", count_text.as_str());
        let xml_bytes = match xml_write(&footer) {
            Ok(b) => b,
            Err(e) => {
                return Err(XDFWriterError::XMLTree(e));
            },
        };
        append_id_xml_chunk(w, Tag::StreamFooter, self.id, &xml_bytes)
    }
}

} // verus!
