//! A verified codec for the XDF container format: a byte stream of
//! length-prefixed, tagged chunks holding stream headers, sample batches,
//! clock offsets and footers, read back into an in-memory model of streams.
//!
//! IEEE-754 values (timestamps, clock offsets, sampling rates, floating-point
//! sample values) are carried everywhere as their raw bit patterns, `u64` for
//! double precision and `u32` for single precision. Arithmetic on them is done
//! through a soft-float library behind trusted wrappers, so that all logic
//! around it is verified.

use vstd::prelude::*;

pub mod errors;
pub mod fbits;
pub mod laws;
pub mod length;
pub mod parse;
pub mod raw;
pub mod reconstruct;
pub mod streams;
pub mod text;
pub mod writer;
pub mod xmlio;

pub use streams::Stream;

verus! {

/// Chunk tags of the XDF container format.
#[derive(Debug, Clone, Copy, PartialEq, Eq, Structural)]
pub enum Tag {
    FileHeader,
    StreamHeader,
    Samples,
    ClockOffset,
    Boundary,
    StreamFooter,
}

impl Tag {
    /// The two little-endian bytes of this tag on the wire.
    pub fn as_bytes(&self) -> (r: [u8; 2])
        ensures
            r@ == tag_bytes(*self),
    {
        match self {
            Tag::FileHeader => [1, 0],
            Tag::StreamHeader => [2, 0],
            Tag::Samples => [3, 0],
            Tag::ClockOffset => [4, 0],
            Tag::Boundary => [5, 0],
            Tag::StreamFooter => [6, 0],
        }
    }
}

/// The wire encoding of a chunk tag: its number, then a zero byte.
pub open spec fn tag_bytes(t: Tag) -> Seq<u8> {
    seq![tag_num(t), 0u8]
}

/// The number of a chunk tag.
pub open spec fn tag_num(t: Tag) -> u8 {
    match t {
        Tag::FileHeader => 1u8,
        Tag::StreamHeader => 2u8,
        Tag::Samples => 3u8,
        Tag::ClockOffset => 4u8,
        Tag::Boundary => 5u8,
        Tag::StreamFooter => 6u8,
    }
}

/// The sample formats a stream can carry, with per-value widths of
/// 1, 2, 4, 8, 4, 8 bytes and, for strings, a variable width.
#[derive(Debug, Clone, Copy, PartialEq, Eq, Structural)]
pub enum Format {
    Int8,
    Int16,
    Int32,
    Int64,
    Float32,
    Float64,
    String,
}

/// The values of one sample: one entry per channel, homogeneous in the
/// stream's format. Floating-point values are carried as raw IEEE-754 bit
/// patterns.
#[derive(Debug, Clone, PartialEq)]
pub enum Values {
    Int8(Vec<i8>),
    Int16(Vec<i16>),
    Int32(Vec<i32>),
    Int64(Vec<i64>),
    Float32(Vec<u32>),
    Float64(Vec<u64>),
    Strings(Vec<String>),
}

/// The mathematical shape of `Values`.
pub enum ValuesV {
    I8(Seq<i8>),
    I16(Seq<i16>),
    I32(Seq<i32>),
    I64(Seq<i64>),
    F32(Seq<u32>),
    F64(Seq<u64>),
    Str(Seq<Seq<char>>),
}

impl View for Values {
    type V = ValuesV;

    open spec fn view(&self) -> ValuesV {
        match self {
            Values::Int8(v) => ValuesV::I8(v@),
            Values::Int16(v) => ValuesV::I16(v@),
            Values::Int32(v) => ValuesV::I32(v@),
            Values::Int64(v) => ValuesV::I64(v@),
            Values::Float32(v) => ValuesV::F32(v@),
            Values::Float64(v) => ValuesV::F64(v@),
            Values::Strings(v) => ValuesV::Str(v.deep_view()),
        }
    }
}

impl ValuesV {
    /// How many channels the values cover.
    pub open spec fn len(self) -> nat {
        match self {
            ValuesV::I8(v) => v.len(),
            ValuesV::I16(v) => v.len(),
            ValuesV::I32(v) => v.len(),
            ValuesV::I64(v) => v.len(),
            ValuesV::F32(v) => v.len(),
            ValuesV::F64(v) => v.len(),
            ValuesV::Str(v) => v.len(),
        }
    }

    /// Whether the values carry the given format.
    pub open spec fn has_format(self, f: Format) -> bool {
        match self {
            ValuesV::I8(_) => f == Format::Int8,
            ValuesV::I16(_) => f == Format::Int16,
            ValuesV::I32(_) => f == Format::Int32,
            ValuesV::I64(_) => f == Format::Int64,
            ValuesV::F32(_) => f == Format::Float32,
            ValuesV::F64(_) => f == Format::Float64,
            ValuesV::Str(_) => f == Format::String,
        }
    }
}

impl Values {
    /// How many channels the values cover.
    pub fn len(&self) -> (r: usize)
        ensures
            r == self@.len(),
    {
        match self {
            Values::Int8(v) => v.len(),
            Values::Int16(v) => v.len(),
            Values::Int32(v) => v.len(),
            Values::Int64(v) => v.len(),
            Values::Float32(v) => v.len(),
            Values::Float64(v) => v.len(),
            Values::Strings(v) => v.len(),
        }
    }
}

impl Values {
    /// A deep copy holding the same values.
    pub fn duplicate(&self) -> (r: Values)
        ensures
            r@ == self@,
    {
        match self {
            Values::Int8(v) => Values::Int8(copy_vec_i8(v)),
            Values::Int16(v) => Values::Int16(copy_vec_i16(v)),
            Values::Int32(v) => Values::Int32(copy_vec_i32(v)),
            Values::Int64(v) => Values::Int64(copy_vec_i64(v)),
            Values::Float32(v) => Values::Float32(copy_vec_u32(v)),
            Values::Float64(v) => Values::Float64(copy_vec_u64(v)),
            Values::Strings(v) => Values::Strings(copy_vec_string(v)),
        }
    }
}

fn copy_vec_i8(v: &Vec<i8>) -> (r: Vec<i8>)
    ensures
        r@ == v@,
{
    let mut out: Vec<i8> = Vec::new();
    let mut i: usize = 0;
    while i < v.len()
        invariant
            0 <= i <= v@.len(),
            out@ == v@.take(i as int),
        decreases v@.len() - i,
    {
        out.push(v[i]);
        proof {
            assert(out@ =~= v@.take(i + 1));
        }
        i = i + 1;
    }
    proof {
        assert(v@.take(v@.len() as int) =~= v@);
    }
    out
}

fn copy_vec_i16(v: &Vec<i16>) -> (r: Vec<i16>)
    ensures
        r@ == v@,
{
    let mut out: Vec<i16> = Vec::new();
    let mut i: usize = 0;
    while i < v.len()
        invariant
            0 <= i <= v@.len(),
            out@ == v@.take(i as int),
        decreases v@.len() - i,
    {
        out.push(v[i]);
        proof {
            assert(out@ =~= v@.take(i + 1));
        }
        i = i + 1;
    }
    proof {
        assert(v@.take(v@.len() as int) =~= v@);
    }
    out
}

fn copy_vec_i32(v: &Vec<i32>) -> (r: Vec<i32>)
    ensures
        r@ == v@,
{
    let mut out: Vec<i32> = Vec::new();
    let mut i: usize = 0;
    while i < v.len()
        invariant
            0 <= i <= v@.len(),
            out@ == v@.take(i as int),
        decreases v@.len() - i,
    {
        out.push(v[i]);
        proof {
            assert(out@ =~= v@.take(i + 1));
        }
        i = i + 1;
    }
    proof {
        assert(v@.take(v@.len() as int) =~= v@);
    }
    out
}

fn copy_vec_i64(v: &Vec<i64>) -> (r: Vec<i64>)
    ensures
        r@ == v@,
{
    let mut out: Vec<i64> = Vec::new();
    let mut i: usize = 0;
    while i < v.len()
        invariant
            0 <= i <= v@.len(),
            out@ == v@.take(i as int),
        decreases v@.len() - i,
    {
        out.push(v[i]);
        proof {
            assert(out@ =~= v@.take(i + 1));
        }
        i = i + 1;
    }
    proof {
        assert(v@.take(v@.len() as int) =~= v@);
    }
    out
}

fn copy_vec_u32(v: &Vec<u32>) -> (r: Vec<u32>)
    ensures
        r@ == v@,
{
    let mut out: Vec<u32> = Vec::new();
    let mut i: usize = 0;
    while i < v.len()
        invariant
            0 <= i <= v@.len(),
            out@ == v@.take(i as int),
        decreases v@.len() - i,
    {
        out.push(v[i]);
        proof {
            assert(out@ =~= v@.take(i + 1));
        }
        i = i + 1;
    }
    proof {
        assert(v@.take(v@.len() as int) =~= v@);
    }
    out
}

fn copy_vec_u64(v: &Vec<u64>) -> (r: Vec<u64>)
    ensures
        r@ == v@,
{
    let mut out: Vec<u64> = Vec::new();
    let mut i: usize = 0;
    while i < v.len()
        invariant
            0 <= i <= v@.len(),
            out@ == v@.take(i as int),
        decreases v@.len() - i,
    {
        out.push(v[i]);
        proof {
            assert(out@ =~= v@.take(i + 1));
        }
        i = i + 1;
    }
    proof {
        assert(v@.take(v@.len() as int) =~= v@);
    }
    out
}

fn copy_vec_string(v: &Vec<String>) -> (r: Vec<String>)
    ensures
        r.deep_view() == v.deep_view(),
{
    let mut out: Vec<String> = Vec::new();
    let mut i: usize = 0;
    while i < v.len()
        invariant
            0 <= i <= v@.len(),
            out@.len() == i,
            forall|j: int| 0 <= j < i ==> (#[trigger] out@[j])@ == v@[j]@,
        decreases v@.len() - i,
    {
        let s: &String = &v[i];
        out.push(s.clone());
        i = i + 1;
    }
    proof {
        assert(out.deep_view() =~~= v.deep_view());
    }
    out
}

/// One observation across all channels of a stream. The timestamp, when
/// present, is the bit pattern of an IEEE-754 double giving seconds.
#[derive(Debug, Clone, PartialEq)]
pub struct Sample {
    pub timestamp: Option<u64>,
    pub values: Values,
}

/// The mathematical shape of a `Sample`.
pub struct SampleV {
    pub timestamp: Option<u64>,
    pub values: ValuesV,
}

impl View for Sample {
    type V = SampleV;

    open spec fn view(&self) -> SampleV {
        SampleV { timestamp: self.timestamp, values: self.values@ }
    }
}

impl Sample {
    /// A deep copy holding the same timestamp and values.
    pub fn duplicate(&self) -> (r: Sample)
        ensures
            r@ == self@,
    {
        Sample { timestamp: self.timestamp, values: self.values.duplicate() }
    }
}

/// A parsed XDF file: the file-format version as the bit pattern of a
/// single-precision IEEE-754 value, the file-header XML tree, and the
/// reconstructed streams.
#[derive(Debug)]
pub struct XDFFile {
    pub version: u32,
    pub header: xmltree::Element,
    pub streams: Vec<Stream>,
}

/// The invariants of every parsed file: at most one stream per id, and every
/// sample of every stream holds one value per channel, in the stream's
/// format.
pub open spec fn xdf_file_wf(f: XDFFile) -> bool {
    &&& forall|a: int, b: int|
        0 <= a < b < f.streams@.len() ==> (#[trigger] f.streams@[a]).id != (
        #[trigger] f.streams@[b]).id
    &&& forall|a: int|
        0 <= a < f.streams@.len() ==> crate::reconstruct::stream_samples_wf(
            #[trigger] f.streams@[a],
        )
}

/// Whether the parsed file `f` is what the chunk sequences of the input
/// describe: `rvv` is the scan of the bytes, `chunks` its typed decode, the
/// first chunk the one file header giving the version, and the streams are
/// exactly the first-header streams of `chunks`.
pub open spec fn file_from_chunks(
    f: XDFFile,
    rvv: Seq<crate::raw::RawChunkV>,
    chunks: Seq<crate::parse::Chunk>,
) -> bool {
    &&& crate::parse::chunks_match_raws(chunks, rvv)
    &&& crate::parse::samples_match_headers(chunks)
    &&& chunks.len() > 0
    &&& chunks[0] is FileHeader
    &&& forall|i: int| 1 <= i < chunks.len() ==> !((#[trigger] chunks[i]) is FileHeader)
    &&& f.version == crate::reconstruct::file_header_version(chunks[0])
    &&& forall|a: int|
        0 <= a < f.streams@.len() ==> crate::reconstruct::stream_from_chunks(
            #[trigger] f.streams@[a],
            chunks,
        )
    &&& forall|j: int, id: u32|
        #[trigger] crate::parse::first_header_at(chunks, j, id)
            ==> crate::reconstruct::streams_have_id(f.streams@, id)
}

impl XDFFile {
    /// Parse a whole XDF byte stream: magic number, chunk frames, typed
    /// chunks, then one reconstructed stream per stream id. Succeeds only on
    /// a file of version 1.0 whose first chunk is its one file header; the
    /// result then satisfies `xdf_file_wf` and `file_from_chunks` against
    /// the scan of the bytes. Each error names its cause in the bytes as far
    /// as the XML layer allows.
    pub fn from_bytes(bytes: &[u8]) -> (r: Result<XDFFile, errors::XDFError>)
        ensures
            r matches Ok(f) ==> {
                &&& f.version == crate::fbits::F32_ONE_BITS
                &&& xdf_file_wf(f)
                &&& bytes@.len() >= 4 && bytes@.subrange(0, 4) == crate::raw::magic()
                &&& exists|rvv: Seq<crate::raw::RawChunkV>, chunks: Seq<crate::parse::Chunk>|
                    #![trigger crate::parse::chunks_match_raws(chunks, rvv)]
                    crate::raw::scan_chunks(bytes@, 4) == Ok::<
                        Seq<crate::raw::RawChunkV>,
                        crate::raw::ScanError,
                    >(rvv) && file_from_chunks(f, rvv, chunks)
            },
            (bytes@.len() < 4 || bytes@.subrange(0, 4) != crate::raw::magic()) <==> r matches Err(
                errors::XDFError::Parse(errors::ParseError::NoMagicNumber),
            ),
            match crate::raw::scan_chunks(bytes@, 4) {
                Err(se) => (bytes@.len() >= 4 && bytes@.subrange(0, 4) == crate::raw::magic())
                    ==> (r matches Err(e) && match se {
                    crate::raw::ScanError::BadTag(t) => e == errors::XDFError::Parse(
                        errors::ParseError::InvalidTag(t),
                    ),
                    crate::raw::ScanError::BadCount(c) => e == errors::XDFError::Parse(
                        errors::ParseError::InvalidNumCountBytes(c),
                    ),
                }),
                Ok(_) => true,
            },
            r matches Err(e) ==> match e {
                errors::XDFError::Parse(p) => match p {
                    errors::ParseError::NoMagicNumber => true,
                    errors::ParseError::InvalidTag(t) => bytes@.len() >= 4 && bytes@.subrange(
                        0,
                        4,
                    ) == crate::raw::magic() && crate::raw::scan_chunks(bytes@, 4) == Err::<
                        Seq<crate::raw::RawChunkV>,
                        crate::raw::ScanError,
                    >(crate::raw::ScanError::BadTag(t)),
                    errors::ParseError::InvalidNumCountBytes(c) => crate::raw::scan_chunks(
                        bytes@,
                        4,
                    ) == Err::<Seq<crate::raw::RawChunkV>, crate::raw::ScanError>(
                        crate::raw::ScanError::BadCount(c),
                    ) || (crate::raw::scan_chunks(bytes@, 4) matches Ok(rvv) && exists|i: int|
                        0 <= i < rvv.len() && crate::parse::raw_parse_error(#[trigger] rvv[i], p)),
                    _ => crate::raw::scan_chunks(bytes@, 4) matches Ok(rvv) && exists|i: int|
                        0 <= i < rvv.len() && crate::parse::raw_parse_error(#[trigger] rvv[i], p),
                },
                errors::XDFError::Stream(se) => match se {
                    errors::StreamError::MissingHeader(id) => crate::raw::scan_chunks(bytes@, 4)
                        matches Ok(rvv) && crate::parse::samples_without_header(rvv, id),
                    errors::StreamError::UnsupportedVersion(b) => b != crate::fbits::F32_ONE_BITS,
                    errors::StreamError::MissingFileHeader => crate::raw::scan_chunks(bytes@, 4)
                        matches Ok(rvv) && (rvv.len() == 0 || rvv[0].tag != Tag::FileHeader),
                    errors::StreamError::MultipleFileHeader => crate::raw::scan_chunks(bytes@, 4)
                        matches Ok(rvv) && exists|i: int|
                        1 <= i < rvv.len() && (#[trigger] rvv[i]).tag == Tag::FileHeader,
                    errors::StreamError::MissingFooter(_) => false,
                },
                errors::XDFError::Xml(_) => true,
            },
    {
        let raws = match raw::read_to_raw_chunks(bytes) {
            Ok(r0) => r0,
            Err(e) => {
                return Err(e);
            },
        };
        let chunks = match parse::parse_chunks(&raws) {
            Ok(c) => c,
            Err(e) => {
                return Err(e);
            },
        };
        let fh = match reconstruct::group_chunks(&chunks) {
            Ok(fh) => fh,
            Err(e) => {
                proof {
                    let rvv = crate::raw::raw_views(raws@);
                    match e {
                        errors::XDFError::Stream(errors::StreamError::MissingFileHeader) => {
                            if chunks@.len() > 0 {
                                assert(crate::parse::kind_matches(chunks@[0], raws@[0].tag));
                                assert(rvv[0].tag != Tag::FileHeader);
                            }
                        },
                        errors::XDFError::Stream(errors::StreamError::MultipleFileHeader) => {
                            let i0 = choose|i: int|
                                1 <= i < chunks@.len() && (#[trigger] chunks@[i]) is FileHeader;
                            assert(crate::parse::kind_matches(chunks@[i0], raws@[i0].tag));
                            assert(rvv[i0].tag == Tag::FileHeader);
                        },
                        _ => {},
                    }
                }
                return Err(e);
            },
        };
        let streams = reconstruct::process_streams(&chunks);
        let f = XDFFile { version: fh.version, header: fh.xml, streams };
        proof {
            let rvv = crate::raw::raw_views(raws@);
            assert(file_from_chunks(f, rvv, chunks@));
            assert(crate::parse::chunks_match_raws(chunks@, rvv));
        }
        Ok(f)
    }
}

} // verus!
