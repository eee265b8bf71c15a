use vstd::prelude::*;

verus! {

/// Errors raised while reading the XML payload of a chunk.
#[derive(Debug)]
pub enum XMLError {
    /// The named element does not exist or holds no usable text.
    BadElement(String),
    /// The XML bytes themselves could not be parsed.
    ParseError,
}

/// Errors about the stream structure of a file.
#[derive(Debug)]
pub enum StreamError {
    /// A samples or clock-offset chunk names a stream id with no prior header.
    MissingHeader(u32),
    /// A stream header has no matching footer.
    MissingFooter(u32),
    /// The file has no file-header chunk, or it is not the first chunk.
    MissingFileHeader,
    /// The file has more than one file-header chunk.
    MultipleFileHeader,
    /// The file-header version is not 1.0; the payload is the bit pattern of
    /// the version read, as a single-precision IEEE-754 value.
    UnsupportedVersion(u32),
}

/// Errors raised by the byte-level chunk reader and the per-chunk decoders.
#[derive(Debug)]
pub enum ParseError {
    /// A chunk's content ended before its structure was complete.
    ChunkParse,
    /// A chunk could not be read at all.
    ChunkRead,
    /// The file does not begin with the magic number.
    NoMagicNumber,
    /// A chunk carries a tag outside 1..=6.
    InvalidTag(u16),
    /// A length field's first byte is not 1, 4 or 8.
    InvalidNumCountBytes(u8),
    /// A sample's timestamp flag is neither 0 nor 8, or its values are malformed.
    InvalidSample,
    /// A clock-offset chunk is too short.
    InvalidClockOffset,
    /// A string value holds bytes that are not valid UTF-8.
    Utf8,
    /// A numeric text field could not be parsed as a decimal number.
    ParseFloat,
}

/// Any error the reader can return.
#[derive(Debug)]
pub enum XDFError {
    Xml(XMLError),
    Stream(StreamError),
    Parse(ParseError),
}

} // verus!
