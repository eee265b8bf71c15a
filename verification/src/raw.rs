use vstd::prelude::*;

use crate::errors::{ParseError, XDFError};
use crate::length::{dec_len_at, len_enc, LenError};
use crate::text::copy_range;
use crate::{tag_bytes, tag_num, Tag};

verus! {

/// One chunk as it stands on disk: its tag and its content bytes, the tag
/// bytes and length field stripped.
#[derive(Debug)]
pub struct RawChunk {
    pub tag: Tag,
    pub content: Vec<u8>,
}

/// The mathematical shape of a raw chunk.
pub struct RawChunkV {
    pub tag: Tag,
    pub content: Seq<u8>,
}

impl View for RawChunk {
    type V = RawChunkV;

    open spec fn view(&self) -> RawChunkV {
        RawChunkV { tag: self.tag, content: self.content@ }
    }
}

pub open spec fn raw_views(s: Seq<RawChunk>) -> Seq<RawChunkV> {
    s.map_values(|c: RawChunk| c@)
}

/// The four magic bytes `XDF:` that open every file.
pub open spec fn magic() -> Seq<u8> {
    seq![88u8, 68u8, 70u8, 58u8]
}

/// The tag a wire tag number denotes, if any.
pub open spec fn tag_of_num(n: u16) -> Option<Tag> {
    if n == 1 {
        Some(Tag::FileHeader)
    } else if n == 2 {
        Some(Tag::StreamHeader)
    } else if n == 3 {
        Some(Tag::Samples)
    } else if n == 4 {
        Some(Tag::ClockOffset)
    } else if n == 5 {
        Some(Tag::Boundary)
    } else if n == 6 {
        Some(Tag::StreamFooter)
    } else {
        None
    }
}

/// One framed chunk on the wire: a length field counting the tag and content,
/// the two tag bytes, then the content.
pub open spec fn frame_bytes(t: Tag, content: Seq<u8>) -> Seq<u8>
    recommends
        content.len() + 2 <= u64::MAX,
{
    len_enc((content.len() + 2) as u64) + tag_bytes(t) + content
}

/// Why a scan of the chunk sequence stops with an error.
#[derive(Debug, Clone, Copy, PartialEq, Eq, Structural)]
pub enum ScanError {
    /// A length field starts with a byte other than 1, 4 or 8.
    BadCount(u8),
    /// A chunk carries a tag number outside 1..=6.
    BadTag(u16),
}

/// The chunks framed in `s` from position `i` on. A truncated trailing chunk
/// is dropped and the chunks before it kept; a bad length count or tag number
/// stops the scan with that error.
pub open spec fn scan_chunks(s: Seq<u8>, i: int) -> Result<Seq<RawChunkV>, ScanError>
    decreases s.len() - i,
{
    if i < 0 || i >= s.len() {
        Ok(Seq::<RawChunkV>::empty())
    } else {
        match dec_len_at(s, i) {
            Err(LenError::Truncated) => Ok(Seq::<RawChunkV>::empty()),
            Err(LenError::BadCount(c)) => Err(ScanError::BadCount(c)),
            Ok((clen, p)) => if clen < 2 || p + 2 > s.len() {
                Ok(Seq::<RawChunkV>::empty())
            } else {
                let tn = (s[p] as int + 256 * (s[p + 1] as int)) as u16;
                match tag_of_num(tn) {
                    None => Err(ScanError::BadTag(tn)),
                    Some(t) => if p + clen > s.len() {
                        Ok(Seq::<RawChunkV>::empty())
                    } else {
                        match scan_chunks(s, p + clen) {
                            Err(e) => Err(e),
                            Ok(rest) => Ok(
                                seq![RawChunkV { tag: t, content: s.subrange(p + 2, p + clen) }]
                                    + rest,
                            ),
                        }
                    },
                }
            },
        }
    }
}

/// Split a byte stream into its raw chunks: check the magic number, then
/// scan frames to the end. A final truncated chunk is dropped; a bad length
/// count or an unknown tag is an error.
pub fn read_to_raw_chunks(input: &[u8]) -> (r: Result<Vec<RawChunk>, XDFError>)
    ensures
        match r {
            Ok(chunks) => input@.len() >= 4 && input@.subrange(0, 4) == magic() && scan_chunks(
                input@,
                4,
            ) == Ok::<Seq<RawChunkV>, ScanError>(raw_views(chunks@)),
            Err(e) => match e {
                XDFError::Parse(ParseError::NoMagicNumber) => input@.len() < 4 || input@.subrange(
                    0,
                    4,
                ) != magic(),
                XDFError::Parse(ParseError::InvalidNumCountBytes(c)) => input@.len() >= 4
                    && input@.subrange(0, 4) == magic() && scan_chunks(input@, 4) == Err::<
                    Seq<RawChunkV>,
                    ScanError,
                >(ScanError::BadCount(c)),
                XDFError::Parse(ParseError::InvalidTag(t)) => input@.len() >= 4 && input@.subrange(
                    0,
                    4,
                ) == magic() && scan_chunks(input@, 4) == Err::<Seq<RawChunkV>, ScanError>(
                    ScanError::BadTag(t),
                ),
                _ => false,
            },
        },
{
    if input.len() < 4 || input[0] != 88 || input[1] != 68 || input[2] != 70 || input[3] != 58 {
        proof {
            if input@.len() >= 4 {
                assert(input@.subrange(0, 4).len() == 4);
                if input@.subrange(0, 4) == magic() {
                    assert(input@[0] == 88 && input@[1] == 68 && input@[2] == 70 && input@[3]
                        == 58) by {
                        assert(input@.subrange(0, 4)[0] == input@[0]);
                        assert(input@.subrange(0, 4)[1] == input@[1]);
                        assert(input@.subrange(0, 4)[2] == input@[2]);
                        assert(input@.subrange(0, 4)[3] == input@[3]);
                    }
                }
            }
        }
        return Err(XDFError::Parse(ParseError::NoMagicNumber));
    }
    proof {
        assert(input@.subrange(0, 4) =~= magic());
    }
    let mut out: Vec<RawChunk> = Vec::new();
    let mut pos: usize = 4;
    proof {
        match scan_chunks(input@, 4) {
            Ok(r) => {
                assert(raw_views(out@) + r =~= r);
            },
            Err(_) => {},
        }
    }
    loop
        invariant
            4 <= pos <= input@.len(),
            input@.len() >= 4,
            input@.subrange(0, 4) == magic(),
            scan_chunks(input@, 4) == (match scan_chunks(input@, pos as int) {
                Ok(rest) => Ok::<Seq<RawChunkV>, ScanError>(raw_views(out@) + rest),
                Err(e) => Err::<Seq<RawChunkV>, ScanError>(e),
            }),
        decreases input@.len() - pos,
    {
        if pos >= input.len() {
            proof {
                assert(scan_chunks(input@, pos as int) == Ok::<Seq<RawChunkV>, ScanError>(
                    Seq::<RawChunkV>::empty(),
                ));
                assert(raw_views(out@) + Seq::<RawChunkV>::empty() =~= raw_views(out@));
            }
            return Ok(out);
        }
        let ghost pos0 = pos as int;
        let (chunk_len, p) = match crate::length::decode_length(input, pos) {
            Ok(x) => x,
            Err(LenError::Truncated) => {
                proof {
                    assert(scan_chunks(input@, pos0) == Ok::<Seq<RawChunkV>, ScanError>(
                        Seq::<RawChunkV>::empty(),
                    ));
                    assert(raw_views(out@) + Seq::<RawChunkV>::empty() =~= raw_views(out@));
                }
                return Ok(out);
            },
            Err(LenError::BadCount(c)) => {
                proof {
                    assert(scan_chunks(input@, pos0) == Err::<Seq<RawChunkV>, ScanError>(
                        ScanError::BadCount(c),
                    ));
                }
                return Err(XDFError::Parse(ParseError::InvalidNumCountBytes(c)));
            },
        };
        if chunk_len < 2 || input.len() - p < 2 {
            proof {
                assert(scan_chunks(input@, pos0) == Ok::<Seq<RawChunkV>, ScanError>(
                    Seq::<RawChunkV>::empty(),
                ));
                assert(raw_views(out@) + Seq::<RawChunkV>::empty() =~= raw_views(out@));
            }
            return Ok(out);
        }
        let tn: u16 = input[p] as u16 + 256 * (input[p + 1] as u16);
        proof {
            assert(tn as int == input@[p as int] as int + 256 * (input@[p + 1] as int));
        }
        let t = if tn == 1 {
            Tag::FileHeader
        } else if tn == 2 {
            Tag::StreamHeader
        } else if tn == 3 {
            Tag::Samples
        } else if tn == 4 {
            Tag::ClockOffset
        } else if tn == 5 {
            Tag::Boundary
        } else if tn == 6 {
            Tag::StreamFooter
        } else {
            proof {
                assert(scan_chunks(input@, pos0) == Err::<Seq<RawChunkV>, ScanError>(
                    ScanError::BadTag(tn),
                ));
            }
            return Err(XDFError::Parse(ParseError::InvalidTag(tn)));
        };
        proof {
            assert(tag_of_num(tn) == Some(t));
        }
        if chunk_len - 2 > (input.len() - p - 2) as u64 {
            proof {
                assert(p + chunk_len > input@.len());
                assert(scan_chunks(input@, pos0) == Ok::<Seq<RawChunkV>, ScanError>(
                    Seq::<RawChunkV>::empty(),
                ));
                assert(raw_views(out@) + Seq::<RawChunkV>::empty() =~= raw_views(out@));
            }
            return Ok(out);
        }
        let clen = (chunk_len - 2) as usize;
        let content = copy_range(input, p + 2, p + 2 + clen);
        let ghost cv = RawChunkV { tag: t, content: input@.subrange(p + 2, p + chunk_len) };
        let ghost prev = out@;
        out.push(RawChunk { tag: t, content });
        pos = p + 2 + clen;
        proof {
            assert(p + chunk_len <= input@.len());
            assert(out@[out@.len() - 1]@ == cv);
            assert(raw_views(out@) =~= raw_views(prev) + seq![cv]);
            match scan_chunks(input@, pos as int) {
                Ok(rest) => {
                    assert(scan_chunks(input@, pos0) == Ok::<Seq<RawChunkV>, ScanError>(
                        seq![cv] + rest,
                    ));
                    assert(raw_views(prev) + (seq![cv] + rest) =~= raw_views(out@) + rest);
                },
                Err(e) => {
                    assert(scan_chunks(input@, pos0) == Err::<Seq<RawChunkV>, ScanError>(e));
                },
            }
        }
    }
}

/// The chunk-framing round trip: a payload framed under a tag scans back as
/// exactly that one chunk with that tag and payload.
pub proof fn lemma_frame_round_trip(t: Tag, content: Seq<u8>)
    requires
        content.len() + 2 <= u64::MAX,
    ensures
        scan_chunks(frame_bytes(t, content), 0) == Ok::<Seq<RawChunkV>, ScanError>(
            seq![RawChunkV { tag: t, content }],
        ),
{
    let n = (content.len() + 2) as u64;
    let s = frame_bytes(t, content);
    let rest = tag_bytes(t) + content;
    assert(s =~= len_enc(n) + rest);
    crate::length::lemma_length_round_trip(n, rest);
    let w = crate::length::min_len_width(n);
    crate::length::lemma_le_bytes_len(n as nat, w);
    let p = 1 + w as int;
    assert(dec_len_at(s, 0) == Ok::<(nat, int), LenError>((n as nat, p)));
    assert(s[p] == tag_num(t));
    assert(s[p + 1] == 0u8);
    assert((s[p] as int + 256 * (s[p + 1] as int)) as u16 == tag_num(t) as u16);
    assert(tag_of_num(tag_num(t) as u16) == Some(t));
    assert(p + n == s.len());
    assert(s.subrange(p + 2, p + n) =~= content);
    assert(scan_chunks(s, p + n) == Ok::<Seq<RawChunkV>, ScanError>(Seq::<RawChunkV>::empty()));
    assert(seq![RawChunkV { tag: t, content }] + Seq::<RawChunkV>::empty() =~= seq![
        RawChunkV { tag: t, content },
    ]);
}

} // verus!
