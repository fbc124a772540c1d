//! The fixed sixteen-byte header that precedes the metadata document.
use vstd::prelude::*;

use crate::util::{aligned, align_size, le_bytes, le_value, lemma_u32_round_trip, read_u32, write_u32};
use crate::ArchiveError;

verus! {

/// The tag that the first header field holds.
pub const FORMAT_TAG: u32 = 4;

/// Length in bytes of the header.
pub const HEADER_LEN: usize = 16;

/// The largest metadata document whose sizes fit the header's fields.
pub const MAX_METADATA_SIZE: usize = 4294967284;

/// The four fields of an archive header, in the order they are stored.
#[derive(Debug, Clone, Copy, PartialEq, Eq, Structural)]
pub struct Header {
    pub version: u32,
    /// Eight plus the aligned metadata size; file data starts eight bytes after it.
    pub header_size: u32,
    /// Four plus the aligned metadata size.
    pub metadata_size_padded: u32,
    /// Exact length of the metadata document.
    pub metadata_size: u32,
}

/// The header written in front of a metadata document of `n` bytes.
pub open spec fn header_for(n: int) -> Header {
    Header {
        version: FORMAT_TAG,
        header_size: (8 + aligned(n)) as u32,
        metadata_size_padded: (4 + aligned(n)) as u32,
        metadata_size: n as u32,
    }
}

/// The stored form of `h`.
pub open spec fn header_bytes(h: Header) -> Seq<u8> {
    le_bytes(h.version) + le_bytes(h.header_size) + le_bytes(h.metadata_size_padded) + le_bytes(
        h.metadata_size,
    )
}

/// The header fields read from the first sixteen bytes of `b`.
pub open spec fn fields_of(b: Seq<u8>) -> Header {
    Header {
        version: le_value(b.subrange(0, 4)) as u32,
        header_size: le_value(b.subrange(4, 8)) as u32,
        metadata_size_padded: le_value(b.subrange(8, 12)) as u32,
        metadata_size: le_value(b.subrange(12, 16)) as u32,
    }
}

/// The fields agree with each other as the format defines them.
pub open spec fn consistent(h: Header) -> bool {
    &&& h.version == FORMAT_TAG
    &&& h.metadata_size_padded == 4 + aligned(h.metadata_size as int)
    &&& h.header_size == h.metadata_size_padded + 4
}

impl Header {
    /// Absolute position in the archive at which file data begins.
    pub open spec fn data_start_spec(&self) -> int {
        self.header_size + 8
    }

    /// Absolute position in the archive at which file data begins.
    pub fn data_start(&self) -> (r: u64)
        ensures
            r == self.data_start_spec(),
    {
        self.header_size as u64 + 8
    }

    /// The sixteen stored bytes of this header.
    pub fn encode(&self) -> (r: Vec<u8>)
        ensures
            r@ == header_bytes(*self),
    {
        let mut out: Vec<u8> = Vec::new();
        push_u32(&mut out, self.version);
        push_u32(&mut out, self.header_size);
        push_u32(&mut out, self.metadata_size_padded);
        push_u32(&mut out, self.metadata_size);
        out
    }
}

fn push_u32(out: &mut Vec<u8>, v: u32)
    ensures
        final(out)@ == old(out)@ + le_bytes(v),
{
    let mut word: Vec<u8> = vec![0u8; 4];
    write_u32(word.as_mut_slice(), v);
    assert(word@ =~= le_bytes(v));
    out.append(&mut word);
}

/// The header for a metadata document of `metadata_size` bytes, in stored form.
pub fn encode_header(metadata_size: usize) -> (r: Vec<u8>)
    requires
        metadata_size <= MAX_METADATA_SIZE,
    ensures
        r@ == header_bytes(header_for(metadata_size as int)),
        r@.len() == HEADER_LEN,
{
    let size = align_size(metadata_size);
    let h = Header {
        version: FORMAT_TAG,
        header_size: (8 + size) as u32,
        metadata_size_padded: (4 + size) as u32,
        metadata_size: metadata_size as u32,
    };
    h.encode()
}

/// Reads the header from the start of `bytes`. Fails with `Format` when fewer than sixteen
/// bytes are given or the fields disagree with each other.
pub fn decode_header(bytes: &[u8]) -> (r: Result<Header, ArchiveError>)
    ensures
        r is Ok <==> bytes@.len() >= HEADER_LEN && consistent(fields_of(bytes@)),
        r is Ok ==> r->Ok_0 == fields_of(bytes@),
        r is Err ==> r->Err_0 == ArchiveError::Format,
{
    if bytes.len() < HEADER_LEN {
        return Err(ArchiveError::Format);
    }
    let h = Header {
        version: read_u32(&bytes[0..4]),
        header_size: read_u32(&bytes[4..8]),
        metadata_size_padded: read_u32(&bytes[8..12]),
        metadata_size: read_u32(&bytes[12..16]),
    };
    let m = h.metadata_size as u64;
    if h.version != FORMAT_TAG || h.metadata_size_padded as u64 != 4 + (m + (4 - m % 4) % 4)
        || h.header_size as u64 != h.metadata_size_padded as u64 + 4 {
        return Err(ArchiveError::Format);
    }
    Ok(h)
}

/// Every header written for a metadata document is consistent: its sizes frame the document
/// with at most three bytes of padding, `header_size` is `metadata_size_padded + 4`, and file
/// data starts right after the padded document.
pub proof fn lemma_header_consistency(n: int)
    requires
        0 <= n <= MAX_METADATA_SIZE,
    ensures
        consistent(header_for(n)),
        header_for(n).metadata_size == n,
        header_for(n).metadata_size <= header_for(n).metadata_size_padded,
        n + 4 <= header_for(n).metadata_size_padded <= n + 7,
        header_for(n).header_size == header_for(n).metadata_size_padded + 4,
        header_for(n).data_start_spec() == HEADER_LEN + aligned(n),
{
}

/// Decoding the header written for a metadata document gives back the same fields.
pub proof fn lemma_header_round_trip(n: int)
    requires
        0 <= n <= MAX_METADATA_SIZE,
    ensures
        fields_of(header_bytes(header_for(n))) == header_for(n),
        consistent(fields_of(header_bytes(header_for(n)))),
{
    let h = header_for(n);
    let b = header_bytes(h);
    lemma_u32_round_trip(h.version);
    lemma_u32_round_trip(h.header_size);
    lemma_u32_round_trip(h.metadata_size_padded);
    lemma_u32_round_trip(h.metadata_size);
    assert(b.subrange(0, 4) =~= le_bytes(h.version));
    assert(b.subrange(4, 8) =~= le_bytes(h.header_size));
    assert(b.subrange(8, 12) =~= le_bytes(h.metadata_size_padded));
    assert(b.subrange(12, 16) =~= le_bytes(h.metadata_size));
}

} // verus!
