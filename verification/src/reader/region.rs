//! Region files: the table of chunk locations and the stored chunks.

use std::io::Read;

use vstd::prelude::*;

use crate::bytes;

verus! {

/// How many chunks a region file holds.
pub const REGION_CHUNKS: usize = 1024;

/// Where a chunk is stored in its region file, in sectors of 4096 bytes.
pub struct ChunkLocation {
    /// The first sector.
    pub sector_offset: u32,
    /// How many sectors the chunk takes up.
    pub sector_count: u8,
}

/// The location that the header holds for chunk `i`: the first three bytes are
/// the sector offset, highest first, and the fourth is the sector count. All
/// zero stands for a chunk that was never stored.
pub open spec fn location_at(data: Seq<u8>, i: int) -> Option<ChunkLocation> {
    let offset = 65536 * data[4 * i] + 256 * data[4 * i + 1] + data[4 * i + 2];
    let count = data[4 * i + 3];
    if offset == 0 && count == 0 {
        None
    } else {
        Some(ChunkLocation { sector_offset: offset as u32, sector_count: count })
    }
}

/// The table of chunk locations at the start of a region file.
pub fn read_locations(data: &[u8]) -> (r: Vec<Option<ChunkLocation>>)
    requires
        data@.len() >= 4096,
    ensures
        r@ == Seq::new(1024, |i: int| location_at(data@, i)),
{
    let mut locations: Vec<Option<ChunkLocation>> = Vec::new();
    let mut i: usize = 0;
    while i < REGION_CHUNKS
        invariant
            data@.len() >= 4096,
            0 <= i <= 1024,
            locations@ == Seq::new(i as nat, |k: int| location_at(data@, k)),
        decreases 1024 - i,
    {
        let base: usize = i * 4;
        let sector_offset: u32 = bytes::read_be32(data, base) / 256;
        let sector_count: u8 = data[base + 3];
        if sector_offset == 0 && sector_count == 0 {
            locations.push(None);
        } else {
            locations.push(Some(ChunkLocation { sector_offset, sector_count }));
        }
        assert(locations@ =~= Seq::new((i + 1) as nat, |k: int| location_at(data@, k)));
        i += 1;
    }
    locations
}

/// Why a stored chunk could not be unpacked.
pub enum RegionError {
    /// The compressed data is damaged.
    Corrupt(std::io::Error),
    /// The chunk names a compression that is not known.
    UnsupportedCompression(u8),
}

/// The error of a failed read.
#[verifier::external_type_specification]
#[verifier::external_body]
pub struct ExIoError(std::io::Error);

/// What `flate2` reads out of a gzip stream, if it accepts the stream.
pub uninterp spec fn gunzipped(compressed: Seq<u8>) -> Option<Seq<u8>>;

/// What `flate2` reads out of a zlib stream, if it accepts the stream.
pub uninterp spec fn inflated(compressed: Seq<u8>) -> Option<Seq<u8>>;

/// Reads a `flate2::read::GzDecoder` to its end. The result depends on the
/// compressed bytes alone: success, and then the data of the first member, or
/// an error, of which nothing more is claimed.
#[verifier::external_body]
fn gunzip(compressed: &[u8]) -> (r: Result<Vec<u8>, std::io::Error>)
    ensures
        match r {
            Ok(out) => gunzipped(compressed@) == Some(out@),
            Err(_) => gunzipped(compressed@) is None,
        },
{
    let mut out = Vec::new();
    flate2::read::GzDecoder::new(compressed).read_to_end(&mut out)?;
    Ok(out)
}

/// Reads a `flate2::read::ZlibDecoder` to its end. The result depends on the
/// compressed bytes alone: success, and then the data, or an error, of which
/// nothing more is claimed.
#[verifier::external_body]
fn inflate(compressed: &[u8]) -> (r: Result<Vec<u8>, std::io::Error>)
    ensures
        match r {
            Ok(out) => inflated(compressed@) == Some(out@),
            Err(_) => inflated(compressed@) is None,
        },
{
    let mut out = Vec::new();
    flate2::read::ZlibDecoder::new(compressed).read_to_end(&mut out)?;
    Ok(out)
}

/// Where the record of a chunk starts.
pub open spec fn record_start(location: ChunkLocation) -> int {
    location.sector_offset * 4096
}

/// Whether the record of a chunk lies within the file: a four-byte length, the
/// compression type and as many bytes as the length announces.
pub open spec fn record_in_bounds(data: Seq<u8>, location: ChunkLocation) -> bool {
    let base = record_start(location);
    &&& base <= u32::MAX
    &&& base + 5 <= data.len()
    &&& bytes::big32(data, base) >= 1
    &&& base + 4 + bytes::big32(data, base) <= data.len()
}

/// The compressed bytes of a chunk.
pub open spec fn record_payload(data: Seq<u8>, location: ChunkLocation) -> Seq<u8> {
    let base = record_start(location);
    data.subrange(base + 5, base + 4 + bytes::big32(data, base))
}

/// What a payload holds under each compression type. `None` stands for damaged data.
pub open spec fn unpacked(
    compression: u8,
    payload: Seq<u8>,
    as_gzip: Option<Seq<u8>>,
    as_zlib: Option<Seq<u8>>,
) -> Option<Seq<u8>> {
    if compression == 1 {
        as_gzip
    } else if compression == 2 {
        as_zlib
    } else {
        Some(payload)
    }
}

/// Whether the record of a chunk lies within the file.
pub fn chunk_in_bounds(data: &[u8], chunk_location: &ChunkLocation) -> (r: bool)
    ensures
        r == record_in_bounds(data@, *chunk_location),
{
    let start: u64 = chunk_location.sector_offset as u64 * 4096;
    let len: u64 = data.len() as u64;
    if start > 0xffff_ffff || start + 5 > len {
        return false;
    }
    let length: u64 = bytes::read_be32(data, start as usize) as u64;
    length >= 1 && start + 4 + length <= len
}

/// The compression type and the compressed bytes of a chunk.
pub fn chunk_record<'a>(data: &'a [u8], chunk_location: &ChunkLocation) -> (r: (u8, &'a [u8]))
    requires
        record_in_bounds(data@, *chunk_location),
    ensures
        r.0 == data@[record_start(*chunk_location) + 4],
        r.1@ == record_payload(data@, *chunk_location),
{
    let base: usize = (chunk_location.sector_offset * 4096) as usize;
    let length: usize = bytes::read_be32(data, base) as usize;
    (data[base + 4], vstd::slice::slice_subrange(data, base + 5, base + 4 + length))
}

/// What unpacking a chunk comes to, from what its decoder came to.
pub fn chunk_content(decoded: Result<Vec<u8>, std::io::Error>) -> (r: Result<Vec<u8>, RegionError>)
    ensures
        match decoded {
            Ok(content) => r == Ok::<Vec<u8>, RegionError>(content),
            Err(e) => r == Err::<Vec<u8>, RegionError>(RegionError::Corrupt(e)),
        },
{
    match decoded {
        Ok(content) => Ok(content),
        Err(e) => Err(RegionError::Corrupt(e)),
    }
}

/// The unpacked bytes of a chunk.
pub fn decompress_chunk(data: &[u8], chunk_location: &ChunkLocation) -> (r: Result<
    Vec<u8>,
    RegionError,
>)
    requires
        record_in_bounds(data@, *chunk_location),
    ensures
        ({
            let compression = data@[record_start(*chunk_location) + 4];
            let payload = record_payload(data@, *chunk_location);
            let content = unpacked(compression, payload, gunzipped(payload), inflated(payload));
            match r {
                Ok(out) => 1 <= compression <= 3 && content == Some(out@),
                Err(RegionError::Corrupt(_)) => 1 <= compression <= 3 && content is None,
                Err(RegionError::UnsupportedCompression(c)) => c == compression && !(1 <= c <= 3),
            }
        }),
{
    let (compression_type, compressed) = chunk_record(data, chunk_location);
    if compression_type == 1 {
        chunk_content(gunzip(compressed))
    } else if compression_type == 2 {
        chunk_content(inflate(compressed))
    } else if compression_type == 3 {
        Ok(bytes::copy_range(compressed, 0, compressed.len()))
    } else {
        Err(RegionError::UnsupportedCompression(compression_type))
    }
}

/// The four bytes of a location: the sector offset in three bytes, the highest
/// first, and the sector count. A chunk that was never stored has four zeros.
pub open spec fn location_bytes(location: Option<ChunkLocation>) -> Seq<u8> {
    match location {
        Some(l) => seq![
            (l.sector_offset / 65536) as u8,
            (l.sector_offset / 256 % 256) as u8,
            (l.sector_offset % 256) as u8,
            l.sector_count,
        ],
        None => seq![0u8, 0u8, 0u8, 0u8],
    }
}

/// Whether a location can be written: the offset fits three bytes, and it is not
/// the one that stands for none.
pub open spec fn is_writable(location: Option<ChunkLocation>) -> bool {
    location matches Some(l) ==> l.sector_offset < 16777216 && (l.sector_offset > 0
        || l.sector_count > 0)
}

/// The table of locations can be written back: a header with the bytes of 1024
/// locations one after the other gives each of them back at its own place.
pub proof fn law_locations_round_trip(
    data: Seq<u8>,
    locations: Seq<Option<ChunkLocation>>,
    i: int,
)
    requires
        locations.len() == 1024,
        forall|k: int| 0 <= k < 1024 ==> is_writable(#[trigger] locations[k]),
        data.len() >= 4096,
        data.take(4096) == bytes::rows(locations, |l: Option<ChunkLocation>| location_bytes(l)),
        0 <= i < 1024,
    ensures
        location_at(data, i) == locations[i],
{
    let f = |l: Option<ChunkLocation>| location_bytes(l);
    let head = locations.take(i);
    bytes::lemma_rows_width(head, f, 4);
    bytes::lemma_rows_at(locations, f, i);
    let here = data.take(4096).subrange(4 * i, 4 * i + 4);
    assert(here == location_bytes(locations[i]));
    assert(is_writable(locations[i]));
    assert(here[0] == data[4 * i] && here[1] == data[4 * i + 1] && here[2] == data[4 * i + 2]
        && here[3] == data[4 * i + 3]);
}

/// Two headers that differ in any byte give different locations there.
pub proof fn law_locations_tell_headers_apart(a: Seq<u8>, b: Seq<u8>, i: int)
    requires
        0 <= i < 1024,
        a.len() >= 4096,
        b.len() >= 4096,
        location_at(a, i) == location_at(b, i),
    ensures
        a.subrange(4 * i, 4 * i + 4) == b.subrange(4 * i, 4 * i + 4),
{
    let x = a.subrange(4 * i, 4 * i + 4);
    let y = b.subrange(4 * i, 4 * i + 4);
    assert(x[0] == a[4 * i] && x[1] == a[4 * i + 1] && x[2] == a[4 * i + 2] && x[3] == a[4 * i
        + 3]);
    assert(y[0] == b[4 * i] && y[1] == b[4 * i + 1] && y[2] == b[4 * i + 2] && y[3] == b[4 * i
        + 3]);
    assert(x =~= y);
}

/// A record gives back what was stored: where a file has, from the sector on that
/// a location names, a length of four bytes, the highest first, a compression type
/// and a payload that the length counts together with the type, the record lies
/// within the file and holds that type and that payload. What is stored as it is
/// comes back as it was.
pub proof fn law_record_round_trip(
    data: Seq<u8>,
    location: ChunkLocation,
    before: Seq<u8>,
    length: Seq<u8>,
    compression: u8,
    payload: Seq<u8>,
    after: Seq<u8>,
)
    requires
        data == before + length + seq![compression] + payload + after,
        before.len() == 4096 * location.sector_offset,
        before.len() <= u32::MAX,
        length.len() == 4,
        payload.len() + 1 == length[3] + 256 * (length[2] + 256 * (length[1] + 256 * length[0])),
    ensures
        record_in_bounds(data, location),
        data[record_start(location) + 4] == compression,
        record_payload(data, location) == payload,
        unpacked(3, payload, gunzipped(payload), inflated(payload)) == Some(payload),
        unpacked(1, payload, gunzipped(payload), inflated(payload)) == gunzipped(payload),
        unpacked(2, payload, gunzipped(payload), inflated(payload)) == inflated(payload),
{
    let base = record_start(location);
    assert(data[base] == length[0] && data[base + 1] == length[1] && data[base + 2] == length[2]
        && data[base + 3] == length[3]);
    assert(bytes::big32(data, base) == payload.len() + 1);
    assert(record_payload(data, location) =~= payload);
}

} // verus!
