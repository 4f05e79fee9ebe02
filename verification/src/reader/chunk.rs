//! Chunks: the block state numbers of every section.

use vstd::arithmetic::div_mod::*;
use vstd::prelude::*;

use crate::properties::Properties;
use crate::reader::block_states;
use crate::reader::packing;
use crate::reader::packing::{index_width, read_bits};
use crate::reader::table::BlockStateTable;

verus! {

/// The first data version whose chunks hold palettes of block states.
pub const FIRST_PALETTE_VERSION: i32 = 1444;

/// The first data version whose palette indices never span two longs.
pub const FIRST_ALIGNED_VERSION: i32 = 2564;

/// A decoded chunk.
pub struct Chunk {
    pub sections: Vec<Section>,
}

/// A cube of 16 blocks a side, by block state numbers.
pub struct Section {
    pub y: i8,
    pub blocks: [u16; 4096],
}

/// A chunk as it is stored.
pub struct RawChunk {
    pub data_version: i32,
    pub sections: Vec<RawSection>,
}

/// A section as it is stored.
pub struct RawSection {
    pub y: i8,
    pub block_states: Option<RawBlockStates>,
}

/// The blocks of a section: a palette and the packed indices into it. A
/// section of one block state has no indices.
pub struct RawBlockStates {
    pub palette: Vec<PaletteEntry>,
    pub data: Option<Vec<i64>>,
}

/// A block state by its name and properties.
pub struct PaletteEntry {
    pub name: String,
    pub properties: Properties,
}

/// The number of a palette entry: that of its key, or zero for a key that the
/// table does not know.
pub open spec fn entry_id(entry: PaletteEntry, table: Map<Seq<char>, u16>) -> u16 {
    let key = block_states::key_of(entry.name@, entry.properties@);
    if table.contains_key(key) {
        table[key]
    } else {
        0
    }
}

/// The palette index of block `i`, where indices follow each other without gaps.
pub open spec fn spanning_index(states: RawBlockStates, i: int) -> nat {
    let bits = packing::index_bits(states.palette@.len());
    packing::bits_at(states.data->0@, packing::spanning_start(i, bits), bits)
}

/// The palette index of block `i`, where no index spans two longs.
pub open spec fn aligned_index(states: RawBlockStates, i: int) -> nat {
    let bits = packing::index_bits(states.palette@.len());
    packing::bits_at(states.data->0@, packing::aligned_start(i, bits), bits)
}

/// Whether the longs hold an index for block `i`, where no index spans two longs.
pub open spec fn aligned_stored(states: RawBlockStates, i: int) -> bool {
    i < states.data->0@.len() * packing::per_long(packing::index_bits(states.palette@.len()))
}

/// The block state number of block `i` of a section.
pub open spec fn block_id(
    block_states: Option<RawBlockStates>,
    aligned: bool,
    table: Map<Seq<char>, u16>,
    i: int,
) -> u16 {
    match block_states {
        None => 0,
        Some(states) => if states.data is None {
            entry_id(states.palette@[0], table)
        } else if aligned {
            if aligned_stored(states, i) {
                entry_id(states.palette@[aligned_index(states, i) as int], table)
            } else {
                0
            }
        } else {
            entry_id(states.palette@[spanning_index(states, i) as int], table)
        },
    }
}

/// Whether the blocks of a section can be decoded: there is a palette, the
/// longs hold what has to be there, and every index names a palette entry.
pub open spec fn section_decodes(block_states: Option<RawBlockStates>, aligned: bool) -> bool {
    match block_states {
        None => true,
        Some(states) => {
            &&& 0 < states.palette@.len() <= 0x8000_0000_0000_0000
            &&& states.data is Some ==> if aligned {
                forall|i: int|
                    0 <= i < packing::SECTION_BLOCKS && aligned_stored(states, i)
                        ==> #[trigger] aligned_index(states, i) < states.palette@.len()
            } else {
                &&& packing::SECTION_BLOCKS * packing::index_bits(states.palette@.len())
                    <= states.data->0@.len() * 64
                &&& forall|i: int|
                    0 <= i < packing::SECTION_BLOCKS ==> #[trigger] spanning_index(states, i)
                        < states.palette@.len()
            }
        },
    }
}

/// Whether a section holds what the stored section says.
pub open spec fn section_matches(
    section: Section,
    raw: RawSection,
    aligned: bool,
    table: Map<Seq<char>, u16>,
) -> bool {
    &&& section.y == raw.y
    &&& forall|i: int|
        0 <= i < packing::SECTION_BLOCKS ==> #[trigger] section.blocks@[i] == block_id(
            raw.block_states,
            aligned,
            table,
            i,
        )
}

/// Whether the indices of a data version never span two longs.
pub open spec fn is_aligned(data_version: i32) -> bool {
    data_version >= FIRST_ALIGNED_VERSION
}

/// Whether every section of a chunk can be decoded.
pub open spec fn chunk_decodes(raw: RawChunk, aligned: bool) -> bool {
    forall|s: int|
        0 <= s < raw.sections@.len() ==> section_decodes(
            #[trigger] raw.sections@[s].block_states,
            aligned,
        )
}

/// Whether a chunk holds, section by section, what the stored chunk says.
pub open spec fn chunk_matches(
    chunk: Chunk,
    raw: RawChunk,
    aligned: bool,
    table: Map<Seq<char>, u16>,
) -> bool {
    &&& chunk.sections@.len() == raw.sections@.len()
    &&& forall|s: int|
        0 <= s < raw.sections@.len() ==> section_matches(
            #[trigger] chunk.sections@[s],
            raw.sections@[s],
            aligned,
            table,
        )
}

/// The numbers of the palette entries.
fn palette_ids(palette: &Vec<PaletteEntry>, table: &BlockStateTable) -> (r: Vec<u16>)
    ensures
        r@.len() == palette@.len(),
        forall|i: int| 0 <= i < palette@.len() ==> #[trigger] r@[i] == entry_id(palette@[i], table@),
{
    let mut ids: Vec<u16> = Vec::new();
    let mut i: usize = 0;
    while i < palette.len()
        invariant
            i <= palette@.len(),
            ids@.len() == i,
            forall|j: int| 0 <= j < i ==> #[trigger] ids@[j] == entry_id(palette@[j], table@),
        decreases palette.len() - i,
    {
        ids.push(palette_id(&palette[i], table));
        i += 1;
    }
    ids
}

/// The number of a palette entry.
fn palette_id(entry: &PaletteEntry, table: &BlockStateTable) -> (r: u16)
    ensures
        r == entry_id(*entry, table@),
{
    match table.get(entry.name.as_str(), &entry.properties) {
        Some(id) => id,
        None => 0,
    }
}

/// The run of an index that follows the earlier ones without gaps lies in the longs.
proof fn lemma_spanning_fits(i: int, n: int, bits: int, longs: int)
    requires
        0 <= i < n,
        0 < bits,
        n * bits <= longs * 64,
    ensures
        0 <= i * bits,
        i * bits + bits <= longs * 64,
{
    assert(0 <= i * bits && i * bits + bits <= n * bits) by (nonlinear_arith)
        requires
            0 <= i < n,
            0 < bits,
    ;
}

/// The run of an index that shares no long with others lies in its long.
proof fn lemma_aligned_fits(i: int, bits: nat, longs: int)
    requires
        0 <= i,
        4 <= bits <= 63,
        i < longs * packing::per_long(bits),
    ensures
        1 <= packing::per_long(bits) <= 16,
        0 <= packing::aligned_start(i, bits),
        packing::aligned_start(i, bits) + bits <= longs * 64,
        i / packing::per_long(bits) < longs,
        (i % packing::per_long(bits)) * bits + bits <= 64,
        0 <= (i % packing::per_long(bits)) * bits,
        0 <= i / packing::per_long(bits),
{
    let per = packing::per_long(bits);
    let b = bits as int;
    assert(1 <= per <= 16 && per * b <= 64) by (nonlinear_arith)
        requires
            4 <= b <= 63,
            per == 64int / b,
    ;
    lemma_fundamental_div_mod(i, per);
    lemma_mod_bound(i, per);
    lemma_div_pos_is_pos(i, per);
    let q = i / per;
    let r = i % per;
    assert(q < longs) by (nonlinear_arith)
        requires
            per * q + r == i,
            i < longs * per,
            0 <= r < per,
    ;
    assert(0 <= r * b && r * b + b <= per * b) by (nonlinear_arith)
        requires
            0 <= r < per,
            0 < b,
    ;
}

/// Decodes the blocks of a section whose indices follow each other without gaps.
fn decode_spanning(states: &RawBlockStates, data: &Vec<i64>, table: &BlockStateTable) -> (r: [u16; 4096])
    requires
        states.data == Some(*data),
        section_decodes(Some(*states), false),
    ensures
        forall|i: int|
            0 <= i < packing::SECTION_BLOCKS ==> #[trigger] r@[i] == block_id(
                Some(*states),
                false,
                table@,
                i,
            ),
{
    let palette = palette_ids(&states.palette, table);
    let bits: usize = index_width(states.palette.len());
    let mut blocks: [u16; 4096] = [0u16;4096];
    let mut i: usize = 0;
    while i < 4096
        invariant
            i <= 4096,
            4 <= bits <= 63,
            bits == packing::index_bits(states.palette@.len()),
            states.data == Some(*data),
            section_decodes(Some(*states), false),
            palette@.len() == states.palette@.len(),
            forall|j: int|
                0 <= j < palette@.len() ==> #[trigger] palette@[j] == entry_id(
                    states.palette@[j],
                    table@,
                ),
            forall|j: int|
                0 <= j < i ==> #[trigger] blocks@[j] == block_id(Some(*states), false, table@, j),
        decreases 4096 - i,
    {
        proof {
            lemma_spanning_fits(i as int, 4096, bits as int, data@.len() as int);
            assert(spanning_index(*states, i as int) < states.palette@.len());
            assert(i * bits <= 4096 * 63) by (nonlinear_arith)
                requires
                    i <= 4096,
                    bits <= 63,
            ;
        }
        let index: u64 = read_bits(data.as_slice(), i * bits, bits);
        blocks[i] = palette[index as usize];
        i += 1;
    }
    blocks
}

/// Decodes the blocks of a section whose indices never span two longs.
fn decode_aligned(states: &RawBlockStates, data: &Vec<i64>, table: &BlockStateTable) -> (r: [u16; 4096])
    requires
        states.data == Some(*data),
        section_decodes(Some(*states), true),
    ensures
        forall|i: int|
            0 <= i < packing::SECTION_BLOCKS ==> #[trigger] r@[i] == block_id(
                Some(*states),
                true,
                table@,
                i,
            ),
{
    let palette = palette_ids(&states.palette, table);
    let bits: usize = index_width(states.palette.len());
    let per: usize = 64 / bits;
    assert(1 <= per <= 16) by (nonlinear_arith)
        requires
            4 <= bits <= 63,
            per == 64usize / bits,
    ;
    let mut blocks: [u16; 4096] = [0u16;4096];
    let mut i: usize = 0;
    while i < 4096 && i / per < data.len()
        invariant
            i <= 4096,
            4 <= bits <= 63,
            bits == packing::index_bits(states.palette@.len()),
            per == packing::per_long(bits as nat),
            1 <= per <= 16,
            states.data == Some(*data),
            section_decodes(Some(*states), true),
            palette@.len() == states.palette@.len(),
            forall|j: int|
                0 <= j < palette@.len() ==> #[trigger] palette@[j] == entry_id(
                    states.palette@[j],
                    table@,
                ),
            forall|j: int|
                0 <= j < i ==> #[trigger] blocks@[j] == block_id(Some(*states), true, table@, j),
            forall|j: int| i <= j < 4096 ==> #[trigger] blocks@[j] == 0,
        decreases 4096 - i,
    {
        proof {
            lemma_stored(i as int, per as int, data@.len() as int);
            lemma_aligned_fits(i as int, bits as nat, data@.len() as int);
            assert(aligned_stored(*states, i as int));
            assert(aligned_index(*states, i as int) < states.palette@.len());
        }
        let index: u64 = read_bits(data.as_slice(), i / per * 64 + i % per * bits, bits);
        assert(index == aligned_index(*states, i as int));
        assert(palette.len() == palette@.len());
        assert(index < palette@.len());
        let at: usize = index as usize;
        assert(at == index);
        let id: u16 = palette[at];
        assert(id == entry_id(states.palette@[at as int], table@));
        assert(id == block_id(Some(*states), true, table@, i as int));
        blocks[i] = id;
        i += 1;
    }
    proof {
        assert forall|j: int| i <= j < 4096 implies !aligned_stored(*states, j) by {
            lemma_stored(i as int, per as int, data@.len() as int);
        }
    }
    blocks
}

/// Entry `i` is stored exactly where its long is there.
proof fn lemma_stored(i: int, per: int, longs: int)
    requires
        0 <= i,
        1 <= per,
    ensures
        i / per < longs <==> i < longs * per,
{
    lemma_fundamental_div_mod(i, per);
    lemma_mod_bound(i, per);
    let q = i / per;
    let r = i % per;
    if q < longs {
        assert(i < longs * per) by (nonlinear_arith)
            requires
                per * q + r == i,
                0 <= r < per,
                q + 1 <= longs,
        ;
    } else {
        assert(i >= longs * per) by (nonlinear_arith)
            requires
                per * q + r == i,
                0 <= r < per,
                q >= longs,
        ;
    }
}

/// Decodes a section.
fn decode_section(raw: &RawSection, aligned: bool, table: &BlockStateTable) -> (r: Section)
    requires
        section_decodes(raw.block_states, aligned),
    ensures
        section_matches(r, *raw, aligned, table@),
{
    let blocks: [u16; 4096] = match &raw.block_states {
        None => [0u16;4096],
        Some(states) => match &states.data {
            None => {
                let id: u16 = palette_id(&states.palette[0], table);
                [id;4096]
            },
            Some(data) => if aligned {
                decode_aligned(states, data, table)
            } else {
                decode_spanning(states, data, table)
            },
        },
    };
    Section { y: raw.y, blocks }
}

/// Decodes every section of a chunk.
fn decode_sections(raw_chunk: &RawChunk, aligned: bool, table: &BlockStateTable) -> (r: Chunk)
    requires
        chunk_decodes(*raw_chunk, aligned),
    ensures
        chunk_matches(r, *raw_chunk, aligned, table@),
{
    let mut sections: Vec<Section> = Vec::new();
    let mut s: usize = 0;
    while s < raw_chunk.sections.len()
        invariant
            s <= raw_chunk.sections@.len(),
            sections@.len() == s,
            chunk_decodes(*raw_chunk, aligned),
            forall|t: int|
                0 <= t < s ==> section_matches(
                    #[trigger] sections@[t],
                    raw_chunk.sections@[t],
                    aligned,
                    table@,
                ),
        decreases raw_chunk.sections.len() - s,
    {
        assert(section_decodes(raw_chunk.sections@[s as int].block_states, aligned));
        sections.push(decode_section(&raw_chunk.sections[s], aligned, table));
        s += 1;
    }
    Chunk { sections }
}

/// Decodes a chunk whose palette indices can span two longs.
pub fn decode_legacy_palette(raw_chunk: &RawChunk, table: &BlockStateTable) -> (r: Chunk)
    requires
        chunk_decodes(*raw_chunk, false),
    ensures
        chunk_matches(r, *raw_chunk, false, table@),
{
    decode_sections(raw_chunk, false, table)
}

/// Decodes a chunk whose palette indices never span two longs.
pub fn decode_modern(raw_chunk: &RawChunk, table: &BlockStateTable) -> (r: Chunk)
    requires
        chunk_decodes(*raw_chunk, true),
    ensures
        chunk_matches(r, *raw_chunk, true, table@),
{
    decode_sections(raw_chunk, true, table)
}

/// Decodes a chunk by its data version. Chunks from before the first palette
/// version hold no palettes and cannot be decoded.
pub fn decode_chunk(raw_chunk: &RawChunk, table: &BlockStateTable) -> (r: Chunk)
    requires
        raw_chunk.data_version >= FIRST_PALETTE_VERSION,
        chunk_decodes(*raw_chunk, is_aligned(raw_chunk.data_version)),
    ensures
        chunk_matches(r, *raw_chunk, is_aligned(raw_chunk.data_version), table@),
{
    if raw_chunk.data_version < FIRST_ALIGNED_VERSION {
        decode_legacy_palette(raw_chunk, table)
    } else {
        decode_modern(raw_chunk, table)
    }
}

/// Whether the blocks of a section can be decoded.
fn can_decode_section(raw: &RawSection, aligned: bool) -> (r: bool)
    ensures
        r == section_decodes(raw.block_states, aligned),
{
    let states = match &raw.block_states {
        None => {
            return true;
        },
        Some(states) => states,
    };
    let n: usize = states.palette.len();
    if n == 0 || n as u64 > 0x8000_0000_0000_0000 {
        return false;
    }
    let data = match &states.data {
        None => {
            return true;
        },
        Some(data) => data,
    };
    let bits: usize = index_width(n);
    let per: usize = 64 / bits;
    assert(1 <= per <= 16) by (nonlinear_arith)
        requires
            4 <= bits <= 63,
            per == 64usize / bits,
    ;
    if !aligned {
        // 4096 indices take up `64 * bits` longs.
        if data.len() < 64 * bits {
            return false;
        }
    }
    let mut i: usize = 0;
    while i < 4096
        invariant
            i <= 4096,
            4 <= bits <= 63,
            bits == packing::index_bits(states.palette@.len()),
            per == packing::per_long(bits as nat),
            1 <= per <= 16,
            raw.block_states == Some(*states),
            states.data == Some(*data),
            n == states.palette@.len(),
            0 < n <= 0x8000_0000_0000_0000,
            !aligned ==> 64 * bits <= data@.len(),
            aligned ==> forall|j: int|
                0 <= j < i && aligned_stored(*states, j) ==> #[trigger] aligned_index(*states, j) < n,
            !aligned ==> forall|j: int|
                0 <= j < i ==> #[trigger] spanning_index(*states, j) < n,
        decreases 4096 - i,
    {
        let start: usize = if aligned {
            if i / per >= data.len() {
                proof {
                    assert forall|j: int| i <= j < 4096 implies !aligned_stored(*states, j) by {
                        lemma_stored(i as int, per as int, data@.len() as int);
                    }
                }
                return true;
            }
            proof {
                lemma_stored(i as int, per as int, data@.len() as int);
                lemma_aligned_fits(i as int, bits as nat, data@.len() as int);
            }
            i / per * 64 + i % per * bits
        } else {
            proof {
                lemma_spanning_fits(i as int, 4096, bits as int, data@.len() as int);
                assert(i * bits <= 4096 * 63) by (nonlinear_arith)
                    requires
                        i <= 4096,
                        bits <= 63,
                ;
            }
            i * bits
        };
        let index: u64 = read_bits(data.as_slice(), start, bits);
        assert(index == if aligned {
            aligned_index(*states, i as int)
        } else {
            spanning_index(*states, i as int)
        });
        if index >= n as u64 {
            assert(aligned ==> aligned_stored(*states, i as int));
            return false;
        }
        i += 1;
    }
    true
}

/// Whether `decode_chunk` can decode a chunk.
pub fn can_decode(raw_chunk: &RawChunk) -> (r: bool)
    ensures
        r == (raw_chunk.data_version >= FIRST_PALETTE_VERSION && chunk_decodes(
            *raw_chunk,
            is_aligned(raw_chunk.data_version),
        )),
{
    if raw_chunk.data_version < FIRST_PALETTE_VERSION {
        return false;
    }
    let aligned: bool = raw_chunk.data_version >= FIRST_ALIGNED_VERSION;
    let mut s: usize = 0;
    while s < raw_chunk.sections.len()
        invariant
            s <= raw_chunk.sections@.len(),
            aligned == is_aligned(raw_chunk.data_version),
            forall|t: int|
                0 <= t < s ==> section_decodes(
                    #[trigger] raw_chunk.sections@[t].block_states,
                    aligned,
                ),
        decreases raw_chunk.sections.len() - s,
    {
        if !can_decode_section(&raw_chunk.sections[s], aligned) {
            assert(!section_decodes(raw_chunk.sections@[s as int].block_states, aligned));
            return false;
        }
        s += 1;
    }
    true
}

/// Where the index width divides the length of a long, both ways of packing
/// give every block the same palette index.
pub proof fn law_packings_agree(states: RawBlockStates, i: int)
    requires
        0 <= i,
        packing::index_bits(states.palette@.len()) <= 64,
        64int % (packing::index_bits(states.palette@.len()) as int) == 0,
    ensures
        aligned_index(states, i) == spanning_index(states, i),
{
    let bits = packing::index_bits(states.palette@.len()) as int;
    let per = 64int / bits;
    lemma_fundamental_div_mod(64, bits);
    lemma_fundamental_div_mod(i, per);
    let q = i / per;
    let r = i % per;
    assert(q * 64 + r * bits == i * bits) by (nonlinear_arith)
        requires
            bits * per == 64,
            per * q + r == i,
    ;
}

/// Whether longs hold indices without gaps: as one number they have the indices
/// as its digits.
pub open spec fn packs_spanning(data: Seq<i64>, indices: Seq<nat>, bits: nat) -> bool {
    &&& indices.len() * bits <= 64 * data.len()
    &&& packing::number_of(packing::words(data), 64) == packing::number_of(indices, bits)
}

/// Whether longs hold indices that never span two of them: each long has as its
/// digits the next indices that fit in it.
pub open spec fn packs_aligned(data: Seq<i64>, indices: Seq<nat>, bits: nat) -> bool {
    let per = 64int / bits as int;
    &&& indices.len() <= data.len() * per
    &&& forall|w: int|
        0 <= w < data.len() && w * per < indices.len() ==> (#[trigger] data[w] as u64) as nat
            == packing::number_of(
            indices.subrange(
                w * per,
                vstd::math::min((w + 1) * per, indices.len() as int),
            ),
            bits,
        )
}

/// Decoding undoes packing: a section whose longs hold 4096 palette indices of
/// the least width, packed as its version packs them, can be decoded, and every
/// block is the palette entry that its index names.
pub proof fn law_decoding_undoes_packing(
    raw: RawSection,
    states: RawBlockStates,
    aligned: bool,
    table: Map<Seq<char>, u16>,
    indices: Seq<nat>,
    bits: nat,
    section: Section,
    i: int,
)
    requires
        raw.block_states == Some(states),
        states.data is Some,
        0 < states.palette@.len() <= 0x8000_0000_0000_0000,
        packing::is_least_width(states.palette@.len(), bits),
        indices.len() == 4096,
        forall|k: int| 0 <= k < 4096 ==> #[trigger] indices[k] < states.palette@.len(),
        if aligned {
            packs_aligned(states.data->0@, indices, bits)
        } else {
            packs_spanning(states.data->0@, indices, bits)
        },
        0 <= i < 4096,
        section_matches(section, raw, aligned, table),
    ensures
        section_decodes(raw.block_states, aligned),
        section.y == raw.y,
        section.blocks@[i] == entry_id(states.palette@[indices[i] as int], table),
{
    let data = states.data->0@;
    let n = states.palette@.len();
    packing::law_index_width_is_least(n, bits);
    assert forall|k: int| 0 <= k < indices.len() implies #[trigger] indices[k]
        < vstd::arithmetic::power2::pow2(bits) by {}
    if aligned {
        lemma_width_bound(n, bits);
        assert forall|k: int| 0 <= k < 4096 implies aligned_stored(states, k) && #[trigger] aligned_index(
            states,
            k,
        ) == indices[k] by {
            lemma_aligned_reads(data, indices, bits, k);
        }
        assert(aligned_index(states, i) == indices[i]);
    } else {
        assert forall|k: int| 0 <= k < 4096 implies #[trigger] spanning_index(states, k)
            == indices[k] by {
            packing::law_reading_undoes_packing(data, indices, bits, k);
        }
        assert(spanning_index(states, i) == indices[i]);
    }
    assert(section.blocks@[i] == block_id(raw.block_states, aligned, table, i));
}

/// No index is wider than 63 bits.
proof fn lemma_width_bound(n: nat, bits: nat)
    requires
        n <= 0x8000_0000_0000_0000,
        packing::is_least_width(n, bits),
    ensures
        4 <= bits <= 63,
{
    vstd::arithmetic::power2::lemma2_to64();
    vstd::arithmetic::power2::lemma2_to64_rest();
    if bits > 63 {
        if bits > 64 {
            vstd::arithmetic::power2::lemma_pow2_strictly_increases(63, (bits - 1) as nat);
        }
    }
}

/// An index reads back out of its long.
proof fn lemma_aligned_reads(data: Seq<i64>, indices: Seq<nat>, bits: nat, k: int)
    requires
        4 <= bits <= 63,
        packing::digits_fit(indices, bits),
        packs_aligned(data, indices, bits),
        0 <= k < indices.len(),
    ensures
        k < data.len() * packing::per_long(bits),
        packing::bits_at(data, packing::aligned_start(k, bits), bits) == indices[k],
{
    let per = 64int / bits as int;
    lemma_aligned_fits(k, bits, data.len() as int);
    lemma_fundamental_div_mod(k, per);
    lemma_mod_bound(k, per);
    let w = k / per;
    let r = k % per;
    assert(w * per + r == k) by {
        assert(per * w == w * per) by (nonlinear_arith);
    }
    assert((w + 1) * per == w * per + per) by (nonlinear_arith);
    let upto = vstd::math::min((w + 1) * per, indices.len() as int);
    assert(0 <= w * per) by (nonlinear_arith)
        requires
            0 <= w,
            1 <= per,
    ;
    let part = indices.subrange(w * per, upto);
    let word = seq![data[w]];
    assert((data[w] as u64) as nat == packing::number_of(part, bits));
    assert(packing::words(word) =~= seq![(data[w] as u64) as nat]);
    assert(packing::number_of(packing::words(word), 64) == (data[w] as u64) as nat) by {
        let all = packing::words(word);
        let none = all.drop_first();
        assert(packing::number_of(none, 64) == 0);
        let p = vstd::arithmetic::power2::pow2(64);
        assert(p * packing::number_of(none, 64) == 0) by (nonlinear_arith)
            requires
                packing::number_of(none, 64) == 0,
        ;
        assert(all[0] == (data[w] as u64) as nat);
    }
    assert forall|j: int| 0 <= j < part.len() implies #[trigger] part[j]
        < vstd::arithmetic::power2::pow2(bits) by {
        assert(part[j] == indices[w * per + j]);
    }
    assert(part[r] == indices[k]);
    let b = bits as int;
    assert(per * b <= 64) by (nonlinear_arith)
        requires
            4 <= b <= 63,
            per == 64int / b,
    ;
    assert(part.len() * b <= 64) by (nonlinear_arith)
        requires
            part.len() <= per,
            per * b <= 64,
            b > 0,
    ;
    packing::law_reading_undoes_packing(word, part, bits, r);
    // The run lies in one long, so the long alone decides it.
    assert(packing::aligned_start(k, bits) == w * 64 + r * b);
    lemma_same_run(data, w, r * b, bits);
}

/// A run within one long depends on that long alone.
proof fn lemma_same_run(data: Seq<i64>, w: int, offset: int, bits: nat)
    requires
        0 <= w < data.len(),
        0 <= offset,
        offset + bits <= 64,
    ensures
        packing::bits_at(data, w * 64 + offset, bits) == packing::bits_at(
            seq![data[w]],
            offset,
            bits,
        ),
    decreases bits,
{
    if bits > 0 {
        lemma_same_run(data, w, offset + 1, (bits - 1) as nat);
        assert((w * 64 + offset) / 64 == w && (w * 64 + offset) % 64 == offset);
        assert(w * 64 + (offset + 1) == w * 64 + offset + 1);
    }
}

/// A section without blocks is all air, and one without indices is all of its
/// one palette entry.
pub proof fn law_uniform_sections(
    raw: RawSection,
    aligned: bool,
    table: Map<Seq<char>, u16>,
    section: Section,
    i: int,
)
    requires
        section_matches(section, raw, aligned, table),
        0 <= i < 4096,
    ensures
        raw.block_states is None ==> section.blocks@[i] == 0,
        raw.block_states matches Some(states) && states.data is None ==> section.blocks@[i]
            == entry_id(raw.block_states->0.palette@[0], table),
{
    assert(section.blocks@[i] == block_id(raw.block_states, aligned, table, i));
}

/// A palette entry has the number under which the table holds the key of its
/// name and properties, with or without the namespace, and an unknown one has zero.
pub proof fn law_entry_number(
    entry: PaletteEntry,
    other: PaletteEntry,
    table: Map<Seq<char>, u16>,
    id: u16,
)
    requires
        other.properties@ == entry.properties@,
        other.name@ == "minecraft:"@ + entry.name@,
    ensures
        entry_id(other, table) == entry_id(entry, table),
        entry_id(
            entry,
            table.insert(block_states::key_of(entry.name@, entry.properties@), id),
        ) == id,
        entry_id(entry, table.remove(block_states::key_of(entry.name@, entry.properties@))) == 0,
{
    block_states::law_namespace_is_dropped(entry.name@, entry.properties@);
}

/// From data version 2564 on indices never span two longs, and before it they
/// do. Chunks from before version 1444 hold none.
pub proof fn law_version_decides_packing(data_version: i32)
    ensures
        is_aligned(data_version) <==> data_version >= 2564,
        FIRST_PALETTE_VERSION == 1444,
{
}

/// Where the words of a section with whole numbers in each word end too early, the
/// blocks that they do not reach are air.
pub proof fn law_short_data_leaves_air(
    states: RawBlockStates,
    table: Map<Seq<char>, u16>,
    i: int,
)
    requires
        states.data is Some,
        states.data->0@.len() * (64int / packing::index_bits(states.palette@.len()) as int) <= i,
    ensures
        block_id(Some(states), true, table, i) == 0,
        states.data->0@.len() == 0 && 0 < states.palette@.len() <= 0x8000_0000_0000_0000
            ==> section_decodes(Some(states), true),
{
}

/// Sections keep their order and their height, and each holds the blocks that are
/// stored in it and in no other one.
pub proof fn law_sections_stay_in_place(
    chunk: Chunk,
    raw: RawChunk,
    aligned: bool,
    table: Map<Seq<char>, u16>,
    s: int,
    i: int,
)
    requires
        chunk_matches(chunk, raw, aligned, table),
        0 <= s < raw.sections@.len(),
        0 <= i < packing::SECTION_BLOCKS,
    ensures
        chunk.sections@.len() == raw.sections@.len(),
        chunk.sections@[s].y == raw.sections@[s].y,
        chunk.sections@[s].blocks@[i] == block_id(
            raw.sections@[s].block_states,
            aligned,
            table,
            i,
        ),
{
    assert(section_matches(chunk.sections@[s], raw.sections@[s], aligned, table));
}

} // verus!
