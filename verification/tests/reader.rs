use std::io::Write;

use chisel::properties::Properties;
use chisel::reader::block_states::{build_block_key, can_parse_key, normalize_key, parse_key};
use chisel::reader::chunk::{
    can_decode, decode_chunk, decode_legacy_palette, decode_modern, Chunk, PaletteEntry,
    RawBlockStates, RawChunk, RawSection,
};
use chisel::reader::packing::{index_width, read_bits};
use chisel::reader::region::{
    chunk_in_bounds, decompress_chunk, read_locations, ChunkLocation, RegionError,
};
use chisel::reader::table::{is_complete, load_entries, BlockStateTable, EntriesError};
use chisel::reader::world::is_region_file;

fn props(pairs: &[(&str, &str)]) -> Properties {
    let mut p = Properties::new();
    for (name, value) in pairs {
        p.insert(name.to_string(), value.to_string());
    }
    p
}

fn entry(id: u16, key: &str) -> (u16, String) {
    (id, key.to_string())
}

fn palette_entry(name: &str, pairs: &[(&str, &str)]) -> PaletteEntry {
    PaletteEntry { name: name.to_string(), properties: props(pairs) }
}

fn table(entries: &[(u16, String)]) -> BlockStateTable {
    BlockStateTable::load(&BlockStateTable::save(entries))
}

fn single_section(version: i32, states: Option<RawBlockStates>) -> RawChunk {
    RawChunk {
        data_version: version,
        sections: vec![RawSection { y: -4, block_states: states }],
    }
}

/// Packs indices without gaps.
fn pack_spanning(indices: &[u64], bits: usize) -> Vec<i64> {
    let mut longs = vec![0u64; (indices.len() * bits + 63) / 64];
    for (i, &index) in indices.iter().enumerate() {
        for b in 0..bits {
            if (index >> b) & 1 == 1 {
                let at = i * bits + b;
                longs[at / 64] |= 1u64 << (at % 64);
            }
        }
    }
    longs.into_iter().map(|l| l as i64).collect()
}

/// Packs indices so that none spans two longs.
fn pack_aligned(indices: &[u64], bits: usize) -> Vec<i64> {
    let per = 64 / bits;
    let mut longs = vec![0u64; (indices.len() + per - 1) / per];
    for (i, &index) in indices.iter().enumerate() {
        longs[i / per] |= index << ((i % per) * bits);
    }
    longs.into_iter().map(|l| l as i64).collect()
}

#[test]
fn key_without_properties_is_the_short_name() {
    assert_eq!(build_block_key("minecraft:stone", &props(&[])), "stone");
    assert_eq!(build_block_key("stone", &props(&[])), "stone");
}

#[test]
fn key_lists_properties_alphabetically() {
    let p = props(&[("powered", "true"), ("face", "floor"), ("facing", "north")]);
    assert_eq!(
        build_block_key("minecraft:acacia_button", &p),
        "acacia_button[face=floor,facing=north,powered=true]"
    );
}

#[test]
fn key_round_trip() {
    let p = props(&[("snowy", "false"), ("axis", "x")]);
    let key = build_block_key("grass_block", &p);
    let (name, back) = parse_key(&key);
    assert_eq!(name, "grass_block");
    assert_eq!(back.len(), 2);
    assert_eq!(back.get("snowy"), Some("false"));
    assert_eq!(back.get("axis"), Some("x"));
    assert_eq!(back.get("lit"), None);
}

#[test]
fn parse_key_skips_parts_without_equals_sign() {
    let (name, p) = parse_key("door[open,half=upper,half=lower]");
    assert_eq!(name, "door");
    assert_eq!(p.len(), 1);
    assert!(p.has("half", "lower"));
    let (name, p) = parse_key("door[]");
    assert_eq!(name, "door");
    assert_eq!(p.len(), 0);
}

#[test]
fn parse_key_splits_at_the_first_equals_sign() {
    let (_, p) = parse_key("a[b=c=d]");
    assert_eq!(p.get("b"), Some("c=d"));
}

#[test]
fn keys_that_cannot_be_parsed() {
    assert!(can_parse_key("stone"));
    assert!(can_parse_key("a[]"));
    assert!(!can_parse_key("a["));
    assert!(!can_parse_key("a[b\u{e9}"));
}

#[test]
fn normalize_key_sorts_and_is_idempotent() {
    let key = normalize_key("lever[powered=true,face=wall]");
    assert_eq!(key, "lever[face=wall,powered=true]");
    assert_eq!(normalize_key(&key), key);
    assert_eq!(normalize_key("lever[face=wall,powered=true]"), key);
    assert_eq!(normalize_key("minecraft:stone"), "minecraft:stone");
    assert_eq!(normalize_key("minecraft:log[axis=x]"), "log[axis=x]");
}

#[test]
fn properties_are_kept_in_order() {
    let mut p = props(&[("b", "1"), ("a", "2"), ("c", "3")]);
    p.insert("b".to_string(), "4".to_string());
    assert_eq!(p.len(), 3);
    assert_eq!(p.entry(0), ("a", "2"));
    assert_eq!(p.entry(1), ("b", "4"));
    assert_eq!(p.entry(2), ("c", "3"));
}

#[test]
fn table_file_layout() {
    let bytes = BlockStateTable::save(&[entry(0x0102, "ab")]);
    assert_eq!(bytes, vec![0x44, 0x49, 0x53, 0x42, 1, 0, 0, 0, 2, 1, 2, 0, b'a', b'b']);
}

#[test]
fn table_file_round_trip() {
    let entries =
        vec![entry(0, "air"), entry(7, "stone"), entry(65535, "caf\u{e9}[a=b]"), entry(3, "")];
    let bytes = BlockStateTable::save(&entries);
    assert!(is_complete(&bytes));
    match load_entries(&bytes) {
        Ok(back) => assert_eq!(back, entries),
        Err(_) => panic!("the file was not read"),
    }
    let t = BlockStateTable::load(&bytes);
    assert_eq!(t.lookup("stone"), Some(7));
    assert_eq!(t.lookup("caf\u{e9}[a=b]"), Some(65535));
    assert_eq!(t.lookup(""), Some(3));
    assert_eq!(t.lookup("dirt"), None);
}

#[test]
fn table_keeps_the_last_of_equal_keys() {
    let t = table(&[entry(1, "stone"), entry(2, "stone")]);
    assert_eq!(t.lookup("stone"), Some(2));
}

#[test]
fn table_get_builds_the_key() {
    let t = table(&[entry(9, "log[axis=x]")]);
    assert_eq!(t.get("minecraft:log", &props(&[("axis", "x")])), Some(9));
    assert_eq!(t.get("minecraft:log", &props(&[("axis", "y")])), None);
}

#[test]
fn table_file_errors() {
    assert!(matches!(load_entries(&[1, 2, 3, 4]), Err(EntriesError::BadMagic)));
    let bad_key = [0x44, 0x49, 0x53, 0x42, 1, 0, 0, 0, 1, 0, 1, 0, 0xff];
    assert!(is_complete(&bad_key));
    assert!(matches!(load_entries(&bad_key), Err(EntriesError::InvalidKey)));
}

#[test]
fn incomplete_table_files() {
    assert!(!is_complete(&[0x44, 0x49, 0x53]));
    assert!(is_complete(&[0, 0, 0, 0]));
    assert!(!is_complete(&[0x44, 0x49, 0x53, 0x42, 0, 0, 0]));
    assert!(!is_complete(&[0x44, 0x49, 0x53, 0x42, 1, 0, 0, 0, 1, 0, 2, 0, b'a']));
}

#[test]
fn index_widths() {
    assert_eq!(index_width(1), 4);
    assert_eq!(index_width(16), 4);
    assert_eq!(index_width(17), 5);
    assert_eq!(index_width(32), 5);
    assert_eq!(index_width(33), 6);
    assert_eq!(index_width(4096), 12);
}

#[test]
fn bits_across_two_longs() {
    let data = [0x8000_0000_0000_0000u64 as i64, 0b101];
    assert_eq!(read_bits(&data, 63, 4), 0b1011);
    assert_eq!(read_bits(&data, 60, 4), 0b1000);
    assert_eq!(read_bits(&data, 64, 3), 0b101);
}

fn three_block_table() -> BlockStateTable {
    table(&[entry(0, "air"), entry(1, "stone"), entry(5, "log[axis=y]")])
}

fn big_palette(n: usize) -> (Vec<PaletteEntry>, BlockStateTable) {
    let mut palette = Vec::new();
    let mut entries = Vec::new();
    for i in 0..n {
        palette.push(palette_entry(&format!("minecraft:b{}", i), &[]));
        entries.push((100 + i as u16, format!("b{}", i)));
    }
    (palette, table(&entries))
}

fn blocks_of(chunk: &Chunk) -> &[u16; 4096] {
    &chunk.sections[0].blocks
}

#[test]
fn section_without_blocks_is_air() {
    let raw = single_section(3000, None);
    assert!(can_decode(&raw));
    let chunk = decode_chunk(&raw, &three_block_table());
    assert_eq!(chunk.sections.len(), 1);
    assert_eq!(chunk.sections[0].y, -4);
    assert!(blocks_of(&chunk).iter().all(|&b| b == 0));
}

#[test]
fn section_of_one_block() {
    let states = RawBlockStates {
        palette: vec![palette_entry("minecraft:log", &[("axis", "y")])],
        data: None,
    };
    let chunk = decode_chunk(&single_section(1444, Some(states)), &three_block_table());
    assert!(blocks_of(&chunk).iter().all(|&b| b == 5));
}

#[test]
fn unknown_block_counts_as_zero() {
    let states = RawBlockStates { palette: vec![palette_entry("minecraft:dirt", &[])], data: None };
    let chunk = decode_chunk(&single_section(2564, Some(states)), &three_block_table());
    assert!(blocks_of(&chunk).iter().all(|&b| b == 0));
}

#[test]
fn spanning_indices_of_five_bits() {
    let (palette, t) = big_palette(20);
    let indices: Vec<u64> = (0..4096).map(|i| (i as u64 * 7) % 20).collect();
    let raw = single_section(
        2563,
        Some(RawBlockStates { palette, data: Some(pack_spanning(&indices, 5)) }),
    );
    assert!(can_decode(&raw));
    let chunk = decode_chunk(&raw, &t);
    for i in 0..4096 {
        assert_eq!(blocks_of(&chunk)[i], 100 + indices[i] as u16);
    }
}

#[test]
fn aligned_indices_of_five_bits() {
    let (palette, t) = big_palette(20);
    let indices: Vec<u64> = (0..4096).map(|i| (i as u64 * 11) % 20).collect();
    let raw = single_section(
        2564,
        Some(RawBlockStates { palette, data: Some(pack_aligned(&indices, 5)) }),
    );
    assert!(can_decode(&raw));
    let chunk = decode_chunk(&raw, &t);
    for i in 0..4096 {
        assert_eq!(blocks_of(&chunk)[i], 100 + indices[i] as u16);
    }
}

#[test]
fn packings_agree_where_the_width_divides_a_long() {
    let indices: Vec<u64> = (0..4096).map(|i| (i as u64 * 3) % 16).collect();
    let (palette, t) = big_palette(16);
    let raw = single_section(
        2000,
        Some(RawBlockStates { palette, data: Some(pack_spanning(&indices, 4)) }),
    );
    let old = decode_legacy_palette(&raw, &t);
    let new = decode_modern(&raw, &t);
    assert_eq!(blocks_of(&old), blocks_of(&new));
    assert_eq!(blocks_of(&old)[1], 103);
}

#[test]
fn aligned_data_that_is_too_short_leaves_air() {
    let (palette, t) = big_palette(2);
    let raw =
        single_section(2564, Some(RawBlockStates { palette, data: Some(vec![0x11, 0]) }));
    assert!(can_decode(&raw));
    let chunk = decode_chunk(&raw, &t);
    assert_eq!(blocks_of(&chunk)[0], 101);
    assert_eq!(blocks_of(&chunk)[1], 101);
    assert_eq!(blocks_of(&chunk)[31], 100);
    assert_eq!(blocks_of(&chunk)[32], 0);
}

#[test]
fn chunks_that_cannot_be_decoded() {
    assert!(!can_decode(&single_section(1443, None)));
    let empty = RawBlockStates { palette: vec![], data: None };
    assert!(!can_decode(&single_section(3000, Some(empty))));
    let (palette, _) = big_palette(2);
    let short = RawBlockStates { palette, data: Some(vec![0; 255]) };
    assert!(!can_decode(&single_section(2000, Some(short))));
    let (palette, _) = big_palette(2);
    let wrong_index = RawBlockStates { palette, data: Some(vec![0x2]) };
    assert!(!can_decode(&single_section(3000, Some(wrong_index))));
}

#[test]
fn locations_of_chunks() {
    let mut data = vec![0u8; 4096];
    data[4] = 0x01;
    data[5] = 0x02;
    data[6] = 0x03;
    data[7] = 0x04;
    data[11] = 9;
    let locations = read_locations(&data);
    assert_eq!(locations.len(), 1024);
    assert!(locations[0].is_none());
    let one = locations[1].as_ref().unwrap();
    assert_eq!(one.sector_offset, 0x010203);
    assert_eq!(one.sector_count, 4);
    let two = locations[2].as_ref().unwrap();
    assert_eq!(two.sector_offset, 0);
    assert_eq!(two.sector_count, 9);
}

fn region_with(compression: u8, payload: &[u8]) -> Vec<u8> {
    let mut data = vec![0u8; 4096];
    data.extend_from_slice(&(payload.len() as u32 + 1).to_be_bytes());
    data.push(compression);
    data.extend_from_slice(payload);
    data
}

const FIRST_SECTOR: ChunkLocation = ChunkLocation { sector_offset: 1, sector_count: 1 };

fn unpack(data: &[u8]) -> Result<Vec<u8>, RegionError> {
    assert!(chunk_in_bounds(data, &FIRST_SECTOR));
    decompress_chunk(data, &FIRST_SECTOR)
}

#[test]
fn gzip_chunk() {
    let mut encoder = flate2::write::GzEncoder::new(Vec::new(), flate2::Compression::default());
    encoder.write_all(b"gzip gzip gzip gzip").unwrap();
    let data = region_with(1, &encoder.finish().unwrap());
    assert_eq!(unpack(&data).ok(), Some(b"gzip gzip gzip gzip".to_vec()));
}

#[test]
fn zlib_chunk() {
    let mut encoder = flate2::write::ZlibEncoder::new(Vec::new(), flate2::Compression::default());
    encoder.write_all(b"zlib zlib zlib zlib").unwrap();
    let data = region_with(2, &encoder.finish().unwrap());
    assert_eq!(unpack(&data).ok(), Some(b"zlib zlib zlib zlib".to_vec()));
}

#[test]
fn stored_chunk() {
    assert_eq!(unpack(&region_with(3, b"as it is")).ok(), Some(b"as it is".to_vec()));
}

#[test]
fn chunk_errors() {
    assert!(matches!(unpack(&region_with(1, b"no gzip")), Err(RegionError::Corrupt(_))));
    assert!(matches!(unpack(&region_with(2, b"no zlib")), Err(RegionError::Corrupt(_))));
    assert!(matches!(
        unpack(&region_with(4, b"")),
        Err(RegionError::UnsupportedCompression(4))
    ));
}

#[test]
fn chunk_outside_the_file() {
    let data = region_with(3, b"abc");
    assert!(!chunk_in_bounds(&data[..data.len() - 1], &FIRST_SECTOR));
    assert!(!chunk_in_bounds(&data, &ChunkLocation { sector_offset: 2, sector_count: 1 }));
}

#[test]
fn region_files_of_a_world() {
    assert!(is_region_file("World/region/r.0.0.mca"));
    assert!(is_region_file("region/r.0.0.mca"));
    assert!(is_region_file("r.0.0.mca"));
    assert!(is_region_file("./r.0.0.mca"));
    assert!(is_region_file("a//region/./r.0.0.mca"));
    assert!(!is_region_file("World/entities/r.0.0.mca"));
    assert!(!is_region_file("World/poi/r.0.0.mca"));
    assert!(!is_region_file("World/region/r.0.0.txt"));
    assert!(!is_region_file("World/level.dat"));
}

#[test]
fn other_dimensions_are_skipped() {
    assert!(!is_region_file("World/DIM-1/region/r.0.0.mca"));
    assert!(!is_region_file("DIM1/region/r.0.0.mca"));
    assert!(is_region_file("World/DIM2/region/r.0.0.mca"));
}

#[test]
fn built_keys_are_normal() {
    for key in [
        build_block_key("minecraft:stone", &props(&[])),
        build_block_key("minecraft:lever", &props(&[("powered", "true"), ("face", "wall")])),
    ] {
        assert_eq!(normalize_key(&key), key);
    }
}
