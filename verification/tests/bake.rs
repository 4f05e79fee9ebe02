use chisel::bake::{default_vox_file, requested, table_entries, BlockEntry, BlockState, Request};
use chisel::carver::brick::serialize_color_data;
use chisel::carver::entries::{slot_count, sort_entries};
use chisel::carver::materials::can_write_materials;
use chisel::carver::output::{serialize_payload, write_geometry, write_materials};
use chisel::carver::voxelizer::{compute_coarse, VoxelGrid};
use chisel::export::{
    can_read_geometry, can_read_materials, find_block, read_geometry, read_grid, read_materials,
    ExportError, ReadError,
};
use chisel::properties::Properties;
use chisel::reader::table::BlockStateTable;
use chisel::vox::{can_write_vox, chunk, write_vox};

fn grid(voxels: &[usize], colors: &[[u8; 4]]) -> VoxelGrid {
    let mut g = VoxelGrid::default();
    for (i, &v) in voxels.iter().enumerate() {
        g.bitmask[v / 32] |= 1 << (v % 32);
        let index = g.palette.get_or_insert(colors[i % colors.len()]);
        g.color_indices.push(index);
    }
    g.coarse = compute_coarse(&g.bitmask);
    g
}

fn lit(mut g: VoxelGrid) -> VoxelGrid {
    g.is_emissive = true;
    g
}

fn word(data: &[u8], at: usize) -> u32 {
    u32::from_le_bytes([data[at], data[at + 1], data[at + 2], data[at + 3]])
}

fn half(data: &[u8], at: usize) -> u16 {
    u16::from_le_bytes([data[at], data[at + 1]])
}

const RED: [u8; 4] = [255, 0, 0, 255];
const BLUE: [u8; 4] = [0, 0, 255, 128];

fn results() -> Vec<(u16, VoxelGrid)> {
    vec![
        (0, VoxelGrid::default()),
        (1, grid(&[0, 100], &[RED, BLUE])),
        (2, grid(&[0, 100], &[BLUE])),
        (3, lit(grid(&[0, 100], &[RED, BLUE]))),
        (5, grid(&[4095], &[BLUE])),
        (6, grid(&[0, 100], &[RED, BLUE])),
    ]
}

#[test]
fn color_payload_layout() {
    let g = grid(&[1, 2, 3], &[RED, BLUE]);
    let bytes = serialize_color_data(&g);
    assert_eq!(bytes[..4], [0, 3, 0, 2]);
    assert_eq!(bytes[4..12], [255, 0, 0, 255, 0, 0, 255, 128]);
    assert_eq!(bytes[12..], [0, 1, 0]);
}

#[test]
fn payload_flag_is_one_bit() {
    let dark = grid(&[1], &[RED]);
    let bright = lit(grid(&[1], &[RED]));
    assert_eq!(serialize_payload(&dark), serialize_color_data(&dark));
    let bytes = serialize_payload(&bright);
    assert_eq!(bytes[0], 1);
    assert_eq!(bytes[1..], serialize_color_data(&bright)[1..]);
}

#[test]
fn geometry_file_layout() {
    let data = write_geometry(&results(), 7);
    assert_eq!(&data[..4], b"GEOM");
    assert_eq!(word(&data, 4), 7);
    assert_eq!(word(&data, 8), 3);
    let ids: Vec<u16> = (0..7).map(|i| half(&data, 12 + 2 * i)).collect();
    assert_eq!(ids, vec![0, 1, 1, 1, 0, 2, 1]);
    assert_eq!(data.len(), 12 + 14 + 3 * 520);
    assert!(data[26..26 + 520].iter().all(|&b| b == 0));
    assert_eq!(data[26 + 520 + 8], 1);
}

#[test]
fn geometry_round_trip() {
    let all = results();
    let data = write_geometry(&all, 7);
    for (id, g) in &all {
        assert!(can_read_geometry(&data, *id));
        assert_eq!(read_geometry(&data, *id), Ok((g.coarse, g.bitmask)));
    }
    assert_eq!(read_geometry(&data, 4), Ok((0, [0u32; 128])));
}

#[test]
fn geometry_of_the_last_result_counts() {
    let all = vec![(1, grid(&[5], &[RED])), (1, grid(&[6], &[RED]))];
    let data = write_geometry(&all, 2);
    assert_eq!(read_geometry(&data, 1), Ok((all[1].1.coarse, all[1].1.bitmask)));
}

#[test]
fn materials_file_layout() {
    let all = results();
    assert!(can_write_materials(&all, 7));
    let data = write_materials(&all, 7);
    assert_eq!(&data[..4], b"MATL");
    assert_eq!(word(&data, 4), 7);
    assert_eq!(word(&data, 8), 4);
    let ids: Vec<u16> = (0..7).map(|i| half(&data, 12 + 2 * i)).collect();
    assert_eq!(ids, vec![0, 1, 2, 3, 0, 4, 1]);
    let starts: Vec<u32> = (0..4).map(|i| word(&data, 26 + 4 * i)).collect();
    assert_eq!(starts, vec![0, 14, 24, 38]);
    assert_eq!(data[42..56], serialize_payload(&all[1].1)[..]);
    assert_eq!(data.len(), 42 + 14 + 10 + 14 + 9);
}

#[test]
fn materials_round_trip() {
    let all = results();
    let data = write_materials(&all, 7);
    for (id, g) in &all {
        assert!(can_read_materials(&data, *id));
        match read_materials(&data, *id) {
            Ok((palette, indices, emissive)) => {
                assert_eq!(palette.colors, g.palette.colors);
                assert_eq!(indices, g.color_indices);
                assert_eq!(emissive, g.is_emissive);
            }
            Err(_) => panic!("block state {} was not read", id),
        }
    }
}

#[test]
fn full_palette_reads_back() {
    let colors: Vec<[u8; 4]> = (0..256).map(|i| [i as u8, 1, 2, 3]).collect();
    let voxels: Vec<usize> = (0..256).collect();
    let all = vec![(0, grid(&voxels, &colors))];
    let data = write_materials(&all, 1);
    match read_materials(&data, 0) {
        Ok((palette, indices, _)) => {
            assert_eq!(palette.colors, colors);
            assert_eq!(indices, all[0].1.color_indices);
        }
        Err(_) => panic!("the block state was not read"),
    }
}

#[test]
fn files_of_another_kind() {
    let all = results();
    let geometry = write_geometry(&all, 7);
    let materials = write_materials(&all, 7);
    assert_eq!(read_geometry(&materials, 1), Err(ReadError::BadMagic));
    assert!(matches!(read_materials(&geometry, 1), Err(ReadError::BadMagic)));
}

#[test]
fn files_that_are_cut_off() {
    let all = results();
    let geometry = write_geometry(&all, 7);
    assert!(!can_read_geometry(&geometry[..3], 1));
    assert!(!can_read_geometry(&geometry[..20], 6));
    assert!(!can_read_geometry(&geometry[..geometry.len() - 1], 5));
    let materials = write_materials(&all, 7);
    assert!(!can_read_materials(&materials[..materials.len() - 1], 5));
    assert!(can_read_materials(&materials[..40], 0));
    assert!(!can_read_materials(&materials[..40], 1));
}

#[test]
fn vox_chunks() {
    assert_eq!(
        chunk(b"ABCD", &[1, 2], &[3]),
        vec![b'A', b'B', b'C', b'D', 2, 0, 0, 0, 1, 0, 0, 0, 1, 2, 3]
    );
}

#[test]
fn vox_file_layout() {
    let g = grid(&[3 + 2 * 16 + 256, 4095], &[RED, BLUE]);
    assert!(can_write_vox(&g));
    let data = write_vox(&g);
    assert_eq!(&data[..4], b"VOX ");
    assert_eq!(word(&data, 4), 150);
    assert_eq!(&data[8..12], b"MAIN");
    assert_eq!(word(&data, 12), 0);
    assert_eq!(word(&data, 16) as usize, data.len() - 20);
    assert_eq!(&data[20..24], b"SIZE");
    assert_eq!([word(&data, 32), word(&data, 36), word(&data, 40)], [16, 16, 16]);
    assert_eq!(&data[44..48], b"XYZI");
    assert_eq!(word(&data, 48), 12);
    assert_eq!(word(&data, 56), 2);
    assert_eq!(data[60..68], [3, 1, 2, 1, 15, 15, 15, 2]);
    assert_eq!(&data[68..72], b"RGBA");
    assert_eq!(word(&data, 72), 1024);
    assert_eq!(data[80..92], [255, 0, 0, 255, 0, 0, 255, 255, 0, 0, 0, 0]);
    assert_eq!(data.len(), 80 + 1024);
}

#[test]
fn vox_without_color_numbers_uses_the_first() {
    let mut g = VoxelGrid::default();
    g.bitmask[0] = 1;
    let data = write_vox(&g);
    assert_eq!(data[60..64], [0, 0, 0, 1]);
}

#[test]
fn vox_needs_a_free_number() {
    let mut g = VoxelGrid::default();
    g.bitmask[0] = 1;
    g.color_indices.push(255);
    assert!(!can_write_vox(&g));
    g.bitmask[0] = 0;
    assert!(can_write_vox(&g));
}

#[test]
fn vox_file_names() {
    assert_eq!(default_vox_file("dark_oak_log[axis=x]"), "dark_oak_log_axis_x_.vox");
    assert_eq!(default_vox_file("a[b=c,d=e]"), "a_b_c_d_e_.vox");
    assert_eq!(default_vox_file("stone"), "stone.vox");
}

fn args(list: &[&str]) -> Vec<String> {
    list.iter().map(|s| s.to_string()).collect()
}

#[test]
fn requests() {
    assert!(matches!(requested(&args(&["bake"])), Request::Bake));
    assert!(matches!(requested(&args(&["bake", "--export-vox"])), Request::MissingKey));
    match requested(&args(&["bake", "--export-vox", "log[axis=x]"])) {
        Request::Export { key, out } => {
            assert_eq!(key, "log[axis=x]");
            assert_eq!(out, "log_axis_x_.vox");
        }
        _ => panic!("no export"),
    }
    match requested(&args(&["bake", "--export-vox", "stone", "x.vox"])) {
        Request::Export { key, out } => {
            assert_eq!(key, "stone");
            assert_eq!(out, "x.vox");
        }
        _ => panic!("no export"),
    }
}

fn state(id: u32, pairs: &[(&str, &str)]) -> BlockState {
    let mut properties = Properties::new();
    for (name, value) in pairs {
        properties.insert(name.to_string(), value.to_string());
    }
    BlockState { id, properties }
}

#[test]
fn entries_of_a_report() {
    let blocks = vec![
        BlockEntry { name: "minecraft:air".to_string(), states: vec![state(0, &[])] },
        BlockEntry {
            name: "minecraft:log".to_string(),
            states: vec![state(65537, &[("axis", "x")]), state(2, &[("axis", "y")])],
        },
    ];
    assert_eq!(
        table_entries(&blocks),
        vec![
            (0, "air".to_string()),
            (1, "log[axis=x]".to_string()),
            (2, "log[axis=y]".to_string())
        ]
    );
}

#[test]
fn entries_are_sorted_by_number() {
    let entries =
        vec![(9, "a".to_string()), (2, "b".to_string()), (9, "c".to_string()), (0, "d".to_string())];
    let sorted = sort_entries(&entries);
    assert_eq!(
        sorted,
        vec![(0, "d".to_string()), (2, "b".to_string()), (9, "a".to_string()), (9, "c".to_string())]
    );
    assert_eq!(slot_count(&entries), 10);
    assert_eq!(slot_count(&[]), 1);
    assert_eq!(slot_count(&[(65535, String::new())]), 65536);
}

#[test]
fn block_states_are_found_by_key() {
    let entries = vec![(3, "lever[face=wall,powered=true]".to_string()), (9, "stone".to_string())];
    let file = BlockStateTable::save(&entries);
    assert_eq!(find_block(&file, "stone"), Some(9));
    assert_eq!(find_block(&file, "lever[powered=true,face=wall]"), Some(3));
    assert_eq!(find_block(&file, "minecraft:lever[powered=true,face=wall]"), Some(3));
    assert_eq!(find_block(&file, "dirt"), None);
}

#[test]
fn files_of_a_bake_agree() {
    let all = results();
    let entries: Vec<(u16, String)> = all.iter().map(|(id, _)| (*id, format!("b{}", id))).collect();
    let table = BlockStateTable::save(&entries);
    let geometry = write_geometry(&all, 7);
    let materials = write_materials(&all, 7);
    for (id, g) in &all {
        let found = find_block(&table, &format!("b{}", id)).unwrap();
        assert_eq!(found, *id);
        match read_grid(&geometry, &materials, found) {
            Ok(back) => {
                assert_eq!(back.bitmask, g.bitmask);
                assert_eq!(back.coarse, g.coarse);
                assert_eq!(back.palette.colors, g.palette.colors);
                assert_eq!(back.color_indices, g.color_indices);
                assert_eq!(back.is_emissive, g.is_emissive);
            }
            Err(_) => panic!("block state {} was not read", id),
        }
    }
}

#[test]
fn grids_need_both_files() {
    let all = results();
    let geometry = write_geometry(&all, 7);
    let materials = write_materials(&all, 7);
    assert!(matches!(read_grid(&materials, &materials, 1), Err(ExportError::BadGeometry)));
    assert!(matches!(read_grid(&geometry, &geometry, 1), Err(ExportError::BadMaterials)));
}
