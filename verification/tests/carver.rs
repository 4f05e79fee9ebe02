use chisel::carver::block::{
    can_carve_fluid, can_carve_model, carve_fluid, carve_model, fluid_textures, is_emissive,
    parse_number, plains_tint, plan_block, BlockPlan,
};
use chisel::carver::blockstate::{
    blockstate_path, find_model, find_variant, model_from_apply, when_matches, Apply,
    BlockstateJson, MultipartEntry, Variant, WhenValue,
};
use chisel::carver::face::{face_tint, inverse_turns, FaceDir};
use chisel::carver::fluid::{
    apply_waterlogging, can_voxelize_fluid, can_waterlog, voxelize_fluid, WATER_TINT,
};
use chisel::carver::jar::EntryCache;
use chisel::carver::model::{
    face_list, face_texture, model_path, resolve_textures, ChainStep, ModelChain, RawModel,
};
use chisel::carver::swatch::Swatch;
use chisel::carver::texture::{
    apply_tint, covers_texel, decode_png, expand_frame, has_fitting_size, has_whole_tables,
    load_texture, sample_texture, texture_jar_path, tint_with, voxel_texel, Palette, PngFrame, RgbaImage,
    TextureCache, TextureError,
};
use chisel::carver::voxelizer::{
    can_voxelize, collect_colors, compute_coarse, voxel_range, voxelize, Hit, QuadHits, VoxelGrid,
};
use chisel::properties::Properties;

fn props(pairs: &[(&str, &str)]) -> Properties {
    let mut p = Properties::new();
    for (name, value) in pairs {
        p.insert(name.to_string(), value.to_string());
    }
    p
}

fn variant(model: &str, x: u32, y: u32) -> Variant {
    Variant { model: model.to_string(), x, y }
}

fn single(model: &str) -> Apply {
    Apply::Single(variant(model, 0, 0))
}

fn text(s: &str) -> WhenValue {
    WhenValue::Text(s.to_string())
}

fn object(fields: Vec<(&str, WhenValue)>) -> WhenValue {
    WhenValue::Object(fields.into_iter().map(|(k, v)| (k.to_string(), v)).collect())
}

fn flat_image(rgba: [u8; 4]) -> RgbaImage {
    let mut pixels = Vec::new();
    for _ in 0..256 {
        pixels.extend_from_slice(&rgba);
    }
    RgbaImage { width: 16, height: 16, pixels }
}

/// An image whose pixel `(x, y)` has the colours `x` and `y`.
fn chart(width: u32, height: u32) -> RgbaImage {
    let mut pixels = Vec::new();
    for y in 0..height {
        for x in 0..width {
            pixels.extend_from_slice(&[x as u8, y as u8, 0, 255]);
        }
    }
    RgbaImage { width, height, pixels }
}

fn solid(grid: &VoxelGrid, x: usize, y: usize, z: usize) -> bool {
    let v = x + y * 16 + z * 256;
    (grid.bitmask[v / 32] >> (v % 32)) & 1 == 1
}

fn color(grid: &VoxelGrid, x: usize, y: usize, z: usize) -> [u8; 4] {
    let v = x + y * 16 + z * 256;
    let mut rank = 0;
    for u in 0..v {
        if (grid.bitmask[u / 32] >> (u % 32)) & 1 == 1 {
            rank += 1;
        }
    }
    grid.palette.colors[grid.color_indices[rank] as usize]
}

// Textures

#[test]
fn pixels_by_row() {
    let img = chart(4, 3);
    assert_eq!(img.get_pixel(2, 1), [2, 1, 0, 255]);
    assert_eq!(img.get_pixel(0, 2), [0, 2, 0, 255]);
}

#[test]
fn sampling_stays_inside() {
    let img = chart(4, 3);
    assert_eq!(sample_texture(&img, -5, 1), [0, 1, 0, 255]);
    assert_eq!(sample_texture(&img, 9, 9), [3, 2, 0, 255]);
    assert_eq!(sample_texture(&img, 1, 2), [1, 2, 0, 255]);
}

#[test]
fn complete_images_can_be_sampled_everywhere() {
    let img = chart(4, 3);
    for (px, py) in [(0, 0), (3, 2), (-9, 50), (i32::MAX, i32::MIN)] {
        assert!(covers_texel(&img, px, py));
    }
    let short = RgbaImage { width: 2, height: 1, pixels: vec![0; 4] };
    assert!(covers_texel(&short, 0, 0));
    assert!(!covers_texel(&short, 1, 0));
}

fn float_texel(k: usize, side: u32) -> i32 {
    ((k as f32 + 0.5) / 16.0 * side as f32).floor() as i32
}

#[test]
fn texels_follow_single_precision() {
    let sides = [
        1u32, 2, 3, 7, 15, 16, 17, 32, 100, 1000, 524288, 524289, 16777215, 16777216, 16777217,
        16777219, 33554433, 50331651, 123456789, 999999999, 2147483583, 2147483584, 2147483647,
    ];
    for side in sides {
        for k in 0..16 {
            assert_eq!(voxel_texel(k, side), float_texel(k, side), "{} of {}", k, side);
        }
    }
}

#[test]
fn texels_of_a_usual_texture() {
    for k in 0..16 {
        assert_eq!(voxel_texel(k, 16), k as i32);
        assert_eq!(voxel_texel(k, 32), 2 * k as i32 + 1);
    }
}

#[test]
fn tints() {
    assert_eq!(apply_tint([255, 255, 255, 7], 0), [0x91, 0xBD, 0x59, 7]);
    assert_eq!(apply_tint([100, 100, 100, 255], 3), [56, 74, 34, 255]);
    assert_eq!(tint_with([100, 200, 50, 9], [255, 255, 255]), [100, 200, 50, 9]);
    assert_eq!(tint_with([255, 128, 10, 9], WATER_TINT), [63, 59, 8, 9]);
}

#[test]
fn texture_paths() {
    assert_eq!(texture_jar_path("block/stone"), "assets/minecraft/textures/block/stone.png");
    assert_eq!(
        texture_jar_path("minecraft:block/stone"),
        "assets/minecraft/textures/block/stone.png"
    );
}

fn encode(width: u32, height: u32, kind: png::ColorType, data: &[u8]) -> Vec<u8> {
    let mut out = Vec::new();
    let mut encoder = png::Encoder::new(&mut out, width, height);
    encoder.set_color(kind);
    encoder.set_depth(png::BitDepth::Eight);
    let mut writer = encoder.write_header().unwrap();
    writer.write_image_data(data).unwrap();
    drop(writer);
    out
}

fn decoded(bytes: &[u8]) -> RgbaImage {
    match decode_png(bytes) {
        Ok(img) => img,
        Err(_) => panic!("the image was not decoded"),
    }
}

#[test]
fn rgba_png() {
    let img = decoded(&encode(1, 2, png::ColorType::Rgba, &[1, 2, 3, 4, 5, 6, 7, 8]));
    assert_eq!((img.width, img.height), (1, 2));
    assert_eq!(img.pixels, vec![1, 2, 3, 4, 5, 6, 7, 8]);
}

#[test]
fn rgb_png_is_opaque() {
    let img = decoded(&encode(2, 1, png::ColorType::Rgb, &[1, 2, 3, 4, 5, 6]));
    assert_eq!(img.pixels, vec![1, 2, 3, 255, 4, 5, 6, 255]);
}

#[test]
fn grayscale_png() {
    let img = decoded(&encode(2, 1, png::ColorType::Grayscale, &[9, 200]));
    assert_eq!(img.pixels, vec![9, 9, 9, 255, 200, 200, 200, 255]);
    let img = decoded(&encode(2, 1, png::ColorType::GrayscaleAlpha, &[9, 1, 200, 2]));
    assert_eq!(img.pixels, vec![9, 9, 9, 1, 200, 200, 200, 2]);
}

#[test]
fn indexed_png_is_expanded() {
    let mut out = Vec::new();
    let mut encoder = png::Encoder::new(&mut out, 2, 1);
    encoder.set_color(png::ColorType::Indexed);
    encoder.set_depth(png::BitDepth::Eight);
    encoder.set_palette(vec![10, 20, 30, 40, 50, 60]);
    let mut writer = encoder.write_header().unwrap();
    writer.write_image_data(&[1, 0]).unwrap();
    drop(writer);
    assert_eq!(decoded(&out).pixels, vec![40, 50, 60, 255, 10, 20, 30, 255]);
}

#[test]
fn frames_that_refer_to_a_color_table_are_refused() {
    let frame = PngFrame { width: 1, height: 1, color_type: 3, raw: vec![0] };
    assert!(matches!(expand_frame(frame), Err(TextureError::Indexed)));
}

fn check_sum(bytes: &[u8]) -> u32 {
    let mut crc: u32 = 0xffff_ffff;
    for &b in bytes {
        crc ^= b as u32;
        for _ in 0..8 {
            crc = if crc & 1 == 1 { (crc >> 1) ^ 0xedb8_8320 } else { crc >> 1 };
        }
    }
    !crc
}

fn chunk(kind: &[u8; 4], content: &[u8]) -> Vec<u8> {
    let mut body = kind.to_vec();
    body.extend_from_slice(content);
    let mut out = (content.len() as u32).to_be_bytes().to_vec();
    out.extend_from_slice(&body);
    out.extend_from_slice(&check_sum(&body).to_be_bytes());
    out
}

/// An image of one pixel with eight bits per sample: a colour table before the
/// pixel, and another one after it.
fn one_pixel(color_type: u8, before: &[u8], after: &[u8]) -> Vec<u8> {
    let mut out = signature();
    out.extend(one_pixel_chunks(color_type, before, after));
    out
}

fn signature() -> Vec<u8> {
    vec![0x89, b'P', b'N', b'G', 13, 10, 26, 10]
}

fn one_pixel_chunks(color_type: u8, before: &[u8], after: &[u8]) -> Vec<u8> {
    let mut out = Vec::new();
    out.extend(chunk(b"IHDR", &[0, 0, 0, 1, 0, 0, 0, 1, 8, color_type, 0, 0, 0]));
    out.extend(chunk(b"PLTE", before));
    // A stored block of the two bytes of the row: its filter and its sample.
    out.extend(chunk(b"IDAT", &[0x78, 0x01, 1, 2, 0, 0xfd, 0xff, 0, 1, 0, 3, 0, 2]));
    out.extend(chunk(b"PLTE", after));
    out.extend(chunk(b"IEND", &[]));
    out
}

#[test]
fn whole_color_tables_are_expanded() {
    let small = one_pixel(3, &[10, 20, 30, 40, 50, 60], &[]);
    assert!(has_whole_tables(&small));
    assert_eq!(decoded(&small).pixels, vec![40, 50, 60, 255]);
    let table: Vec<u8> = (0..768).map(|i| (i % 251) as u8).collect();
    let large = one_pixel(3, &table, &[]);
    assert!(has_whole_tables(&large));
    assert_eq!(decoded(&large).pixels, vec![3, 4, 5, 255]);
}

#[test]
fn broken_color_tables_are_refused() {
    for len in [1, 4, 767, 769, 771] {
        let bytes = one_pixel(3, &vec![7; len], &[]);
        assert!(!has_whole_tables(&bytes));
        assert!(matches!(decode_png(&bytes), Err(TextureError::BrokenTable)));
        assert!(matches!(load_texture(Some(&bytes)), Err(TextureError::BrokenTable)));
    }
}

#[test]
fn color_tables_that_no_pixel_needs_do_not_matter() {
    let gray = one_pixel(0, &[7; 4], &[]);
    assert!(has_whole_tables(&gray));
    assert_eq!(decoded(&gray).pixels, vec![1, 1, 1, 255]);
    let late = one_pixel(3, &[10, 20, 30, 40, 50, 60], &[7; 4]);
    assert!(has_whole_tables(&late));
    assert_eq!(decoded(&late).pixels, vec![40, 50, 60, 255]);
    assert!(has_whole_tables(b"no image"));
}

#[test]
fn empty_header_chunks_do_not_count() {
    for empty in 1..4 {
        let image = |color_type: u8, table: &[u8]| {
            let mut out = signature();
            for _ in 0..empty {
                out.extend(chunk(b"IHDR", &[]));
            }
            out.extend(one_pixel_chunks(color_type, table, &[]));
            out
        };
        for len in [4, 5, 769, 771] {
            let broken = image(3, &vec![7; len]);
            assert!(!has_whole_tables(&broken));
            assert!(matches!(decode_png(&broken), Err(TextureError::BrokenTable)));
            assert!(matches!(load_texture(Some(&broken)), Err(TextureError::BrokenTable)));
        }
        let whole = image(3, &[10, 20, 30, 40, 50, 60]);
        assert!(has_whole_tables(&whole));
        assert_eq!(decoded(&whole).pixels, vec![40, 50, 60, 255]);
        assert_eq!(decoded(&image(0, &[7; 4])).pixels, vec![1, 1, 1, 255]);
    }
    let mut nothing = signature();
    nothing.extend(chunk(b"IHDR", &[]));
    assert!(has_whole_tables(&nothing) && has_fitting_size(&nothing));
    assert!(matches!(decode_png(&nothing), Err(TextureError::Png(_))));
}

/// An image of which the first frame is one pixel.
fn one_pixel_of(width: u32, height: u32) -> Vec<u8> {
    let mut header = [width.to_be_bytes(), height.to_be_bytes()].concat();
    header.extend_from_slice(&[8, 0, 0, 0, 0]);
    let mut frame = vec![0, 0, 0, 0, 0, 0, 0, 1, 0, 0, 0, 1];
    frame.extend_from_slice(&[0; 14]);
    let mut out = signature();
    out.extend(chunk(b"IHDR", &header));
    out.extend(chunk(b"fcTL", &frame));
    out.extend(chunk(b"IDAT", &[0x78, 0x01, 1, 2, 0, 0xfd, 0xff, 0, 1, 0, 3, 0, 2]));
    out.extend(chunk(b"IEND", &[]));
    out
}

#[test]
fn images_that_no_buffer_holds_are_refused() {
    let small = one_pixel_of(3, 2);
    assert!(has_fitting_size(&small));
    let img = decoded(&small);
    assert_eq!((img.width, img.height, img.pixels), (1, 1, vec![1, 1, 1, 255]));
    let large = one_pixel_of(0x8000_0000, 0x8000_0000);
    assert!(!has_fitting_size(&large));
    assert!(matches!(decode_png(&large), Err(TextureError::TooLarge)));
    assert!(matches!(load_texture(Some(&large)), Err(TextureError::TooLarge)));
    assert!(!has_fitting_size(&one_pixel_of(u32::MAX, u32::MAX)));
    assert!(has_fitting_size(b"no image"));
}

#[test]
fn texture_errors() {
    assert!(matches!(load_texture(None), Err(TextureError::Missing)));
    assert!(matches!(load_texture(Some(b"no image")), Err(TextureError::Png(_))));
}

#[test]
fn animated_texture_shows_its_first_frame() {
    let data: Vec<u8> = (0..24).collect();
    let bytes = encode(2, 3, png::ColorType::Rgba, &data);
    match load_texture(Some(&bytes)) {
        Ok(img) => {
            assert_eq!((img.width, img.height), (2, 2));
            assert_eq!(img.pixels, (0..16).collect::<Vec<u8>>());
        }
        Err(_) => panic!("the texture was not loaded"),
    }
}

#[test]
fn wide_texture_stays_whole() {
    let data: Vec<u8> = (0..24).collect();
    match load_texture(Some(&encode(3, 2, png::ColorType::Rgba, &data))) {
        Ok(img) => assert_eq!((img.width, img.height, img.pixels.len()), (3, 2, 24)),
        Err(_) => panic!("the texture was not loaded"),
    }
}

#[test]
fn texture_cache_keeps_the_first() {
    let mut cache = TextureCache::new();
    cache.ensure_texture("a", Err(TextureError::Missing));
    assert!(!cache.has("a"));
    cache.ensure_texture("a", Ok(flat_image([1, 1, 1, 1])));
    cache.ensure_texture("a", Ok(flat_image([2, 2, 2, 2])));
    assert_eq!(cache.get("a").unwrap().get_pixel(0, 0), [1, 1, 1, 1]);
    assert!(cache.get("b").is_none());
}

// Palette

#[test]
fn palette_numbers_colors_in_order() {
    let mut p = Palette::default();
    assert_eq!(p.get_or_insert([1, 2, 3, 4]), 0);
    assert_eq!(p.get_or_insert([1, 2, 3, 5]), 1);
    assert_eq!(p.get_or_insert([1, 2, 3, 4]), 0);
    assert_eq!(p.colors, vec![[1, 2, 3, 4], [1, 2, 3, 5]]);
}

#[test]
fn full_palette_gives_the_nearest_color() {
    let mut p = Palette::default();
    for i in 0..256 {
        assert_eq!(p.get_or_insert([i as u8, 0, 0, 255]), i as u8);
    }
    assert_eq!(p.get_or_insert([10, 3, 0, 255]), 10);
    assert_eq!(p.get_or_insert([7, 0, 0, 0]), 7);
    assert_eq!(p.colors.len(), 256);
}

#[test]
fn nearest_prefers_the_first() {
    let p = Palette { colors: vec![[10, 0, 0, 0], [20, 0, 0, 0], [10, 0, 0, 9]] };
    assert_eq!(p.nearest([15, 0, 0, 0]), 0);
    assert_eq!(p.nearest([16, 0, 0, 0]), 1);
    assert_eq!(p.nearest([10, 0, 0, 9]), 0);
    assert_eq!(Palette::default().nearest([1, 2, 3, 4]), 0);
    let many: Vec<[u8; 4]> = (0..300).map(|i| [(i / 256) as u8, (i % 256) as u8, 0, 0]).collect();
    assert_eq!(Palette { colors: many }.nearest([1, 20, 0, 0]), 20);
}

// Grids

#[test]
fn coarse_bits() {
    let mut bitmask = [0u32; 128];
    assert_eq!(compute_coarse(&bitmask), 0);
    let v = 5 + 9 * 16 + 15 * 256;
    bitmask[v / 32] |= 1 << (v % 32);
    assert_eq!(compute_coarse(&bitmask), 1u64 << (1 + 2 * 4 + 3 * 16));
    assert_eq!(compute_coarse(&[u32::MAX; 128]), u64::MAX);
}

#[test]
fn default_grid_is_empty() {
    let g = VoxelGrid::default();
    assert_eq!(g.bitmask, [0u32; 128]);
    assert_eq!(g.coarse, 0);
    assert!(g.color_indices.is_empty());
    assert!(g.palette.colors.is_empty());
    assert!(!g.is_emissive);
}

// Fluids

#[test]
fn fluid_source_fills_the_block() {
    let g = voxelize_fluid(true, 0, &flat_image([1, 2, 3, 255]), &flat_image([4, 5, 6, 255]));
    assert_eq!(g.bitmask, [u32::MAX; 128]);
    assert_eq!(g.coarse, u64::MAX);
    assert_eq!(g.color_indices.len(), 4096);
    assert!(g.is_emissive);
    assert_eq!(color(&g, 8, 8, 8), [1, 2, 3, 255]);
    assert_eq!(color(&g, 0, 15, 0), [1, 2, 3, 255]);
    assert_eq!(color(&g, 0, 14, 0), [4, 5, 6, 255]);
    assert_eq!(color(&g, 8, 0, 15), [4, 5, 6, 255]);
}

#[test]
fn fluid_heights() {
    let img = flat_image([9, 9, 9, 255]);
    for (level, height) in [(0, 16), (1, 14), (4, 8), (7, 2), (8, 16), (15, 16)] {
        let g = voxelize_fluid(false, level, &img, &img);
        assert_eq!(g.color_indices.len(), 256 * height);
        assert!(solid(&g, 3, height - 1, 3));
        assert!(height == 16 || !solid(&g, 3, height, 3));
        assert!(!g.is_emissive);
    }
}

#[test]
fn water_is_tinted() {
    let img = flat_image([255, 255, 255, 200]);
    let g = voxelize_fluid(false, 0, &img, &img);
    assert_eq!(g.palette.colors, vec![[63, 118, 228, 200]]);
}

#[test]
fn fluid_texels() {
    let still = flat_image([0, 0, 0, 255]);
    let flow = chart(16, 16);
    let g = voxelize_fluid(true, 0, &still, &flow);
    assert_eq!(color(&g, 0, 5, 7), [7, 5, 0, 255]);
    assert_eq!(color(&g, 15, 2, 3), [3, 2, 0, 255]);
    assert_eq!(color(&g, 6, 4, 0), [6, 4, 0, 255]);
    let g = voxelize_fluid(true, 0, &flow, &still);
    assert_eq!(color(&g, 6, 4, 9), [6, 9, 0, 255]);
}

#[test]
fn fluids_need_their_texels() {
    let img = flat_image([1, 1, 1, 1]);
    let empty = RgbaImage { width: 0, height: 0, pixels: vec![] };
    let short = RgbaImage { width: 16, height: 16, pixels: vec![0; 4] };
    assert!(can_voxelize_fluid(0, &img, &img));
    assert!(!can_voxelize_fluid(0, &empty, &img));
    assert!(!can_voxelize_fluid(0, &img, &short));
}

#[test]
fn waterlogging_fills_and_keeps() {
    let mut g = VoxelGrid::default();
    g.bitmask[0] = 1 << 3;
    g.coarse = compute_coarse(&g.bitmask);
    let index = g.palette.get_or_insert([200, 10, 10, 255]);
    g.color_indices.push(index);
    g.is_emissive = true;
    let still = flat_image([255, 255, 255, 255]);
    let flow = flat_image([255, 0, 255, 255]);
    assert!(can_waterlog(&g, &still, &flow));
    apply_waterlogging(&mut g, &still, &flow);
    assert_eq!(g.bitmask, [u32::MAX; 128]);
    assert_eq!(g.coarse, u64::MAX);
    assert_eq!(g.color_indices.len(), 4096);
    assert!(g.is_emissive);
    assert_eq!(color(&g, 3, 0, 0), [200, 10, 10, 255]);
    assert_eq!(color(&g, 8, 15, 8), [63, 118, 228, 255]);
    assert_eq!(color(&g, 0, 15, 8), [63, 0, 228, 255]);
    assert_eq!(color(&g, 8, 3, 15), [63, 0, 228, 255]);
}

#[test]
fn waterlogging_without_a_color_number() {
    let mut g = VoxelGrid::default();
    g.bitmask[0] = 1;
    let img = flat_image([255, 255, 255, 255]);
    apply_waterlogging(&mut g, &img, &img);
    assert_eq!(g.color_indices[0], 0);
}

// Models

fn cache(images: &[(&str, [u8; 4])]) -> TextureCache {
    let mut c = TextureCache::new();
    for (name, rgba) in images {
        c.ensure_texture(name, Ok(flat_image(*rgba)));
    }
    c
}

fn quad(texture: &str, tint: Option<[u8; 3]>, voxels: &[usize]) -> QuadHits {
    QuadHits {
        texture: texture.to_string(),
        tint_color: tint,
        hits: voxels.iter().map(|&v| Hit { voxel: v, px: 0, py: 0 }).collect(),
    }
}

#[test]
fn samples_of_a_voxel_are_averaged() {
    let c = cache(&[("a", [10, 0, 0, 255]), ("b", [21, 0, 0, 100])]);
    let quads = [quad("a", None, &[7]), quad("b", None, &[7, 8])];
    assert!(can_voxelize(&quads, &c));
    let g = voxelize(&quads, &c);
    // The average is [15, 0, 0, 177], and the first texture is nearer to it.
    assert_eq!(color(&g, 7, 0, 0), [10, 0, 0, 255]);
    assert_eq!(color(&g, 8, 0, 0), [21, 0, 0, 100]);
    assert_eq!(g.color_indices.len(), 2);
    assert_eq!(g.coarse, 0b110);
    assert!(!g.is_emissive);
}

#[test]
fn averages_are_snapped_to_colors_of_the_textures() {
    let c = cache(&[("a", [0, 0, 0, 255]), ("b", [101, 101, 101, 255])]);
    let g = voxelize(&[quad("a", None, &[0]), quad("b", None, &[0])], &c);
    assert_eq!(color(&g, 0, 0, 0), [0, 0, 0, 255]);
    assert_eq!(g.palette.colors, vec![[0, 0, 0, 255]]);
    // Two of three samples draw the average to the other side.
    let quads = [quad("a", None, &[0]), quad("b", None, &[0]), quad("b", None, &[0])];
    assert_eq!(color(&voxelize(&quads, &c), 0, 0, 0), [101, 101, 101, 255]);
}

#[test]
fn averages_that_a_texture_has_stay() {
    let mut c = TextureCache::new();
    c.ensure_texture("chart", Ok(chart(16, 16)));
    let hits = vec![Hit { voxel: 5, px: 0, py: 0 }, Hit { voxel: 5, px: 4, py: 6 }];
    let q = QuadHits { texture: "chart".to_string(), tint_color: None, hits };
    let g = voxelize(&[q], &c);
    assert_eq!(color(&g, 5, 0, 0), [2, 3, 0, 255]);
}

#[test]
fn colors_that_differ_in_alpha_alone_stay_apart() {
    let mut img = flat_image([9, 9, 9, 40]);
    img.pixels[4..8].copy_from_slice(&[9, 9, 9, 255]);
    let mut c = TextureCache::new();
    c.ensure_texture("glass", Ok(img));
    let hits = vec![Hit { voxel: 0, px: 0, py: 0 }, Hit { voxel: 1, px: 1, py: 0 }];
    let q = QuadHits { texture: "glass".to_string(), tint_color: None, hits };
    let g = voxelize(&[q], &c);
    assert_eq!(color(&g, 0, 0, 0), [9, 9, 9, 40]);
    assert_eq!(color(&g, 1, 0, 0), [9, 9, 9, 255]);
}

#[test]
fn ties_go_to_the_lower_and_the_more_opaque_color() {
    let c = cache(&[("a", [10, 0, 0, 255]), ("b", [0, 0, 0, 255])]);
    let one = voxelize(&[quad("a", None, &[0]), quad("b", None, &[0])], &c);
    let two = voxelize(&[quad("b", None, &[0]), quad("a", None, &[0])], &c);
    assert_eq!(color(&one, 0, 0, 0), [0, 0, 0, 255]);
    assert_eq!(color(&two, 0, 0, 0), [0, 0, 0, 255]);

    let mut s = Swatch::new();
    s.insert([4, 4, 4, 0]);
    s.insert([4, 4, 4, 200]);
    s.insert([90, 90, 90, 255]);
    s.insert([4, 4, 4, 200]);
    assert_eq!(s.snap([5, 4, 4, 255]), [4, 4, 4, 200]);
    assert_eq!(s.snap([4, 4, 4, 0]), [4, 4, 4, 0]);
    assert_eq!(s.snap([200, 80, 80, 1]), [90, 90, 90, 255]);
}

#[test]
fn palette_has_tinted_colors() {
    let c = cache(&[("grass", [255, 100, 255, 255]), ("dirt", [50, 40, 30, 255])]);
    let quads = [
        quad("grass", Some([200, 51, 0]), &[]),
        quad("dirt", None, &[]),
        quad("missing", None, &[]),
    ];
    let s = collect_colors(&quads, &c);
    assert_eq!(s.snap([255, 100, 255, 255]), [200, 20, 0, 255]);
    assert_eq!(s.snap([50, 41, 30, 255]), [50, 40, 30, 255]);
}

#[test]
fn face_order_does_not_matter() {
    let c = cache(&[("a", [10, 200, 3, 255]), ("b", [21, 40, 5, 100])]);
    let one = voxelize(&[quad("a", None, &[7]), quad("b", Some([9, 99, 199]), &[7])], &c);
    let two = voxelize(&[quad("b", Some([9, 99, 199]), &[7]), quad("a", None, &[7])], &c);
    assert_eq!(color(&one, 7, 0, 0), color(&two, 7, 0, 0));
}

#[test]
fn transparent_and_missing_samples_leave_nothing() {
    let c = cache(&[("clear", [10, 0, 0, 0])]);
    let g = voxelize(&[quad("clear", None, &[0]), quad("missing", None, &[1])], &c);
    assert_eq!(g.bitmask, [0u32; 128]);
    assert!(g.color_indices.is_empty());
}

#[test]
fn tinted_overlay_lies_over_the_base() {
    let c = cache(&[("base", [100, 100, 100, 255]), ("grass", [255, 255, 255, 51])]);
    let quads = [quad("base", None, &[0]), quad("grass", Some([200, 50, 0]), &[0, 1])];
    let g = voxelize(&quads, &c);
    // The overlay gives [120, 90, 80, 255], which is nearest to the base.
    assert_eq!(color(&g, 0, 0, 0), [100, 100, 100, 255]);
    assert_eq!(color(&g, 1, 0, 0), [200, 50, 0, 51]);

    let mut base = flat_image([100, 100, 100, 255]);
    base.pixels[1020..].copy_from_slice(&[120, 90, 80, 255]);
    let mut c = TextureCache::new();
    c.ensure_texture("base", Ok(base));
    c.ensure_texture("grass", Ok(flat_image([255, 255, 255, 51])));
    assert_eq!(color(&voxelize(&quads, &c), 0, 0, 0), [120, 90, 80, 255]);
}

#[test]
fn hits_outside_the_brick_are_refused() {
    let c = cache(&[("a", [1, 1, 1, 1])]);
    assert!(!can_voxelize(&[quad("a", None, &[4096])], &c));
    assert!(can_voxelize(&[], &c));
}

#[test]
fn voxel_ranges() {
    assert_eq!(voxel_range(0, 16), (0, 15));
    assert_eq!(voxel_range(-3, 99), (0, 15));
    assert_eq!(voxel_range(4, 5), (4, 4));
    assert_eq!(voxel_range(20, -7), (15, 0));
    assert_eq!(voxel_range(i32::MIN, i32::MIN), (0, 0));
}

#[test]
fn faces_by_name() {
    assert_eq!(FaceDir::from_str("north"), Some(FaceDir::North));
    assert_eq!(FaceDir::from_str("south"), Some(FaceDir::South));
    assert_eq!(FaceDir::from_str("east"), Some(FaceDir::East));
    assert_eq!(FaceDir::from_str("west"), Some(FaceDir::West));
    assert_eq!(FaceDir::from_str("up"), Some(FaceDir::Up));
    assert_eq!(FaceDir::from_str("down"), Some(FaceDir::Down));
    assert_eq!(FaceDir::from_str("Up"), None);
}

#[test]
fn corners_of_faces() {
    let all = |d: FaceDir| -> Vec<(bool, bool, bool)> { (0..4).map(|k| d.corner(k)).collect() };
    let (f, t) = (false, true);
    assert_eq!(all(FaceDir::North), vec![(t, t, f), (f, t, f), (f, f, f), (t, f, f)]);
    assert_eq!(all(FaceDir::South), vec![(f, t, t), (t, t, t), (t, f, t), (f, f, t)]);
    assert_eq!(all(FaceDir::East), vec![(t, t, f), (t, t, t), (t, f, t), (t, f, f)]);
    assert_eq!(all(FaceDir::West), vec![(f, t, t), (f, t, f), (f, f, f), (f, f, t)]);
    assert_eq!(all(FaceDir::Up), vec![(f, t, f), (t, t, f), (t, t, t), (f, t, t)]);
    assert_eq!(all(FaceDir::Down), vec![(f, f, t), (t, f, t), (t, f, f), (f, f, f)]);
}

#[test]
fn axes_of_faces() {
    assert_eq!(FaceDir::North.axis(), 2);
    assert_eq!(FaceDir::East.axis(), 0);
    assert_eq!(FaceDir::Up.axis(), 1);
    assert_eq!(FaceDir::West.plane(), (2, 1));
    assert_eq!(FaceDir::South.plane(), (0, 1));
    assert_eq!(FaceDir::Down.plane(), (0, 2));
    assert!(FaceDir::South.is_at_end());
    assert!(!FaceDir::Down.is_at_end());
}

#[test]
fn texture_turns() {
    assert_eq!(inverse_turns(0), 0);
    assert_eq!(inverse_turns(90), 3);
    assert_eq!(inverse_turns(180), 2);
    assert_eq!(inverse_turns(270), 1);
    assert_eq!(inverse_turns(360), 0);
}

#[test]
fn only_faces_with_a_tint_index_are_tinted() {
    assert_eq!(face_tint(Some(0), [1, 2, 3]), Some([1, 2, 3]));
    assert_eq!(face_tint(Some(-1), [1, 2, 3]), Some([1, 2, 3]));
    assert_eq!(face_tint(None, [1, 2, 3]), None);
}

fn raw(parent: Option<&str>, textures: &[(&str, &str)], elements: Option<Vec<u8>>) -> RawModel<u8> {
    RawModel {
        parent: parent.map(|p| p.to_string()),
        textures: textures.iter().map(|(k, v)| (k.to_string(), v.to_string())).collect(),
        elements,
    }
}

#[test]
fn model_chain_inherits() {
    let mut chain: ModelChain<u8> = ModelChain::start("minecraft:block/stone");
    match chain.next() {
        ChainStep::Load(path) => assert_eq!(path, "assets/minecraft/models/block/stone.json"),
        _ => panic!("nothing to load"),
    }
    assert!(chain.take(Some(raw(Some("block/cube"), &[("all", "block/stone")], None))));
    match chain.next() {
        ChainStep::Load(path) => assert_eq!(path, "assets/minecraft/models/block/cube.json"),
        _ => panic!("nothing to load"),
    }
    assert!(chain.take(Some(raw(Some("builtin/x"), &[("all", "no"), ("up", "#all")], Some(vec![4])))));
    assert!(matches!(chain.next(), ChainStep::Finished));
    assert_eq!(chain.textures.get("all"), Some("block/stone"));
    assert_eq!(chain.textures.get("up"), Some("#all"));
    assert_eq!(chain.elements, Some(vec![4]));
}

#[test]
fn model_chain_ends() {
    let mut chain: ModelChain<u8> = ModelChain::start("a");
    assert!(!chain.take(None));
    assert!(!chain.take(Some(raw(None, &[], Some(vec![1])))));
    assert!(!chain.take(Some(raw(None, &[], Some(vec![2])))));
    assert_eq!(chain.elements, Some(vec![1]));
}

#[test]
fn model_chain_that_is_too_deep() {
    let mut chain: ModelChain<u8> = ModelChain::start("a");
    for _ in 0..64 {
        assert!(matches!(chain.next(), ChainStep::Load(_)));
        assert!(chain.take(Some(raw(Some("a"), &[], None))));
    }
    assert!(matches!(chain.next(), ChainStep::TooDeep));
}

#[test]
fn model_paths() {
    assert_eq!(model_path("minecraft:block/x"), "assets/minecraft/models/block/x.json");
}

#[test]
fn texture_variables_are_resolved() {
    let mut t = props(&[
        ("a", "#b"),
        ("b", "#c"),
        ("c", "block/stone"),
        ("loop", "#pool"),
        ("pool", "#loop"),
        ("lost", "#nowhere"),
    ]);
    resolve_textures(&mut t);
    assert_eq!(t.get("a"), Some("block/stone"));
    assert_eq!(t.get("b"), Some("block/stone"));
    assert_eq!(t.get("c"), Some("block/stone"));
    assert_eq!(t.get("loop"), Some("#pool"));
    assert_eq!(t.get("lost"), Some("#nowhere"));
}

#[test]
fn long_chain_of_texture_variables() {
    let mut t = Properties::new();
    for i in 0..16 {
        t.insert(format!("v{:02}", i), format!("#v{:02}", i + 1));
    }
    t.insert("v16".to_string(), "block/x".to_string());
    resolve_textures(&mut t);
    assert_eq!(t.get("v00"), Some("block/x"));
}

#[test]
fn textures_of_faces() {
    let t = props(&[("side", "minecraft:block/oak"), ("lost", "#x")]);
    assert_eq!(face_texture(&t, "#side"), Some("block/oak".to_string()));
    assert_eq!(face_texture(&t, "side"), Some("block/oak".to_string()));
    assert_eq!(face_texture(&t, "#lost"), None);
    assert_eq!(face_texture(&t, "#none"), None);
}

#[test]
fn faces_of_an_element() {
    let t = props(&[("side", "minecraft:block/oak"), ("lost", "#x")]);
    let face = |name: &str, texture: &str, n: u8| (name.to_string(), texture.to_string(), n);
    let faces = vec![
        face("up", "#side", 1),
        face("top", "#side", 2),
        face("north", "#lost", 3),
        face("down", "#none", 4),
        face("west", "side", 5),
    ];
    assert_eq!(
        face_list(faces, &t),
        vec![
            (FaceDir::Up, "block/oak".to_string(), 1),
            (FaceDir::West, "block/oak".to_string(), 5),
        ]
    );
    assert!(face_list(Vec::<(String, String, u8)>::new(), &t).is_empty());
}

#[test]
fn an_element_has_up_to_six_faces() {
    let t = props(&[("all", "block/stone")]);
    let names = ["down", "inner", "up", "north", "south", "Up", "east", "west", ""];
    let faces = names.iter().map(|n| (n.to_string(), "#all".to_string(), ())).collect();
    let dirs: Vec<FaceDir> = face_list(faces, &t).into_iter().map(|f| f.0).collect();
    assert_eq!(
        dirs,
        vec![
            FaceDir::Down,
            FaceDir::Up,
            FaceDir::North,
            FaceDir::South,
            FaceDir::East,
            FaceDir::West,
        ]
    );
}

// Block state files

#[test]
fn blockstate_paths() {
    assert_eq!(blockstate_path("stone"), "assets/minecraft/blockstates/stone.json");
}

#[test]
fn models_of_an_apply() {
    assert_eq!(
        model_from_apply(&Apply::Single(variant("minecraft:block/a", 90, 180))),
        ("block/a".to_string(), 90, 180)
    );
    assert_eq!(
        model_from_apply(&Apply::List(vec![variant("b", 1, 2), variant("c", 3, 4)])),
        ("b".to_string(), 1, 2)
    );
    assert_eq!(model_from_apply(&Apply::List(vec![])), (String::new(), 0, 0));
}

fn variants(keys: &[&str]) -> Vec<(String, Apply)> {
    keys.iter().map(|k| (k.to_string(), single(k))).collect()
}

#[test]
fn single_variant_always_applies() {
    assert_eq!(find_variant(&variants(&["axis=x"]), &props(&[("axis", "y")])), Some(0));
}

#[test]
fn best_variant_applies() {
    let p = props(&[("a", "1"), ("b", "2")]);
    assert_eq!(find_variant(&variants(&["a=1", "a=1,b=2", "b=2"]), &p), Some(1));
    assert_eq!(find_variant(&variants(&["a=2", "", "b=3"]), &p), Some(1));
    assert_eq!(find_variant(&variants(&["a=1", ""]), &p), Some(0));
    assert_eq!(find_variant(&variants(&["", "a=1"]), &p), Some(1));
    assert_eq!(find_variant(&variants(&["a=1", "b=2"]), &p), Some(0));
    assert_eq!(find_variant(&variants(&["a=2", "b=3"]), &p), None);
    assert_eq!(find_variant(&variants(&["a", "b"]), &p), None);
}

#[test]
fn variant_order_does_not_matter_without_ties() {
    let p = props(&[("a", "1"), ("b", "2")]);
    let one = variants(&["a=1", "a=1,b=2", ""]);
    let two = variants(&["", "a=1,b=2", "a=1"]);
    let i = find_variant(&one, &p).unwrap();
    let j = find_variant(&two, &p).unwrap();
    assert_eq!(one[i].0, two[j].0);
}

#[test]
fn conditions_of_parts() {
    let p = props(&[("north", "low"), ("up", "true")]);
    assert!(when_matches(&object(vec![("north", text("low|tall")), ("up", text("true"))]), &p));
    assert!(!when_matches(&object(vec![("north", text("tall")), ("up", text("true"))]), &p));
    assert!(!when_matches(&object(vec![("south", text("low"))]), &p));
    assert!(!when_matches(&object(vec![("up", WhenValue::Other)]), &p));
    assert!(when_matches(&WhenValue::Other, &p));
    assert!(when_matches(&object(vec![]), &p));
}

#[test]
fn alternative_conditions_of_parts() {
    let p = props(&[("north", "low")]);
    let tall = || object(vec![("north", text("tall"))]);
    let low = || object(vec![("north", text("low"))]);
    assert!(when_matches(&object(vec![("OR", WhenValue::List(vec![tall(), low()]))]), &p));
    assert!(!when_matches(&object(vec![("OR", WhenValue::List(vec![tall()]))]), &p));
    assert!(!when_matches(&object(vec![("OR", text("low"))]), &p));
}

#[test]
fn models_of_a_block_state_file() {
    let p = props(&[("north", "true")]);
    assert!(find_model(None, &p).is_empty());
    let file = BlockstateJson {
        variants: vec![],
        multipart: vec![
            MultipartEntry { when: None, apply: single("minecraft:post") },
            MultipartEntry {
                when: Some(object(vec![("north", text("true"))])),
                apply: single("arm"),
            },
            MultipartEntry {
                when: Some(object(vec![("south", text("true"))])),
                apply: single("other"),
            },
        ],
    };
    assert_eq!(
        find_model(Some(&file), &p),
        vec![("post".to_string(), 0, 0), ("arm".to_string(), 0, 0)]
    );
    let file = BlockstateJson { variants: variants(&["x=1", "north=true"]), multipart: vec![] };
    assert_eq!(find_model(Some(&file), &p), vec![("north=true".to_string(), 0, 0)]);
    let file = BlockstateJson { variants: variants(&["x=1", "x=2"]), multipart: vec![] };
    assert!(find_model(Some(&file), &p).is_empty());
}

// Block states

#[test]
fn tints_of_blocks() {
    assert_eq!(plains_tint("oak_leaves"), [0x77, 0xAB, 0x2F]);
    assert_eq!(plains_tint("vine"), [0x77, 0xAB, 0x2F]);
    assert_eq!(plains_tint("grass_block"), [0x91, 0xBD, 0x59]);
    assert_eq!(plains_tint("birch_leaves"), [0x91, 0xBD, 0x59]);
}

#[test]
fn emissive_blocks() {
    assert!(is_emissive("glowstone", &props(&[])));
    assert!(is_emissive("lava", &props(&[])));
    assert!(is_emissive("sculk_catalyst", &props(&[])));
    assert!(!is_emissive("stone", &props(&[("lit", "true")])));
    assert!(is_emissive("furnace", &props(&[("lit", "true")])));
    assert!(!is_emissive("furnace", &props(&[("lit", "false")])));
    assert!(!is_emissive("furnace", &props(&[])));
    assert!(is_emissive("redstone_torch", &props(&[])));
    assert!(!is_emissive("redstone_wall_torch", &props(&[("lit", "false")])));
    assert!(is_emissive("cave_vines", &props(&[("berries", "true")])));
    assert!(!is_emissive("cave_vines_plant", &props(&[])));
}

#[test]
fn numbers() {
    for s in ["0", "7", "+7", "007", "4294967295", "4294967296", "", "+", "-1", "1 ", "a", "++1", "99999999999999999999"] {
        assert_eq!(parse_number(s), s.parse::<u32>().ok(), "{}", s);
    }
}

#[test]
fn plans_of_block_states() {
    assert!(matches!(plan_block("air"), BlockPlan::Empty));
    assert!(matches!(plan_block("void_air"), BlockPlan::Empty));
    assert!(matches!(plan_block("cave_air"), BlockPlan::Empty));
    assert!(matches!(plan_block("water[level=3]"), BlockPlan::Fluid { is_lava: false, level: 3 }));
    assert!(matches!(plan_block("lava"), BlockPlan::Fluid { is_lava: true, level: 0 }));
    assert!(matches!(plan_block("water[level=x]"), BlockPlan::Fluid { is_lava: false, level: 0 }));
    match plan_block("log[axis=x]") {
        BlockPlan::Model { name, props } => {
            assert_eq!(name, "log");
            assert!(props.has("axis", "x"));
        }
        _ => panic!("no model"),
    }
}

#[test]
fn fluid_bricks() {
    assert_eq!(fluid_textures(true), ("block/lava_still", "block/lava_flow"));
    let c = cache(&[("block/water_still", [255, 255, 255, 255])]);
    assert!(can_carve_fluid(false, 0, &c));
    assert!(carve_fluid(false, 0, &c).color_indices.is_empty());
    let c = cache(&[("block/lava_still", [1, 1, 1, 255]), ("block/lava_flow", [2, 2, 2, 255])]);
    let g = carve_fluid(true, 7, &c);
    assert_eq!(g.color_indices.len(), 512);
    assert!(g.is_emissive);
}

#[test]
fn model_bricks() {
    let c = cache(&[
        ("a", [10, 20, 30, 255]),
        ("block/water_still", [255, 255, 255, 255]),
        ("block/water_flow", [255, 255, 255, 255]),
    ]);
    let wet = props(&[("waterlogged", "true")]);
    let quads = [quad("a", None, &[0])];
    assert!(can_carve_model(&quads, &c, &wet));
    let g = carve_model(&quads, &c, "sea_lantern", &wet);
    assert!(g.is_emissive);
    assert_eq!(g.color_indices.len(), 4096);
    assert_eq!(color(&g, 0, 0, 0), [10, 20, 30, 255]);
    assert_eq!(color(&g, 9, 9, 9), [63, 118, 228, 255]);
    let g = carve_model(&quads, &c, "stone", &props(&[("waterlogged", "false")]));
    assert!(!g.is_emissive);
    assert_eq!(g.color_indices.len(), 1);
    let g = carve_model(&[], &c, "sea_lantern", &wet);
    assert!(!g.is_emissive);
    assert!(g.color_indices.is_empty());
}

#[test]
fn archive_entries_are_remembered() {
    let mut c = EntryCache::new();
    assert_eq!(c.get("a"), None);
    assert_eq!(c.settle("a", None), None);
    assert_eq!(c.get("a"), None);
    assert_eq!(c.settle("a", Some(vec![1, 2])), Some(vec![1, 2]));
    assert_eq!(c.get("a"), Some(vec![1, 2]));
}

#[test]
fn cached_entries_stay_what_the_archive_holds() {
    let archive = |path: &str| match path {
        "a" => Some(vec![1, 2]),
        "b" => Some(vec![]),
        _ => None,
    };
    let mut c = EntryCache::new();
    for path in ["a", "b", "c", "a", "d", "b", "c", "a", "b"] {
        let answer = match c.get(path) {
            Some(bytes) => Some(bytes),
            None => c.settle(path, archive(path)),
        };
        assert_eq!(answer, archive(path));
    }
    assert_eq!(c.get("a"), Some(vec![1, 2]));
    assert_eq!(c.get("c"), None);
}
