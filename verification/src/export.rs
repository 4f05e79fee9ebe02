//! Reading single block states out of the files of a bake.

use vstd::prelude::*;

use crate::bytes;
use crate::carver::brick;
use crate::carver::geometry;
use crate::carver::grid;
use crate::carver::grid::VoxelGrid;
use crate::carver::materials;
use crate::carver::palette;
use crate::carver::palette::Palette;
use crate::reader::block_states;
use crate::reader::block_states::normalize_key;
use crate::reader::table;
use crate::reader::table::BlockStateTable;

verus! {

/// Why a file of a bake could not be read.
#[derive(Debug, PartialEq, Eq, Clone, Copy)]
pub enum ReadError {
    /// The file does not start as it should.
    BadMagic,
}

/// Whether a file starts with four bytes.
pub open spec fn starts_with(data: Seq<u8>, magic: Seq<u8>) -> bool {
    data.take(4) == magic
}

/// Whether a file starts with four bytes.
fn has_magic(data: &[u8], magic: &[u8; 4]) -> (r: bool)
    requires
        data@.len() >= 4,
    ensures
        r == starts_with(data@, magic@),
{
    if data[0] == magic[0] && data[1] == magic[1] && data[2] == magic[2] && data[3] == magic[3] {
        assert(data@.take(4) =~= magic@);
        true
    } else {
        assert(data@.take(4)[0] == data@[0] && data@.take(4)[1] == data@[1] && data@.take(4)[2]
            == data@[2] && data@.take(4)[3] == data@[3]);
        false
    }
}

/// The shape number that a geometry file holds for a block state.
pub open spec fn stored_shape_id(data: Seq<u8>, id: int) -> int {
    bytes::num16(data, 12 + 2 * id)
}

/// Where the shape of a block state starts in a geometry file.
pub open spec fn shape_start(data: Seq<u8>, id: int) -> int {
    12 + 2 * bytes::num32(data, 4) + 520 * stored_shape_id(data, id)
}

/// Whether a geometry file is long enough to look a block state up.
pub open spec fn geometry_complete(data: Seq<u8>, id: int) -> bool {
    &&& data.len() >= 4
    &&& starts_with(data, geometry::geometry_magic()) ==> {
        &&& 12 + 2 * id + 2 <= data.len()
        &&& shape_start(data, id) + 520 <= data.len()
    }
}

/// The shape that a geometry file holds for a block state.
pub open spec fn stored_shape(data: Seq<u8>, id: int) -> geometry::Shape {
    let start = shape_start(data, id);
    (
        bytes::num64(data, start) as u64,
        Seq::new(128, |i: int| bytes::num32(data, start + 8 + 4 * i) as u32),
    )
}

/// Whether a geometry file is long enough to look a block state up.
pub fn can_read_geometry(data: &[u8], block_id: u16) -> (r: bool)
    ensures
        r == geometry_complete(data@, block_id as int),
{
    if data.len() < 4 {
        return false;
    }
    let magic: [u8; 4] = [0x47u8, 0x45u8, 0x4Fu8, 0x4Du8];
    assert(magic@ =~= geometry::geometry_magic());
    if !has_magic(data, &magic) {
        return true;
    }
    if data.len() < 14 + 2 * block_id as usize {
        return false;
    }
    let count: u32 = bytes::read_le32(data, 4);
    let shape: u16 = bytes::read_le16(data, 12 + 2 * block_id as usize);
    12 + 2 * count as u64 + 520 * shape as u64 + 520 <= data.len() as u64
}

/// Looks a block state up in a geometry file: its coarse bitmask and bitmask.
pub fn read_geometry(data: &[u8], block_id: u16) -> (r: Result<(u64, [u32; 128]), ReadError>)
    requires
        geometry_complete(data@, block_id as int),
    ensures
        match r {
            Ok((coarse, bitmask)) => {
                &&& starts_with(data@, geometry::geometry_magic())
                &&& (coarse, bitmask@) == stored_shape(data@, block_id as int)
            },
            Err(ReadError::BadMagic) => !starts_with(data@, geometry::geometry_magic()),
        },
{
    let magic: [u8; 4] = [0x47u8, 0x45u8, 0x4Fu8, 0x4Du8];
    assert(magic@ =~= geometry::geometry_magic());
    assert(data.len() == data@.len());
    if !has_magic(data, &magic) {
        return Err(ReadError::BadMagic);
    }
    let count: usize = bytes::read_le32(data, 4) as usize;
    let shape: usize = bytes::read_le16(data, 12 + 2 * block_id as usize) as usize;
    let start: usize = 12 + 2 * count + 520 * shape;
    let coarse: u64 = bytes::read_le64(data, start);
    let mut bitmask: [u32; 128] = [0u32;128];
    let mut i: usize = 0;
    while i < 128
        invariant
            i <= 128,
            start + 520 <= data@.len(),
            data.len() == data@.len(),
            forall|j: int|
                0 <= j < i ==> #[trigger] bitmask@[j] == bytes::num32(data@, start + 8 + 4 * j),
        decreases 128 - i,
    {
        bitmask[i] = bytes::read_le32(data, start + 8 + 4 * i);
        i += 1;
    }
    assert(bitmask@ =~= stored_shape(data@, block_id as int).1);
    Ok((coarse, bitmask))
}

/// The payload number that a materials file holds for a block state.
pub open spec fn stored_color_id(data: Seq<u8>, id: int) -> int {
    bytes::num16(data, 12 + 2 * id)
}

/// Where the offset of the payload of a block state stands in a materials file.
pub open spec fn offset_place(data: Seq<u8>, id: int) -> int {
    12 + 2 * bytes::num32(data, 4) + 4 * (stored_color_id(data, id) - 1)
}

/// Where the payload of a block state starts in a materials file.
pub open spec fn payload_place(data: Seq<u8>, id: int) -> int {
    12 + 2 * bytes::num32(data, 4) + 4 * bytes::num32(data, 8) + bytes::num32(
        data,
        offset_place(data, id),
    )
}

/// How many palette numbers a payload announces.
pub open spec fn stored_solid(meta: int) -> int {
    meta / 256 % 65536
}

/// How many colours a payload announces. A full palette has no number of its
/// own and shows as zero.
pub open spec fn stored_colors(meta: int) -> int {
    let colors = meta / 16777216 % 256;
    if colors == 0 && stored_solid(meta) > 0 {
        256
    } else {
        colors
    }
}

/// Whether a materials file is long enough to look a block state up.
pub open spec fn materials_complete(data: Seq<u8>, id: int) -> bool {
    &&& data.len() >= 4
    &&& starts_with(data, materials::materials_magic()) ==> {
        &&& data.len() >= 12
        &&& 12 + 2 * id + 2 <= data.len()
        &&& stored_color_id(data, id) != 0 ==> {
            let p = payload_place(data, id);
            let meta = bytes::num32(data, p);
            &&& offset_place(data, id) + 4 <= data.len()
            &&& p + 4 <= data.len()
            &&& p + 4 + 4 * stored_colors(meta) + stored_solid(meta) <= data.len()
        }
    }
}

/// The colours of the payload at `p`.
pub open spec fn colors_at(data: Seq<u8>, p: int) -> Seq<Seq<u8>> {
    Seq::new(
        stored_colors(bytes::num32(data, p)) as nat,
        |i: int| data.subrange(p + 4 + 4 * i, p + 8 + 4 * i),
    )
}

/// The palette numbers of the payload at `p`.
pub open spec fn indices_at(data: Seq<u8>, p: int) -> Seq<u8> {
    let meta = bytes::num32(data, p);
    let start = p + 4 + 4 * stored_colors(meta);
    data.subrange(start, start + stored_solid(meta))
}

/// What a materials file holds for a block state: the palette, the palette
/// numbers, and whether it gives off light.
pub open spec fn stored_material(data: Seq<u8>, id: int) -> (Seq<Seq<u8>>, Seq<u8>, bool) {
    if stored_color_id(data, id) == 0 {
        (seq![], seq![], false)
    } else {
        let p = payload_place(data, id);
        (
            palette::with_colors(seq![], colors_at(data, p)),
            indices_at(data, p),
            bytes::num32(data, p) % 2 == 1,
        )
    }
}

/// Whether a materials file is long enough to look a block state up.
pub fn can_read_materials(data: &[u8], block_id: u16) -> (r: bool)
    ensures
        r == materials_complete(data@, block_id as int),
{
    if data.len() < 4 {
        return false;
    }
    let magic: [u8; 4] = [0x4Du8, 0x41u8, 0x54u8, 0x4Cu8];
    assert(magic@ =~= materials::materials_magic());
    if !has_magic(data, &magic) {
        return true;
    }
    if data.len() < 14 + 2 * block_id as usize {
        return false;
    }
    let color_id: u64 = bytes::read_le16(data, 12 + 2 * block_id as usize) as u64;
    if color_id == 0 {
        return true;
    }
    let size: u64 = data.len() as u64;
    let count: u64 = bytes::read_le32(data, 4) as u64;
    let payloads: u64 = bytes::read_le32(data, 8) as u64;
    let place: u64 = 12 + 2 * count + 4 * (color_id - 1);
    if place + 4 > size {
        return false;
    }
    let off: u64 = bytes::read_le32(data, place as usize) as u64;
    let p: u64 = 12 + 2 * count + 4 * payloads + off;
    if p + 4 > size {
        return false;
    }
    let (colors, solid) = payload_counts(bytes::read_le32(data, p as usize));
    p + 4 + 4 * colors as u64 + solid as u64 <= size
}

/// How many colours and palette numbers a payload announces.
fn payload_counts(meta: u32) -> (r: (usize, usize))
    ensures
        r.0 == stored_colors(meta as int),
        r.1 == stored_solid(meta as int),
        r.0 <= 256,
{
    let solid: usize = (meta / 256 % 65536) as usize;
    let colors: usize = (meta / 16777216 % 256) as usize;
    if colors == 0 && solid > 0 {
        (256, solid)
    } else {
        (colors, solid)
    }
}

/// Looks a block state up in a materials file: its palette and palette numbers,
/// and whether it gives off light.
pub fn read_materials(data: &[u8], block_id: u16) -> (r: Result<(Palette, Vec<u8>, bool), ReadError>)
    requires
        materials_complete(data@, block_id as int),
    ensures
        match r {
            Ok((pal, indices, emissive)) => {
                &&& starts_with(data@, materials::materials_magic())
                &&& (pal@, indices@, emissive) == stored_material(data@, block_id as int)
                &&& pal.wf()
            },
            Err(ReadError::BadMagic) => !starts_with(data@, materials::materials_magic()),
        },
{
    let magic: [u8; 4] = [0x4Du8, 0x41u8, 0x54u8, 0x4Cu8];
    assert(magic@ =~= materials::materials_magic());
    assert(data.len() == data@.len());
    if !has_magic(data, &magic) {
        return Err(ReadError::BadMagic);
    }
    let mut pal = Palette::default();
    let color_id: usize = bytes::read_le16(data, 12 + 2 * block_id as usize) as usize;
    if color_id == 0 {
        let indices: Vec<u8> = Vec::new();
        assert(indices@ =~= Seq::<u8>::empty());
        return Ok((pal, indices, false));
    }
    let count: usize = bytes::read_le32(data, 4) as usize;
    let payloads: usize = bytes::read_le32(data, 8) as usize;
    let off: usize = bytes::read_le32(data, 12 + 2 * count + 4 * (color_id - 1)) as usize;
    let p: usize = 12 + 2 * count + 4 * payloads + off;
    let meta: u32 = bytes::read_le32(data, p);
    let (colors, solid) = payload_counts(meta);
    let ghost stored = colors_at(data@, p as int);
    let mut i: usize = 0;
    assert(stored.take(0) =~= Seq::<Seq<u8>>::empty());
    while i < colors
        invariant
            i <= colors <= 256,
            data.len() == data@.len(),
            p + 4 + 4 * colors <= data@.len(),
            stored == colors_at(data@, p as int),
            stored.len() == colors,
            pal.wf(),
            pal@ == palette::with_colors(seq![], stored.take(i as int)),
        decreases colors - i,
    {
        let at: usize = p + 4 + 4 * i;
        let color: [u8; 4] = [data[at], data[at + 1], data[at + 2], data[at + 3]];
        proof {
            assert(color@ =~= stored[i as int]);
            assert(stored.take(i + 1).drop_last() =~= stored.take(i as int));
            assert(stored.take(i + 1).last() == color@);
        }
        pal.get_or_insert(color);
        i += 1;
    }
    assert(stored.take(colors as int) =~= stored);
    let start: usize = p + 4 + 4 * colors;
    let indices = bytes::copy_range(data, start, start + solid);
    Ok((pal, indices, meta % 2 == 1))
}

/// The number of the block state with a key, whose properties may stand in any order.
pub fn find_block(table_file: &[u8], key: &str) -> (r: Option<u16>)
    requires
        table::file_fits(table_file@),
        table::has_magic(table_file@),
        table::entries_are_text(table_file@, 8, table::entry_count(table_file@)),
        block_states::key_parses(key@),
    ensures
        ({
            let numbers = table::table_of(table::file_entries(table_file@));
            let normal = block_states::normal_key(key@);
            r == if numbers.contains_key(normal) {
                Some(numbers[normal])
            } else {
                None
            }
        }),
{
    let normal = normalize_key(key);
    BlockStateTable::load(table_file).lookup(normal.as_str())
}

/// Why a block state could not be read out of the files of a bake.
#[derive(Debug, PartialEq, Eq, Clone, Copy)]
pub enum ExportError {
    /// The geometry file does not start as it should.
    BadGeometry,
    /// The materials file does not start as it should.
    BadMaterials,
}

/// The grid of a block state, read out of the geometry and the materials file.
pub fn read_grid(geometry_file: &[u8], materials_file: &[u8], block_id: u16) -> (r: Result<
    VoxelGrid,
    ExportError,
>)
    requires
        geometry_complete(geometry_file@, block_id as int),
        starts_with(geometry_file@, geometry::geometry_magic()) ==> materials_complete(
            materials_file@,
            block_id as int,
        ),
    ensures
        match r {
            Ok(grid) => {
                &&& starts_with(geometry_file@, geometry::geometry_magic())
                &&& starts_with(materials_file@, materials::materials_magic())
                &&& (grid.coarse, grid.bitmask@) == stored_shape(geometry_file@, block_id as int)
                &&& (grid.palette@, grid.color_indices@, grid.is_emissive) == stored_material(
                    materials_file@,
                    block_id as int,
                )
            },
            Err(ExportError::BadGeometry) => !starts_with(
                geometry_file@,
                geometry::geometry_magic(),
            ),
            Err(ExportError::BadMaterials) => starts_with(
                geometry_file@,
                geometry::geometry_magic(),
            ) && !starts_with(materials_file@, materials::materials_magic()),
        },
{
    match read_geometry(geometry_file, block_id) {
        Err(_) => Err(ExportError::BadGeometry),
        Ok((coarse, bitmask)) => match read_materials(materials_file, block_id) {
            Err(_) => Err(ExportError::BadMaterials),
            Ok((palette, color_indices, is_emissive)) => Ok(
                VoxelGrid { bitmask, coarse, color_indices, palette, is_emissive },
            ),
        },
    }
}

/// A part of a part.
proof fn lemma_subrange_of(data: Seq<u8>, base: int, part: Seq<u8>, from: int, to: int)
    requires
        0 <= base,
        base + part.len() <= data.len(),
        data.subrange(base, base + part.len()) == part,
        0 <= from <= to <= part.len(),
    ensures
        data.subrange(base + from, base + to) == part.subrange(from, to),
{
    let whole = data.subrange(base, base + part.len());
    assert(data.subrange(base + from, base + to) =~= whole.subrange(from, to));
}

/// A shape reads back from where it stands.
proof fn lemma_shape_reads(data: Seq<u8>, start: int, shape: geometry::Shape)
    requires
        0 <= start,
        start + 520 <= data.len(),
        shape.1.len() == 128,
        data.subrange(start, start + 520) == geometry::shape_bytes(shape),
    ensures
        bytes::num64(data, start) == shape.0,
        Seq::new(128, |i: int| bytes::num32(data, start + 8 + 4 * i) as u32) == shape.1,
{
    let part = geometry::shape_bytes(shape);
    bytes::lemma_flat32_len(shape.1);
    assert(part.len() == 520);
    lemma_subrange_of(data, start, part, 0, 8);
    assert(part.subrange(0, 8) =~= bytes::le64(shape.0 as int));
    bytes::lemma_le64(data, start, shape.0 as int);
    lemma_subrange_of(data, start, part, 8, 520);
    assert(part.subrange(8, 520) =~= bytes::flat32(shape.1));
    assert forall|i: int| 0 <= i < 128 implies bytes::num32(data, start + 8 + 4 * i) == shape.1[i] by {
        bytes::lemma_flat32_at(data, start + 8, shape.1, i);
    }
    assert(Seq::new(128, |i: int| bytes::num32(data, start + 8 + 4 * i) as u32) =~= shape.1);
}

/// The bitmasks that were written last for a block state.
pub open spec fn written_shape(results: Seq<(u16, VoxelGrid)>, id: int) -> geometry::Shape {
    match geometry::last_result(results, id) {
        Some(k) => (results[k].1.coarse, results[k].1.bitmask@),
        None => (0u64, geometry::no_voxels()),
    }
}

/// The shape number of a block state names the bitmasks that were written last for it.
proof fn lemma_shape_id_names(results: Seq<(u16, VoxelGrid)>, id: int)
    requires
        geometry::shapes_of(results).len() <= 65536,
        forall|i: int|
            0 <= i < results.len() ==> grid::is_coarse(
                (#[trigger] results[i]).1.bitmask@,
                results[i].1.coarse,
            ),
    ensures
        ({
            let number = geometry::shape_id(results, id) as int;
            &&& number < geometry::shapes_of(results).len()
            &&& geometry::shapes_of(results)[number] == written_shape(results, id)
        }),
{
    let shapes = geometry::shapes_of(results);
    let number = geometry::shape_id(results, id) as int;
    geometry::law_shapes_distinct(results);
    if let Some(k) = geometry::last_result(results, id) {
        geometry::lemma_last_result(results, id);
        geometry::lemma_shape_of_result(results, k);
        grid::law_coarse_is_unique(results[k].1.bitmask@, results[k].1.coarse, shapes[number].0);
    }
}

/// A shape reads back from a file with the parts of a geometry file.
proof fn lemma_geometry_reads(
    data: Seq<u8>,
    ids: Seq<u16>,
    table: Seq<u8>,
    id: int,
    shape: geometry::Shape,
)
    requires
        data.len() == 12 + 2 * ids.len() as int + table.len(),
        data.subrange(4, 8) == bytes::le32(ids.len() as int),
        data.subrange(12, 12 + 2 * ids.len() as int) == bytes::flat16(ids),
        data.subrange(12 + 2 * ids.len() as int, 12 + 2 * ids.len() as int + table.len()) == table,
        ids.len() < 4294967296,
        0 <= id < ids.len(),
        520 * ids[id] + 520 <= table.len(),
        table.subrange(520 * ids[id], 520 * ids[id] + 520) == geometry::shape_bytes(shape),
        shape.1.len() == 128,
    ensures
        geometry_complete(data, id),
        stored_shape(data, id) == shape,
{
    let base = 12 + 2 * ids.len() as int;
    let number = ids[id] as int;
    bytes::lemma_le32(data, 4, ids.len() as int);
    assert(bytes::num32(data, 4) == ids.len());
    bytes::lemma_flat16_at(data, 12, ids, id);
    assert(stored_shape_id(data, id) == number);
    lemma_subrange_of(data, base, table, 520 * number, 520 * number + 520);
    assert(shape_start(data, id) == base + 520 * number);
    lemma_shape_reads(data, base + 520 * number, shape);
}

/// A file with the parts of a geometry file gives a block state the bitmasks
/// that were written last for it.
proof fn lemma_geometry_file_reads(
    data: Seq<u8>,
    results: Seq<(u16, VoxelGrid)>,
    count: nat,
    id: int,
)
    requires
        geometry::has_parts(data, results, count),
        count < 4294967296,
        geometry::shapes_of(results).len() <= 65536,
        forall|i: int|
            0 <= i < results.len() ==> grid::is_coarse(
                (#[trigger] results[i]).1.bitmask@,
                results[i].1.coarse,
            ),
        0 <= id < count,
    ensures
        geometry_complete(data, id),
        starts_with(data, geometry::geometry_magic()),
        stored_shape(data, id) == written_shape(results, id),
{
    let ids = geometry::shape_ids(results, count);
    let table = geometry::shape_table(geometry::shapes_of(results));
    let number = geometry::shape_id(results, id) as int;
    lemma_shape_id_names(results, id);
    geometry::lemma_shape_place(results, number);
    assert(ids[id] == number);
    lemma_geometry_reads(data, ids, table, id, written_shape(results, id));
}

/// A geometry file gives every block state the bitmasks that were written for
/// it last, and empty ones where none were written. (The coarse bitmasks have
/// to belong to the bitmasks, since a bitmask is stored with one of them, and
/// the numbers have to fit their fields.)
pub proof fn law_geometry_round_trip(results: Seq<(u16, VoxelGrid)>, count: nat, id: int)
    requires
        geometry::ids_below(results, count),
        count < 4294967296,
        geometry::shapes_of(results).len() <= 65536,
        forall|i: int|
            0 <= i < results.len() ==> grid::is_coarse(
                (#[trigger] results[i]).1.bitmask@,
                results[i].1.coarse,
            ),
        0 <= id < count,
    ensures
        geometry_complete(geometry::geometry_bytes(results, count), id),
        starts_with(geometry::geometry_bytes(results, count), geometry::geometry_magic()),
        stored_shape(geometry::geometry_bytes(results, count), id) == written_shape(results, id),
{
    geometry::lemma_geometry_layout(results, count);
    lemma_geometry_file_reads(geometry::geometry_bytes(results, count), results, count, id);
}

/// The counts and the flag read back from the first word of a payload.
proof fn lemma_meta_word(colors: nat, solid: nat, emissive: bool)
    requires
        1 <= colors <= 256,
        1 <= solid < 65536,
    ensures
        0 <= brick::meta_word(colors, solid, emissive) < 4294967296,
        stored_colors(brick::meta_word(colors, solid, emissive)) == colors,
        stored_solid(brick::meta_word(colors, solid, emissive)) == solid,
        (brick::meta_word(colors, solid, emissive) % 2 == 1) == emissive,
{
    let meta = brick::meta_word(colors, solid, emissive);
    let c = (colors % 256) as int;
    let flag = if emissive {
        1int
    } else {
        0int
    };
    assert(meta == 16777216 * c + 256 * solid + flag);
    assert(meta / 256 == 65536 * c + solid);
    assert(meta / 16777216 == c);
}

/// A payload reads back from where it stands.
proof fn lemma_payload_reads(
    data: Seq<u8>,
    p: int,
    pal: Seq<Seq<u8>>,
    indices: Seq<u8>,
    emissive: bool,
)
    requires
        0 <= p,
        p + brick::payload_bytes(pal, indices, emissive).len() <= data.len(),
        data.subrange(p, p + brick::payload_bytes(pal, indices, emissive).len())
            == brick::payload_bytes(pal, indices, emissive),
        1 <= pal.len() <= 256,
        1 <= indices.len() < 65536,
        forall|i: int| 0 <= i < pal.len() ==> #[trigger] pal[i].len() == 4,
    ensures
        bytes::num32(data, p) == brick::meta_word(pal.len(), indices.len(), emissive),
        colors_at(data, p) == pal,
        indices_at(data, p) == indices,
        p + 4 + 4 * pal.len() + indices.len() <= data.len(),
{
    let part = brick::payload_bytes(pal, indices, emissive);
    let meta = brick::meta_word(pal.len(), indices.len(), emissive);
    let f = |c: Seq<u8>| c;
    let flat = brick::palette_bytes(pal);
    let n = pal.len() as int;
    assert forall|i: int| 0 <= i < pal.len() implies f(#[trigger] pal[i]).len() == 4 by {}
    bytes::lemma_rows_width(pal, f, 4);
    assert(flat.len() == 4 * n);
    lemma_meta_word(pal.len(), indices.len(), emissive);
    lemma_subrange_of(data, p, part, 0, 4);
    assert(part.subrange(0, 4) =~= bytes::le32(meta));
    bytes::lemma_le32(data, p, meta);
    assert(bytes::num32(data, p) == meta);
    lemma_subrange_of(data, p, part, 4, 4 + 4 * n);
    assert(part.subrange(4, 4 + 4 * n) =~= flat);
    assert forall|i: int| 0 <= i < n implies colors_at(data, p)[i] == pal[i] by {
        bytes::lemma_rows_at(pal, f, i);
        assert forall|j: int| 0 <= j < pal.take(i).len() implies f(
            #[trigger] pal.take(i)[j],
        ).len() == 4 by {
            assert(pal.take(i)[j] == pal[j]);
        }
        bytes::lemma_rows_width(pal.take(i), f, 4);
        lemma_subrange_of(data, p + 4, flat, 4 * i, 4 * i + 4);
    }
    assert(colors_at(data, p) =~= pal);
    lemma_subrange_of(data, p, part, 4 + 4 * n, part.len() as int);
    assert(part.subrange(4 + 4 * n, part.len() as int) =~= indices);
}

/// The payload number, and where the payload starts, read back from a file with
/// the parts of a materials file.
proof fn lemma_payload_place_reads(data: Seq<u8>, ids: Seq<u16>, starts: Seq<u32>, id: int)
    requires
        ids.len() < 4294967296,
        starts.len() < 4294967296,
        12 + 2 * ids.len() as int + 4 * starts.len() as int <= data.len(),
        data.subrange(4, 8) == bytes::le32(ids.len() as int),
        data.subrange(8, 12) == bytes::le32(starts.len() as int),
        data.subrange(12, 12 + 2 * ids.len() as int) == bytes::flat16(ids),
        data.subrange(
            12 + 2 * ids.len() as int,
            12 + 2 * ids.len() as int + 4 * starts.len() as int,
        ) == bytes::flat32(starts),
        0 <= id < ids.len(),
        1 <= ids[id] <= starts.len(),
    ensures
        stored_color_id(data, id) == ids[id],
        offset_place(data, id) + 4 <= data.len(),
        payload_place(data, id) == 12 + 2 * ids.len() as int + 4 * starts.len() as int
            + starts[ids[id] - 1],
{
    let base = 12 + 2 * ids.len() as int;
    let number = ids[id] - 1;
    bytes::lemma_le32(data, 4, ids.len() as int);
    assert(bytes::num32(data, 4) == ids.len());
    bytes::lemma_le32(data, 8, starts.len() as int);
    assert(bytes::num32(data, 8) == starts.len());
    bytes::lemma_flat16_at(data, 12, ids, id);
    assert(stored_color_id(data, id) == ids[id]);
    bytes::lemma_flat32_at(data, base, starts, number);
    assert(offset_place(data, id) == base + 4 * number);
}

/// A payload reads back from where a materials file says that it starts.
proof fn lemma_material_reads(
    data: Seq<u8>,
    id: int,
    pal: Seq<Seq<u8>>,
    indices: Seq<u8>,
    emissive: bool,
)
    requires
        data.len() >= 12,
        0 <= id,
        12 + 2 * id + 2 <= data.len(),
        stored_color_id(data, id) != 0,
        offset_place(data, id) + 4 <= data.len(),
        0 <= payload_place(data, id),
        payload_place(data, id) + brick::payload_bytes(pal, indices, emissive).len()
            <= data.len(),
        data.subrange(
            payload_place(data, id),
            payload_place(data, id) + brick::payload_bytes(pal, indices, emissive).len(),
        ) == brick::payload_bytes(pal, indices, emissive),
        palette::palette_ok(pal),
        1 <= pal.len(),
        1 <= indices.len() < 65536,
        forall|i: int| 0 <= i < pal.len() ==> #[trigger] pal[i].len() == 4,
    ensures
        materials_complete(data, id),
        stored_material(data, id) == (pal, indices, emissive),
{
    let p = payload_place(data, id);
    lemma_payload_reads(data, p, pal, indices, emissive);
    lemma_meta_word(pal.len(), indices.len(), emissive);
    palette::law_palette_rebuilds(pal);
}

/// The colours that were written last for a block state.
pub open spec fn written_material(results: Seq<(u16, VoxelGrid)>, id: int) -> (
    Seq<Seq<u8>>,
    Seq<u8>,
    bool,
) {
    match materials::last_colored(results, id) {
        Some(k) => (
            results[k].1.palette@,
            results[k].1.color_indices@,
            results[k].1.is_emissive,
        ),
        None => (seq![], seq![], false),
    }
}

/// A file with the parts of a materials file gives a block state the colours
/// that were written last for it.
proof fn lemma_materials_file_reads(
    data: Seq<u8>,
    results: Seq<(u16, VoxelGrid)>,
    count: nat,
    id: int,
)
    requires
        materials::has_parts(data, results, count),
        count < 4294967296,
        materials::materials_fit(results),
        forall|i: int| 0 <= i < results.len() ==> (#[trigger] results[i]).1.wf(),
        0 <= id < count,
    ensures
        materials_complete(data, id),
        starts_with(data, materials::materials_magic()),
        stored_material(data, id) == written_material(results, id),
{
    let ids = materials::color_ids(results, count);
    let payloads = materials::payloads_of(results);
    let starts = materials::payload_starts(payloads);
    let blob = materials::payload_data(payloads);
    let from = 12 + 2 * count as int + 4 * payloads.len() as int;
    materials::lemma_payload_found(results, id);
    assert(ids[id] == materials::color_id(results, id));
    match materials::last_colored(results, id) {
        Some(k) => {
            let grid = results[k].1;
            let payload = materials::payload_of(grid);
            let at = starts[ids[id] - 1] as int;
            assert(grid.wf());
            assert forall|i: int| 0 <= i < grid.palette@.len() implies #[trigger] grid.palette@[i].len()
                == 4 by {
                assert(grid.palette@[i] == grid.palette.colors@[i]@);
            }
            lemma_payload_place_reads(data, ids, starts, id);
            lemma_subrange_of(data, from, blob, at, at + payload.len());
            lemma_material_reads(
                data,
                id,
                grid.palette@,
                grid.color_indices@,
                grid.is_emissive,
            );
        },
        None => {
            bytes::lemma_flat16_at(data, 12, ids, id);
            assert(stored_color_id(data, id) == 0);
        },
    }
}

/// A materials file gives every block state the colours that were written for
/// it last, and none where none were written. (The grids have to fit together,
/// and the numbers have to fit their fields.)
pub proof fn law_materials_round_trip(results: Seq<(u16, VoxelGrid)>, count: nat, id: int)
    requires
        geometry::ids_below(results, count),
        count < 4294967296,
        materials::materials_fit(results),
        forall|i: int| 0 <= i < results.len() ==> (#[trigger] results[i]).1.wf(),
        0 <= id < count,
    ensures
        materials_complete(materials::materials_bytes(results, count), id),
        starts_with(materials::materials_bytes(results, count), materials::materials_magic()),
        stored_material(materials::materials_bytes(results, count), id) == written_material(
            results,
            id,
        ),
{
    materials::lemma_materials_layout(results, count);
    lemma_materials_file_reads(materials::materials_bytes(results, count), results, count, id);
}

/// The last result for a block state is its only one.
proof fn lemma_only_result(results: Seq<(u16, VoxelGrid)>, i: int)
    requires
        0 <= i < results.len(),
        forall|j: int, k: int|
            0 <= j < k < results.len() ==> (#[trigger] results[j]).0 != (#[trigger] results[k]).0,
    ensures
        geometry::last_result(results, results[i].0 as int) == Some(i),
        materials::last_colored(results, results[i].0 as int) == if materials::is_colored(
            results[i].1,
        ) {
            Some(i)
        } else {
            None
        },
    decreases results.len(),
{
    let last = results.len() - 1;
    let front = results.drop_last();
    let id = results[i].0 as int;
    if i < last {
        assert(results[i].0 != results[last].0);
        assert forall|j: int, k: int| 0 <= j < k < front.len() implies (#[trigger] front[j]).0 != (
        #[trigger] front[k]).0 by {
            assert(results[j].0 != results[k].0);
        }
        lemma_only_result(front, i);
        assert(front[i] == results[i]);
    } else {
        lemma_no_result(front, id);
    }
}

/// A block state without results has no last one.
proof fn lemma_no_result(results: Seq<(u16, VoxelGrid)>, id: int)
    requires
        forall|j: int| 0 <= j < results.len() ==> (#[trigger] results[j]).0 != id,
    ensures
        geometry::last_result(results, id) is None,
        materials::last_colored(results, id) is None,
    decreases results.len(),
{
    if results.len() > 0 {
        let front = results.drop_last();
        assert forall|j: int| 0 <= j < front.len() implies (#[trigger] front[j]).0 != id by {
            assert(results[j].0 != id);
        }
        lemma_no_result(front, id);
        assert(results[results.len() - 1].0 != id);
    }
}

/// The three files of a bake agree: the table file gives the key of a block
/// state its number, and under that number the other files hold its bitmasks
/// and its colours.
pub proof fn law_files_agree(
    entries: Seq<table::EntryView>,
    results: Seq<(u16, VoxelGrid)>,
    count: nat,
    i: int,
)
    requires
        0 <= i < entries.len() < 4294967296,
        entries.len() == results.len(),
        forall|j: int| 0 <= j < entries.len() ==> (#[trigger] results[j]).0 == entries[j].0,
        forall|j: int, k: int|
            0 <= j < k < entries.len() ==> (#[trigger] entries[j]).0 != (#[trigger] entries[k]).0
                && entries[j].1 != entries[k].1,
        forall|j: int|
            0 <= j < entries.len() ==> vstd::utf8::encode_utf8(#[trigger] entries[j].1).len()
                < 65536,
        forall|j: int| 0 <= j < results.len() ==> (#[trigger] results[j]).1.wf(),
        geometry::ids_below(results, count),
        count < 4294967296,
        geometry::shapes_of(results).len() <= 65536,
        materials::materials_fit(results),
    ensures
        ({
            let numbers = table::table_of(table::file_entries(table::file_bytes(entries)));
            let id = entries[i].0 as int;
            let grid = results[i].1;
            &&& numbers.contains_key(entries[i].1)
            &&& numbers[entries[i].1] == id
            &&& stored_shape(geometry::geometry_bytes(results, count), id) == (
                grid.coarse,
                grid.bitmask@,
            )
            &&& stored_material(materials::materials_bytes(results, count), id)
                == if materials::is_colored(grid) {
                (grid.palette@, grid.color_indices@, grid.is_emissive)
            } else {
                (seq![], seq![], false)
            }
        }),
{
    let id = entries[i].0 as int;
    table::law_table_file_round_trip(entries);
    assert forall|j: int| i < j < entries.len() implies #[trigger] entries[j].1 != entries[i].1 by {
        assert(entries[i].0 != entries[j].0);
    }
    table::law_table_lookup(entries, i);
    assert forall|j: int, k: int| 0 <= j < k < results.len() implies (#[trigger] results[j]).0 != (
    #[trigger] results[k]).0 by {
        assert(entries[j].0 != entries[k].0);
    }
    lemma_only_result(results, i);
    assert(results[i].0 == entries[i].0);
    assert((results[i].0 as int) < count);
    assert forall|j: int| 0 <= j < results.len() implies grid::is_coarse(
        (#[trigger] results[j]).1.bitmask@,
        results[j].1.coarse,
    ) by {
        assert(results[j].1.wf());
    }
    law_geometry_round_trip(results, count, id);
    law_materials_round_trip(results, count, id);
}

/// The counts that are written with a brick are read back. A full palette, whose
/// count does not fit, is told from an empty one by the voxels.
pub proof fn law_counts_are_read_back(colors: nat, solid: nat, emissive: bool)
    requires
        colors <= 256,
        solid < 65536,
        colors == 256 ==> solid > 0,
        colors == 0 ==> solid == 0,
    ensures
        stored_colors(brick::meta_word(colors, solid, emissive)) == colors,
        stored_solid(brick::meta_word(colors, solid, emissive)) == solid,
        brick::meta_word(colors, solid, emissive) % 2 == 1 <==> emissive,
{
}

/// A brick gives off light exactly if the lowest bit of its first byte says so,
/// and a block state without colors gives off none.
pub proof fn law_light_is_the_lowest_bit(data: Seq<u8>, id: int)
    ensures
        stored_color_id(data, id) == 0 ==> !stored_material(data, id).2,
        stored_color_id(data, id) != 0 ==> (stored_material(data, id).2 <==> data[payload_place(
            data,
            id,
        )] % 2 == 1),
{
}

} // verus!
