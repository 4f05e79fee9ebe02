//! Grids as MagicaVoxel files.
//!
//! The file holds a `MAIN` chunk with the size of the model, its voxels and its
//! palette. Height is the third coordinate there, and palette numbers start at 1.

use vstd::prelude::*;

use crate::bytes;
use crate::carver::grid;
use crate::carver::grid::{solid_at, VoxelGrid, BRICK_VOXELS};

verus! {

/// A chunk: its name, the lengths of its content and of its children, and these.
pub open spec fn chunk_bytes(id: Seq<u8>, content: Seq<u8>, children: Seq<u8>) -> Seq<u8> {
    id + bytes::le32(content.len() as int) + bytes::le32(children.len() as int) + content + children
}

/// A chunk: its name, the lengths of its content and of its children, and these.
pub fn chunk(id: &[u8; 4], content: &[u8], children: &[u8]) -> (r: Vec<u8>)
    ensures
        r@ == chunk_bytes(id@, content@, children@),
{
    let mut v: Vec<u8> = Vec::new();
    bytes::append(&mut v, id);
    bytes::append_low32(&mut v, content.len());
    bytes::append_low32(&mut v, children.len());
    bytes::append(&mut v, content);
    bytes::append(&mut v, children);
    assert(v@ =~= chunk_bytes(id@, content@, children@));
    v
}

/// The palette number of the solid voxel with `rank` solid voxels before it, or
/// the first number if there is none for it.
pub open spec fn number_at(indices: Seq<u8>, rank: int) -> u8 {
    if rank < indices.len() {
        indices[rank]
    } else {
        0
    }
}

/// The four bytes of voxel `v`: `x`, `z`, `y` and the palette number, from 1 on.
pub open spec fn voxel_bytes(bitmask: Seq<u32>, indices: Seq<u8>, v: int) -> Seq<u8> {
    seq![
        (v % 16) as u8,
        (v / 256) as u8,
        (v / 16 % 16) as u8,
        (number_at(indices, grid::count_solid(bitmask, v) as int) + 1) as u8,
    ]
}

/// The solid voxels among the first `n`.
pub open spec fn voxels_upto(bitmask: Seq<u32>, indices: Seq<u8>, n: int) -> Seq<u8>
    decreases n,
{
    if n <= 0 {
        seq![]
    } else if grid::is_solid(bitmask, n - 1) {
        voxels_upto(bitmask, indices, n - 1) + voxel_bytes(bitmask, indices, n - 1)
    } else {
        voxels_upto(bitmask, indices, n - 1)
    }
}

/// The 256 opaque colours of a palette. Those that it lacks are zero.
pub open spec fn full_palette(palette: Seq<Seq<u8>>) -> Seq<u8> {
    Seq::new(
        1024,
        |i: int|
            if i / 4 < palette.len() {
                if i % 4 == 3 {
                    255u8
                } else {
                    palette[i / 4][i % 4]
                }
            } else {
                0u8
            },
    )
}

/// Whether the palette number of every solid voxel can be counted from 1 on.
pub open spec fn numbers_fit(bitmask: Seq<u32>, indices: Seq<u8>) -> bool {
    forall|v: int|
        0 <= v < BRICK_VOXELS && #[trigger] grid::is_solid(bitmask, v) ==> number_at(
            indices,
            grid::count_solid(bitmask, v) as int,
        ) < 255
}

/// The chunk with the size of a brick.
pub open spec fn size_chunk() -> Seq<u8> {
    chunk_bytes(
        seq![0x53u8, 0x49u8, 0x5Au8, 0x45u8],
        bytes::le32(16) + bytes::le32(16) + bytes::le32(16),
        seq![],
    )
}

/// The chunk with the voxels of a grid.
pub open spec fn voxel_chunk(bitmask: Seq<u32>, indices: Seq<u8>) -> Seq<u8> {
    let n = BRICK_VOXELS as int;
    chunk_bytes(
        seq![0x58u8, 0x59u8, 0x5Au8, 0x49u8],
        bytes::le32(grid::count_solid(bitmask, n) as int) + voxels_upto(bitmask, indices, n),
        seq![],
    )
}

/// The chunk with a palette.
pub open spec fn palette_chunk(palette: Seq<Seq<u8>>) -> Seq<u8> {
    chunk_bytes(seq![0x52u8, 0x47u8, 0x42u8, 0x41u8], full_palette(palette), seq![])
}

/// The MagicaVoxel file of a grid.
pub open spec fn vox_bytes(bitmask: Seq<u32>, indices: Seq<u8>, palette: Seq<Seq<u8>>) -> Seq<u8> {
    seq![0x56u8, 0x4Fu8, 0x58u8, 0x20u8] + bytes::le32(150) + chunk_bytes(
        seq![0x4Du8, 0x41u8, 0x49u8, 0x4Eu8],
        seq![],
        size_chunk() + voxel_chunk(bitmask, indices) + palette_chunk(palette),
    )
}

/// The solid voxels of a grid, and how many there are.
fn collect_voxels(grid: &VoxelGrid) -> (r: (Vec<u8>, u32))
    requires
        numbers_fit(grid.bitmask@, grid.color_indices@),
    ensures
        r.0@ == voxels_upto(grid.bitmask@, grid.color_indices@, BRICK_VOXELS as int),
        r.1 == grid::count_solid(grid.bitmask@, BRICK_VOXELS as int),
{
    let mut out: Vec<u8> = Vec::new();
    let mut rank: u32 = 0;
    let mut v: usize = 0;
    while v < BRICK_VOXELS
        invariant
            v <= BRICK_VOXELS,
            numbers_fit(grid.bitmask@, grid.color_indices@),
            rank == grid::count_solid(grid.bitmask@, v as int),
            rank <= v,
            out@ == voxels_upto(grid.bitmask@, grid.color_indices@, v as int),
        decreases BRICK_VOXELS - v,
    {
        if solid_at(&grid.bitmask, v) {
            let ghost before = out@;
            let number: u8 = if (rank as usize) < grid.color_indices.len() {
                grid.color_indices[rank as usize]
            } else {
                0
            };
            assert(number == number_at(grid.color_indices@, rank as int));
            out.push((v % 16) as u8);
            out.push((v / 256) as u8);
            out.push((v / 16 % 16) as u8);
            out.push(number + 1);
            assert(out@ =~= before + voxel_bytes(grid.bitmask@, grid.color_indices@, v as int));
            rank += 1;
        }
        v += 1;
    }
    (out, rank)
}

/// The 256 opaque colours of a palette.
fn collect_palette(grid: &VoxelGrid) -> (r: Vec<u8>)
    ensures
        r@ == full_palette(grid.palette@),
{
    let ghost want = full_palette(grid.palette@);
    let mut out: Vec<u8> = Vec::new();
    let mut i: usize = 0;
    while i < 256
        invariant
            i <= 256,
            want == full_palette(grid.palette@),
            out@ == want.take(4 * i),
        decreases 256 - i,
    {
        proof {
            assert(forall|j: int| 4 * i <= j < 4 * i + 4 ==> #[trigger] (j / 4) == i);
        }
        if i < grid.palette.colors.len() {
            let c = grid.palette.colors[i];
            assert(grid.palette@[i as int] == c@);
            out.push(c[0]);
            out.push(c[1]);
            out.push(c[2]);
            out.push(255);
        } else {
            out.push(0);
            out.push(0);
            out.push(0);
            out.push(0);
        }
        assert(out@ =~= want.take(4 * i + 4));
        i += 1;
    }
    assert(want.take(1024) =~= want);
    out
}

/// The MagicaVoxel file of a grid.
pub fn write_vox(grid: &VoxelGrid) -> (r: Vec<u8>)
    requires
        numbers_fit(grid.bitmask@, grid.color_indices@),
    ensures
        r@ == vox_bytes(grid.bitmask@, grid.color_indices@, grid.palette@),
{
    let none: Vec<u8> = Vec::new();
    assert(none@ =~= Seq::<u8>::empty());
    let mut size: Vec<u8> = Vec::new();
    bytes::append_le32(&mut size, 16);
    bytes::append_le32(&mut size, 16);
    bytes::append_le32(&mut size, 16);
    assert(size@ =~= bytes::le32(16) + bytes::le32(16) + bytes::le32(16));
    let (voxels, solid) = collect_voxels(grid);
    let mut xyzi: Vec<u8> = Vec::new();
    bytes::append_le32(&mut xyzi, solid);
    bytes::append(&mut xyzi, voxels.as_slice());
    assert(xyzi@ =~= bytes::le32(solid as int) + voxels@);
    let rgba = collect_palette(grid);
    let size_id: [u8; 4] = [0x53u8, 0x49u8, 0x5Au8, 0x45u8];
    let xyzi_id: [u8; 4] = [0x58u8, 0x59u8, 0x5Au8, 0x49u8];
    let rgba_id: [u8; 4] = [0x52u8, 0x47u8, 0x42u8, 0x41u8];
    let main_id: [u8; 4] = [0x4Du8, 0x41u8, 0x49u8, 0x4Eu8];
    let magic: [u8; 4] = [0x56u8, 0x4Fu8, 0x58u8, 0x20u8];
    assert(size_id@ =~= seq![0x53u8, 0x49u8, 0x5Au8, 0x45u8]);
    assert(xyzi_id@ =~= seq![0x58u8, 0x59u8, 0x5Au8, 0x49u8]);
    assert(rgba_id@ =~= seq![0x52u8, 0x47u8, 0x42u8, 0x41u8]);
    assert(main_id@ =~= seq![0x4Du8, 0x41u8, 0x49u8, 0x4Eu8]);
    assert(magic@ =~= seq![0x56u8, 0x4Fu8, 0x58u8, 0x20u8]);
    let mut children: Vec<u8> = Vec::new();
    bytes::append(&mut children, chunk(&size_id, size.as_slice(), none.as_slice()).as_slice());
    bytes::append(&mut children, chunk(&xyzi_id, xyzi.as_slice(), none.as_slice()).as_slice());
    bytes::append(&mut children, chunk(&rgba_id, rgba.as_slice(), none.as_slice()).as_slice());
    assert(children@ =~= size_chunk() + voxel_chunk(grid.bitmask@, grid.color_indices@)
        + palette_chunk(grid.palette@));
    let mut out: Vec<u8> = Vec::new();
    bytes::append(&mut out, &magic);
    bytes::append_le32(&mut out, 150);
    bytes::append(&mut out, chunk(&main_id, none.as_slice(), children.as_slice()).as_slice());
    assert(out@ =~= vox_bytes(grid.bitmask@, grid.color_indices@, grid.palette@));
    out
}

/// Whether the palette number of every solid voxel can be counted from 1 on.
pub fn can_write_vox(grid: &VoxelGrid) -> (r: bool)
    ensures
        r == numbers_fit(grid.bitmask@, grid.color_indices@),
{
    let mut rank: usize = 0;
    let mut v: usize = 0;
    while v < BRICK_VOXELS
        invariant
            v <= BRICK_VOXELS,
            rank == grid::count_solid(grid.bitmask@, v as int),
            rank <= v,
            forall|u: int|
                0 <= u < v && #[trigger] grid::is_solid(grid.bitmask@, u) ==> number_at(
                    grid.color_indices@,
                    grid::count_solid(grid.bitmask@, u) as int,
                ) < 255,
        decreases BRICK_VOXELS - v,
    {
        if solid_at(&grid.bitmask, v) {
            if rank < grid.color_indices.len() && grid.color_indices[rank] == 255 {
                return false;
            }
            rank += 1;
        }
        v += 1;
    }
    true
}

/// The solid voxels take up four bytes each, and every one stands behind as
/// many others as there are solid voxels before it.
pub proof fn law_vox_holds_every_voxel(bitmask: Seq<u32>, indices: Seq<u8>, v: int, n: int)
    requires
        0 <= v < n <= BRICK_VOXELS,
        grid::is_solid(bitmask, v),
    ensures
        voxels_upto(bitmask, indices, n).len() == 4 * grid::count_solid(bitmask, n),
        4 * grid::count_solid(bitmask, v) + 4 <= voxels_upto(bitmask, indices, n).len(),
        voxels_upto(bitmask, indices, n).subrange(
            4 * grid::count_solid(bitmask, v) as int,
            4 * grid::count_solid(bitmask, v) as int + 4,
        ) == voxel_bytes(bitmask, indices, v),
    decreases n,
{
    let all = voxels_upto(bitmask, indices, n);
    let at = 4 * grid::count_solid(bitmask, v) as int;
    lemma_voxels_len(bitmask, indices, n);
    if v == n - 1 {
        lemma_voxels_len(bitmask, indices, v);
        assert(all.subrange(at, at + 4) =~= voxel_bytes(bitmask, indices, v));
    } else {
        law_vox_holds_every_voxel(bitmask, indices, v, n - 1);
        assert(all.subrange(at, at + 4) =~= voxels_upto(bitmask, indices, n - 1).subrange(
            at,
            at + 4,
        ));
    }
}

/// The solid voxels take up four bytes each.
proof fn lemma_voxels_len(bitmask: Seq<u32>, indices: Seq<u8>, n: int)
    ensures
        voxels_upto(bitmask, indices, n).len() == 4 * grid::count_solid(bitmask, n),
    decreases n,
{
    if n > 0 {
        lemma_voxels_len(bitmask, indices, n - 1);
    }
}

/// A voxel stands in the file with its `x`, its `z` as the second and its `y` as
/// the third coordinate, and with the number of its colour counted from 1 on.
pub proof fn law_height_is_the_third_coordinate(
    bitmask: Seq<u32>,
    indices: Seq<u8>,
    x: int,
    y: int,
    z: int,
)
    requires
        0 <= x < 16,
        0 <= y < 16,
        0 <= z < 16,
    ensures
        ({
            let v = x + 16 * y + 256 * z;
            let rank = grid::count_solid(bitmask, v) as int;
            let voxel = voxel_bytes(bitmask, indices, v);
            &&& voxel.len() == 4
            &&& voxel[0] == x
            &&& voxel[1] == z
            &&& voxel[2] == y
            &&& rank < indices.len() && indices[rank] < 255 ==> voxel[3] == indices[rank] + 1
            &&& rank >= indices.len() ==> voxel[3] == 1
        }),
{
    let v = x + 16 * y + 256 * z;
    assert(v % 16 == x && v / 16 % 16 == y && v / 256 == z);
}

/// The palette of the file has the colours of the palette, made opaque, in order,
/// and zeros behind them.
pub proof fn law_vox_palette(palette: Seq<Seq<u8>>, i: int)
    requires
        0 <= i < 256,
    ensures
        full_palette(palette).len() == 1024,
        i < palette.len() ==> full_palette(palette).subrange(4 * i, 4 * i + 4) == seq![
            palette[i][0],
            palette[i][1],
            palette[i][2],
            255u8,
        ],
        i >= palette.len() ==> full_palette(palette).subrange(4 * i, 4 * i + 4) == seq![
            0u8,
            0u8,
            0u8,
            0u8,
        ],
{
    let here = full_palette(palette).subrange(4 * i, 4 * i + 4);
    assert forall|c: int| 0 <= c < 4 implies here[c] == #[trigger] full_palette(palette)[4 * i + c]
        && (4 * i + c) / 4 == i && (4 * i + c) % 4 == c by {}
    assert(here[0] == full_palette(palette)[4 * i + 0] && here[1] == full_palette(palette)[4 * i
        + 1] && here[2] == full_palette(palette)[4 * i + 2] && here[3] == full_palette(palette)[4
        * i + 3]);
    if i < palette.len() {
        assert(here =~= seq![palette[i][0], palette[i][1], palette[i][2], 255u8]);
    } else {
        assert(here =~= seq![0u8, 0u8, 0u8, 0u8]);
    }
}

/// A chunk can be taken apart: behind its name stand the length of its content
/// and that of its children, and then these.
#[verifier::rlimit(40)]
pub proof fn law_chunk_comes_apart(id: Seq<u8>, content: Seq<u8>, children: Seq<u8>)
    requires
        id.len() == 4,
        content.len() < 4294967296,
        children.len() < 4294967296,
    ensures
        ({
            let data = chunk_bytes(id, content, children);
            let n = bytes::num32(data, 4);
            &&& data.take(4) == id
            &&& n == content.len()
            &&& bytes::num32(data, 8) == children.len()
            &&& data.subrange(12, 12 + n) == content
            &&& data.skip(12 + n) == children
        }),
{
    let data = chunk_bytes(id, content, children);
    let n = content.len() as int;
    assert(data.take(4) =~= id);
    assert(data.subrange(4, 8) =~= bytes::le32(n));
    bytes::lemma_le32(data, 4, n);
    assert(data.subrange(8, 12) =~= bytes::le32(children.len() as int));
    bytes::lemma_le32(data, 8, children.len() as int);
    assert(data.subrange(12, 12 + n) =~= content);
    assert(data.skip(12 + n) =~= children);
}

/// The chunk with the voxels has its parts where they belong.
proof fn lemma_voxel_chunk(data: Seq<u8>, bitmask: Seq<u32>, indices: Seq<u8>, solid: int)
    requires
        solid == grid::count_solid(bitmask, 4096),
        data.len() >= 60 + 4 * solid,
        data.subrange(44, 60 + 4 * solid) == voxel_chunk(bitmask, indices),
    ensures
        data.subrange(44, 48) == seq![0x58u8, 0x59u8, 0x5Au8, 0x49u8],
        data.subrange(48, 52) == bytes::le32(4 + 4 * solid),
        data.subrange(52, 56) == bytes::le32(0),
        data.subrange(56, 60) == bytes::le32(solid),
        data.subrange(60, 60 + 4 * solid) == voxels_upto(bitmask, indices, 4096),
{
    let part = voxel_chunk(bitmask, indices);
    lemma_voxels_len(bitmask, indices, 4096);
    assert(data.subrange(44, 48) =~= part.subrange(0, 4));
    assert(data.subrange(48, 52) =~= part.subrange(4, 8));
    assert(data.subrange(52, 56) =~= part.subrange(8, 12));
    assert(data.subrange(56, 60) =~= part.subrange(12, 16));
    assert(data.subrange(60, 60 + 4 * solid) =~= part.subrange(16, 16 + 4 * solid));
    assert(part.subrange(0, 4) =~= seq![0x58u8, 0x59u8, 0x5Au8, 0x49u8]);
    assert(part.subrange(4, 8) =~= bytes::le32(4 + 4 * solid));
    assert(part.subrange(8, 12) =~= bytes::le32(0));
    assert(part.subrange(12, 16) =~= bytes::le32(solid));
    assert(part.subrange(16, 16 + 4 * solid) =~= voxels_upto(bitmask, indices, 4096));
}

/// A file has, behind its name and version, one chunk that holds three: the size
/// of a brick, the number of solid voxels and these, and the palette.
#[verifier::rlimit(40)]
pub proof fn law_vox_layout(bitmask: Seq<u32>, indices: Seq<u8>, palette: Seq<Seq<u8>>)
    ensures
        ({
            let data = vox_bytes(bitmask, indices, palette);
            let solid = grid::count_solid(bitmask, 4096);
            &&& data.len() == 1096 + 4 * solid
            &&& data.take(4) == seq![0x56u8, 0x4Fu8, 0x58u8, 0x20u8]
            &&& data.subrange(4, 8) == bytes::le32(150)
            &&& data.subrange(8, 12) == seq![0x4Du8, 0x41u8, 0x49u8, 0x4Eu8]
            &&& data.subrange(12, 16) == bytes::le32(0)
            &&& data.subrange(16, 20) == bytes::le32(data.len() - 20)
            &&& data.subrange(20, 24) == seq![0x53u8, 0x49u8, 0x5Au8, 0x45u8]
            &&& data.subrange(24, 28) == bytes::le32(12)
            &&& data.subrange(28, 32) == bytes::le32(0)
            &&& data.subrange(32, 44) == bytes::le32(16) + bytes::le32(16) + bytes::le32(16)
            &&& data.subrange(44, 48) == seq![0x58u8, 0x59u8, 0x5Au8, 0x49u8]
            &&& data.subrange(48, 52) == bytes::le32(4 + 4 * solid as int)
            &&& data.subrange(52, 56) == bytes::le32(0)
            &&& data.subrange(56, 60) == bytes::le32(solid as int)
            &&& data.subrange(60, 60 + 4 * solid as int) == voxels_upto(bitmask, indices, 4096)
            &&& data.subrange(60 + 4 * solid as int, 64 + 4 * solid as int) == seq![
                0x52u8,
                0x47u8,
                0x42u8,
                0x41u8,
            ]
            &&& data.subrange(64 + 4 * solid as int, 68 + 4 * solid as int) == bytes::le32(1024)
            &&& data.subrange(68 + 4 * solid as int, 72 + 4 * solid as int) == bytes::le32(0)
            &&& data.skip(72 + 4 * solid as int) == full_palette(palette)
        }),
{
    let data = vox_bytes(bitmask, indices, palette);
    let solid = grid::count_solid(bitmask, 4096) as int;
    lemma_voxels_len(bitmask, indices, 4096);
    let size = size_chunk();
    let voxels = voxel_chunk(bitmask, indices);
    let colors = palette_chunk(palette);
    assert(size.len() == 24);
    assert(voxels.len() == 16 + 4 * solid);
    assert(colors.len() == 1036);
    let children = size + voxels + colors;
    let main = chunk_bytes(seq![0x4Du8, 0x41u8, 0x49u8, 0x4Eu8], seq![], children);
    assert(data.len() == 1096 + 4 * solid);
    assert(data.take(4) =~= seq![0x56u8, 0x4Fu8, 0x58u8, 0x20u8]);
    assert(data.subrange(4, 8) =~= bytes::le32(150));
    assert(data.skip(8) =~= main);
    assert(data.subrange(8, 12) =~= seq![0x4Du8, 0x41u8, 0x49u8, 0x4Eu8]);
    assert(data.subrange(12, 16) =~= bytes::le32(0));
    assert(data.subrange(16, 20) =~= bytes::le32(children.len() as int));
    assert(data.skip(20) =~= children);
    assert(data.subrange(20, 44) =~= size);
    assert(data.subrange(20, 24) =~= size.subrange(0, 4));
    assert(data.subrange(24, 28) =~= size.subrange(4, 8));
    assert(data.subrange(28, 32) =~= size.subrange(8, 12));
    assert(data.subrange(32, 44) =~= size.subrange(12, 24));
    assert(size.subrange(0, 4) =~= seq![0x53u8, 0x49u8, 0x5Au8, 0x45u8]);
    assert(size.subrange(4, 8) =~= bytes::le32(12));
    assert(size.subrange(8, 12) =~= bytes::le32(0));
    assert(size.subrange(12, 24) =~= bytes::le32(16) + bytes::le32(16) + bytes::le32(16));
    assert(data.subrange(44, 60 + 4 * solid) =~= voxels);
    lemma_voxel_chunk(data, bitmask, indices, solid);
    assert(data.skip(60 + 4 * solid) =~= colors);
    lemma_palette_chunk(data, palette, 60 + 4 * solid);
}

/// The chunk with the palette has its parts where they belong.
proof fn lemma_palette_chunk(data: Seq<u8>, palette: Seq<Seq<u8>>, at: int)
    requires
        0 <= at,
        data.len() == at + 1036,
        data.skip(at) == palette_chunk(palette),
    ensures
        data.subrange(at, at + 4) == seq![0x52u8, 0x47u8, 0x42u8, 0x41u8],
        data.subrange(at + 4, at + 8) == bytes::le32(1024),
        data.subrange(at + 8, at + 12) == bytes::le32(0),
        data.skip(at + 12) == full_palette(palette),
{
    let colors = palette_chunk(palette);
    assert(data.subrange(at, at + 4) =~= colors.subrange(0, 4));
    assert(data.subrange(at + 4, at + 8) =~= colors.subrange(4, 8));
    assert(data.subrange(at + 8, at + 12) =~= colors.subrange(8, 12));
    assert(data.skip(at + 12) =~= colors.skip(12));
    assert(colors.subrange(0, 4) =~= seq![0x52u8, 0x47u8, 0x42u8, 0x41u8]);
    assert(colors.subrange(4, 8) =~= bytes::le32(1024));
    assert(colors.subrange(8, 12) =~= bytes::le32(0));
    assert(colors.skip(12) =~= full_palette(palette));
}

/// Colors are numbered from one in the file, so there is no number for the last
/// one of a full palette: where it is used the file can not be written.
pub proof fn law_numbers_start_at_one(bitmask: Seq<u32>, indices: Seq<u8>, v: int)
    requires
        0 <= v < BRICK_VOXELS,
        grid::is_solid(bitmask, v),
    ensures
        ({
            let rank = grid::count_solid(bitmask, v) as int;
            let number = if rank < indices.len() {
                indices[rank] as int
            } else {
                0
            };
            &&& number == 255 ==> !numbers_fit(bitmask, indices)
            &&& numbers_fit(bitmask, indices) ==> voxel_bytes(bitmask, indices, v)[3] == number + 1
        }),
{
}

/// Where no color has the last number of a full palette the file can be written.
pub proof fn law_small_numbers_fit(bitmask: Seq<u32>, indices: Seq<u8>)
    requires
        forall|i: int| 0 <= i < indices.len() ==> #[trigger] indices[i] < 255,
    ensures
        numbers_fit(bitmask, indices),
{
}

} // verus!
