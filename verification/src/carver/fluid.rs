//! Fluids: water and lava blocks, and the water in waterlogged blocks.

use vstd::prelude::*;

use crate::carver::grid;
use crate::carver::grid::{compute_coarse, put_voxel, set_solid, solid_at, VoxelGrid, BRICK_VOXELS};
use crate::carver::palette;
use crate::carver::palette::Palette;
use crate::carver::texture;
use crate::carver::texture::{sample_texture, tint_with, voxel_texel, RgbaImage};

verus! {

/// The colour of water in a plains biome.
pub const WATER_TINT: [u8; 3] = [63, 118, 228];

/// The `x` of a voxel.
pub open spec fn voxel_x(v: int) -> int {
    v % 16
}

/// The `y` of a voxel.
pub open spec fn voxel_y(v: int) -> int {
    v / 16 % 16
}

/// The `z` of a voxel.
pub open spec fn voxel_z(v: int) -> int {
    v / 256
}

/// Whether a voxel lies at one of the four sides of the brick.
pub open spec fn on_side(v: int) -> bool {
    voxel_x(v) == 0 || voxel_x(v) == 15 || voxel_z(v) == 0 || voxel_z(v) == 15
}

/// Whether a voxel lies at none of the four sides of the brick.
pub open spec fn is_inside(v: int) -> bool {
    !on_side(v)
}

/// The texel of the still texture over a voxel, seen from above.
pub open spec fn still_texel(still: RgbaImage, v: int) -> (int, int) {
    (
        texture::texel_at(voxel_x(v), still.width as int),
        texture::texel_at(voxel_z(v), still.height as int),
    )
}

/// The texel of the flow texture at a voxel of a side, seen from that side.
pub open spec fn flow_texel(flow: RgbaImage, v: int) -> (int, int) {
    let along = if voxel_x(v) == 0 || voxel_x(v) == 15 {
        voxel_z(v)
    } else {
        voxel_x(v)
    };
    (
        texture::texel_at(along, flow.width as int),
        texture::texel_at(voxel_y(v), flow.height as int),
    )
}

/// Whether the texture that colours a voxel can be sampled there.
pub open spec fn can_color(still: RgbaImage, flow: RgbaImage, v: int, from_above: bool) -> bool {
    if from_above {
        texture::can_sample(still, still_texel(still, v).0, still_texel(still, v).1)
    } else {
        texture::can_sample(flow, flow_texel(flow, v).0, flow_texel(flow, v).1)
    }
}

/// The colour of a fluid voxel before tinting: that of the still texture from
/// above, or that of the flow texture from the side.
pub open spec fn fluid_raw(still: RgbaImage, flow: RgbaImage, v: int, from_above: bool) -> Seq<u8> {
    if from_above {
        texture::sampled(still, still_texel(still, v).0, still_texel(still, v).1)
    } else {
        texture::sampled(flow, flow_texel(flow, v).0, flow_texel(flow, v).1)
    }
}

/// How many layers a fluid fills: all for a source or a falling fluid, and two
/// less for each level of a flowing one.
pub open spec fn fluid_height(level: u32) -> int {
    if level == 0 || level >= 8 {
        16
    } else {
        (8 - level) * 2
    }
}

/// Whether a fluid voxel shows the still texture: on top and inside.
pub open spec fn shows_still(height: int, v: int) -> bool {
    voxel_y(v) == height - 1 || is_inside(v)
}

/// The colours of a fluid block.
pub open spec fn fluid_coloring(
    is_lava: bool,
    level: u32,
    still: RgbaImage,
    flow: RgbaImage,
) -> grid::Coloring {
    let height = fluid_height(level);
    |v: int|
        if voxel_y(v) < height {
            let raw = fluid_raw(still, flow, v, shows_still(height, v));
            Some(
                if is_lava {
                    raw
                } else {
                    texture::tinted(raw, WATER_TINT@)
                },
            )
        } else {
            None
        }
}

/// Whether every texel that a fluid block shows is there.
pub open spec fn fluid_colors_exist(level: u32, still: RgbaImage, flow: RgbaImage) -> bool {
    forall|v: int|
        0 <= v < BRICK_VOXELS && voxel_y(v) < fluid_height(level) ==> #[trigger] can_color(
            still,
            flow,
            v,
            shows_still(fluid_height(level), v),
        )
}

/// The colour of a fluid voxel before tinting.
fn fluid_color(still: &RgbaImage, flow: &RgbaImage, v: usize, from_above: bool) -> (r: [u8; 4])
    requires
        v < BRICK_VOXELS,
        can_color(*still, *flow, v as int, from_above),
    ensures
        r@ == fluid_raw(*still, *flow, v as int, from_above),
{
    let x: usize = v % 16;
    let y: usize = v / 16 % 16;
    let z: usize = v / 256;
    if from_above {
        sample_texture(still, voxel_texel(x, still.width), voxel_texel(z, still.height))
    } else {
        let along: usize = if x == 0 || x == 15 {
            z
        } else {
            x
        };
        sample_texture(flow, voxel_texel(along, flow.width), voxel_texel(y, flow.height))
    }
}

/// Voxelizes a block of water or lava from its level.
pub fn voxelize_fluid(is_lava: bool, level: u32, still: &RgbaImage, flow: &RgbaImage) -> (r:
    VoxelGrid)
    requires
        fluid_colors_exist(level, *still, *flow),
    ensures
        grid::shows(r, fluid_coloring(is_lava, level, *still, *flow)),
        r.is_emissive == is_lava,
{
    let height: usize = if level == 0 || level >= 8 {
        16
    } else {
        (8 - level) as usize * 2
    };
    let ghost coloring = fluid_coloring(is_lava, level, *still, *flow);
    let mut bitmask = [0u32;128];
    let mut palette = Palette::default();
    let mut color_indices: Vec<u8> = Vec::new();
    proof {
        grid::lemma_zero_bits();
        assert(grid::shows_upto(bitmask@, palette@, color_indices@, coloring, 0));
    }
    let mut v: usize = 0;
    while v < BRICK_VOXELS
        invariant
            v <= BRICK_VOXELS,
            height == fluid_height(level),
            coloring == fluid_coloring(is_lava, level, *still, *flow),
            fluid_colors_exist(level, *still, *flow),
            palette.wf(),
            grid::shows_upto(bitmask@, palette@, color_indices@, coloring, v as int),
        decreases BRICK_VOXELS - v,
    {
        let x: usize = v % 16;
        let y: usize = v / 16 % 16;
        let z: usize = v / 256;
        if y < height {
            let from_above: bool = y == height - 1 || !(x == 0 || x == 15 || z == 0 || z == 15);
            assert(from_above == shows_still(height as int, v as int));
            let mut color = fluid_color(still, flow, v, from_above);
            if !is_lava {
                color = tint_with(color, WATER_TINT);
            }
            put_voxel(
                &mut bitmask,
                &mut palette,
                &mut color_indices,
                v,
                color,
                Ghost(coloring),
            );
        } else {
            proof {
                grid::lemma_skip_voxel(bitmask@, palette@, color_indices@, coloring, v as int);
            }
        }
        v += 1;
    }
    let coarse: u64 = compute_coarse(&bitmask);
    VoxelGrid { bitmask, coarse, color_indices, palette, is_emissive: is_lava }
}

/// The colour of the water in a voxel of a waterlogged block.
pub open spec fn water_color(still: RgbaImage, flow: RgbaImage, v: int) -> Seq<u8> {
    texture::tinted(fluid_raw(still, flow, v, is_inside(v)), WATER_TINT@)
}

/// The colours of the water in the empty voxels among the first `n`.
pub open spec fn water_upto(
    bitmask: Seq<u32>,
    still: RgbaImage,
    flow: RgbaImage,
    n: int,
) -> Seq<Seq<u8>>
    decreases n,
{
    if n <= 0 {
        seq![]
    } else if grid::is_solid(bitmask, n - 1) {
        water_upto(bitmask, still, flow, n - 1)
    } else {
        water_upto(bitmask, still, flow, n - 1).push(water_color(still, flow, n - 1))
    }
}

/// Whether every texel that the water in a block shows is there.
pub open spec fn water_colors_exist(bitmask: Seq<u32>, still: RgbaImage, flow: RgbaImage) -> bool {
    forall|v: int|
        0 <= v < BRICK_VOXELS && !grid::is_solid(bitmask, v) ==> #[trigger] can_color(
            still,
            flow,
            v,
            is_inside(v),
        )
}

/// The palette number of voxel `v` of a waterlogged block: that of the block
/// where the block is solid, and that of the water elsewhere. A block that
/// lacks a palette number for a solid voxel shows its first colour there.
pub open spec fn waterlogged_index(
    block: VoxelGrid,
    still: RgbaImage,
    flow: RgbaImage,
    v: int,
) -> int {
    let rank = grid::count_solid(block.bitmask@, v) as int;
    if grid::is_solid(block.bitmask@, v) {
        if rank < block.color_indices@.len() {
            block.color_indices@[rank] as int
        } else {
            0
        }
    } else {
        palette::index_in_order(
            block.palette@,
            water_upto(block.bitmask@, still, flow, BRICK_VOXELS as int),
            v - rank,
        )
    }
}

/// Whether a grid is a block with water in every empty voxel.
pub open spec fn is_waterlogged(
    block: VoxelGrid,
    still: RgbaImage,
    flow: RgbaImage,
    wet: VoxelGrid,
) -> bool {
    &&& forall|v: int| 0 <= v < BRICK_VOXELS ==> #[trigger] grid::is_solid(wet.bitmask@, v)
    &&& grid::is_coarse(wet.bitmask@, wet.coarse)
    &&& wet.palette@ == palette::with_colors(
        block.palette@,
        water_upto(block.bitmask@, still, flow, BRICK_VOXELS as int),
    )
    &&& wet.color_indices@.len() == BRICK_VOXELS
    &&& forall|v: int|
        0 <= v < BRICK_VOXELS ==> #[trigger] wet.color_indices@[v] == waterlogged_index(
            block,
            still,
            flow,
            v,
        )
    &&& wet.is_emissive == block.is_emissive
}

/// The water of the first voxels is counted by the voxels that are not solid,
/// and comes first.
proof fn lemma_water(bitmask: Seq<u32>, still: RgbaImage, flow: RgbaImage, m: int, n: int)
    requires
        0 <= m <= n,
    ensures
        water_upto(bitmask, still, flow, m).len() == m - grid::count_solid(bitmask, m),
        water_upto(bitmask, still, flow, m).len() <= water_upto(bitmask, still, flow, n).len(),
        water_upto(bitmask, still, flow, m) == water_upto(bitmask, still, flow, n).take(
            water_upto(bitmask, still, flow, m).len() as int,
        ),
    decreases n,
{
    let early = water_upto(bitmask, still, flow, m);
    if m < n {
        lemma_water(bitmask, still, flow, m, n - 1);
        let late = water_upto(bitmask, still, flow, n);
        let mid = water_upto(bitmask, still, flow, n - 1);
        assert(early =~= mid.take(early.len() as int));
        assert(early =~= late.take(early.len() as int));
    } else {
        if m > 0 {
            lemma_water(bitmask, still, flow, m - 1, m - 1);
        }
        assert(early =~= early.take(early.len() as int));
    }
}

/// Fills every empty voxel of a block with water.
pub fn apply_waterlogging(grid: &mut VoxelGrid, still: &RgbaImage, flow: &RgbaImage)
    requires
        old(grid).palette.wf(),
        water_colors_exist(old(grid).bitmask@, *still, *flow),
    ensures
        is_waterlogged(*old(grid), *still, *flow, *final(grid)),
        final(grid).palette.wf(),
{
    let ghost block = *grid;
    let ghost water = water_upto(block.bitmask@, *still, *flow, BRICK_VOXELS as int);
    let bitmask = grid.bitmask;
    let mut indices: Vec<u8> = Vec::new();
    let mut rank: usize = 0;
    let mut v: usize = 0;
    while v < BRICK_VOXELS
        invariant
            v <= BRICK_VOXELS,
            bitmask@ == block.bitmask@,
            water == water_upto(block.bitmask@, *still, *flow, BRICK_VOXELS as int),
            water_colors_exist(block.bitmask@, *still, *flow),
            rank == grid::count_solid(block.bitmask@, v as int),
            rank <= v,
            grid.color_indices@ == block.color_indices@,
            grid.is_emissive == block.is_emissive,
            grid.palette.wf(),
            grid.palette@ == palette::with_colors(
                block.palette@,
                water_upto(block.bitmask@, *still, *flow, v as int),
            ),
            forall|u: int|
                0 <= u < BRICK_VOXELS ==> (#[trigger] grid::is_solid(grid.bitmask@, u) <==> u < v
                    || grid::is_solid(block.bitmask@, u)),
            indices@.len() == v,
            forall|u: int|
                0 <= u < v ==> #[trigger] indices@[u] == waterlogged_index(block, *still, *flow, u),
        decreases BRICK_VOXELS - v,
    {
        if solid_at(&bitmask, v) {
            let index: u8 = if rank < grid.color_indices.len() {
                grid.color_indices[rank]
            } else {
                0
            };
            indices.push(index);
            rank += 1;
        } else {
            let x: usize = v % 16;
            let z: usize = v / 256;
            let from_above: bool = !(x == 0 || x == 15 || z == 0 || z == 15);
            assert(from_above == is_inside(v as int));
            assert(can_color(*still, *flow, v as int, is_inside(v as int)));
            let color = tint_with(fluid_color(still, flow, v, from_above), WATER_TINT);
            proof {
                let here = water_upto(block.bitmask@, *still, *flow, v as int);
                let next = water_upto(block.bitmask@, *still, *flow, v + 1);
                lemma_water(block.bitmask@, *still, *flow, v as int, BRICK_VOXELS as int);
                lemma_water(block.bitmask@, *still, *flow, v + 1, BRICK_VOXELS as int);
                assert(next == here.push(color@));
                assert(next.drop_last() =~= here);
                assert(next.last() == color@);
                assert(water.take(v - rank) == here);
                assert(water.take(v - rank + 1) == next);
                assert(water[v - rank] == water.take(v - rank + 1)[v - rank]);
            }
            set_solid(&mut grid.bitmask, v);
            indices.push(grid.palette.get_or_insert(color));
        }
        v += 1;
    }
    grid.color_indices = indices;
    grid.coarse = compute_coarse(&grid.bitmask);
}

/// Whether the texture that colours a voxel can be sampled there.
fn color_exists(still: &RgbaImage, flow: &RgbaImage, v: usize, from_above: bool) -> (r: bool)
    requires
        v < BRICK_VOXELS,
    ensures
        r == can_color(*still, *flow, v as int, from_above),
{
    let x: usize = v % 16;
    let y: usize = v / 16 % 16;
    let z: usize = v / 256;
    if from_above {
        texture::covers_voxel(still, x, z)
    } else if x == 0 || x == 15 {
        texture::covers_voxel(flow, z, y)
    } else {
        texture::covers_voxel(flow, x, y)
    }
}

/// Whether every texel that a fluid block shows is there.
pub fn can_voxelize_fluid(level: u32, still: &RgbaImage, flow: &RgbaImage) -> (r: bool)
    ensures
        r == fluid_colors_exist(level, *still, *flow),
{
    let height: usize = if level == 0 || level >= 8 {
        16
    } else {
        (8 - level) as usize * 2
    };
    let mut v: usize = 0;
    while v < BRICK_VOXELS
        invariant
            v <= BRICK_VOXELS,
            height == fluid_height(level),
            forall|u: int|
                0 <= u < v && voxel_y(u) < fluid_height(level) ==> #[trigger] can_color(
                    *still,
                    *flow,
                    u,
                    shows_still(fluid_height(level), u),
                ),
        decreases BRICK_VOXELS - v,
    {
        let x: usize = v % 16;
        let y: usize = v / 16 % 16;
        let z: usize = v / 256;
        let from_above: bool = y == height - 1 || !(x == 0 || x == 15 || z == 0 || z == 15);
        assert(from_above == shows_still(fluid_height(level), v as int));
        if y < height && !color_exists(still, flow, v, from_above) {
            assert(!can_color(*still, *flow, v as int, shows_still(fluid_height(level), v as int)));
            return false;
        }
        v += 1;
    }
    true
}

/// Whether every texel that the water in a block shows is there.
pub fn can_waterlog(grid: &VoxelGrid, still: &RgbaImage, flow: &RgbaImage) -> (r: bool)
    ensures
        r == water_colors_exist(grid.bitmask@, *still, *flow),
{
    let mut v: usize = 0;
    while v < BRICK_VOXELS
        invariant
            v <= BRICK_VOXELS,
            forall|u: int|
                0 <= u < v && !grid::is_solid(grid.bitmask@, u) ==> #[trigger] can_color(
                    *still,
                    *flow,
                    u,
                    is_inside(u),
                ),
        decreases BRICK_VOXELS - v,
    {
        let x: usize = v % 16;
        let z: usize = v / 256;
        let from_above: bool = !(x == 0 || x == 15 || z == 0 || z == 15);
        assert(from_above == is_inside(v as int));
        if !solid_at(&grid.bitmask, v) && !color_exists(still, flow, v, from_above) {
            assert(!can_color(*still, *flow, v as int, is_inside(v as int)));
            return false;
        }
        v += 1;
    }
    true
}

/// A fluid fills exactly its lowest layers.
pub proof fn law_fluid_layers(is_lava: bool, level: u32, still: RgbaImage, flow: RgbaImage, v: int)
    requires
        0 <= v < BRICK_VOXELS,
    ensures
        fluid_coloring(is_lava, level, still, flow)(v) is Some <==> voxel_y(v) < fluid_height(
            level,
        ),
        2 <= fluid_height(level) <= 16,
{
}

/// Waterlogging changes no colour of the block itself: the palette keeps its
/// entries, and every voxel that was solid keeps its palette number.
pub proof fn law_waterlogging_keeps_block(
    block: VoxelGrid,
    still: RgbaImage,
    flow: RgbaImage,
    v: int,
)
    requires
        block.wf(),
        0 <= v < BRICK_VOXELS,
        grid::is_solid(block.bitmask@, v),
    ensures
        ({
            let rank = grid::count_solid(block.bitmask@, v) as int;
            let water = water_upto(block.bitmask@, still, flow, BRICK_VOXELS as int);
            let after = palette::with_colors(block.palette@, water);
            &&& rank < block.color_indices@.len()
            &&& waterlogged_index(block, still, flow, v) == block.color_indices@[rank]
            &&& block.color_indices@[rank] < after.len()
            &&& after[block.color_indices@[rank] as int]
                == block.palette@[block.color_indices@[rank] as int]
        }),
{
    let water = water_upto(block.bitmask@, still, flow, BRICK_VOXELS as int);
    let after = palette::with_colors(block.palette@, water);
    grid::lemma_count_grows(block.bitmask@, v + 1, BRICK_VOXELS as int);
    palette::law_palette_grows(block.palette@, water);
    let p = block.palette@;
    let k = block.color_indices@[grid::count_solid(block.bitmask@, v) as int] as int;
    assert(p[k] == after.take(p.len() as int)[k]);
}

/// Filling water into a block that fits together gives a block that does.
pub proof fn law_waterlogged_grid_is_wf(
    block: VoxelGrid,
    still: RgbaImage,
    flow: RgbaImage,
    wet: VoxelGrid,
)
    requires
        block.wf(),
        is_waterlogged(block, still, flow, wet),
    ensures
        wet.wf(),
{
    let n = BRICK_VOXELS as int;
    let water = water_upto(block.bitmask@, still, flow, n);
    palette::law_palette_grows(block.palette@, water);
    grid::lemma_full_counts(wet.bitmask@, n);
    assert forall|v: int| 0 <= v < n implies #[trigger] wet.color_indices@[v]
        < wet.palette@.len() by {
        if grid::is_solid(block.bitmask@, v) {
            law_waterlogging_keeps_block(block, still, flow, v);
        } else {
            lemma_water(block.bitmask@, still, flow, v, n);
            lemma_water(block.bitmask@, still, flow, v + 1, n);
            let rank = grid::count_solid(block.bitmask@, v) as int;
            palette::law_palette_is_faithful(block.palette@, water, v - rank);
        }
    }
}

/// A voxel by its coordinates.
pub open spec fn voxel_at(x: int, y: int, z: int) -> int {
    x + 16 * y + 256 * z
}

/// A fluid loses two layers with each level: sources and falling fluids fill the
/// brick, level 1 fills 14 layers, and every further level up to 7 fills two
/// layers fewer. In the grid of a fluid exactly the voxels of these layers are solid.
pub proof fn law_fluid_loses_two_layers_a_level(
    is_lava: bool,
    level: u32,
    next: u32,
    still: RgbaImage,
    flow: RgbaImage,
    grid: VoxelGrid,
    x: int,
    y: int,
    z: int,
)
    requires
        0 <= x < 16,
        0 <= y < 16,
        0 <= z < 16,
        grid::shows(grid, fluid_coloring(is_lava, level, still, flow)),
    ensures
        level == 0 || level >= 8 ==> fluid_height(level) == 16,
        level == 1 ==> fluid_height(level) == 14,
        1 <= level < 7 && next == level + 1 ==> fluid_height(next) == fluid_height(level) - 2,
        1 <= level <= 7 ==> (grid::is_solid(grid.bitmask@, voxel_at(x, y, z)) <==> y < 16 - 2
            * level),
        level == 0 || level >= 8 ==> grid::is_solid(grid.bitmask@, voxel_at(x, y, z)),
{
    let v = voxel_at(x, y, z);
    lemma_coordinates(x, y, z);
    assert(grid::is_solid(grid.bitmask@, v) <==> fluid_coloring(is_lava, level, still, flow)(
        v,
    ) is Some);
}

/// The colour of a voxel of a fluid comes from the still texture, seen from above,
/// or from the flow texture, seen from the side that the voxel is on.
pub proof fn law_fluid_is_seen_from_its_sides(
    still: RgbaImage,
    flow: RgbaImage,
    x: int,
    y: int,
    z: int,
)
    requires
        0 <= x < 16,
        0 <= y < 16,
        0 <= z < 16,
    ensures
        is_inside(voxel_at(x, y, z)) <==> 0 < x < 15 && 0 < z < 15,
        fluid_raw(still, flow, voxel_at(x, y, z), true) == texture::sampled(
            still,
            texture::texel_at(x, still.width as int),
            texture::texel_at(z, still.height as int),
        ),
        x == 0 || x == 15 ==> fluid_raw(still, flow, voxel_at(x, y, z), false) == texture::sampled(
            flow,
            texture::texel_at(z, flow.width as int),
            texture::texel_at(y, flow.height as int),
        ),
        0 < x < 15 ==> fluid_raw(still, flow, voxel_at(x, y, z), false) == texture::sampled(
            flow,
            texture::texel_at(x, flow.width as int),
            texture::texel_at(y, flow.height as int),
        ),
{
    lemma_coordinates(x, y, z);
}

/// A voxel has the coordinates that it is made of.
proof fn lemma_coordinates(x: int, y: int, z: int)
    requires
        0 <= x < 16,
        0 <= y < 16,
        0 <= z < 16,
    ensures
        voxel_x(voxel_at(x, y, z)) == x,
        voxel_y(voxel_at(x, y, z)) == y,
        voxel_z(voxel_at(x, y, z)) == z,
        0 <= voxel_at(x, y, z) < BRICK_VOXELS,
{
}

/// The top and the inside of a fluid show the still texture, and below the top the
/// sides show the flow texture. Lava stays as it is, and water takes on the colour
/// of water.
pub proof fn law_fluid_colors(
    is_lava: bool,
    level: u32,
    still: RgbaImage,
    flow: RgbaImage,
    x: int,
    y: int,
    z: int,
)
    requires
        0 <= x < 16,
        0 <= y < 16,
        0 <= z < 16,
        fluid_coloring(is_lava, level, still, flow)(voxel_at(x, y, z)) is Some,
    ensures
        ({
            let color = fluid_coloring(is_lava, level, still, flow)(voxel_at(x, y, z))->0;
            let on_top = y == 15 || fluid_coloring(is_lava, level, still, flow)(
                voxel_at(x, y + 1, z),
            ) is None;
            let from_above = on_top || (0 < x < 15 && 0 < z < 15);
            let raw = fluid_raw(still, flow, voxel_at(x, y, z), from_above);
            color == if is_lava {
                raw
            } else {
                texture::tinted(raw, seq![63u8, 118u8, 228u8])
            }
        }),
{
    let v = voxel_at(x, y, z);
    let height = fluid_height(level);
    lemma_coordinates(x, y, z);
    if y < 15 {
        lemma_coordinates(x, y + 1, z);
    }
    let coloring = fluid_coloring(is_lava, level, still, flow);
    let on_top = y == 15 || coloring(voxel_at(x, y + 1, z)) is None;
    assert(on_top == (y == height - 1));
    assert(shows_still(height, v) == (on_top || (0 < x < 15 && 0 < z < 15)));
    assert(WATER_TINT@ =~= seq![63u8, 118u8, 228u8]);
}

/// Waterlogging fills every empty voxel with water: it becomes solid and shows the
/// still texture inside and the flow texture on the sides, in the colour of water,
/// as long as the palette has room for it.
pub proof fn law_waterlogging_fills_with_water(
    block: VoxelGrid,
    still: RgbaImage,
    flow: RgbaImage,
    wet: VoxelGrid,
    x: int,
    y: int,
    z: int,
)
    requires
        block.wf(),
        is_waterlogged(block, still, flow, wet),
        0 <= x < 16,
        0 <= y < 16,
        0 <= z < 16,
        !grid::is_solid(block.bitmask@, voxel_at(x, y, z)),
    ensures
        ({
            let v = voxel_at(x, y, z);
            let raw = fluid_raw(still, flow, v, 0 < x < 15 && 0 < z < 15);
            let color = texture::tinted(raw, seq![63u8, 118u8, 228u8]);
            &&& grid::is_solid(wet.bitmask@, v)
            &&& wet.color_indices@[v] < wet.palette@.len()
            &&& wet.palette@.contains(color) || wet.palette@.len() < palette::MAX_COLORS
                ==> wet.palette@[wet.color_indices@[v] as int] == color
        }),
{
    let v = voxel_at(x, y, z);
    let n = BRICK_VOXELS as int;
    lemma_coordinates(x, y, z);
    assert(WATER_TINT@ =~= seq![63u8, 118u8, 228u8]);
    let water = water_upto(block.bitmask@, still, flow, n);
    let rank = grid::count_solid(block.bitmask@, v) as int;
    lemma_water(block.bitmask@, still, flow, v, n);
    lemma_water(block.bitmask@, still, flow, v + 1, n);
    let next = water_upto(block.bitmask@, still, flow, v + 1);
    assert(next.last() == water_color(still, flow, v));
    assert(water[v - rank] == water.take(v - rank + 1)[v - rank]);
    assert(water[v - rank] == water_color(still, flow, v));
    palette::law_palette_grows(block.palette@, water);
    palette::law_palette_is_faithful(block.palette@, water, v - rank);
    assert(grid::is_solid(wet.bitmask@, v));
    assert(wet.color_indices@[v] == waterlogged_index(block, still, flow, v));
}

/// Filling a block with water leaves its light as it is, and a voxel of the block
/// without a color of its own has the first one.
pub proof fn law_waterlogging_keeps_the_light(
    block: VoxelGrid,
    still: RgbaImage,
    flow: RgbaImage,
    wet: VoxelGrid,
    v: int,
)
    requires
        is_waterlogged(block, still, flow, wet),
        0 <= v < BRICK_VOXELS,
    ensures
        wet.is_emissive == block.is_emissive,
        grid::is_solid(block.bitmask@, v) && grid::count_solid(block.bitmask@, v)
            >= block.color_indices@.len() ==> wet.color_indices@[v] == 0,
{
}

/// With complete textures a fluid of any level can be shown and any block can be
/// filled with water.
pub proof fn law_complete_textures_color_fluids(
    level: u32,
    bitmask: Seq<u32>,
    still: RgbaImage,
    flow: RgbaImage,
)
    requires
        still.wf() && still.width <= i32::MAX && still.height <= i32::MAX,
        flow.wf() && flow.width <= i32::MAX && flow.height <= i32::MAX,
        still.width * still.height <= 0x1_0000_0000,
        flow.width * flow.height <= 0x1_0000_0000,
    ensures
        fluid_colors_exist(level, still, flow),
        water_colors_exist(bitmask, still, flow),
{
    assert forall|v: int, from_above: bool| #[trigger] can_color(still, flow, v, from_above) by {
        let s = still_texel(still, v);
        let f = flow_texel(flow, v);
        texture::law_complete_image_samples(still, s.0, s.1);
        texture::law_complete_image_samples(flow, f.0, f.1);
    }
}

} // verus!
