//! Block states: what kind of brick each of them gets.

use vstd::prelude::*;

use crate::carver::fluid;
use crate::carver::fluid::{apply_waterlogging, voxelize_fluid};
use crate::carver::grid;
use crate::carver::grid::VoxelGrid;
use crate::carver::texture::{RgbaImage, TextureCache};
use crate::carver::voxelizer;
use crate::carver::voxelizer::{voxelize, QuadHits};
use crate::properties;
use crate::properties::Properties;
use crate::reader::block_states;
use crate::reader::block_states::parse_key;
use crate::text;

verus! {

/// Whether a block is tinted like foliage.
pub open spec fn is_foliage(name: Seq<char>) -> bool {
    ||| name == "oak_leaves"@
    ||| name == "jungle_leaves"@
    ||| name == "acacia_leaves"@
    ||| name == "dark_oak_leaves"@
    ||| name == "mangrove_leaves"@
    ||| name == "cherry_leaves"@
    ||| name == "vine"@
}

/// The tint of a block in a plains biome: that of foliage, or that of grass.
pub fn plains_tint(name: &str) -> (r: [u8; 3])
    ensures
        r@ == if is_foliage(name@) {
            seq![0x77u8, 0xABu8, 0x2Fu8]
        } else {
            seq![0x91u8, 0xBDu8, 0x59u8]
        },
{
    if text::same(name, "oak_leaves") || text::same(name, "jungle_leaves") || text::same(
        name,
        "acacia_leaves",
    ) || text::same(name, "dark_oak_leaves") || text::same(name, "mangrove_leaves") || text::same(
        name,
        "cherry_leaves",
    ) || text::same(name, "vine") {
        let tint = [0x77u8, 0xABu8, 0x2Fu8];
        assert(tint@ =~= seq![0x77u8, 0xABu8, 0x2Fu8]);
        tint
    } else {
        let tint = [0x91u8, 0xBDu8, 0x59u8];
        assert(tint@ =~= seq![0x91u8, 0xBDu8, 0x59u8]);
        tint
    }
}

/// Whether a block always gives off light.
pub open spec fn always_emissive(name: Seq<char>) -> bool {
    ||| name == "glowstone"@
    ||| name == "sea_lantern"@
    ||| name == "beacon"@
    ||| name == "shroomlight"@
    ||| name == "jack_o_lantern"@
    ||| name == "fire"@
    ||| name == "soul_fire"@
    ||| name == "magma_block"@
    ||| name == "lava"@
    ||| name == "ochre_froglight"@
    ||| name == "verdant_froglight"@
    ||| name == "pearlescent_froglight"@
    ||| name == "torch"@
    ||| name == "wall_torch"@
    ||| name == "soul_torch"@
    ||| name == "soul_wall_torch"@
    ||| name == "lantern"@
    ||| name == "soul_lantern"@
    ||| name == "end_rod"@
    ||| name == "conduit"@
    ||| name == "crying_obsidian"@
    ||| name == "glow_lichen"@
    ||| name == "sculk_catalyst"@
}

/// Whether a block gives off light when it is lit.
pub open spec fn emissive_when_lit(name: Seq<char>) -> bool {
    ||| name == "redstone_lamp"@
    ||| name == "furnace"@
    ||| name == "blast_furnace"@
    ||| name == "smoker"@
    ||| name == "campfire"@
    ||| name == "soul_campfire"@
}

/// Whether a block gives off light unless it is put out.
pub open spec fn emissive_unless_out(name: Seq<char>) -> bool {
    name == "redstone_torch"@ || name == "redstone_wall_torch"@
}

/// Whether a block gives off light when it bears berries.
pub open spec fn emissive_with_berries(name: Seq<char>) -> bool {
    name == "cave_vines"@ || name == "cave_vines_plant"@
}

/// Whether a block state gives off light.
pub open spec fn gives_light(name: Seq<char>, props: Seq<properties::Pair>) -> bool {
    let lit = properties::value_of(props, "lit"@);
    if always_emissive(name) {
        true
    } else if emissive_when_lit(name) {
        lit == Some("true"@)
    } else if emissive_unless_out(name) {
        lit is None || lit == Some("true"@)
    } else if emissive_with_berries(name) {
        properties::value_of(props, "berries"@) == Some("true"@)
    } else {
        false
    }
}

/// Whether a block always gives off light.
fn is_always_emissive(name: &str) -> (r: bool)
    ensures
        r == always_emissive(name@),
{
    text::same(name, "glowstone") || text::same(name, "sea_lantern") || text::same(name, "beacon")
        || text::same(name, "shroomlight") || text::same(name, "jack_o_lantern") || text::same(
        name,
        "fire",
    ) || text::same(name, "soul_fire") || text::same(name, "magma_block") || text::same(
        name,
        "lava",
    ) || text::same(name, "ochre_froglight") || text::same(name, "verdant_froglight")
        || text::same(name, "pearlescent_froglight") || text::same(name, "torch") || text::same(
        name,
        "wall_torch",
    ) || text::same(name, "soul_torch") || text::same(name, "soul_wall_torch") || text::same(
        name,
        "lantern",
    ) || text::same(name, "soul_lantern") || text::same(name, "end_rod") || text::same(
        name,
        "conduit",
    ) || text::same(name, "crying_obsidian") || text::same(name, "glow_lichen") || text::same(
        name,
        "sculk_catalyst",
    )
}

/// Whether a block state gives off light.
pub fn is_emissive(name: &str, props: &Properties) -> (r: bool)
    ensures
        r == gives_light(name@, props@),
{
    if is_always_emissive(name) {
        true
    } else if text::same(name, "redstone_lamp") || text::same(name, "furnace") || text::same(
        name,
        "blast_furnace",
    ) || text::same(name, "smoker") || text::same(name, "campfire") || text::same(
        name,
        "soul_campfire",
    ) {
        props.has("lit", "true")
    } else if text::same(name, "redstone_torch") || text::same(name, "redstone_wall_torch") {
        match props.get("lit") {
            Some(lit) => text::same(lit, "true"),
            None => true,
        }
    } else if text::same(name, "cave_vines") || text::same(name, "cave_vines_plant") {
        props.has("berries", "true")
    } else {
        false
    }
}

/// The value of a decimal digit.
pub open spec fn digit_value(c: char) -> int {
    c as int - '0' as int
}

/// Whether a character is a decimal digit.
pub open spec fn is_digit(c: char) -> bool {
    0 <= digit_value(c) <= 9
}

/// The number that decimal digits write.
pub open spec fn decimal(digits: Seq<char>) -> int
    decreases digits.len(),
{
    if digits.len() == 0 {
        0
    } else {
        decimal(digits.drop_last()) * 10 + digit_value(digits.last())
    }
}

/// A number without the plus sign that may stand before it.
pub open spec fn unsigned_part(s: Seq<char>) -> Seq<char> {
    if s.len() > 0 && s[0] == '+' {
        s.skip(1)
    } else {
        s
    }
}

/// Whether a text writes a number: digits, with or without a plus sign.
pub open spec fn is_number(s: Seq<char>) -> bool {
    let body = unsigned_part(s);
    body.len() > 0 && forall|i: int| 0 <= i < body.len() ==> is_digit(#[trigger] body[i])
}

/// The number that a text writes, if it is one and fits 32 bits.
pub open spec fn parsed_number(s: Seq<char>) -> Option<u32> {
    if is_number(s) && decimal(unsigned_part(s)) <= u32::MAX {
        Some(decimal(unsigned_part(s)) as u32)
    } else {
        None
    }
}

/// The number that a text writes, if it is one and fits 32 bits.
pub fn parse_number(s: &str) -> (r: Option<u32>)
    ensures
        r == parsed_number(s@),
{
    let chars = text::to_chars(s);
    let ghost body = unsigned_part(s@);
    let skip: usize = if chars.len() > 0 && chars[0] == '+' {
        1
    } else {
        0
    };
    assert(body =~= s@.skip(skip as int));
    if chars.len() == skip {
        return None;
    }
    let mut value: u32 = 0;
    let mut i: usize = skip;
    let mut fits: bool = true;
    while i < chars.len()
        invariant
            chars@ == s@,
            skip <= i <= chars@.len(),
            body == s@.skip(skip as int),
            body == unsigned_part(s@),
            forall|k: int| 0 <= k < i - skip ==> is_digit(#[trigger] body[k]),
            fits ==> value == decimal(body.take(i - skip)),
            !fits ==> decimal(body.take(i - skip)) > u32::MAX,
        decreases chars.len() - i,
    {
        let c: char = chars[i];
        proof {
            text::lemma_char_code(c);
            assert(body[i - skip] == c);
        }
        let code: u32 = c as u32;
        if code < 48 || code > 57 {
            return None;
        }
        let digit: u32 = code - 48;
        proof {
            let next = body.take(i - skip + 1);
            assert(next.drop_last() =~= body.take(i - skip));
            assert(next.last() == c);
        }
        if fits {
            if value > (0xffff_ffff - digit) / 10 {
                fits = false;
            } else {
                value = value * 10 + digit;
            }
        }
        i += 1;
    }
    assert(body.take(i - skip) =~= body);
    if fits {
        Some(value)
    } else {
        None
    }
}

/// What kind of brick a block state gets.
pub enum BlockPlan {
    /// An empty one.
    Empty,
    /// One filled with a fluid.
    Fluid { is_lava: bool, level: u32 },
    /// One that shows the models of a block.
    Model { name: String, props: Properties },
}

/// Whether a key stands for air.
pub open spec fn is_air(key: Seq<char>) -> bool {
    key == "air"@ || key == "void_air"@ || key == "cave_air"@
}

/// The level of a fluid. Where it is not a number, it is that of a source.
pub open spec fn fluid_level(props: Seq<properties::Pair>) -> u32 {
    match properties::value_of(props, "level"@) {
        Some(text) => match parsed_number(text) {
            Some(level) => level,
            None => 0,
        },
        None => 0,
    }
}

/// Whether a plan is the one for a key.
pub open spec fn is_plan(key: Seq<char>, plan: BlockPlan) -> bool {
    let name = block_states::key_name(key);
    let props = block_states::key_properties(key);
    let fluid = name == "water"@ || name == "lava"@;
    match plan {
        BlockPlan::Empty => is_air(key),
        BlockPlan::Fluid { is_lava, level } => !is_air(key) && fluid && is_lava == (name
            == "lava"@) && level == fluid_level(props),
        BlockPlan::Model { name: n, props: p } => !is_air(key) && !fluid && n@ == name && p@
            == props && p.wf(),
    }
}

/// What kind of brick the block state with a key gets.
pub fn plan_block(key: &str) -> (r: BlockPlan)
    requires
        block_states::key_parses(key@),
    ensures
        is_plan(key@, r),
{
    if text::same(key, "air") || text::same(key, "void_air") || text::same(key, "cave_air") {
        return BlockPlan::Empty;
    }
    let (name, props) = parse_key(key);
    let is_lava: bool = text::same(name, "lava");
    if is_lava || text::same(name, "water") {
        let level: u32 = match props.get("level") {
            Some(text) => match parse_number(text) {
                Some(level) => level,
                None => 0,
            },
            None => 0,
        };
        return BlockPlan::Fluid { is_lava, level };
    }
    BlockPlan::Model { name: name.to_owned(), props }
}

/// The still texture of a fluid.
pub open spec fn still_name(is_lava: bool) -> Seq<char> {
    if is_lava {
        "block/lava_still"@
    } else {
        "block/water_still"@
    }
}

/// The flow texture of a fluid.
pub open spec fn flow_name(is_lava: bool) -> Seq<char> {
    if is_lava {
        "block/lava_flow"@
    } else {
        "block/water_flow"@
    }
}

/// The still and the flow texture of a fluid.
pub fn fluid_textures(is_lava: bool) -> (r: (&'static str, &'static str))
    ensures
        r.0@ == still_name(is_lava),
        r.1@ == flow_name(is_lava),
{
    if is_lava {
        ("block/lava_still", "block/lava_flow")
    } else {
        ("block/water_still", "block/water_flow")
    }
}

/// Whether both textures of a fluid are loaded.
pub open spec fn has_fluid(textures: Map<Seq<char>, RgbaImage>, is_lava: bool) -> bool {
    textures.contains_key(still_name(is_lava)) && textures.contains_key(flow_name(is_lava))
}

/// Whether a grid is empty.
pub open spec fn is_empty_grid(grid: VoxelGrid) -> bool {
    &&& grid.bitmask@ == Seq::new(128, |i: int| 0u32)
    &&& grid.coarse == 0
    &&& grid.color_indices@.len() == 0
    &&& grid.palette@.len() == 0
    &&& !grid.is_emissive
}

/// The brick of a fluid. Without its textures it stays empty.
pub fn carve_fluid(is_lava: bool, level: u32, textures: &TextureCache) -> (r: VoxelGrid)
    requires
        has_fluid(textures@, is_lava) ==> fluid::fluid_colors_exist(
            level,
            textures@[still_name(is_lava)],
            textures@[flow_name(is_lava)],
        ),
    ensures
        if has_fluid(textures@, is_lava) {
            grid::shows(
                r,
                fluid::fluid_coloring(
                    is_lava,
                    level,
                    textures@[still_name(is_lava)],
                    textures@[flow_name(is_lava)],
                ),
            ) && r.is_emissive == is_lava
        } else {
            is_empty_grid(r)
        },
{
    let (still, flow) = fluid_textures(is_lava);
    if let Some(still) = textures.get(still) {
        if let Some(flow) = textures.get(flow) {
            return voxelize_fluid(is_lava, level, still, flow);
        }
    }
    VoxelGrid::default()
}

/// Whether a block state is waterlogged.
pub open spec fn holds_water(props: Seq<properties::Pair>) -> bool {
    properties::value_of(props, "waterlogged"@) == Some("true"@)
}

/// Whether water is filled into the brick of a block state: the block state is
/// waterlogged and the textures of water are loaded.
pub open spec fn gets_water(
    textures: Map<Seq<char>, RgbaImage>,
    props: Seq<properties::Pair>,
) -> bool {
    holds_water(props) && has_fluid(textures, false)
}

/// Whether the water in every voxel that a model leaves empty has a colour.
pub open spec fn water_fits(
    quads: Seq<QuadHits>,
    textures: Map<Seq<char>, RgbaImage>,
) -> bool {
    let coloring = voxelizer::snapped_coloring(quads, textures);
    forall|v: int|
        0 <= v < grid::BRICK_VOXELS && coloring(v) is None ==> #[trigger] fluid::can_color(
            textures[still_name(false)],
            textures[flow_name(false)],
            v,
            fluid::is_inside(v),
        )
}

/// Whether a grid is the brick of a model before water is filled in.
pub open spec fn is_dry_brick(
    quads: Seq<QuadHits>,
    textures: Map<Seq<char>, RgbaImage>,
    name: Seq<char>,
    props: Seq<properties::Pair>,
    dry: VoxelGrid,
) -> bool {
    &&& grid::shows(dry, voxelizer::snapped_coloring(quads, textures))
    &&& dry.palette.wf()
    &&& dry.is_emissive == gives_light(name, props)
}

/// Whether a grid is the brick of a model.
pub open spec fn is_brick(
    quads: Seq<QuadHits>,
    textures: Map<Seq<char>, RgbaImage>,
    name: Seq<char>,
    props: Seq<properties::Pair>,
    brick: VoxelGrid,
) -> bool {
    if quads.len() == 0 {
        is_empty_grid(brick)
    } else if gets_water(textures, props) {
        exists|dry: VoxelGrid|
            #[trigger] is_dry_brick(quads, textures, name, props, dry) && fluid::is_waterlogged(
                dry,
                textures[still_name(false)],
                textures[flow_name(false)],
                brick,
            )
    } else {
        is_dry_brick(quads, textures, name, props, brick)
    }
}

/// The brick of a model from what its faces leave in the voxels. Without faces
/// it stays empty.
pub fn carve_model(
    quads: &[QuadHits],
    textures: &TextureCache,
    name: &str,
    props: &Properties,
) -> (r: VoxelGrid)
    requires
        voxelizer::hits_exist(quads@, textures@),
        voxelizer::sums_fit(quads@, textures@),
        quads@.len() > 0 && gets_water(textures@, props@) ==> water_fits(quads@, textures@),
    ensures
        is_brick(quads@, textures@, name@, props@, r),
{
    if quads.len() == 0 {
        return VoxelGrid::default();
    }
    let ghost coloring = voxelizer::snapped_coloring(quads@, textures@);
    let mut brick = voxelize(quads, textures);
    proof {
        grid::law_shown_grid_is_wf(brick, coloring);
    }
    brick.is_emissive = is_emissive(name, props);
    let ghost dry = brick;
    assert(is_dry_brick(quads@, textures@, name@, props@, dry));
    if props.has("waterlogged", "true") {
        let (still, flow) = fluid_textures(false);
        if let Some(still) = textures.get(still) {
            if let Some(flow) = textures.get(flow) {
                assert(fluid::water_colors_exist(brick.bitmask@, *still, *flow));
                apply_waterlogging(&mut brick, still, flow);
                assert(fluid::is_waterlogged(dry, *still, *flow, brick));
            }
        }
    }
    brick
}

/// Whether the brick of a fluid can be made from the loaded textures.
pub fn can_carve_fluid(is_lava: bool, level: u32, textures: &TextureCache) -> (r: bool)
    ensures
        r == (has_fluid(textures@, is_lava) ==> fluid::fluid_colors_exist(
            level,
            textures@[still_name(is_lava)],
            textures@[flow_name(is_lava)],
        )),
{
    let (still, flow) = fluid_textures(is_lava);
    if let Some(still) = textures.get(still) {
        if let Some(flow) = textures.get(flow) {
            return fluid::can_voxelize_fluid(level, still, flow);
        }
    }
    true
}

/// Whether the brick of a model can be made from what its faces leave in the voxels.
pub fn can_carve_model(quads: &[QuadHits], textures: &TextureCache, props: &Properties) -> (r: bool)
    ensures
        r == {
            &&& voxelizer::hits_exist(quads@, textures@)
            &&& voxelizer::sums_fit(quads@, textures@)
            &&& quads@.len() > 0 && gets_water(textures@, props@) ==> water_fits(
                quads@,
                textures@,
            )
        },
{
    if !voxelizer::can_voxelize(quads, textures) {
        return false;
    }
    if quads.len() == 0 || !props.has("waterlogged", "true") {
        return true;
    }
    let (still, flow) = fluid_textures(false);
    if let Some(still) = textures.get(still) {
        if let Some(flow) = textures.get(flow) {
            let dry = voxelize(quads, textures);
            let fits: bool = fluid::can_waterlog(&dry, still, flow);
            proof {
                let coloring = voxelizer::snapped_coloring(quads@, textures@);
                assert forall|v: int| 0 <= v < grid::BRICK_VOXELS implies (#[trigger] coloring(
                    v,
                ) is None) == !grid::is_solid(dry.bitmask@, v) by {
                    assert(grid::is_solid(dry.bitmask@, v) <==> coloring(v) is Some);
                }
                assert(fluid::water_colors_exist(dry.bitmask@, *still, *flow) == water_fits(
                    quads@,
                    textures@,
                ));
            }
            return fits;
        }
    }
    true
}

/// Every brick fits together.
pub proof fn law_bricks_are_wf(
    quads: Seq<QuadHits>,
    textures: Map<Seq<char>, RgbaImage>,
    name: Seq<char>,
    props: Seq<properties::Pair>,
    brick: VoxelGrid,
)
    requires
        is_brick(quads, textures, name, props, brick),
    ensures
        brick.wf(),
{
    let coloring = voxelizer::snapped_coloring(quads, textures);
    if quads.len() == 0 {
        grid::lemma_empty_grid_is_wf(brick);
    } else if gets_water(textures, props) {
        let still = textures[still_name(false)];
        let flow = textures[flow_name(false)];
        let dry = choose|dry: VoxelGrid|
            #[trigger] is_dry_brick(quads, textures, name, props, dry) && fluid::is_waterlogged(
                dry,
                still,
                flow,
                brick,
            );
        grid::law_shown_grid_is_wf(dry, coloring);
        fluid::law_waterlogged_grid_is_wf(dry, still, flow, brick);
    } else {
        grid::law_shown_grid_is_wf(brick, coloring);
    }
}

/// The number that digits write goes by their places: of two texts in a row the
/// first counts ten times for each digit of the second, so zeros in front do not
/// matter, and a single digit is its own value.
pub proof fn law_digits_have_places(a: Seq<char>, b: Seq<char>, c: char)
    ensures
        decimal(a + b) == decimal(a) * vstd::arithmetic::power::pow(10, b.len()) + decimal(b),
        decimal(seq!['0'] + b) == decimal(b),
        '0' as int <= c as int <= '9' as int ==> decimal(seq![c]) == c as int - '0' as int,
    decreases b.len(),
{
    vstd::arithmetic::power::lemma_pow0(10);
    let none = Seq::<char>::empty();
    let zero = seq!['0'];
    assert(seq![c].drop_last() =~= none);
    assert(zero.drop_last() =~= none);
    assert(decimal(none) == 0);
    assert(decimal(zero) == 0);
    if b.len() == 0 {
        assert(a + b =~= a);
        assert(zero + b =~= zero);
        assert(decimal(b) == 0);
        assert(decimal(a) * 1 == decimal(a)) by (nonlinear_arith);
    } else {
        let front = b.drop_last();
        law_digits_have_places(a, front, c);
        assert((a + b).drop_last() =~= a + front);
        assert((zero + b).drop_last() =~= zero + front);
        vstd::arithmetic::power::lemma_pow1(10);
        vstd::arithmetic::power::lemma_pow_adds(10, front.len(), 1);
        let p = vstd::arithmetic::power::pow(10, front.len());
        let x = decimal(a);
        assert((x * p) * 10 == x * (p * 10)) by (nonlinear_arith);
    }
}

/// A text is a number exactly if it is made of digits, one at least, with or
/// without a plus sign in front, and the number is the one that the digits write,
/// unless it does not fit.
pub proof fn law_numbers_are_digits(digits: Seq<char>, before: Seq<char>, c: char, after: Seq<char>)
    requires
        digits.len() > 0,
        forall|i: int|
            0 <= i < digits.len() ==> '0' as int <= (#[trigger] digits[i]) as int <= '9' as int,
    ensures
        decimal(digits) <= u32::MAX ==> parsed_number(digits) == Some(decimal(digits) as u32),
        decimal(digits) > u32::MAX ==> parsed_number(digits) is None,
        parsed_number(seq!['+'] + digits) == parsed_number(digits),
        parsed_number(seq![]) is None,
        parsed_number(seq!['+']) is None,
        !('0' as int <= c as int <= '9' as int) && !(c == '+' && before.len() == 0)
            ==> parsed_number(before + seq![c] + after) is None,
{
    assert('+' as int == 43 && '0' as int == 48 && '9' as int == 57);
    assert forall|i: int| 0 <= i < digits.len() implies is_digit(#[trigger] digits[i]) by {}
    assert(digits[0] != '+') by {
        assert(is_digit(digits[0]));
    }
    assert(unsigned_part(digits) == digits);
    let signed = seq!['+'] + digits;
    assert(signed[0] == '+');
    assert(unsigned_part(signed) =~= digits);
    assert(unsigned_part(seq!['+']) =~= Seq::<char>::empty());
    assert(unsigned_part(Seq::<char>::empty()) =~= Seq::<char>::empty());
    if !('0' as int <= c as int <= '9' as int) && !(c == '+' && before.len() == 0) {
        let s = before + seq![c] + after;
        let at = before.len() as int;
        assert(s[at] == c);
        let body = unsigned_part(s);
        if s[0] == '+' {
            if at > 0 {
                assert(body[at - 1] == c);
                assert(!is_digit(body[at - 1]));
            }
        } else {
            assert(body[at] == c);
            assert(!is_digit(body[at]));
        }
    }
}

/// A key has one plan: air stands for an empty brick, water and lava for a fluid
/// with the level that the key names, or that of a source, and everything else for
/// its models.
pub proof fn law_plans(key: Seq<char>, plan: BlockPlan)
    requires
        is_plan(key, plan),
    ensures
        ({
            let name = block_states::key_name(key);
            let props = block_states::key_properties(key);
            let air = key == "air"@ || key == "void_air"@ || key == "cave_air"@;
            let level = properties::value_of(props, "level"@);
            &&& plan is Empty <==> air
            &&& plan is Fluid <==> !air && (name == "water"@ || name == "lava"@)
            &&& plan is Fluid ==> (plan->is_lava <==> name == "lava"@)
            &&& plan is Fluid && level is None ==> plan->level == 0
            &&& plan is Fluid && level is Some && parsed_number(level->0) is None ==> plan->level
                == 0
            &&& plan is Fluid && level is Some && parsed_number(level->0) is Some ==> plan->level
                == parsed_number(level->0)->0
            &&& plan is Model ==> plan->name@ == name && plan->props@ == props
        }),
{
}

/// Some blocks give off light whatever their properties are, and others only where
/// a property says so. The properties of a block that is in no list do not matter.
pub proof fn law_light_follows_properties(
    name: Seq<char>,
    props: Seq<properties::Pair>,
    other: Seq<properties::Pair>,
)
    ensures
        always_emissive(name) ==> gives_light(name, props),
        properties::value_of(props, "lit"@) == properties::value_of(other, "lit"@)
            && properties::value_of(props, "berries"@) == properties::value_of(other, "berries"@)
            ==> gives_light(name, props) == gives_light(name, other),
        !always_emissive(name) && emissive_when_lit(name) ==> (gives_light(name, props)
            <==> properties::value_of(props, "lit"@) == Some("true"@)),
        !always_emissive(name) && !emissive_when_lit(name) && emissive_unless_out(name) ==> (
        gives_light(name, props) <==> properties::value_of(props, "lit"@) is None
            || properties::value_of(props, "lit"@) == Some("true"@)),
        !always_emissive(name) && !emissive_when_lit(name) && !emissive_unless_out(name) ==> (
        gives_light(name, props) <==> emissive_with_berries(name) && properties::value_of(
            props,
            "berries"@,
        ) == Some("true"@)),
{
}

/// The brick of a model without faces is empty. With faces its voxels are those of
/// the model, it gives off light exactly if the block state does, and where water
/// is filled in every voxel is solid.
pub proof fn law_bricks_show_their_models(
    quads: Seq<QuadHits>,
    textures: Map<Seq<char>, RgbaImage>,
    name: Seq<char>,
    props: Seq<properties::Pair>,
    brick: VoxelGrid,
    v: int,
)
    requires
        is_brick(quads, textures, name, props, brick),
        0 <= v < grid::BRICK_VOXELS,
    ensures
        quads.len() == 0 ==> !grid::is_solid(brick.bitmask@, v) && !brick.is_emissive
            && brick.palette@.len() == 0,
        quads.len() > 0 ==> brick.is_emissive == gives_light(name, props),
        ({
            let wet = properties::value_of(props, "waterlogged"@) == Some("true"@)
                && textures.contains_key("block/water_still"@) && textures.contains_key(
                "block/water_flow"@,
            );
            quads.len() > 0 ==> (grid::is_solid(brick.bitmask@, v) <==> wet
                || voxelizer::snapped_coloring(quads, textures)(v) is Some)
        }),
{
    if quads.len() == 0 {
        grid::lemma_zero_bits();
        assert(brick.bitmask@[v / 32] == 0u32);
    } else if gets_water(textures, props) {
        let still = textures[still_name(false)];
        let flow = textures[flow_name(false)];
        let dry = choose|dry: VoxelGrid|
            #[trigger] is_dry_brick(quads, textures, name, props, dry) && fluid::is_waterlogged(
                dry,
                still,
                flow,
                brick,
            );
        assert(grid::is_solid(brick.bitmask@, v));
    } else {
        assert(grid::is_solid(brick.bitmask@, v) <==> voxelizer::snapped_coloring(
            quads,
            textures,
        )(v) is Some);
    }
}

/// The blocks that give off light: always, while they are lit, unless they are
/// out, and while they bear berries.
pub proof fn law_light_sources(name: Seq<char>)
    ensures
        always_emissive(name) <==> seq![
            "glowstone"@,
            "sea_lantern"@,
            "beacon"@,
            "shroomlight"@,
            "jack_o_lantern"@,
            "fire"@,
            "soul_fire"@,
            "magma_block"@,
            "lava"@,
            "ochre_froglight"@,
            "verdant_froglight"@,
            "pearlescent_froglight"@,
            "torch"@,
            "wall_torch"@,
            "soul_torch"@,
            "soul_wall_torch"@,
            "lantern"@,
            "soul_lantern"@,
            "end_rod"@,
            "conduit"@,
            "crying_obsidian"@,
            "glow_lichen"@,
            "sculk_catalyst"@,
        ].contains(name),
        emissive_when_lit(name) <==> seq![
            "redstone_lamp"@,
            "furnace"@,
            "blast_furnace"@,
            "smoker"@,
            "campfire"@,
            "soul_campfire"@,
        ].contains(name),
        emissive_unless_out(name) <==> seq![
            "redstone_torch"@,
            "redstone_wall_torch"@,
        ].contains(name),
        emissive_with_berries(name) <==> seq![
            "cave_vines"@,
            "cave_vines_plant"@,
        ].contains(name),
{
    let always = seq![
        "glowstone"@,
        "sea_lantern"@,
        "beacon"@,
        "shroomlight"@,
        "jack_o_lantern"@,
        "fire"@,
        "soul_fire"@,
        "magma_block"@,
        "lava"@,
        "ochre_froglight"@,
        "verdant_froglight"@,
        "pearlescent_froglight"@,
        "torch"@,
        "wall_torch"@,
        "soul_torch"@,
        "soul_wall_torch"@,
        "lantern"@,
        "soul_lantern"@,
        "end_rod"@,
        "conduit"@,
        "crying_obsidian"@,
        "glow_lichen"@,
        "sculk_catalyst"@,
    ];
    assert(always[0] == "glowstone"@);
    assert(always[1] == "sea_lantern"@);
    assert(always[2] == "beacon"@);
    assert(always[3] == "shroomlight"@);
    assert(always[4] == "jack_o_lantern"@);
    assert(always[5] == "fire"@);
    assert(always[6] == "soul_fire"@);
    assert(always[7] == "magma_block"@);
    assert(always[8] == "lava"@);
    assert(always[9] == "ochre_froglight"@);
    assert(always[10] == "verdant_froglight"@);
    assert(always[11] == "pearlescent_froglight"@);
    assert(always[12] == "torch"@);
    assert(always[13] == "wall_torch"@);
    assert(always[14] == "soul_torch"@);
    assert(always[15] == "soul_wall_torch"@);
    assert(always[16] == "lantern"@);
    assert(always[17] == "soul_lantern"@);
    assert(always[18] == "end_rod"@);
    assert(always[19] == "conduit"@);
    assert(always[20] == "crying_obsidian"@);
    assert(always[21] == "glow_lichen"@);
    assert(always[22] == "sculk_catalyst"@);
    let lit = seq![
        "redstone_lamp"@,
        "furnace"@,
        "blast_furnace"@,
        "smoker"@,
        "campfire"@,
        "soul_campfire"@,
    ];
    assert(lit[0] == "redstone_lamp"@);
    assert(lit[1] == "furnace"@);
    assert(lit[2] == "blast_furnace"@);
    assert(lit[3] == "smoker"@);
    assert(lit[4] == "campfire"@);
    assert(lit[5] == "soul_campfire"@);
    let unless_out = seq![
        "redstone_torch"@,
        "redstone_wall_torch"@,
    ];
    assert(unless_out[0] == "redstone_torch"@);
    assert(unless_out[1] == "redstone_wall_torch"@);
    let with_berries = seq![
        "cave_vines"@,
        "cave_vines_plant"@,
    ];
    assert(with_berries[0] == "cave_vines"@);
    assert(with_berries[1] == "cave_vines_plant"@);
}

/// The blocks that have the color of foliage.
pub proof fn law_foliage(name: Seq<char>)
    ensures
        is_foliage(name) <==> seq![
            "oak_leaves"@,
            "jungle_leaves"@,
            "acacia_leaves"@,
            "dark_oak_leaves"@,
            "mangrove_leaves"@,
            "cherry_leaves"@,
            "vine"@,
        ].contains(name),
{
    let all = seq![
        "oak_leaves"@,
        "jungle_leaves"@,
        "acacia_leaves"@,
        "dark_oak_leaves"@,
        "mangrove_leaves"@,
        "cherry_leaves"@,
        "vine"@,
    ];
    assert(all[0] == "oak_leaves"@);
    assert(all[1] == "jungle_leaves"@);
    assert(all[2] == "acacia_leaves"@);
    assert(all[3] == "dark_oak_leaves"@);
    assert(all[4] == "mangrove_leaves"@);
    assert(all[5] == "cherry_leaves"@);
    assert(all[6] == "vine"@);
}

/// The textures of a fluid are named after it.
pub proof fn law_fluid_textures(is_lava: bool)
    ensures
        ({
            let name = if is_lava {
                "lava"@
            } else {
                "water"@
            };
            &&& still_name(is_lava) == "block/"@ + name + "_still"@
            &&& flow_name(is_lava) == "block/"@ + name + "_flow"@
        }),
{
    reveal_strlit("lava");
    reveal_strlit("water");
    reveal_strlit("block/");
    reveal_strlit("_still");
    reveal_strlit("_flow");
    reveal_strlit("block/lava_still");
    reveal_strlit("block/lava_flow");
    reveal_strlit("block/water_still");
    reveal_strlit("block/water_flow");
    assert(still_name(true) =~= "block/"@ + "lava"@ + "_still"@);
    assert(flow_name(true) =~= "block/"@ + "lava"@ + "_flow"@);
    assert(still_name(false) =~= "block/"@ + "water"@ + "_still"@);
    assert(flow_name(false) =~= "block/"@ + "water"@ + "_flow"@);
}

} // verus!
