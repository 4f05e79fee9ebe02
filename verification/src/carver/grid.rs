//! Voxel grids: the bricks of 16 voxels a side that stand for block states.
//!
//! Voxel `(x, y, z)` has the number `x + 16 * y + 256 * z`. A brick holds one
//! bit per voxel, a coarse bit per cube of four voxels a side, and for every
//! solid voxel, in the order of the numbers, its colour in the palette.

use vstd::prelude::*;

use crate::carver::palette;
use crate::carver::palette::Palette;

verus! {

/// How many voxels a brick has.
pub const BRICK_VOXELS: usize = 4096;

/// Whether voxel `v` is set in a bitmask.
pub open spec fn is_solid(bitmask: Seq<u32>, v: int) -> bool {
    (bitmask[v / 32] >> ((v % 32) as u32)) & 1u32 == 1u32
}

/// Whether bit `r` of a coarse bitmask is set.
pub open spec fn coarse_bit(coarse: u64, r: int) -> bool {
    (coarse >> (r as u64)) & 1u64 == 1u64
}

/// The cube of four voxels a side that voxel `v` lies in.
pub open spec fn region_of(v: int) -> int {
    (v % 16) / 4 + (v / 16 % 16) / 4 * 4 + (v / 256) / 4 * 16
}

/// Whether a coarse bitmask has the bits of exactly the cubes with a solid
/// voxel among the first `n`.
pub open spec fn coarse_upto(bitmask: Seq<u32>, coarse: u64, n: int) -> bool {
    forall|r: int|
        0 <= r < 64 ==> (#[trigger] coarse_bit(coarse, r) <==> exists|v: int|
            0 <= v < n && region_of(v) == r && #[trigger] is_solid(bitmask, v))
}

/// Whether a coarse bitmask has the bits of exactly the cubes with a solid voxel.
pub open spec fn is_coarse(bitmask: Seq<u32>, coarse: u64) -> bool {
    coarse_upto(bitmask, coarse, BRICK_VOXELS as int)
}

/// Setting a bit of a word.
proof fn lemma_set_bit(w: u32, i: u32, j: u32)
    requires
        i < 32,
        j < 32,
    ensures
        ((w | (1u32 << i)) >> j) & 1u32 == 1u32 <==> (i == j || (w >> j) & 1u32 == 1u32),
{
    assert(((w | (1u32 << i)) >> j) & 1u32 == 1u32 <==> (i == j || (w >> j) & 1u32 == 1u32))
        by (bit_vector)
        requires
            i < 32,
            j < 32,
    ;
}

/// Setting a bit of a long word.
proof fn lemma_set_coarse_bit(w: u64, i: u64, j: u64)
    requires
        i < 64,
        j < 64,
    ensures
        ((w | (1u64 << i)) >> j) & 1u64 == 1u64 <==> (i == j || (w >> j) & 1u64 == 1u64),
{
    assert(((w | (1u64 << i)) >> j) & 1u64 == 1u64 <==> (i == j || (w >> j) & 1u64 == 1u64))
        by (bit_vector)
        requires
            i < 64,
            j < 64,
    ;
}

/// No bit of zero is set.
pub proof fn lemma_zero_bits()
    ensures
        forall|j: u32| j < 32 ==> #[trigger] (0u32 >> j) & 1u32 == 0u32,
        forall|j: u64| j < 64 ==> #[trigger] (0u64 >> j) & 1u64 == 0u64,
{
    assert(forall|j: u32| j < 32 ==> #[trigger] (0u32 >> j) & 1u32 == 0u32) by (bit_vector);
    assert(forall|j: u64| j < 64 ==> #[trigger] (0u64 >> j) & 1u64 == 0u64) by (bit_vector);
}

/// Whether voxel `v` is set in a bitmask.
pub fn solid_at(bitmask: &[u32; 128], v: usize) -> (r: bool)
    requires
        v < BRICK_VOXELS,
    ensures
        r == is_solid(bitmask@, v as int),
{
    let word: u32 = bitmask[v / 32];
    let shift: u32 = (v % 32) as u32;
    let bit: u32 = (word >> shift) & 1;
    assert(bit == 0 || bit == 1) by {
        assert((word >> shift) & 1u32 == 0u32 || (word >> shift) & 1u32 == 1u32) by (bit_vector);
    }
    bit != 0
}

/// Sets voxel `v` in a bitmask.
pub(crate) fn set_solid(bitmask: &mut [u32; 128], v: usize)
    requires
        v < BRICK_VOXELS,
    ensures
        forall|u: int|
            0 <= u < BRICK_VOXELS ==> (#[trigger] is_solid(final(bitmask)@, u) <==> (u == v
                || is_solid(old(bitmask)@, u))),
{
    let ghost before = bitmask@;
    let word: u32 = bitmask[v / 32];
    let shift: u32 = (v % 32) as u32;
    bitmask[v / 32] = word | (1u32 << shift);
    proof {
        assert(bitmask@ =~= before.update((v / 32) as int, word | (1u32 << shift)));
        assert forall|u: int| 0 <= u < BRICK_VOXELS implies (#[trigger] is_solid(bitmask@, u) <==> (u
            == v || is_solid(before, u))) by {
            if u / 32 == v / 32 {
                lemma_set_bit(word, shift, (u % 32) as u32);
                assert(u == v <==> u % 32 == v % 32);
            }
        }
    }
}

/// The coarse bitmask of a bitmask: one bit per cube of four voxels a side,
/// set if any voxel in it is solid.
pub fn compute_coarse(bitmask: &[u32; 128]) -> (coarse: u64)
    ensures
        is_coarse(bitmask@, coarse),
{
    let mut coarse: u64 = 0;
    proof {
        lemma_zero_bits();
        assert(coarse_upto(bitmask@, coarse, 0));
    }
    let mut v: usize = 0;
    while v < BRICK_VOXELS
        invariant
            v <= BRICK_VOXELS,
            coarse_upto(bitmask@, coarse, v as int),
        decreases BRICK_VOXELS - v,
    {
        let ghost before = coarse;
        if solid_at(bitmask, v) {
            let region: usize = (v % 16) / 4 + (v / 16 % 16) / 4 * 4 + (v / 256) / 4 * 16;
            coarse = coarse | (1u64 << (region as u64));
            proof {
                assert forall|r: int| 0 <= r < 64 implies (#[trigger] coarse_bit(coarse, r) <==> (r
                    == region || coarse_bit(before, r))) by {
                    lemma_set_coarse_bit(before, region as u64, r as u64);
                }
            }
        }
        proof {
            lemma_coarse_step(bitmask@, before, coarse, v as int);
        }
        v += 1;
    }
    coarse
}

/// Taking one more voxel into account.
proof fn lemma_coarse_step(bitmask: Seq<u32>, before: u64, after: u64, v: int)
    requires
        0 <= v < BRICK_VOXELS,
        coarse_upto(bitmask, before, v),
        forall|r: int|
            0 <= r < 64 ==> (#[trigger] coarse_bit(after, r) <==> ((is_solid(bitmask, v) && r
                == region_of(v)) || coarse_bit(before, r))),
    ensures
        coarse_upto(bitmask, after, v + 1),
{
    assert forall|r: int| 0 <= r < 64 implies (#[trigger] coarse_bit(after, r) <==> exists|u: int|
        0 <= u < v + 1 && region_of(u) == r && #[trigger] is_solid(bitmask, u)) by {
        assert(coarse_bit(after, r) <==> ((is_solid(bitmask, v) && r == region_of(v))
            || coarse_bit(before, r)));
        if coarse_bit(before, r) {
            let u = choose|u: int|
                0 <= u < v && region_of(u) == r && #[trigger] is_solid(bitmask, u);
            assert(0 <= u < v + 1 && region_of(u) == r && is_solid(bitmask, u));
        }
        if exists|u: int| 0 <= u < v + 1 && region_of(u) == r && #[trigger] is_solid(bitmask, u) {
            let u = choose|u: int|
                0 <= u < v + 1 && region_of(u) == r && #[trigger] is_solid(bitmask, u);
            if u < v {
                assert(0 <= u < v && region_of(u) == r && is_solid(bitmask, u));
            }
        }
    }
}

/// Long words of `n` bits with the same bits are the same.
#[verifier::rlimit(30)]
proof fn lemma_same_bits(a: u64, b: u64, n: u64)
    requires
        n <= 64,
        n < 64 ==> a >> n == 0 && b >> n == 0,
        forall|r: u64| r < n ==> #[trigger] (a >> r) & 1u64 == (b >> r) & 1u64,
    ensures
        a == b,
    decreases n,
{
    if n == 0 {
        assert(a == b) by (bit_vector)
            requires
                a >> 0u64 == 0,
                b >> 0u64 == 0,
        ;
    } else {
        let c = a >> 1u64;
        let d = b >> 1u64;
        let m = (n - 1) as u64;
        assert forall|r: u64| r < m implies #[trigger] (c >> r) & 1u64 == (d >> r) & 1u64 by {
            let q = (r + 1) as u64;
            assert((a >> q) & 1u64 == (b >> q) & 1u64);
            assert((a >> 1u64) >> r == a >> q && (b >> 1u64) >> r == b >> q) by (bit_vector)
                requires
                    r < 63,
                    q == r + 1,
            ;
        }
        assert(c >> m == 0 && d >> m == 0) by (bit_vector)
            requires
                0 < n <= 64,
                m == n - 1,
                c == a >> 1u64,
                d == b >> 1u64,
                n < 64 ==> a >> n == 0 && b >> n == 0,
        ;
        lemma_same_bits(c, d, m);
        assert((a >> 0u64) & 1u64 == (b >> 0u64) & 1u64);
        assert(a == b) by (bit_vector)
            requires
                a >> 1u64 == b >> 1u64,
                (a >> 0u64) & 1u64 == (b >> 0u64) & 1u64,
        ;
    }
}

/// A bitmask has one coarse bitmask.
pub proof fn law_coarse_is_unique(bitmask: Seq<u32>, a: u64, b: u64)
    requires
        is_coarse(bitmask, a),
        is_coarse(bitmask, b),
    ensures
        a == b,
{
    assert forall|r: u64| r < 64 implies #[trigger] (a >> r) & 1u64 == (b >> r) & 1u64 by {
        assert(coarse_bit(a, r as int) == coarse_bit(b, r as int));
        assert((a >> r) & 1u64 == 0u64 || (a >> r) & 1u64 == 1u64) by (bit_vector);
        assert((b >> r) & 1u64 == 0u64 || (b >> r) & 1u64 == 1u64) by (bit_vector);
    }
    lemma_same_bits(a, b, 64);
}

/// A cube whose coarse bit is not set can be skipped: all of its voxels are empty.
pub proof fn law_coarse_skips_empty(bitmask: Seq<u32>, coarse: u64, v: int)
    requires
        is_coarse(bitmask, coarse),
        0 <= v < BRICK_VOXELS,
        !coarse_bit(coarse, region_of(v)),
    ensures
        !is_solid(bitmask, v),
{
    assert(0 <= region_of(v) < 64);
}

/// How many of the first `n` voxels are solid.
pub open spec fn count_solid(bitmask: Seq<u32>, n: int) -> nat
    decreases n,
{
    if n <= 0 {
        0
    } else {
        count_solid(bitmask, n - 1) + if is_solid(bitmask, n - 1) {
            1nat
        } else {
            0nat
        }
    }
}

/// There are no more solid voxels than voxels.
pub proof fn lemma_count_bound(bitmask: Seq<u32>, n: int)
    requires
        0 <= n,
    ensures
        count_solid(bitmask, n) <= n,
    decreases n,
{
    if n > 0 {
        lemma_count_bound(bitmask, n - 1);
    }
}

/// More voxels hold no fewer solid ones.
pub proof fn lemma_count_grows(bitmask: Seq<u32>, m: int, n: int)
    requires
        m <= n,
    ensures
        count_solid(bitmask, m) <= count_solid(bitmask, n),
    decreases n - m,
{
    if m < n {
        lemma_count_grows(bitmask, m, n - 1);
    }
}

/// A voxelized block state.
pub struct VoxelGrid {
    /// One bit per voxel.
    pub bitmask: [u32; 128],
    /// One bit per cube of four voxels a side.
    pub coarse: u64,
    /// The palette number of every solid voxel, in the order of the voxels.
    pub color_indices: Vec<u8>,
    pub palette: Palette,
    /// Whether the block gives off light.
    pub is_emissive: bool,
}

impl Default for VoxelGrid {
    /// The empty grid.
    fn default() -> (r: VoxelGrid)
        ensures
            r.bitmask@ == Seq::new(128, |i: int| 0u32),
            r.coarse == 0,
            r.color_indices@ == Seq::<u8>::empty(),
            r.palette@ == Seq::<Seq<u8>>::empty(),
            r.is_emissive == false,
            r.wf(),
    {
        let bitmask = [0u32;128];
        assert(bitmask@ =~= Seq::new(128, |i: int| 0u32));
        let r = VoxelGrid {
            bitmask,
            coarse: 0,
            color_indices: Vec::new(),
            palette: Palette::default(),
            is_emissive: false,
        };
        proof {
            lemma_zero_bits();
            lemma_empty_counts(r.bitmask@, BRICK_VOXELS as int);
        }
        r
    }
}

impl VoxelGrid {
    /// Whether the parts of the grid fit together.
    pub open spec fn wf(&self) -> bool {
        &&& self.palette.wf()
        &&& is_coarse(self.bitmask@, self.coarse)
        &&& self.color_indices@.len() == count_solid(self.bitmask@, BRICK_VOXELS as int)
        &&& forall|i: int|
            0 <= i < self.color_indices@.len() ==> #[trigger] self.color_indices@[i]
                < self.palette@.len()
    }
}

/// Where no voxel is solid, none is counted.
proof fn lemma_empty_counts(bitmask: Seq<u32>, n: int)
    requires
        n <= BRICK_VOXELS,
        forall|v: int| 0 <= v < BRICK_VOXELS ==> !#[trigger] is_solid(bitmask, v),
    ensures
        count_solid(bitmask, n) == 0,
    decreases n,
{
    if n > 0 {
        lemma_empty_counts(bitmask, n - 1);
    }
}

/// Where every voxel is solid, all are counted.
pub proof fn lemma_full_counts(bitmask: Seq<u32>, n: int)
    requires
        0 <= n <= BRICK_VOXELS,
        forall|v: int| 0 <= v < BRICK_VOXELS ==> #[trigger] is_solid(bitmask, v),
    ensures
        count_solid(bitmask, n) == n,
    decreases n,
{
    if n > 0 {
        lemma_full_counts(bitmask, n - 1);
    }
}

/// A grid without voxels and colours fits together.
pub proof fn lemma_empty_grid_is_wf(grid: VoxelGrid)
    requires
        grid.bitmask@ == Seq::new(128, |i: int| 0u32),
        grid.coarse == 0,
        grid.color_indices@.len() == 0,
        grid.palette@.len() == 0,
    ensures
        grid.wf(),
{
    lemma_zero_bits();
    assert forall|v: int| 0 <= v < BRICK_VOXELS implies !#[trigger] is_solid(grid.bitmask@, v) by {
        assert(grid.bitmask@[v / 32] == 0u32);
    }
    lemma_empty_counts(grid.bitmask@, BRICK_VOXELS as int);
    assert(is_coarse(grid.bitmask@, 0));
}

/// The colour of every voxel. A voxel without one is empty.
pub type Coloring = spec_fn(int) -> Option<Seq<u8>>;

/// The colours of the solid voxels among the first `n`.
pub open spec fn colors_upto(coloring: Coloring, n: int) -> Seq<Seq<u8>>
    decreases n,
{
    if n <= 0 {
        seq![]
    } else {
        match coloring(n - 1) {
            Some(c) => colors_upto(coloring, n - 1).push(c),
            None => colors_upto(coloring, n - 1),
        }
    }
}

/// Whether the parts of a grid show the first `n` voxels of a colouring, the
/// palette filled in the order of the voxels.
pub open spec fn shows_upto(
    bitmask: Seq<u32>,
    palette: Seq<Seq<u8>>,
    indices: Seq<u8>,
    coloring: Coloring,
    n: int,
) -> bool {
    let colors = colors_upto(coloring, n);
    &&& forall|v: int|
        0 <= v < BRICK_VOXELS ==> (#[trigger] is_solid(bitmask, v) <==> v < n && coloring(
            v,
        ) is Some)
    &&& palette == palette::with_colors(seq![], colors)
    &&& indices.len() == colors.len()
    &&& forall|i: int|
        0 <= i < indices.len() ==> #[trigger] indices[i] == palette::index_in_order(
            seq![],
            colors,
            i,
        )
}

/// Whether a grid shows a colouring.
pub open spec fn shows(grid: VoxelGrid, coloring: Coloring) -> bool {
    &&& shows_upto(
        grid.bitmask@,
        grid.palette@,
        grid.color_indices@,
        coloring,
        BRICK_VOXELS as int,
    )
    &&& is_coarse(grid.bitmask@, grid.coarse)
}

/// Leaving a voxel empty.
pub proof fn lemma_skip_voxel(
    bitmask: Seq<u32>,
    palette: Seq<Seq<u8>>,
    indices: Seq<u8>,
    coloring: Coloring,
    n: int,
)
    requires
        0 <= n < BRICK_VOXELS,
        shows_upto(bitmask, palette, indices, coloring, n),
        coloring(n) is None,
    ensures
        shows_upto(bitmask, palette, indices, coloring, n + 1),
{
    assert(colors_upto(coloring, n + 1) == colors_upto(coloring, n));
    assert forall|v: int| 0 <= v < BRICK_VOXELS implies (#[trigger] is_solid(bitmask, v) <==> v < n
        + 1 && coloring(v) is Some) by {
        if v == n {
            assert(!is_solid(bitmask, n));
        }
    }
}

/// Makes a voxel solid and gives it its colour.
pub(crate) fn put_voxel(
    bitmask: &mut [u32; 128],
    palette: &mut Palette,
    indices: &mut Vec<u8>,
    v: usize,
    rgba: [u8; 4],
    Ghost(coloring): Ghost<Coloring>,
)
    requires
        v < BRICK_VOXELS,
        old(palette).wf(),
        shows_upto(old(bitmask)@, old(palette)@, old(indices)@, coloring, v as int),
        coloring(v as int) == Some(rgba@),
    ensures
        final(palette).wf(),
        shows_upto(final(bitmask)@, final(palette)@, final(indices)@, coloring, v + 1),
{
    let ghost old_indices = indices@;
    let ghost before = colors_upto(coloring, v as int);
    let ghost after = colors_upto(coloring, v + 1);
    set_solid(bitmask, v);
    let index: u8 = palette.get_or_insert(rgba);
    indices.push(index);
    proof {
        assert(after == before.push(rgba@));
        assert(after.drop_last() =~= before);
        assert(after.last() == rgba@);
        assert forall|i: int| 0 <= i < indices@.len() implies #[trigger] indices@[i]
            == palette::index_in_order(seq![], after, i) by {
            assert(after.take(i) =~= before.take(i));
            if i < before.len() {
                assert(old_indices[i] == palette::index_in_order(seq![], before, i));
            } else {
                assert(before.take(i) =~= before);
            }
        }
    }
}

/// The solid voxels of a grid that shows a colouring are as many as its colours.
proof fn lemma_count_is_rank(bitmask: Seq<u32>, coloring: Coloring, n: int)
    requires
        0 <= n <= BRICK_VOXELS,
        forall|v: int|
            0 <= v < BRICK_VOXELS ==> (#[trigger] is_solid(bitmask, v) <==> coloring(v) is Some),
    ensures
        count_solid(bitmask, n) == colors_upto(coloring, n).len(),
    decreases n,
{
    if n > 0 {
        lemma_count_is_rank(bitmask, coloring, n - 1);
        assert(is_solid(bitmask, n - 1) <==> coloring(n - 1) is Some);
    }
}

/// The colours of fewer voxels come first.
proof fn lemma_colors_prefix(coloring: Coloring, m: int, n: int)
    requires
        0 <= m <= n,
    ensures
        colors_upto(coloring, m).len() <= colors_upto(coloring, n).len(),
        forall|i: int|
            0 <= i < colors_upto(coloring, m).len() ==> #[trigger] colors_upto(coloring, m)[i]
                == colors_upto(coloring, n)[i],
    decreases n,
{
    if m < n {
        lemma_colors_prefix(coloring, m, n - 1);
    }
}

/// A grid that shows a colouring fits together.
pub proof fn law_shown_grid_is_wf(grid: VoxelGrid, coloring: Coloring)
    requires
        shows(grid, coloring),
    ensures
        grid.wf(),
{
    let colors = colors_upto(coloring, BRICK_VOXELS as int);
    lemma_count_is_rank(grid.bitmask@, coloring, BRICK_VOXELS as int);
    palette::law_palette_grows(seq![], colors);
    assert forall|i: int| 0 <= i < grid.color_indices@.len() implies #[trigger] grid.color_indices@[i]
        < grid.palette@.len() by {
        palette::law_palette_is_faithful(seq![], colors, i);
    }
}

/// A grid gives every solid voxel its colour back: the number of solid voxels
/// before it finds its palette number, and that finds its colour, unless the
/// palette is full and does not hold the colour.
pub proof fn law_voxel_color(grid: VoxelGrid, coloring: Coloring, v: int)
    requires
        shows(grid, coloring),
        0 <= v < BRICK_VOXELS,
    ensures
        is_solid(grid.bitmask@, v) <==> coloring(v) is Some,
        coloring(v) matches Some(c) ==> {
            let rank = count_solid(grid.bitmask@, v) as int;
            &&& rank < grid.color_indices@.len()
            &&& grid.color_indices@[rank] < grid.palette@.len()
            &&& grid.palette@.contains(c) || grid.palette@.len() < palette::MAX_COLORS
                ==> grid.palette@[grid.color_indices@[rank] as int] == c
        },
{
    assert(is_solid(grid.bitmask@, v) <==> coloring(v) is Some);
    if coloring(v) is Some {
        let n = BRICK_VOXELS as int;
        let colors = colors_upto(coloring, n);
        lemma_count_is_rank(grid.bitmask@, coloring, v);
        let rank = count_solid(grid.bitmask@, v) as int;
        lemma_colors_prefix(coloring, v + 1, n);
        assert(colors_upto(coloring, v + 1)[rank] == coloring(v)->0);
        assert(colors[rank] == coloring(v)->0);
        palette::law_palette_grows(seq![], colors);
        palette::law_palette_is_faithful(seq![], colors, rank);
    }
}

/// The colours of voxels come from voxels.
proof fn lemma_color_of_voxel(coloring: Coloring, n: int, c: Seq<u8>)
    requires
        colors_upto(coloring, n).contains(c),
    ensures
        exists|v: int| 0 <= v < n && #[trigger] coloring(v) == Some(c),
    decreases n,
{
    let colors = colors_upto(coloring, n);
    let i = choose|i: int| 0 <= i < colors.len() && colors[i] == c;
    if n > 0 {
        let front = colors_upto(coloring, n - 1);
        if i < front.len() {
            assert(front[i] == c);
            lemma_color_of_voxel(coloring, n - 1, c);
            let v = choose|v: int| 0 <= v < n - 1 && #[trigger] coloring(v) == Some(c);
            assert(0 <= v < n && coloring(v) == Some(c));
        } else {
            assert(coloring(n - 1) == Some(c));
        }
    }
}

/// Every colour in the palette of a grid is the colour of one of its voxels.
pub proof fn law_palette_is_used(grid: VoxelGrid, coloring: Coloring, i: int)
    requires
        shows(grid, coloring),
        0 <= i < grid.palette@.len(),
    ensures
        exists|v: int|
            0 <= v < BRICK_VOXELS && #[trigger] coloring(v) == Some(grid.palette@[i]),
{
    let colors = colors_upto(coloring, BRICK_VOXELS as int);
    palette::lemma_only_asked_for(seq![], colors, grid.palette@[i]);
    lemma_color_of_voxel(coloring, BRICK_VOXELS as int, grid.palette@[i]);
}

/// A colouring with at most 256 colours is shown exactly: every solid voxel
/// finds its own colour in the palette.
pub proof fn law_few_colors_are_exact(
    grid: VoxelGrid,
    coloring: Coloring,
    from: Seq<Seq<u8>>,
    v: int,
)
    requires
        shows(grid, coloring),
        from.len() <= palette::MAX_COLORS,
        forall|u: int|
            0 <= u < BRICK_VOXELS && #[trigger] coloring(u) is Some ==> from.contains(
                coloring(u)->0,
            ),
        0 <= v < BRICK_VOXELS,
        coloring(v) is Some,
    ensures
        ({
            let rank = count_solid(grid.bitmask@, v) as int;
            &&& rank < grid.color_indices@.len()
            &&& grid.color_indices@[rank] < grid.palette@.len()
            &&& grid.palette@[grid.color_indices@[rank] as int] == coloring(v)->0
        }),
{
    let n = BRICK_VOXELS as int;
    let colors = colors_upto(coloring, n);
    assert forall|i: int| 0 <= i < colors.len() implies from.contains(#[trigger] colors[i]) by {
        assert(colors.contains(colors[i]));
        lemma_color_of_voxel(coloring, n, colors[i]);
        let u = choose|u: int| 0 <= u < n && #[trigger] coloring(u) == Some(colors[i]);
        assert(coloring(u) is Some);
    }
    law_voxel_color(grid, coloring, v);
    lemma_count_is_rank(grid.bitmask@, coloring, v);
    let rank = count_solid(grid.bitmask@, v) as int;
    lemma_colors_prefix(coloring, v + 1, n);
    assert(colors_upto(coloring, v + 1)[rank] == coloring(v)->0);
    assert(colors[rank] == coloring(v)->0);
    palette::law_palette_holds_all(colors, from, rank);
}

/// Voxel `x + 16 * y + 256 * z` lies in the cube with a quarter of each of its
/// coordinates, and the cubes are numbered in the same order as the voxels.
pub proof fn law_cubes_are_four_voxels_a_side(x: int, y: int, z: int)
    requires
        0 <= x < 16,
        0 <= y < 16,
        0 <= z < 16,
    ensures
        ({
            let region = region_of(x + 16 * y + 256 * z);
            &&& region % 4 == x / 4
            &&& region / 4 % 4 == y / 4
            &&& region / 16 == z / 4
        }),
{
    let v = x + 16 * y + 256 * z;
    assert(v % 16 == x && v / 16 % 16 == y && v / 256 == z);
}

/// The bitmask has a bit for each voxel, 32 of them in a word, the lowest first:
/// a word is the sum of the powers of two of its solid voxels.
pub proof fn law_words_hold_voxels(bitmask: Seq<u32>, w: int, b: nat)
    requires
        0 <= w,
        b < 32,
    ensures
        is_solid(bitmask, 32 * w + b) <==> bitmask[w] as nat / vstd::arithmetic::power2::pow2(b)
            % 2 == 1,
{
    let v = 32 * w + b;
    assert(v / 32 == w && v % 32 == b);
    let word = bitmask[w];
    vstd::bits::lemma_u32_shr_is_div(word, b as u32);
    let t = word >> (b as u32);
    assert(t & 1u32 == t % 2u32) by (bit_vector);
}

/// The coarse bitmask has a bit for each cube, the lowest first.
pub proof fn law_coarse_word(coarse: u64, r: nat)
    requires
        r < 64,
    ensures
        coarse_bit(coarse, r as int) <==> coarse as nat / vstd::arithmetic::power2::pow2(r) % 2
            == 1,
{
    vstd::bits::lemma_u64_shr_is_div(coarse, r as u64);
    let t = coarse >> (r as u64);
    assert(t & 1u64 == t % 2u64) by (bit_vector);
}

} // verus!
