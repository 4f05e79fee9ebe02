//! Voxelization: from what the faces of a model leave in each voxel to a grid.
//!
//! Samples of tinted and of untinted faces are averaged apart, so that a tinted
//! overlay lies over what is below it and is not mixed with it. The palette of a
//! block is made of the colours of its textures, and the colour of a voxel is the
//! one of them nearest to what its samples come to.

use vstd::prelude::*;

pub use crate::carver::fluid::{apply_waterlogging, voxelize_fluid};
use crate::carver::grid;
use crate::carver::grid::{put_voxel, BRICK_VOXELS};
pub use crate::carver::grid::{compute_coarse, VoxelGrid};
use crate::carver::palette;
use crate::carver::palette::Palette;
use crate::carver::swatch;
use crate::carver::swatch::Swatch;
use crate::carver::texture;
use crate::carver::texture::{sample_texture, tint_with, RgbaImage, TextureCache};

verus! {

/// A voxel that a face passes through, and the texel that its middle lies on.
pub struct Hit {
    pub voxel: usize,
    pub px: i32,
    pub py: i32,
}

/// What a face of a model leaves in the voxels.
pub struct QuadHits {
    pub texture: String,
    pub tint_color: Option<[u8; 3]>,
    pub hits: Vec<Hit>,
}

/// A colour as a face shows it: multiplied by the tint of the face, if it has one.
pub open spec fn dyed(quad: QuadHits, raw: Seq<u8>) -> Seq<u8> {
    match quad.tint_color {
        Some(tint) => texture::tinted(raw, tint@),
        None => raw,
    }
}

/// The colour that a face leaves in a voxel. There is none where the texture
/// is missing or fully transparent.
pub open spec fn hit_color(quad: QuadHits, hit: Hit, textures: Map<Seq<char>, RgbaImage>) -> Option<
    Seq<u8>,
> {
    if textures.contains_key(quad.texture@) {
        let raw = texture::sampled(textures[quad.texture@], hit.px as int, hit.py as int);
        let color = dyed(quad, raw);
        if color[3] == 0 {
            None
        } else {
            Some(color)
        }
    } else {
        None
    }
}

/// What a sample adds to a sum: one of its four channels, or one to the count.
pub open spec fn channel(color: Seq<u8>, ch: int) -> int {
    if ch < 4 {
        color[ch] as int
    } else {
        1
    }
}

/// What a hit adds to a sum of voxel `v`.
pub open spec fn hit_part(
    quad: QuadHits,
    hit: Hit,
    textures: Map<Seq<char>, RgbaImage>,
    v: int,
    ch: int,
) -> int {
    if hit.voxel == v {
        match hit_color(quad, hit, textures) {
            Some(color) => channel(color, ch),
            None => 0,
        }
    } else {
        0
    }
}

/// What the first `n` hits of a face add to a sum of voxel `v`.
pub open spec fn quad_part(
    quad: QuadHits,
    textures: Map<Seq<char>, RgbaImage>,
    v: int,
    ch: int,
    n: int,
) -> int
    decreases n,
{
    if n <= 0 {
        0
    } else {
        quad_part(quad, textures, v, ch, n - 1) + hit_part(
            quad,
            quad.hits@[n - 1],
            textures,
            v,
            ch,
        )
    }
}

/// What the first `n` hits of a face add to a sum of the tinted or the untinted samples.
pub open spec fn side_part(
    quad: QuadHits,
    textures: Map<Seq<char>, RgbaImage>,
    tinted: bool,
    v: int,
    ch: int,
    n: int,
) -> int {
    if (quad.tint_color is Some) == tinted {
        quad_part(quad, textures, v, ch, n)
    } else {
        0
    }
}

/// A sum of voxel `v` over the tinted or the untinted samples of the first `n` faces.
pub open spec fn total(
    quads: Seq<QuadHits>,
    textures: Map<Seq<char>, RgbaImage>,
    tinted: bool,
    v: int,
    ch: int,
    n: int,
) -> int
    decreases n,
{
    if n <= 0 {
        0
    } else {
        total(quads, textures, tinted, v, ch, n - 1) + side_part(
            quads[n - 1],
            textures,
            tinted,
            v,
            ch,
            quads[n - 1].hits@.len() as int,
        )
    }
}

/// A sum of voxel `v` over all tinted or all untinted samples.
pub open spec fn full_total(
    quads: Seq<QuadHits>,
    textures: Map<Seq<char>, RgbaImage>,
    tinted: bool,
    v: int,
    ch: int,
) -> int {
    total(quads, textures, tinted, v, ch, quads.len() as int)
}

/// The average of a channel of voxel `v` over the tinted or the untinted samples.
pub open spec fn average(
    quads: Seq<QuadHits>,
    textures: Map<Seq<char>, RgbaImage>,
    tinted: bool,
    v: int,
    ch: int,
) -> int {
    full_total(quads, textures, tinted, v, ch) / full_total(quads, textures, tinted, v, 4)
}

/// A colour laid over another with an alpha of `a`.
pub open spec fn over(top: int, a: int, below: int) -> u8 {
    ((top * a + below * (255 - a)) / 255) as u8
}

/// What the samples of every voxel come to: their average, the tinted average
/// laid over the untinted one where there are both.
pub open spec fn model_coloring(
    quads: Seq<QuadHits>,
    textures: Map<Seq<char>, RgbaImage>,
) -> grid::Coloring {
    |v: int|
        {
            let t = |ch: int| average(quads, textures, true, v, ch);
            let b = |ch: int| average(quads, textures, false, v, ch);
            if full_total(quads, textures, true, v, 4) > 0 {
                if full_total(quads, textures, false, v, 4) > 0 {
                    Some(
                        seq![
                            over(t(0), t(3), b(0)),
                            over(t(1), t(3), b(1)),
                            over(t(2), t(3), b(2)),
                            255u8,
                        ],
                    )
                } else {
                    Some(seq![t(0) as u8, t(1) as u8, t(2) as u8, t(3) as u8])
                }
            } else if full_total(quads, textures, false, v, 4) > 0 {
                Some(seq![b(0) as u8, b(1) as u8, b(2) as u8, b(3) as u8])
            } else {
                None
            }
        }
}

/// The colours of the texture of a face, pixel by pixel, as the face shows them.
pub open spec fn face_colors(quad: QuadHits, textures: Map<Seq<char>, RgbaImage>) -> Seq<Seq<u8>> {
    if textures.contains_key(quad.texture@) {
        let pixels = textures[quad.texture@].pixels@;
        Seq::new(pixels.len() / 4, |i: int| dyed(quad, pixels.subrange(4 * i, 4 * i + 4)))
    } else {
        seq![]
    }
}

/// The colours of the textures of the first `n` faces.
pub open spec fn colors_upto(
    quads: Seq<QuadHits>,
    textures: Map<Seq<char>, RgbaImage>,
    n: int,
) -> Seq<Seq<u8>>
    decreases n,
{
    if n <= 0 {
        seq![]
    } else {
        colors_upto(quads, textures, n - 1) + face_colors(quads[n - 1], textures)
    }
}

/// The palette of a block: every distinct colour of the textures of its faces,
/// in ascending order.
pub open spec fn texture_colors(
    quads: Seq<QuadHits>,
    textures: Map<Seq<char>, RgbaImage>,
) -> Seq<Seq<u8>> {
    swatch::distinct(colors_upto(quads, textures, quads.len() as int))
}

/// The colour of every voxel: the palette colour nearest to what its samples come to.
pub open spec fn snapped_coloring(
    quads: Seq<QuadHits>,
    textures: Map<Seq<char>, RgbaImage>,
) -> grid::Coloring {
    |v: int|
        match model_coloring(quads, textures)(v) {
            Some(color) => Some(swatch::snapped(texture_colors(quads, textures), color)),
            None => None,
        }
}

/// Whether every hit lies in the brick and every texel that is sampled is there.
pub open spec fn hits_exist(quads: Seq<QuadHits>, textures: Map<Seq<char>, RgbaImage>) -> bool {
    forall|q: int, h: int|
        #![trigger quads[q].hits@[h]]
        0 <= q < quads.len() && 0 <= h < quads[q].hits@.len() ==> {
            let hit = quads[q].hits@[h];
            &&& hit.voxel < BRICK_VOXELS
            &&& textures.contains_key(quads[q].texture@) ==> texture::can_sample(
                textures[quads[q].texture@],
                hit.px as int,
                hit.py as int,
            )
        }
}

/// Whether the sums of every voxel fit 32 bits.
pub open spec fn sums_fit(quads: Seq<QuadHits>, textures: Map<Seq<char>, RgbaImage>) -> bool {
    forall|tinted: bool, v: int, ch: int|
        0 <= v < BRICK_VOXELS && 0 <= ch < 5 ==> #[trigger] full_total(
            quads,
            textures,
            tinted,
            v,
            ch,
        ) <= u32::MAX
}

/// A sample has four channels.
proof fn lemma_hit_part(
    quad: QuadHits,
    hit: Hit,
    textures: Map<Seq<char>, RgbaImage>,
    v: int,
    ch: int,
)
    requires
        0 <= ch < 5,
    ensures
        0 <= hit_part(quad, hit, textures, v, ch) <= 255 * hit_part(quad, hit, textures, v, 4),
{
}

/// The sums of a face only grow, and no channel outgrows 255 times the count.
proof fn lemma_quad_part(
    quad: QuadHits,
    textures: Map<Seq<char>, RgbaImage>,
    v: int,
    ch: int,
    m: int,
    n: int,
)
    requires
        0 <= ch < 5,
        m <= n,
    ensures
        quad_part(quad, textures, v, ch, m) <= quad_part(quad, textures, v, ch, n),
        0 <= quad_part(quad, textures, v, ch, n) <= 255 * quad_part(quad, textures, v, 4, n),
    decreases n,
{
    if n > 0 {
        lemma_hit_part(quad, quad.hits@[n - 1], textures, v, ch);
        if m < n {
            lemma_quad_part(quad, textures, v, ch, m, n - 1);
        } else {
            lemma_quad_part(quad, textures, v, ch, n - 1, n - 1);
        }
    }
}

/// The sums only grow, and no channel outgrows 255 times the count.
proof fn lemma_total(
    quads: Seq<QuadHits>,
    textures: Map<Seq<char>, RgbaImage>,
    tinted: bool,
    v: int,
    ch: int,
    m: int,
    n: int,
)
    requires
        0 <= ch < 5,
        m <= n,
    ensures
        total(quads, textures, tinted, v, ch, m) <= total(quads, textures, tinted, v, ch, n),
        0 <= total(quads, textures, tinted, v, ch, n) <= 255 * total(
            quads,
            textures,
            tinted,
            v,
            4,
            n,
        ),
    decreases n,
{
    if n > 0 {
        let quad = quads[n - 1];
        let all = quad.hits@.len() as int;
        lemma_quad_part(quad, textures, v, ch, 0, all);
        if m < n {
            lemma_total(quads, textures, tinted, v, ch, m, n - 1);
        } else {
            lemma_total(quads, textures, tinted, v, ch, n - 1, n - 1);
        }
    }
}

/// Adds a sample to the sums of a voxel, if they still fit.
fn add_sample(sums: [u32; 5], color: [u8; 4]) -> (r: Option<[u32; 5]>)
    ensures
        match r {
            Some(next) => forall|ch: int|
                0 <= ch < 5 ==> #[trigger] next@[ch] == sums@[ch] + channel(color@, ch),
            None => exists|ch: int|
                0 <= ch < 5 && #[trigger] sums@[ch] + channel(color@, ch) > u32::MAX,
        },
{
    let mut next: [u32; 5] = [0u32;5];
    let mut ch: usize = 0;
    while ch < 5
        invariant
            ch <= 5,
            forall|c: int| 0 <= c < ch ==> #[trigger] next@[c] == sums@[c] + channel(color@, c),
        decreases 5 - ch,
    {
        let part: u32 = if ch < 4 {
            color[ch] as u32
        } else {
            1
        };
        assert(part == channel(color@, ch as int));
        if sums[ch] > 0xffff_ffff - part {
            assert(sums@[ch as int] + channel(color@, ch as int) > u32::MAX);
            return None;
        }
        next[ch] = sums[ch] + part;
        ch += 1;
    }
    Some(next)
}

/// A colour as a face shows it.
fn dye(quad: &QuadHits, raw: [u8; 4]) -> (r: [u8; 4])
    ensures
        r@ == dyed(*quad, raw@),
{
    match quad.tint_color {
        Some(tint) => tint_with(raw, tint),
        None => raw,
    }
}

/// Samples the texture of a face at a hit.
fn sample_hit(quad: &QuadHits, hit: &Hit, textures: &TextureCache) -> (r: Option<[u8; 4]>)
    requires
        textures@.contains_key(quad.texture@) ==> texture::can_sample(
            textures@[quad.texture@],
            hit.px as int,
            hit.py as int,
        ),
    ensures
        match r {
            Some(color) => hit_color(*quad, *hit, textures@) == Some(color@),
            None => hit_color(*quad, *hit, textures@) is None,
        },
{
    match textures.get(quad.texture.as_str()) {
        None => None,
        Some(img) => {
            let color = dye(quad, sample_texture(img, hit.px, hit.py));
            if color[3] == 0 {
                None
            } else {
                Some(color)
            }
        },
    }
}

/// Whether sums are those of the first `q` faces and the first `h` hits of the next.
spec fn sums_upto(
    sums: Seq<[u32; 5]>,
    quads: Seq<QuadHits>,
    textures: Map<Seq<char>, RgbaImage>,
    tinted: bool,
    q: int,
    h: int,
) -> bool {
    &&& sums.len() == BRICK_VOXELS
    &&& forall|v: int, ch: int|
        0 <= v < BRICK_VOXELS && 0 <= ch < 5 ==> #[trigger] sums[v]@[ch] == total(
            quads,
            textures,
            tinted,
            v,
            ch,
            q,
        ) + side_part(quads[q], textures, tinted, v, ch, h)
}

/// Whether sums are those of all faces.
spec fn sums_of(
    sums: Seq<[u32; 5]>,
    quads: Seq<QuadHits>,
    textures: Map<Seq<char>, RgbaImage>,
    tinted: bool,
) -> bool {
    &&& sums.len() == BRICK_VOXELS
    &&& forall|v: int, ch: int|
        0 <= v < BRICK_VOXELS && 0 <= ch < 5 ==> #[trigger] sums[v]@[ch] == full_total(
            quads,
            textures,
            tinted,
            v,
            ch,
        )
}

/// A sum that does not fit part of the way does not fit at the end.
proof fn lemma_too_much(
    quads: Seq<QuadHits>,
    textures: Map<Seq<char>, RgbaImage>,
    tinted: bool,
    v: int,
    ch: int,
    q: int,
    h: int,
)
    requires
        0 <= v < BRICK_VOXELS,
        0 <= ch < 5,
        0 <= q < quads.len(),
        0 <= h <= quads[q].hits@.len(),
        total(quads, textures, tinted, v, ch, q) + side_part(
            quads[q],
            textures,
            tinted,
            v,
            ch,
            h,
        ) > u32::MAX,
    ensures
        !sums_fit(quads, textures),
{
    lemma_quad_part(quads[q], textures, v, ch, h, quads[q].hits@.len() as int);
    lemma_total(quads, textures, tinted, v, ch, q + 1, quads.len() as int);
    assert(total(quads, textures, tinted, v, ch, q + 1) == total(
        quads,
        textures,
        tinted,
        v,
        ch,
        q,
    ) + side_part(quads[q], textures, tinted, v, ch, quads[q].hits@.len() as int));
    assert(full_total(quads, textures, tinted, v, ch) > u32::MAX);
}

/// A hit of the other kind, or one without a colour, leaves the sums as they are.
proof fn lemma_no_sample(
    sums: Seq<[u32; 5]>,
    quads: Seq<QuadHits>,
    textures: Map<Seq<char>, RgbaImage>,
    tinted: bool,
    q: int,
    h: int,
)
    requires
        0 <= q < quads.len(),
        0 <= h < quads[q].hits@.len(),
        sums_upto(sums, quads, textures, tinted, q, h),
        (quads[q].tint_color is Some) != tinted || hit_color(
            quads[q],
            quads[q].hits@[h],
            textures,
        ) is None,
    ensures
        sums_upto(sums, quads, textures, tinted, q, h + 1),
{
    assert forall|v: int, ch: int|
        0 <= v < BRICK_VOXELS && 0 <= ch < 5 implies #[trigger] sums[v]@[ch] == total(
        quads,
        textures,
        tinted,
        v,
        ch,
        q,
    ) + side_part(quads[q], textures, tinted, v, ch, h + 1) by {
        assert(quad_part(quads[q], textures, v, ch, h + 1) == quad_part(
            quads[q],
            textures,
            v,
            ch,
            h,
        ) + hit_part(quads[q], quads[q].hits@[h], textures, v, ch));
    }
}

/// Adds one hit to the sums of its kind.
fn add_hit(
    sums: &mut Vec<[u32; 5]>,
    quads: &[QuadHits],
    textures: &TextureCache,
    q: usize,
    h: usize,
    color: [u8; 4],
) -> (fits: bool)
    requires
        q < quads@.len(),
        h < quads@[q as int].hits@.len(),
        quads@[q as int].hits@[h as int].voxel < BRICK_VOXELS,
        hit_color(quads@[q as int], quads@[q as int].hits@[h as int], textures@) == Some(color@),
        sums_upto(
            old(sums)@,
            quads@,
            textures@,
            quads@[q as int].tint_color is Some,
            q as int,
            h as int,
        ),
    ensures
        fits ==> sums_upto(
            final(sums)@,
            quads@,
            textures@,
            quads@[q as int].tint_color is Some,
            q as int,
            h + 1,
        ),
        !fits ==> !sums_fit(quads@, textures@),
{
    let at: usize = quads[q].hits[h].voxel;
    let ghost before = sums@;
    let ghost quad = quads@[q as int];
    let ghost tinted = quad.tint_color is Some;
    proof {
        assert forall|v: int, ch: int| #![trigger quad_part(quad, textures@, v, ch, h + 1)]
            quad_part(quad, textures@, v, ch, h + 1) == quad_part(
            quad,
            textures@,
            v,
            ch,
            h as int,
        ) + hit_part(quad, quad.hits@[h as int], textures@, v, ch) by {}
    }
    match add_sample(sums[at], color) {
        None => {
            proof {
                let ch = choose|ch: int|
                    0 <= ch < 5 && #[trigger] before[at as int]@[ch] + channel(color@, ch)
                        > u32::MAX;
                assert(side_part(quad, textures@, tinted, at as int, ch, h + 1) == side_part(
                    quad,
                    textures@,
                    tinted,
                    at as int,
                    ch,
                    h as int,
                ) + channel(color@, ch));
                lemma_too_much(quads@, textures@, tinted, at as int, ch, q as int, h + 1);
            }
            false
        },
        Some(next) => {
            sums.set(at, next);
            proof {
                assert forall|v: int, ch: int|
                    0 <= v < BRICK_VOXELS && 0 <= ch < 5 implies #[trigger] sums@[v]@[ch] == total(
                    quads@,
                    textures@,
                    tinted,
                    v,
                    ch,
                    q as int,
                ) + side_part(quad, textures@, tinted, v, ch, h + 1) by {
                    assert(quad_part(quad, textures@, v, ch, h + 1) == quad_part(
                        quad,
                        textures@,
                        v,
                        ch,
                        h as int,
                    ) + hit_part(quad, quad.hits@[h as int], textures@, v, ch));
                    assert(before[v]@[ch] == total(quads@, textures@, tinted, v, ch, q as int)
                        + side_part(quad, textures@, tinted, v, ch, h as int));
                    if v == at {
                        assert(next@[ch] == before[v]@[ch] + channel(color@, ch));
                    }
                }
            }
            true
        },
    }
}

/// Sums of zero for every voxel.
fn no_sums() -> (r: Vec<[u32; 5]>)
    ensures
        r@.len() == BRICK_VOXELS,
        forall|v: int, ch: int|
            0 <= v < BRICK_VOXELS && 0 <= ch < 5 ==> #[trigger] r@[v]@[ch] == 0,
{
    let mut r: Vec<[u32; 5]> = Vec::new();
    let zero: [u32; 5] = [0u32;5];
    let mut v: usize = 0;
    while v < BRICK_VOXELS
        invariant
            v <= BRICK_VOXELS,
            r@.len() == v,
            zero@ == Seq::new(5, |i: int| 0u32),
            forall|u: int, ch: int| 0 <= u < v && 0 <= ch < 5 ==> #[trigger] r@[u]@[ch] == 0,
        decreases BRICK_VOXELS - v,
    {
        r.push(zero);
        v += 1;
    }
    r
}

/// The sums of all faces, untinted and tinted, if they fit.
fn accumulate(quads: &[QuadHits], textures: &TextureCache) -> (r: Option<
    (Vec<[u32; 5]>, Vec<[u32; 5]>),
>)
    requires
        hits_exist(quads@, textures@),
    ensures
        match r {
            Some((base, tint)) => {
                &&& sums_fit(quads@, textures@)
                &&& sums_of(base@, quads@, textures@, false)
                &&& sums_of(tint@, quads@, textures@, true)
            },
            None => !sums_fit(quads@, textures@),
        },
{
    let mut base = no_sums();
    let mut tint = no_sums();
    let mut q: usize = 0;
    while q < quads.len()
        invariant
            q <= quads@.len(),
            hits_exist(quads@, textures@),
            sums_upto(base@, quads@, textures@, false, q as int, 0),
            sums_upto(tint@, quads@, textures@, true, q as int, 0),
        decreases quads.len() - q,
    {
        let quad = &quads[q];
        let mut h: usize = 0;
        while h < quad.hits.len()
            invariant
                q < quads@.len(),
                *quad == quads@[q as int],
                h <= quad.hits@.len(),
                hits_exist(quads@, textures@),
                sums_upto(base@, quads@, textures@, false, q as int, h as int),
                sums_upto(tint@, quads@, textures@, true, q as int, h as int),
            decreases quad.hits.len() - h,
        {
            assert(quads@[q as int].hits@[h as int].voxel < BRICK_VOXELS);
            match sample_hit(quad, &quad.hits[h], textures) {
                None => {
                    proof {
                        lemma_no_sample(base@, quads@, textures@, false, q as int, h as int);
                        lemma_no_sample(tint@, quads@, textures@, true, q as int, h as int);
                    }
                },
                Some(color) => match quad.tint_color {
                    Some(_) => {
                        if !add_hit(&mut tint, quads, textures, q, h, color) {
                            return None;
                        }
                        proof {
                            lemma_no_sample(base@, quads@, textures@, false, q as int, h as int);
                        }
                    },
                    None => {
                        if !add_hit(&mut base, quads, textures, q, h, color) {
                            return None;
                        }
                        proof {
                            lemma_no_sample(tint@, quads@, textures@, true, q as int, h as int);
                        }
                    },
                },
            }
            h += 1;
        }
        proof {
            lemma_next_quad(base@, quads@, textures@, false, q as int);
            lemma_next_quad(tint@, quads@, textures@, true, q as int);
        }
        q += 1;
    }
    proof {
        lemma_all_quads(base@, quads@, textures@, false);
        lemma_all_quads(tint@, quads@, textures@, true);
        assert forall|tinted: bool, v: int, ch: int|
            0 <= v < BRICK_VOXELS && 0 <= ch < 5 implies #[trigger] full_total(
            quads@,
            textures@,
            tinted,
            v,
            ch,
        ) <= u32::MAX by {
            assert(base@[v]@[ch] == full_total(quads@, textures@, false, v, ch));
            assert(tint@[v]@[ch] == full_total(quads@, textures@, true, v, ch));
        }
    }
    Some((base, tint))
}

/// With all its hits, a face counts among the faces.
proof fn lemma_next_quad(
    sums: Seq<[u32; 5]>,
    quads: Seq<QuadHits>,
    textures: Map<Seq<char>, RgbaImage>,
    tinted: bool,
    q: int,
)
    requires
        0 <= q < quads.len(),
        sums_upto(sums, quads, textures, tinted, q, quads[q].hits@.len() as int),
    ensures
        sums_upto(sums, quads, textures, tinted, q + 1, 0),
{
    assert forall|v: int, ch: int|
        0 <= v < BRICK_VOXELS && 0 <= ch < 5 implies #[trigger] sums[v]@[ch] == total(
        quads,
        textures,
        tinted,
        v,
        ch,
        q + 1,
    ) + side_part(quads[q + 1], textures, tinted, v, ch, 0) by {
        assert(total(quads, textures, tinted, v, ch, q + 1) == total(
            quads,
            textures,
            tinted,
            v,
            ch,
            q,
        ) + side_part(quads[q], textures, tinted, v, ch, quads[q].hits@.len() as int));
    }
}

/// The sums of all faces.
proof fn lemma_all_quads(
    sums: Seq<[u32; 5]>,
    quads: Seq<QuadHits>,
    textures: Map<Seq<char>, RgbaImage>,
    tinted: bool,
)
    requires
        sums_upto(sums, quads, textures, tinted, quads.len() as int, 0),
    ensures
        sums_of(sums, quads, textures, tinted),
{
}

/// One colour laid over another.
fn blend(top: u32, a: u32, below: u32) -> (r: u8)
    requires
        top <= 255,
        a <= 255,
        below <= 255,
    ensures
        r == over(top as int, a as int, below as int),
{
    assert(0 <= top * a && 0 <= below * (255 - a) && top * a + below * (255 - a) <= 255 * 255)
        by (nonlinear_arith)
        requires
            0 <= top <= 255,
            0 <= a <= 255,
            0 <= below <= 255,
    ;
    ((top * a + below * (255 - a)) / 255) as u8
}

/// An average of at most 255.
fn mean(sum: u32, count: u32) -> (r: u32)
    requires
        count > 0,
        sum <= 255 * count,
    ensures
        r == sum as int / count as int,
        r <= 255,
{
    assert(sum as int / count as int <= 255) by (nonlinear_arith)
        requires
            sum <= 255 * count,
            count > 0,
    ;
    sum / count
}

/// The colour of a voxel from its sums.
fn voxel_color(
    base: &[u32; 5],
    tint: &[u32; 5],
    Ghost(quads): Ghost<Seq<QuadHits>>,
    Ghost(textures): Ghost<Map<Seq<char>, RgbaImage>>,
    Ghost(v): Ghost<int>,
) -> (r: Option<[u8; 4]>)
    requires
        forall|ch: int|
            0 <= ch < 5 ==> #[trigger] base@[ch] == full_total(quads, textures, false, v, ch),
        forall|ch: int|
            0 <= ch < 5 ==> #[trigger] tint@[ch] == full_total(quads, textures, true, v, ch),
    ensures
        match r {
            Some(color) => model_coloring(quads, textures)(v) == Some(color@),
            None => model_coloring(quads, textures)(v) is None,
        },
{
    let tc: u32 = tint[4];
    let bc: u32 = base[4];
    proof {
        let n = quads.len() as int;
        assert forall|ch: int| 0 <= ch < 5 implies #[trigger] tint@[ch] <= 255 * tc by {
            lemma_total(quads, textures, true, v, ch, n, n);
        }
        assert forall|ch: int| 0 <= ch < 5 implies #[trigger] base@[ch] <= 255 * bc by {
            lemma_total(quads, textures, false, v, ch, n, n);
        }
    }
    if tc > 0 {
        let t0: u32 = mean(tint[0], tc);
        let t1: u32 = mean(tint[1], tc);
        let t2: u32 = mean(tint[2], tc);
        let t3: u32 = mean(tint[3], tc);
        if bc > 0 {
            let color = [
                blend(t0, t3, mean(base[0], bc)),
                blend(t1, t3, mean(base[1], bc)),
                blend(t2, t3, mean(base[2], bc)),
                255u8,
            ];
            assert(color@ =~= model_coloring(quads, textures)(v)->0);
            Some(color)
        } else {
            let color = [t0 as u8, t1 as u8, t2 as u8, t3 as u8];
            assert(color@ =~= model_coloring(quads, textures)(v)->0);
            Some(color)
        }
    } else if bc > 0 {
        let color = [
            mean(base[0], bc) as u8,
            mean(base[1], bc) as u8,
            mean(base[2], bc) as u8,
            mean(base[3], bc) as u8,
        ];
        assert(color@ =~= model_coloring(quads, textures)(v)->0);
        Some(color)
    } else {
        None
    }
}

/// The colours of textures have four channels.
proof fn lemma_colors_are_rgba(quads: Seq<QuadHits>, textures: Map<Seq<char>, RgbaImage>, n: int)
    ensures
        swatch::are_rgba(colors_upto(quads, textures, n)),
    decreases n,
{
    if n > 0 {
        lemma_colors_are_rgba(quads, textures, n - 1);
        let front = colors_upto(quads, textures, n - 1);
        let all = colors_upto(quads, textures, n);
        assert forall|i: int| 0 <= i < all.len() implies (#[trigger] all[i]).len() == 4 by {
            if i < front.len() {
                assert(all[i] == front[i]);
            } else {
                assert(all[i] == face_colors(quads[n - 1], textures)[i - front.len()]);
            }
        }
    }
}

/// Takes the colours of the texture of a face into a swatch.
fn collect_face(
    colors: &mut Swatch,
    quad: &QuadHits,
    textures: &TextureCache,
    Ghost(before): Ghost<Seq<Seq<u8>>>,
)
    requires
        swatch::is_listing(old(colors)@, before),
    ensures
        swatch::is_listing(final(colors)@, before + face_colors(*quad, textures@)),
{
    let ghost face = face_colors(*quad, textures@);
    assert(before + face.take(0) =~= before);
    match textures.get(quad.texture.as_str()) {
        None => {
            assert(face.take(0) =~= face);
        },
        Some(img) => {
            let pixels = &img.pixels;
            let mut at: usize = 0;
            let ghost mut k: int = 0;
            while pixels.len() - at >= 4
                invariant
                    textures@.contains_key(quad.texture@),
                    *pixels == textures@[quad.texture@].pixels,
                    face == face_colors(*quad, textures@),
                    0 <= at <= pixels@.len(),
                    at == 4 * k,
                    swatch::is_listing(colors@, before + face.take(k)),
                decreases pixels.len() - at,
            {
                let raw = [pixels[at], pixels[at + 1], pixels[at + 2], pixels[at + 3]];
                let color = dye(quad, raw);
                let ghost list = colors@;
                colors.insert(color);
                proof {
                    assert(raw@ =~= pixels@.subrange(4 * k, 4 * k + 4));
                    assert(face[k] == color@);
                    swatch::lemma_listing_grows(list, colors@, before + face.take(k), color@);
                    assert((before + face.take(k)).push(color@) =~= before + face.take(k + 1));
                    k = k + 1;
                }
                at += 4;
            }
            assert(face.take(k) =~= face);
        },
    }
}

/// Builds the palette of a block from the textures of its faces.
pub fn collect_colors(quads: &[QuadHits], textures: &TextureCache) -> (r: Swatch)
    ensures
        r@ == texture_colors(quads@, textures@),
        swatch::ascending(r@),
{
    let mut colors = Swatch::new();
    let mut q: usize = 0;
    while q < quads.len()
        invariant
            q <= quads@.len(),
            swatch::is_listing(colors@, colors_upto(quads@, textures@, q as int)),
        decreases quads.len() - q,
    {
        collect_face(
            &mut colors,
            &quads[q],
            textures,
            Ghost(colors_upto(quads@, textures@, q as int)),
        );
        q += 1;
    }
    proof {
        let n = quads@.len() as int;
        lemma_colors_are_rgba(quads@, textures@, n);
        swatch::law_listing_is_unique(colors@, colors_upto(quads@, textures@, n));
    }
    colors
}

/// Voxelizes a model from what its faces leave in the voxels: every voxel gets
/// the colour of the textures that is nearest to what its samples come to.
pub fn voxelize(quads: &[QuadHits], textures: &TextureCache) -> (r: VoxelGrid)
    requires
        hits_exist(quads@, textures@),
        sums_fit(quads@, textures@),
    ensures
        grid::shows(r, snapped_coloring(quads@, textures@)),
        !r.is_emissive,
{
    let ghost coloring = snapped_coloring(quads@, textures@);
    let colors = collect_colors(quads, textures);
    let mut bitmask = [0u32;128];
    let mut palette = Palette::default();
    let mut color_indices: Vec<u8> = Vec::new();
    proof {
        grid::lemma_zero_bits();
        assert(grid::shows_upto(bitmask@, palette@, color_indices@, coloring, 0));
    }
    if let Some((base, tint)) = accumulate(quads, textures) {
        let mut v: usize = 0;
        while v < BRICK_VOXELS
            invariant
                v <= BRICK_VOXELS,
                hits_exist(quads@, textures@),
                coloring == snapped_coloring(quads@, textures@),
                colors@ == texture_colors(quads@, textures@),
                swatch::ascending(colors@),
                sums_of(base@, quads@, textures@, false),
                sums_of(tint@, quads@, textures@, true),
                palette.wf(),
                grid::shows_upto(bitmask@, palette@, color_indices@, coloring, v as int),
            decreases BRICK_VOXELS - v,
        {
            assert forall|ch: int| 0 <= ch < 5 implies #[trigger] base@[v as int]@[ch]
                == full_total(quads@, textures@, false, v as int, ch) by {}
            assert forall|ch: int| 0 <= ch < 5 implies #[trigger] tint@[v as int]@[ch]
                == full_total(quads@, textures@, true, v as int, ch) by {}
            let color = voxel_color(
                &base[v],
                &tint[v],
                Ghost(quads@),
                Ghost(textures@),
                Ghost(v as int),
            );
            match color {
                Some(rgba) => {
                    proof {
                        lemma_palette_has_samples(quads@, textures@, v as int);
                    }
                    put_voxel(
                        &mut bitmask,
                        &mut palette,
                        &mut color_indices,
                        v,
                        colors.snap(rgba),
                        Ghost(coloring),
                    );
                },
                None => {
                    proof {
                        grid::lemma_skip_voxel(
                            bitmask@,
                            palette@,
                            color_indices@,
                            coloring,
                            v as int,
                        );
                    }
                },
            }
            v += 1;
        }
    }
    let coarse: u64 = compute_coarse(&bitmask);
    VoxelGrid { bitmask, coarse, color_indices, palette, is_emissive: false }
}

/// Whether a model can be voxelized.
pub fn can_voxelize(quads: &[QuadHits], textures: &TextureCache) -> (r: bool)
    ensures
        r == (hits_exist(quads@, textures@) && sums_fit(quads@, textures@)),
{
    let mut q: usize = 0;
    while q < quads.len()
        invariant
            q <= quads@.len(),
            hits_exist(quads@.take(q as int), textures@),
        decreases quads.len() - q,
    {
        let quad = &quads[q];
        let img = textures.get(quad.texture.as_str());
        let mut h: usize = 0;
        while h < quad.hits.len()
            invariant
                q < quads@.len(),
                *quad == quads@[q as int],
                h <= quad.hits@.len(),
                match img {
                    Some(i) => textures@.contains_key(quad.texture@) && *i
                        == textures@[quad.texture@],
                    None => !textures@.contains_key(quad.texture@),
                },
                forall|g: int|
                    0 <= g < h ==> {
                        &&& (#[trigger] quad.hits@[g]).voxel < BRICK_VOXELS
                        &&& textures@.contains_key(quad.texture@) ==> texture::can_sample(
                            textures@[quad.texture@],
                            quad.hits@[g].px as int,
                            quad.hits@[g].py as int,
                        )
                    },
            decreases quad.hits.len() - h,
        {
            let hit = &quad.hits[h];
            let sampled: bool = match img {
                Some(i) => texture::covers_texel(i, hit.px, hit.py),
                None => true,
            };
            if hit.voxel >= BRICK_VOXELS || !sampled {
                assert(quads@[q as int].hits@[h as int] == *hit);
                return false;
            }
            h += 1;
        }
        proof {
            let next = quads@.take(q + 1);
            assert forall|p: int, g: int|
                #![trigger next[p].hits@[g]]
                0 <= p < next.len() && 0 <= g < next[p].hits@.len() implies {
                let hit = next[p].hits@[g];
                &&& hit.voxel < BRICK_VOXELS
                &&& textures@.contains_key(next[p].texture@) ==> texture::can_sample(
                    textures@[next[p].texture@],
                    hit.px as int,
                    hit.py as int,
                )
            } by {
                if p < q {
                    assert(next[p] == quads@.take(q as int)[p]);
                    assert(quads@.take(q as int)[p].hits@[g].voxel < BRICK_VOXELS);
                }
            }
        }
        q += 1;
    }
    assert(quads@.take(quads@.len() as int) =~= quads@);
    accumulate(quads, textures).is_some()
}

/// The voxels of an axis that a face touches, from where it starts and ends,
/// rounded outwards.
pub fn voxel_range(floor: i32, ceil: i32) -> (r: (usize, usize))
    ensures
        r.0 == clamp_voxel(floor as int),
        r.1 == clamp_voxel(ceil - 1),
{
    let last: i32 = if ceil == i32::MIN {
        ceil
    } else {
        ceil - 1
    };
    (
        if floor < 0 {
            0
        } else if floor > 15 {
            15
        } else {
            floor as usize
        },
        if last < 0 {
            0
        } else if last > 15 {
            15
        } else {
            last as usize
        },
    )
}

/// A coordinate brought into the brick.
pub open spec fn clamp_voxel(p: int) -> int {
    if p < 0 {
        0
    } else if p > 15 {
        15
    } else {
        p
    }
}

/// The sums of the first faces depend on these alone.
proof fn lemma_total_prefix(
    a: Seq<QuadHits>,
    b: Seq<QuadHits>,
    textures: Map<Seq<char>, RgbaImage>,
    tinted: bool,
    v: int,
    ch: int,
    n: int,
)
    requires
        n <= a.len(),
        n <= b.len(),
        forall|i: int| 0 <= i < n ==> a[i] == b[i],
    ensures
        total(a, textures, tinted, v, ch, n) == total(b, textures, tinted, v, ch, n),
    decreases n,
{
    if n > 0 {
        lemma_total_prefix(a, b, textures, tinted, v, ch, n - 1);
    }
}

/// A face can be taken out of the sums.
proof fn lemma_total_remove(
    quads: Seq<QuadHits>,
    textures: Map<Seq<char>, RgbaImage>,
    tinted: bool,
    v: int,
    ch: int,
    i: int,
)
    requires
        0 <= i < quads.len(),
    ensures
        full_total(quads, textures, tinted, v, ch) == full_total(
            quads.remove(i),
            textures,
            tinted,
            v,
            ch,
        ) + side_part(quads[i], textures, tinted, v, ch, quads[i].hits@.len() as int),
    decreases quads.len(),
{
    let last = quads.len() - 1;
    let front = quads.drop_last();
    lemma_total_prefix(quads, front, textures, tinted, v, ch, last);
    if i == last {
        assert(quads.remove(i) =~= front);
    } else {
        lemma_total_remove(front, textures, tinted, v, ch, i);
        let fewer = quads.remove(i);
        assert(fewer.drop_last() =~= front.remove(i));
        lemma_total_prefix(fewer, fewer.drop_last(), textures, tinted, v, ch, last - 1);
        assert(fewer.last() == quads.last());
    }
}

/// The sums do not depend on the order of the faces.
proof fn lemma_total_order_free(
    a: Seq<QuadHits>,
    b: Seq<QuadHits>,
    textures: Map<Seq<char>, RgbaImage>,
    tinted: bool,
    v: int,
    ch: int,
)
    requires
        a.to_multiset() == b.to_multiset(),
    ensures
        full_total(a, textures, tinted, v, ch) == full_total(b, textures, tinted, v, ch),
    decreases a.len(),
{
    broadcast use vstd::seq_lib::group_to_multiset_ensures;

    assert(a.len() == b.len()) by {
        assert(a.to_multiset().len() == a.len());
        assert(b.to_multiset().len() == b.len());
    }
    if a.len() > 0 {
        let x = a.last();
        let last = a.len() - 1;
        assert(a.contains(x));
        assert(b.to_multiset().count(x) > 0);
        assert(b.contains(x));
        let i = choose|i: int| 0 <= i < b.len() && b[i] == x;
        assert(a.remove(last) =~= a.drop_last());
        lemma_total_remove(a, textures, tinted, v, ch, last);
        lemma_total_remove(b, textures, tinted, v, ch, i);
        assert(a.remove(last).to_multiset() =~= a.to_multiset().remove(x));
        assert(b.remove(i).to_multiset() =~= b.to_multiset().remove(x));
        lemma_total_order_free(a.remove(last), b.remove(i), textures, tinted, v, ch);
    }
}

/// Whether a colour is one of the texture of a face, as the face shows it.
pub open spec fn is_face_color(
    quads: Seq<QuadHits>,
    textures: Map<Seq<char>, RgbaImage>,
    q: int,
    c: Seq<u8>,
) -> bool {
    0 <= q < quads.len() && face_colors(quads[q], textures).contains(c)
}

/// The colours of textures are those of the single faces.
proof fn lemma_color_of_face(
    quads: Seq<QuadHits>,
    textures: Map<Seq<char>, RgbaImage>,
    n: int,
    c: Seq<u8>,
)
    requires
        0 <= n <= quads.len(),
    ensures
        colors_upto(quads, textures, n).contains(c) <==> exists|q: int|
            q < n && #[trigger] is_face_color(quads, textures, q, c),
    decreases n,
{
    if n > 0 {
        let front = colors_upto(quads, textures, n - 1);
        let face = face_colors(quads[n - 1], textures);
        lemma_color_of_face(quads, textures, n - 1, c);
        vstd::seq_lib::lemma_seq_concat_contains_all_elements(front, face, c);
        if face.contains(c) {
            assert(is_face_color(quads, textures, n - 1, c));
        }
        if front.contains(c) {
            let q = choose|q: int| q < n - 1 && #[trigger] is_face_color(quads, textures, q, c);
            assert(q < n && is_face_color(quads, textures, q, c));
        }
        if exists|q: int| q < n && #[trigger] is_face_color(quads, textures, q, c) {
            let q = choose|q: int| q < n && #[trigger] is_face_color(quads, textures, q, c);
            if q < n - 1 {
                assert(q < n - 1 && is_face_color(quads, textures, q, c));
            }
        }
    }
}

/// The palette of a block has exactly the colours of the textures of its faces,
/// in ascending order and none of them twice.
pub proof fn law_palette_is_of_textures(quads: Seq<QuadHits>, textures: Map<Seq<char>, RgbaImage>)
    ensures
        swatch::ascending(texture_colors(quads, textures)),
        forall|c: Seq<u8>| #[trigger]
            texture_colors(quads, textures).contains(c) <==> exists|q: int| #[trigger]
                is_face_color(quads, textures, q, c),
{
    let n = quads.len() as int;
    let list = texture_colors(quads, textures);
    lemma_colors_are_rgba(quads, textures, n);
    swatch::law_listing_exists(colors_upto(quads, textures, n));
    assert forall|c: Seq<u8>| #[trigger] list.contains(c) <==> exists|q: int| #[trigger]
        is_face_color(quads, textures, q, c) by {
        lemma_color_of_face(quads, textures, n, c);
        assert(list.contains(c) <==> colors_upto(quads, textures, n).contains(c));
        if exists|q: int| #[trigger] is_face_color(quads, textures, q, c) {
            let q = choose|q: int| #[trigger] is_face_color(quads, textures, q, c);
            assert(q < n && is_face_color(quads, textures, q, c));
        }
    }
}

/// The same faces have no colour that the others lack.
proof fn lemma_same_colors(
    a: Seq<QuadHits>,
    b: Seq<QuadHits>,
    textures: Map<Seq<char>, RgbaImage>,
    c: Seq<u8>,
)
    requires
        a.to_multiset() == b.to_multiset(),
        colors_upto(a, textures, a.len() as int).contains(c),
    ensures
        colors_upto(b, textures, b.len() as int).contains(c),
{
    broadcast use vstd::seq_lib::group_to_multiset_ensures;

    lemma_color_of_face(a, textures, a.len() as int, c);
    lemma_color_of_face(b, textures, b.len() as int, c);
    let q = choose|q: int| q < a.len() && #[trigger] is_face_color(a, textures, q, c);
    assert(a.contains(a[q]));
    assert(b.to_multiset().count(a[q]) > 0);
    assert(b.contains(a[q]));
    let p = choose|p: int| 0 <= p < b.len() && b[p] == a[q];
    assert(is_face_color(b, textures, p, c));
}

/// The palette does not depend on the order of the faces.
proof fn lemma_same_palette(
    a: Seq<QuadHits>,
    b: Seq<QuadHits>,
    textures: Map<Seq<char>, RgbaImage>,
)
    requires
        a.to_multiset() == b.to_multiset(),
    ensures
        texture_colors(a, textures) == texture_colors(b, textures),
{
    let ours = colors_upto(a, textures, a.len() as int);
    let theirs = colors_upto(b, textures, b.len() as int);
    lemma_colors_are_rgba(a, textures, a.len() as int);
    lemma_colors_are_rgba(b, textures, b.len() as int);
    swatch::law_listing_exists(ours);
    let list = swatch::distinct(ours);
    assert forall|c: Seq<u8>| #[trigger] list.contains(c) <==> theirs.contains(c) by {
        if ours.contains(c) {
            lemma_same_colors(a, b, textures, c);
        }
        if theirs.contains(c) {
            lemma_same_colors(b, a, textures, c);
        }
    }
    swatch::law_listing_is_unique(list, theirs);
}

/// Neither the palette of a model nor the colours of its voxels depend on the
/// order of its faces.
pub proof fn law_face_order_free(
    a: Seq<QuadHits>,
    b: Seq<QuadHits>,
    textures: Map<Seq<char>, RgbaImage>,
    v: int,
)
    requires
        a.to_multiset() == b.to_multiset(),
    ensures
        texture_colors(a, textures) == texture_colors(b, textures),
        model_coloring(a, textures)(v) == model_coloring(b, textures)(v),
        snapped_coloring(a, textures)(v) == snapped_coloring(b, textures)(v),
{
    lemma_same_palette(a, b, textures);
    lemma_total_order_free(a, b, textures, true, v, 0);
    lemma_total_order_free(a, b, textures, true, v, 1);
    lemma_total_order_free(a, b, textures, true, v, 2);
    lemma_total_order_free(a, b, textures, true, v, 3);
    lemma_total_order_free(a, b, textures, true, v, 4);
    lemma_total_order_free(a, b, textures, false, v, 0);
    lemma_total_order_free(a, b, textures, false, v, 1);
    lemma_total_order_free(a, b, textures, false, v, 2);
    lemma_total_order_free(a, b, textures, false, v, 3);
    lemma_total_order_free(a, b, textures, false, v, 4);
}

/// Whether hit `h` of face `q` leaves a colour in voxel `v`.
pub open spec fn leaves_color(
    quads: Seq<QuadHits>,
    textures: Map<Seq<char>, RgbaImage>,
    v: int,
    q: int,
    h: int,
) -> bool {
    &&& 0 <= q < quads.len()
    &&& 0 <= h < quads[q].hits@.len()
    &&& quads[q].hits@[h].voxel == v
    &&& hit_color(quads[q], quads[q].hits@[h], textures) is Some
}

/// A face with a count has a hit that leaves a colour, and the other way round.
proof fn lemma_quad_count(
    quads: Seq<QuadHits>,
    textures: Map<Seq<char>, RgbaImage>,
    v: int,
    q: int,
    n: int,
)
    requires
        0 <= q < quads.len(),
        0 <= n <= quads[q].hits@.len(),
    ensures
        quad_part(quads[q], textures, v, 4, n) > 0 <==> exists|h: int|
            0 <= h < n && #[trigger] leaves_color(quads, textures, v, q, h),
    decreases n,
{
    if n > 0 {
        lemma_quad_count(quads, textures, v, q, n - 1);
        lemma_quad_part(quads[q], textures, v, 4, 0, n - 1);
        assert(leaves_color(quads, textures, v, q, n - 1) <==> hit_part(
            quads[q],
            quads[q].hits@[n - 1],
            textures,
            v,
            4,
        ) > 0);
        if exists|h: int| 0 <= h < n - 1 && #[trigger] leaves_color(quads, textures, v, q, h) {
            let h = choose|h: int|
                0 <= h < n - 1 && #[trigger] leaves_color(quads, textures, v, q, h);
            assert(0 <= h < n && leaves_color(quads, textures, v, q, h));
        }
    }
}

/// Faces with a count have a hit that leaves a colour, and the other way round.
proof fn lemma_total_count(
    quads: Seq<QuadHits>,
    textures: Map<Seq<char>, RgbaImage>,
    v: int,
    n: int,
)
    requires
        0 <= n <= quads.len(),
    ensures
        total(quads, textures, true, v, 4, n) > 0 || total(quads, textures, false, v, 4, n) > 0
            <==> exists|q: int, h: int|
            0 <= q < n && #[trigger] leaves_color(quads, textures, v, q, h),
    decreases n,
{
    if n > 0 {
        lemma_total_count(quads, textures, v, n - 1);
        lemma_total(quads, textures, true, v, 4, n - 1, n);
        lemma_total(quads, textures, false, v, 4, n - 1, n);
        lemma_total(quads, textures, true, v, 4, 0, n - 1);
        lemma_total(quads, textures, false, v, 4, 0, n - 1);
        let q = n - 1;
        let all = quads[q].hits@.len() as int;
        lemma_quad_count(quads, textures, v, q, all);
        lemma_quad_part(quads[q], textures, v, 4, 0, all);
        if quad_part(quads[q], textures, v, 4, all) > 0 {
            let h = choose|h: int|
                0 <= h < all && #[trigger] leaves_color(quads, textures, v, q, h);
            assert(0 <= q < n && leaves_color(quads, textures, v, q, h));
        }
        if exists|p: int, h: int| 0 <= p < n - 1 && #[trigger] leaves_color(quads, textures, v, p, h) {
            let (p, h) = choose|p: int, h: int|
                0 <= p < n - 1 && #[trigger] leaves_color(quads, textures, v, p, h);
            assert(0 <= p < n && leaves_color(quads, textures, v, p, h));
        }
        if exists|p: int, h: int| 0 <= p < n && #[trigger] leaves_color(quads, textures, v, p, h) {
            let (p, h) = choose|p: int, h: int|
                0 <= p < n && #[trigger] leaves_color(quads, textures, v, p, h);
            if p == q {
                assert(0 <= h < all && leaves_color(quads, textures, v, q, h));
            } else {
                assert(0 <= p < n - 1 && leaves_color(quads, textures, v, p, h));
            }
        }
    }
}

/// A voxel is solid exactly if some face leaves a colour in it: voxels that no
/// face passes through, or only where it is transparent, stay empty.
pub proof fn law_solid_where_colored(
    quads: Seq<QuadHits>,
    textures: Map<Seq<char>, RgbaImage>,
    v: int,
)
    ensures
        snapped_coloring(quads, textures)(v) is Some <==> exists|q: int, h: int|
            #[trigger] leaves_color(quads, textures, v, q, h),
        snapped_coloring(quads, textures)(v) is Some <==> model_coloring(quads, textures)(
            v,
        ) is Some,
{
    let n = quads.len() as int;
    lemma_total_count(quads, textures, v, n);
    if exists|q: int, h: int| #[trigger] leaves_color(quads, textures, v, q, h) {
        let (q, h) = choose|q: int, h: int| #[trigger] leaves_color(quads, textures, v, q, h);
        assert(0 <= q < n && leaves_color(quads, textures, v, q, h));
    }
}

/// What a face leaves in a voxel is a colour of its texture.
proof fn lemma_hit_color_is_of_face(
    quads: Seq<QuadHits>,
    textures: Map<Seq<char>, RgbaImage>,
    v: int,
    q: int,
    h: int,
)
    requires
        hits_exist(quads, textures),
        leaves_color(quads, textures, v, q, h),
    ensures
        is_face_color(quads, textures, q, hit_color(quads[q], quads[q].hits@[h], textures)->0),
{
    let quad = quads[q];
    let hit = quad.hits@[h];
    let img = textures[quad.texture@];
    let x = texture::clamped(hit.px as int, img.width);
    let y = texture::clamped(hit.py as int, img.height);
    let i = y * img.width + x;
    assert(texture::can_sample(img, hit.px as int, hit.py as int));
    assert(0 <= y * img.width) by (nonlinear_arith)
        requires
            0 <= y,
            0 <= img.width,
    ;
    let face = face_colors(quad, textures);
    assert(0 <= i < face.len());
    assert(face[i] == hit_color(quad, hit, textures)->0);
}

/// Where a voxel is solid, the palette has colours.
proof fn lemma_palette_has_samples(
    quads: Seq<QuadHits>,
    textures: Map<Seq<char>, RgbaImage>,
    v: int,
)
    requires
        hits_exist(quads, textures),
        model_coloring(quads, textures)(v) is Some,
    ensures
        texture_colors(quads, textures).len() > 0,
        colors_upto(quads, textures, quads.len() as int).len() > 0,
{
    law_solid_where_colored(quads, textures, v);
    let (q, h) = choose|q: int, h: int| #[trigger] leaves_color(quads, textures, v, q, h);
    lemma_hit_color_is_of_face(quads, textures, v, q, h);
    let c = hit_color(quads[q], quads[q].hits@[h], textures)->0;
    law_palette_is_of_textures(quads, textures);
    assert(texture_colors(quads, textures).contains(c));
    lemma_color_of_face(quads, textures, quads.len() as int, c);
    assert(colors_upto(quads, textures, quads.len() as int).contains(c));
}

/// The colour of a solid voxel is a colour of the texture of a face, and no
/// colour of these textures is nearer to what the samples of the voxel come to.
/// Where the samples come to a colour of the textures, the voxel has it.
pub proof fn law_colors_come_from_textures(
    quads: Seq<QuadHits>,
    textures: Map<Seq<char>, RgbaImage>,
    v: int,
)
    requires
        hits_exist(quads, textures),
        model_coloring(quads, textures)(v) is Some,
    ensures
        ({
            let mean = model_coloring(quads, textures)(v)->0;
            let color = snapped_coloring(quads, textures)(v)->0;
            &&& exists|q: int| #[trigger] is_face_color(quads, textures, q, color)
            &&& forall|q: int, c: Seq<u8>| #[trigger]
                is_face_color(quads, textures, q, c) ==> palette::distance(mean, color)
                    <= palette::distance(mean, c)
            &&& forall|q: int| #[trigger]
                is_face_color(quads, textures, q, mean) ==> color == mean
        }),
{
    let n = quads.len() as int;
    let all = colors_upto(quads, textures, n);
    let mean = model_coloring(quads, textures)(v)->0;
    let color = snapped_coloring(quads, textures)(v)->0;
    lemma_palette_has_samples(quads, textures, v);
    lemma_colors_are_rgba(quads, textures, n);
    swatch::law_snap_is_nearest(all, mean);
    lemma_color_of_face(quads, textures, n, color);
    lemma_color_of_face(quads, textures, n, mean);
    assert forall|q: int, c: Seq<u8>| #[trigger]
        is_face_color(quads, textures, q, c) implies palette::distance(mean, color)
        <= palette::distance(mean, c) by {
        lemma_color_of_face(quads, textures, n, c);
        assert(q < n && is_face_color(quads, textures, q, c));
        let i = choose|i: int| 0 <= i < all.len() && all[i] == c;
        assert(palette::distance(mean, color) <= palette::distance(mean, all[i]));
    }
    assert forall|q: int| #[trigger] is_face_color(quads, textures, q, mean) implies color
        == mean by {
        assert(q < n && is_face_color(quads, textures, q, mean));
    }
}

/// Every colour in the palette of a voxelized model is a colour of the texture
/// of one of its faces.
pub proof fn law_grid_shows_texture_colors(
    quads: Seq<QuadHits>,
    textures: Map<Seq<char>, RgbaImage>,
    grid: VoxelGrid,
    i: int,
)
    requires
        hits_exist(quads, textures),
        grid::shows(grid, snapped_coloring(quads, textures)),
        0 <= i < grid.palette@.len(),
    ensures
        exists|q: int| #[trigger] is_face_color(quads, textures, q, grid.palette@[i]),
{
    let coloring = snapped_coloring(quads, textures);
    grid::law_palette_is_used(grid, coloring, i);
    let v = choose|v: int|
        0 <= v < BRICK_VOXELS && #[trigger] coloring(v) == Some(grid.palette@[i]);
    law_colors_come_from_textures(quads, textures, v);
}

/// Where the textures of a block have at most 256 colours, every solid voxel
/// finds its own colour in the palette of the grid.
pub proof fn law_palette_number_fits_a_byte(
    quads: Seq<QuadHits>,
    textures: Map<Seq<char>, RgbaImage>,
    grid: VoxelGrid,
    v: int,
)
    requires
        hits_exist(quads, textures),
        grid::shows(grid, snapped_coloring(quads, textures)),
        texture_colors(quads, textures).len() <= palette::MAX_COLORS,
        0 <= v < BRICK_VOXELS,
        snapped_coloring(quads, textures)(v) is Some,
    ensures
        ({
            let rank = grid::count_solid(grid.bitmask@, v) as int;
            &&& rank < grid.color_indices@.len()
            &&& grid.color_indices@[rank] < grid.palette@.len()
            &&& grid.palette@[grid.color_indices@[rank] as int] == snapped_coloring(
                quads,
                textures,
            )(v)->0
        }),
{
    let coloring = snapped_coloring(quads, textures);
    let from = texture_colors(quads, textures);
    law_palette_is_of_textures(quads, textures);
    assert forall|u: int|
        0 <= u < BRICK_VOXELS && #[trigger] coloring(u) is Some implies from.contains(
        coloring(u)->0,
    ) by {
        law_colors_come_from_textures(quads, textures, u);
    }
    grid::law_few_colors_are_exact(grid, coloring, from, v);
}

/// A colour laid over another follows the alpha: it is the upper one where the
/// alpha is full and the lower one where there is none, it lies between the two,
/// it comes no farther from the upper one as the alpha grows, and it is the
/// weighted sum of both, rounded down.
pub proof fn law_overlay_follows_alpha(top: int, below: int, a: int, b: int)
    requires
        0 <= top <= 255,
        0 <= below <= 255,
        0 <= a <= b <= 255,
    ensures
        over(top, 255, below) == top,
        over(top, 0, below) == below,
        255 * over(top, a, below) <= top * a + below * (255 - a) < 255 * over(top, a, below) + 255,
        top <= below ==> top <= over(top, b, below) <= over(top, a, below) <= below,
        below <= top ==> below <= over(top, a, below) <= over(top, b, below) <= top,
{
    lemma_over_is_floor(top, a, below);
    lemma_over_is_floor(top, b, below);
    lemma_over_is_floor(top, 255, below);
    lemma_over_is_floor(top, 0, below);
    let x = top * a + below * (255 - a);
    let y = top * b + below * (255 - b);
    assert(y - x == (top - below) * (b - a)) by (nonlinear_arith)
        requires
            x == top * a + below * (255 - a),
            y == top * b + below * (255 - b),
    ;
    assert(x - 255 * below == (top - below) * a) by (nonlinear_arith)
        requires
            x == top * a + below * (255 - a),
    ;
    assert(255 * top - y == (top - below) * (255 - b)) by (nonlinear_arith)
        requires
            y == top * b + below * (255 - b),
    ;
    let d = top - below;
    if d >= 0 {
        assert(d * (b - a) >= 0 && d * a >= 0 && d * (255 - b) >= 0) by (nonlinear_arith)
            requires
                d >= 0,
                0 <= a <= b <= 255,
        ;
    }
    if d <= 0 {
        assert(d * (b - a) <= 0 && d * a <= 0 && d * (255 - b) <= 0) by (nonlinear_arith)
            requires
                d <= 0,
                0 <= a <= b <= 255,
        ;
    }
}

/// Laying over rounds down.
proof fn lemma_over_is_floor(top: int, a: int, below: int)
    requires
        0 <= top <= 255,
        0 <= a <= 255,
        0 <= below <= 255,
    ensures
        255 * over(top, a, below) <= top * a + below * (255 - a) < 255 * over(top, a, below) + 255,
{
    let x = top * a + below * (255 - a);
    assert(0 <= x <= 255 * 255) by (nonlinear_arith)
        requires
            x == top * a + below * (255 - a),
            0 <= top <= 255,
            0 <= a <= 255,
            0 <= below <= 255,
    ;
}

/// What a face leaves in a voxel is the texel under the middle of the voxel, with
/// the alpha of the texel and its colours multiplied by the tint as parts of 255,
/// rounded down. A missing or a fully transparent texel leaves nothing.
pub proof fn law_samples(quad: QuadHits, hit: Hit, textures: Map<Seq<char>, RgbaImage>)
    ensures
        ({
            let raw = texture::sampled(textures[quad.texture@], hit.px as int, hit.py as int);
            let sample = hit_color(quad, hit, textures);
            &&& sample is Some <==> textures.contains_key(quad.texture@) && raw[3] != 0
            &&& sample is Some && quad.tint_color is None ==> sample->0 == raw
            &&& sample is Some && quad.tint_color is Some ==> {
                &&& sample->0.len() == 4
                &&& sample->0[3] == raw[3]
                &&& forall|c: int|
                    0 <= c < 3 ==> 255 * (#[trigger] sample->0[c]) <= raw[c]
                        * quad.tint_color->0@[c] < 255 * sample->0[c] + 255
            }
        }),
{
    let raw = texture::sampled(textures[quad.texture@], hit.px as int, hit.py as int);
    if let Some(tint) = quad.tint_color {
        texture::law_tint_rounds_down(raw, tint@);
    }
}

/// The sums of a voxel start at nothing. A face with one hit adds its sample to
/// the sums of its kind in its voxel, and to no others.
pub proof fn law_samples_add_up(
    quads: Seq<QuadHits>,
    textures: Map<Seq<char>, RgbaImage>,
    quad: QuadHits,
    hit: Hit,
    tinted: bool,
    v: int,
    ch: int,
)
    requires
        quad.hits@ == seq![hit],
        0 <= ch < 5,
    ensures
        full_total(seq![], textures, tinted, v, ch) == 0,
        full_total(quads.push(quad), textures, tinted, v, ch) == full_total(
            quads,
            textures,
            tinted,
            v,
            ch,
        ) + if (quad.tint_color is Some) == tinted && hit.voxel == v && hit_color(
            quad,
            hit,
            textures,
        ) is Some {
            if ch < 4 {
                hit_color(quad, hit, textures)->0[ch] as int
            } else {
                1
            }
        } else {
            0
        },
{
    let more = quads.push(quad);
    let n = quads.len() as int;
    lemma_total_prefix(more, quads, textures, tinted, v, ch, n);
    assert(quad_part(quad, textures, v, ch, 0) == 0);
    assert(quad.hits@[0] == hit);
    assert(quad_part(quad, textures, v, ch, 1) == hit_part(quad, hit, textures, v, ch));
}

/// A face with many hits adds up to as many faces with one hit each: its last hit
/// can be taken off it and given to a face of its own.
pub proof fn law_hits_add_up(
    quads: Seq<QuadHits>,
    textures: Map<Seq<char>, RgbaImage>,
    whole: QuadHits,
    front: QuadHits,
    last: QuadHits,
    tinted: bool,
    v: int,
    ch: int,
)
    requires
        whole.texture@ == front.texture@,
        whole.texture@ == last.texture@,
        whole.tint_color == front.tint_color,
        whole.tint_color == last.tint_color,
        last.hits@.len() == 1,
        whole.hits@ == front.hits@ + last.hits@,
    ensures
        full_total(quads.push(whole), textures, tinted, v, ch) == full_total(
            quads.push(front).push(last),
            textures,
            tinted,
            v,
            ch,
        ),
{
    let n = quads.len() as int;
    let m = front.hits@.len() as int;
    lemma_total_prefix(quads.push(whole), quads, textures, tinted, v, ch, n);
    let both = quads.push(front).push(last);
    lemma_total_prefix(both, quads.push(front), textures, tinted, v, ch, n + 1);
    lemma_total_prefix(quads.push(front), quads, textures, tinted, v, ch, n);
    lemma_same_hits(whole, front, textures, v, ch, m);
    assert(quad_part(last, textures, v, ch, 0) == 0);
    assert(quad_part(last, textures, v, ch, 1) == hit_part(last, last.hits@[0], textures, v, ch));
    assert(whole.hits@[m] == last.hits@[0]);
    assert(quad_part(whole, textures, v, ch, m + 1) == quad_part(whole, textures, v, ch, m)
        + hit_part(whole, whole.hits@[m], textures, v, ch));
}

/// Faces that share hits, texture and tint add the same.
proof fn lemma_same_hits(
    a: QuadHits,
    b: QuadHits,
    textures: Map<Seq<char>, RgbaImage>,
    v: int,
    ch: int,
    n: int,
)
    requires
        a.texture@ == b.texture@,
        a.tint_color == b.tint_color,
        n <= a.hits@.len(),
        n <= b.hits@.len(),
        forall|i: int| 0 <= i < n ==> a.hits@[i] == b.hits@[i],
    ensures
        quad_part(a, textures, v, ch, n) == quad_part(b, textures, v, ch, n),
    decreases n,
{
    if n > 0 {
        lemma_same_hits(a, b, textures, v, ch, n - 1);
        assert(a.hits@[n - 1] == b.hits@[n - 1]);
    }
}

/// An average times the count is the sum, up to what rounding down takes away.
proof fn lemma_average(
    quads: Seq<QuadHits>,
    textures: Map<Seq<char>, RgbaImage>,
    tinted: bool,
    v: int,
    ch: int,
)
    requires
        0 <= ch < 4,
        full_total(quads, textures, tinted, v, 4) > 0,
    ensures
        0 <= average(quads, textures, tinted, v, ch) <= 255,
        full_total(quads, textures, tinted, v, 4) * average(quads, textures, tinted, v, ch)
            <= full_total(quads, textures, tinted, v, ch),
        full_total(quads, textures, tinted, v, ch) < full_total(quads, textures, tinted, v, 4)
            * average(quads, textures, tinted, v, ch) + full_total(quads, textures, tinted, v, 4),
{
    let sum = full_total(quads, textures, tinted, v, ch);
    let count = full_total(quads, textures, tinted, v, 4);
    let n = quads.len() as int;
    lemma_total(quads, textures, tinted, v, ch, n, n);
    vstd::arithmetic::div_mod::lemma_fundamental_div_mod(sum, count);
    vstd::arithmetic::div_mod::lemma_mod_bound(sum, count);
    let q = sum / count;
    assert(0 <= q <= 255) by (nonlinear_arith)
        requires
            0 <= sum <= 255 * count,
            count > 0,
            q == sum / count,
    ;
}

/// Where a voxel has tinted samples or untinted ones, but not both, every channel
/// is their sum divided by their number, rounded down, and without samples there
/// is no colour.
pub proof fn law_voxel_is_the_average(
    quads: Seq<QuadHits>,
    textures: Map<Seq<char>, RgbaImage>,
    tinted: bool,
    v: int,
    ch: int,
)
    requires
        0 <= ch < 4,
        full_total(quads, textures, !tinted, v, 4) == 0,
    ensures
        ({
            let sum = full_total(quads, textures, tinted, v, ch);
            let count = full_total(quads, textures, tinted, v, 4);
            let mean = model_coloring(quads, textures)(v);
            &&& mean is None <==> count == 0
            &&& mean is Some ==> mean->0.len() == 4 && count * mean->0[ch] <= sum < count
                * mean->0[ch] + count
        }),
{
    let n = quads.len() as int;
    lemma_total(quads, textures, tinted, v, 4, n, n);
    if full_total(quads, textures, tinted, v, 4) > 0 {
        lemma_average(quads, textures, tinted, v, ch);
    }
}

/// Where a voxel has samples of both kinds, the tinted average lies over the
/// untinted one and the voxel is opaque: its colours are the weighted sum of both
/// averages by the tinted alpha, rounded down. So it lies between the two, and an
/// overlay of full alpha hides what is below it.
pub proof fn law_tint_lies_over_the_base(
    quads: Seq<QuadHits>,
    textures: Map<Seq<char>, RgbaImage>,
    v: int,
    ch: int,
)
    requires
        0 <= ch < 3,
        full_total(quads, textures, true, v, 4) > 0,
        full_total(quads, textures, false, v, 4) > 0,
    ensures
        ({
            let mean = model_coloring(quads, textures)(v)->0;
            let top = average(quads, textures, true, v, ch);
            let alpha = average(quads, textures, true, v, 3);
            let below = average(quads, textures, false, v, ch);
            &&& model_coloring(quads, textures)(v) is Some
            &&& mean.len() == 4
            &&& mean[3] == 255
            &&& 255 * mean[ch] <= top * alpha + below * (255 - alpha) < 255 * mean[ch] + 255
            &&& alpha == 255 ==> mean[ch] == top
            &&& (top <= mean[ch] <= below || below <= mean[ch] <= top)
        }),
{
    lemma_average(quads, textures, true, v, ch);
    lemma_average(quads, textures, true, v, 3);
    lemma_average(quads, textures, false, v, ch);
    let top = average(quads, textures, true, v, ch);
    let alpha = average(quads, textures, true, v, 3);
    let below = average(quads, textures, false, v, ch);
    law_overlay_follows_alpha(top, below, alpha, alpha);
    law_overlay_follows_alpha(top, below, alpha, 255);
}

/// Where the tinted average of a voxel is opaque, the voxel shows the palette
/// colour that stands for the tinted average, whatever the untinted samples are.
pub proof fn law_opaque_overlay_hides_the_base(
    quads: Seq<QuadHits>,
    textures: Map<Seq<char>, RgbaImage>,
    v: int,
)
    requires
        full_total(quads, textures, true, v, 4) > 0,
        average(quads, textures, true, v, 3) == 255,
    ensures
        snapped_coloring(quads, textures)(v) == Some(
            swatch::snapped(
                texture_colors(quads, textures),
                seq![
                    average(quads, textures, true, v, 0) as u8,
                    average(quads, textures, true, v, 1) as u8,
                    average(quads, textures, true, v, 2) as u8,
                    255u8,
                ],
            ),
        ),
{
    let mean = model_coloring(quads, textures)(v)->0;
    let t = seq![
        average(quads, textures, true, v, 0) as u8,
        average(quads, textures, true, v, 1) as u8,
        average(quads, textures, true, v, 2) as u8,
        255u8,
    ];
    lemma_average(quads, textures, true, v, 0);
    lemma_average(quads, textures, true, v, 1);
    lemma_average(quads, textures, true, v, 2);
    if full_total(quads, textures, false, v, 4) > 0 {
        law_tint_lies_over_the_base(quads, textures, v, 0);
        law_tint_lies_over_the_base(quads, textures, v, 1);
        law_tint_lies_over_the_base(quads, textures, v, 2);
    }
    assert(mean =~= t);
}

/// Every pixel of the texture of a face counts for the palette, with the tint of
/// the face laid on, and nothing else does.
pub proof fn law_every_pixel_counts(
    quad: QuadHits,
    textures: Map<Seq<char>, RgbaImage>,
    before: Seq<u8>,
    pixel: Seq<u8>,
    after: Seq<u8>,
    c: Seq<u8>,
)
    requires
        textures.contains_key(quad.texture@),
        textures[quad.texture@].pixels@ == before + pixel + after,
        before.len() % 4 == 0,
        pixel.len() == 4,
    ensures
        face_colors(quad, textures).contains(dyed(quad, pixel)),
        quad.tint_color is None ==> face_colors(quad, textures).contains(pixel),
        face_colors(quad, textures).contains(c) ==> exists|i: int|
            0 <= i && 4 * i + 4 <= textures[quad.texture@].pixels@.len() && c == dyed(
                quad,
                #[trigger] textures[quad.texture@].pixels@.subrange(4 * i, 4 * i + 4),
            ),
{
    let face = face_colors(quad, textures);
    let pixels = textures[quad.texture@].pixels@;
    let k = before.len() as int / 4;
    assert(pixels.subrange(4 * k, 4 * k + 4) =~= pixel);
    assert(face[k] == dyed(quad, pixel));
    if face.contains(c) {
        let i = choose|i: int| 0 <= i < face.len() && face[i] == c;
        assert(c == dyed(quad, pixels.subrange(4 * i, 4 * i + 4)));
    }
}

/// The voxels of an axis that a face touches: from the one that holds its start to
/// the one that holds the last point before its end, as far as they are in the brick.
pub proof fn law_voxel_range(floor: int, ceil: int, k: int)
    requires
        0 <= floor < ceil <= 16,
        0 <= k < 16,
    ensures
        clamp_voxel(floor) <= k <= clamp_voxel(ceil - 1) <==> floor <= k < ceil,
        clamp_voxel(-1 - k) == 0,
        clamp_voxel(16 + k) == 15,
{
}

/// How many samples the first faces take.
pub open spec fn hit_count(quads: Seq<QuadHits>, n: int) -> int
    decreases n,
{
    if n <= 0 {
        0
    } else {
        hit_count(quads, n - 1) + quads[n - 1].hits@.len()
    }
}

/// While the samples of all faces could be white and in one voxel, the sums fit.
pub proof fn law_few_samples_fit(quads: Seq<QuadHits>, textures: Map<Seq<char>, RgbaImage>)
    requires
        255 * hit_count(quads, quads.len() as int) <= u32::MAX,
    ensures
        sums_fit(quads, textures),
{
    assert forall|tinted: bool, v: int, ch: int|
        0 <= v < BRICK_VOXELS && 0 <= ch < 5 implies #[trigger] full_total(
        quads,
        textures,
        tinted,
        v,
        ch,
    ) <= u32::MAX by {
        lemma_total_bound(quads, textures, tinted, v, ch, quads.len() as int);
    }
}

/// A sum is at most 255 times the number of samples of a face.
proof fn lemma_quad_bound(
    quad: QuadHits,
    textures: Map<Seq<char>, RgbaImage>,
    v: int,
    ch: int,
    n: int,
)
    requires
        0 <= n,
    ensures
        0 <= quad_part(quad, textures, v, ch, n) <= 255 * n,
    decreases n,
{
    if n > 0 {
        lemma_quad_bound(quad, textures, v, ch, n - 1);
    }
}

/// A sum is at most 255 times the number of samples.
proof fn lemma_total_bound(
    quads: Seq<QuadHits>,
    textures: Map<Seq<char>, RgbaImage>,
    tinted: bool,
    v: int,
    ch: int,
    n: int,
)
    requires
        0 <= n,
    ensures
        0 <= total(quads, textures, tinted, v, ch, n) <= 255 * hit_count(quads, n),
    decreases n,
{
    if n > 0 {
        lemma_total_bound(quads, textures, tinted, v, ch, n - 1);
        lemma_quad_bound(quads[n - 1], textures, v, ch, quads[n - 1].hits@.len() as int);
    }
}

/// Hits in the brick on complete textures can all be sampled.
pub proof fn law_complete_textures_can_be_hit(
    quads: Seq<QuadHits>,
    textures: Map<Seq<char>, RgbaImage>,
)
    requires
        forall|q: int, h: int|
            #![trigger quads[q].hits@[h]]
            0 <= q < quads.len() && 0 <= h < quads[q].hits@.len() ==> quads[q].hits@[h].voxel
                < 4096,
        forall|name: Seq<char>| #[trigger]
            textures.contains_key(name) ==> textures[name].wf() && textures[name].width <= i32::MAX
                && textures[name].height <= i32::MAX && textures[name].width * textures[name].height
                <= 0x1_0000_0000,
    ensures
        hits_exist(quads, textures),
{
    assert forall|q: int, h: int|
        #![trigger quads[q].hits@[h]]
        0 <= q < quads.len() && 0 <= h < quads[q].hits@.len() implies {
        let hit = quads[q].hits@[h];
        &&& hit.voxel < BRICK_VOXELS
        &&& textures.contains_key(quads[q].texture@) ==> texture::can_sample(
            textures[quads[q].texture@],
            hit.px as int,
            hit.py as int,
        )
    } by {
        let hit = quads[q].hits@[h];
        if textures.contains_key(quads[q].texture@) {
            texture::law_complete_image_samples(
                textures[quads[q].texture@],
                hit.px as int,
                hit.py as int,
            );
        }
    }
}

} // verus!
