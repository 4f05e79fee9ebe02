//! Textures: loading, sampling and tinting.

use vstd::hash_map::StringHashMap;
use vstd::prelude::*;

use crate::bytes;
use crate::bytes::read_be32;
pub use crate::carver::palette::Palette;
use crate::text;

verus! {

/// An image of RGBA pixels, row by row.
pub struct RgbaImage {
    pub width: u32,
    pub height: u32,
    pub pixels: Vec<u8>,
}

impl RgbaImage {
    /// Whether the image has exactly the pixels that its size says.
    pub open spec fn wf(&self) -> bool {
        &&& self.width >= 1
        &&& self.height >= 1
        &&& self.pixels@.len() == 4 * (self.width * self.height)
    }

    /// Whether the pixel at `(x, y)` is there.
    pub open spec fn has_pixel(&self, x: int, y: int) -> bool {
        &&& y * self.width + x <= u32::MAX
        &&& (y * self.width + x) * 4 + 4 <= self.pixels@.len()
    }

    /// The four channels of the pixel at `(x, y)`.
    pub open spec fn pixel(&self, x: int, y: int) -> Seq<u8> {
        let off = (y * self.width + x) * 4;
        self.pixels@.subrange(off, off + 4)
    }

    /// The four channels of the pixel at `(x, y)`.
    pub fn get_pixel(&self, x: u32, y: u32) -> (r: [u8; 4])
        requires
            self.has_pixel(x as int, y as int),
        ensures
            r@ == self.pixel(x as int, y as int),
    {
        assert(0 <= y * self.width) by (nonlinear_arith);
        assert(self.pixels.len() == self.pixels@.len());
        let off: usize = (y * self.width + x) as usize * 4;
        let r = [
            self.pixels[off],
            self.pixels[off + 1],
            self.pixels[off + 2],
            self.pixels[off + 3],
        ];
        assert(r@ =~= self.pixel(x as int, y as int));
        r
    }
}

/// A number brought into the range of `0` to `side - 1`.
pub open spec fn clamped(p: int, side: u32) -> int {
    if p < 0 {
        0
    } else if p > side - 1 {
        side - 1
    } else {
        p
    }
}

/// Whether an image can be sampled at a texel.
pub open spec fn can_sample(img: RgbaImage, px: int, py: int) -> bool {
    &&& 1 <= img.width <= i32::MAX
    &&& 1 <= img.height <= i32::MAX
    &&& img.has_pixel(clamped(px, img.width), clamped(py, img.height))
}

/// The colour of the pixel nearest to a texel.
pub open spec fn sampled(img: RgbaImage, px: int, py: int) -> Seq<u8> {
    img.pixel(clamped(px, img.width), clamped(py, img.height))
}

/// A number brought into the range of `0` to `side - 1`.
fn clamp_texel(p: i32, side: u32) -> (r: u32)
    requires
        1 <= side <= i32::MAX,
    ensures
        r == clamped(p as int, side),
{
    let top: i32 = side as i32 - 1;
    if p < 0 {
        0
    } else if p > top {
        top as u32
    } else {
        p as u32
    }
}

/// Samples an image at a texel, or at the nearest pixel of its border.
pub fn sample_texture(img: &RgbaImage, px: i32, py: i32) -> (r: [u8; 4])
    requires
        can_sample(*img, px as int, py as int),
    ensures
        r@ == sampled(*img, px as int, py as int),
{
    img.get_pixel(clamp_texel(px, img.width), clamp_texel(py, img.height))
}

/// A number rounded to a multiple of `unit`, ties to the even multiple.
pub open spec fn round_to(n: int, unit: int) -> int {
    let q = n / unit;
    let r = n % unit;
    if 2 * r > unit || (2 * r == unit && q % 2 == 1) {
        (q + 1) * unit
    } else {
        q * unit
    }
}

/// A number rounded to 24 significant binary digits, ties to even, where it is
/// known to need multiples of `unit` at least.
pub open spec fn round24_from(n: int, unit: int) -> int
    decreases n - unit,
{
    if unit <= 0 || n < 16777216 * unit {
        round_to(n, unit)
    } else {
        round24_from(n, 2 * unit)
    }
}

/// A number rounded to 24 significant binary digits, ties to even: the
/// precision of single-precision arithmetic.
pub open spec fn round24(n: int) -> int {
    round24_from(n, 1)
}

/// The texel that lies under the middle of voxel `k` of 16 along an axis with
/// `side` texels, in single-precision arithmetic.
pub open spec fn texel_at(k: int, side: int) -> int {
    round24((2 * k + 1) * round24(side)) / 32
}

/// Rounds a number to 24 significant binary digits, ties to even.
fn round_single(n: u64) -> (r: u64)
    requires
        n <= 0x10_0000_0000,
    ensures
        r == round24(n as int),
{
    let mut unit: u64 = 1;
    while n / 16777216 >= unit
        invariant
            1 <= unit <= 8192,
            n <= 0x10_0000_0000,
            round24(n as int) == round24_from(n as int, unit as int),
            unit == 1 || 8388608 * unit <= n,
        decreases n - unit,
    {
        unit = unit * 2;
    }
    let q: u64 = n / unit;
    let rest: u64 = n % unit;
    proof {
        vstd::arithmetic::div_mod::lemma_fundamental_div_mod(n as int, unit as int);
        vstd::arithmetic::mul::lemma_mul_is_commutative(q as int, unit as int);
        assert((q + 1) * unit == q * unit + unit) by (nonlinear_arith);
        assert(0 <= q * unit) by (nonlinear_arith);
    }
    if 2 * rest > unit || (2 * rest == unit && q % 2 == 1) {
        (q + 1) * unit
    } else {
        q * unit
    }
}

/// The texel under the middle of voxel `k` of 16 along an axis with `side` texels.
pub fn voxel_texel(k: usize, side: u32) -> (r: i32)
    requires
        k < 16,
        1 <= side <= i32::MAX,
    ensures
        r == texel_at(k as int, side as int),
{
    let wide: u64 = round_single(side as u64);
    proof {
        lemma_round24_bound(side as int, 1);
    }
    assert((2 * k + 1) * wide <= 31 * wide) by (nonlinear_arith)
        requires
            k < 16,
    ;
    let scaled: u64 = round_single((2 * k as u64 + 1) * wide);
    proof {
        lemma_single_bound(side as int, k as int);
    }
    (scaled / 32) as i32
}

/// Rounding moves a number by less than one part in 2^23.
proof fn lemma_round24_bound(n: int, unit: int)
    requires
        n >= 1,
        unit >= 1,
        unit == 1 || 8388608 * unit <= n,
    ensures
        8388608 * round24_from(n, unit) <= 8388609 * n,
    decreases n - unit,
{
    if n < 16777216 * unit {
        vstd::arithmetic::div_mod::lemma_fundamental_div_mod(n, unit);
        vstd::arithmetic::div_mod::lemma_mod_bound(n, unit);
        let q = n / unit;
        let r = n % unit;
        assert((q + 1) * unit == unit * q + unit) by (nonlinear_arith);
        assert(q * unit == unit * q) by (nonlinear_arith);
        if unit == 1 {
            assert(r == 0);
        }
    } else {
        lemma_round24_bound(n, 2 * unit);
    }
}

/// The texel is in the range of `i32`.
proof fn lemma_single_bound(side: int, k: int)
    requires
        1 <= side <= i32::MAX,
        0 <= k < 16,
    ensures
        0 <= texel_at(k, side) <= i32::MAX,
{
    lemma_round24_bound(side, 1);
    lemma_round24_positive(side, 1);
    let wide = round24(side);
    let n = (2 * k + 1) * wide;
    assert(1 <= n <= 31 * wide) by (nonlinear_arith)
        requires
            n == (2 * k + 1) * wide,
            0 <= k < 16,
            wide >= 1,
    ;
    lemma_round24_bound(n, 1);
    lemma_round24_positive(n, 1);
}

/// Rounding keeps a positive number positive.
proof fn lemma_round24_positive(n: int, unit: int)
    requires
        n >= 1,
        unit >= 1,
        unit == 1 || 8388608 * unit <= n,
    ensures
        round24_from(n, unit) >= 1,
    decreases n - unit,
{
    if n < 16777216 * unit {
        vstd::arithmetic::div_mod::lemma_fundamental_div_mod(n, unit);
        vstd::arithmetic::div_mod::lemma_mod_bound(n, unit);
        let q = n / unit;
        let r = n % unit;
        assert((q + 1) * unit == unit * q + unit) by (nonlinear_arith);
        assert(q * unit == unit * q) by (nonlinear_arith);
    } else {
        lemma_round24_positive(n, 2 * unit);
    }
}

/// On textures of up to 2^19 texels a side no rounding takes place: voxel `k`
/// samples the texel that holds the point `(k + 1/2) / 16` of the side, and
/// that texel is part of the texture.
pub proof fn law_texel_is_exact(k: int, side: int)
    requires
        0 <= k < 16,
        1 <= side <= 524288,
    ensures
        texel_at(k, side) == (2 * k + 1) * side / 32,
        0 <= texel_at(k, side) < side,
{
    let n = (2 * k + 1) * side;
    assert(0 <= n <= 31 * side) by (nonlinear_arith)
        requires
            n == (2 * k + 1) * side,
            0 <= k < 16,
            1 <= side,
    ;
    assert(round24(side) == side);
    assert(round24(n) == n);
}

/// Whether an image can be sampled at a texel.
pub fn covers_texel(img: &RgbaImage, px: i32, py: i32) -> (r: bool)
    ensures
        r == can_sample(*img, px as int, py as int),
{
    if img.width == 0 || img.width > 0x7fff_ffff || img.height == 0 || img.height > 0x7fff_ffff {
        return false;
    }
    let x: u64 = clamp_texel(px, img.width) as u64;
    let y: u64 = clamp_texel(py, img.height) as u64;
    let w: u64 = img.width as u64;
    assert(0 <= y * w <= 0x7fff_ffff * 0x7fff_ffff) by (nonlinear_arith)
        requires
            0 <= y <= 0x7fff_ffff,
            0 <= w <= 0x7fff_ffff,
    ;
    let at: u64 = y * w + x;
    at <= 0xffff_ffff && at * 4 + 4 <= img.pixels.len() as u64
}

/// Whether an image can be sampled under the middle of a voxel.
pub fn covers_voxel(img: &RgbaImage, k: usize, l: usize) -> (r: bool)
    requires
        k < 16,
        l < 16,
    ensures
        r == can_sample(
            *img,
            texel_at(k as int, img.width as int),
            texel_at(l as int, img.height as int),
        ),
{
    if img.width == 0 || img.width > 0x7fff_ffff || img.height == 0 || img.height > 0x7fff_ffff {
        return false;
    }
    covers_texel(img, voxel_texel(k, img.width), voxel_texel(l, img.height))
}

/// A complete image of at most 2^32 pixels can be sampled everywhere.
pub proof fn law_complete_image_samples(img: RgbaImage, px: int, py: int)
    requires
        img.wf(),
        img.width <= i32::MAX,
        img.height <= i32::MAX,
        img.width * img.height <= 0x1_0000_0000,
    ensures
        can_sample(img, px, py),
{
    let w = img.width as int;
    let h = img.height as int;
    let x = clamped(px, img.width);
    let y = clamped(py, img.height);
    assert(y * w + x + 1 <= w * h) by (nonlinear_arith)
        requires
            0 <= x <= w - 1,
            0 <= y <= h - 1,
    ;
}

/// Multiplies the three colours of a pixel by a tint, as parts of 255, and
/// keeps its alpha.
pub open spec fn tinted(rgba: Seq<u8>, tint: Seq<u8>) -> Seq<u8> {
    seq![
        (rgba[0] * tint[0] / 255) as u8,
        (rgba[1] * tint[1] / 255) as u8,
        (rgba[2] * tint[2] / 255) as u8,
        rgba[3],
    ]
}

/// The colour of grass in a plains biome.
pub open spec fn grass_tint() -> Seq<u8> {
    seq![0x91u8, 0xBDu8, 0x59u8]
}

/// One colour times one part of a tint.
fn tint_channel(c: u8, t: u8) -> (r: u8)
    ensures
        r == (c * t / 255) as u8,
        r == c * t / 255,
{
    assert(0 <= c * t <= 255 * 255) by (nonlinear_arith)
        requires
            c <= 255,
            t <= 255,
    ;
    ((c as u32 * t as u32) / 255) as u8
}

/// Multiplies the colours of a pixel by a tint and keeps its alpha.
pub fn tint_with(rgba: [u8; 4], tint: [u8; 3]) -> (r: [u8; 4])
    ensures
        r@ == tinted(rgba@, tint@),
{
    let r = [
        tint_channel(rgba[0], tint[0]),
        tint_channel(rgba[1], tint[1]),
        tint_channel(rgba[2], tint[2]),
        rgba[3],
    ];
    assert(r@ =~= tinted(rgba@, tint@));
    r
}

/// Tints a pixel with the grass colour of the plains, whatever tint index the
/// face names.
pub fn apply_tint(rgba: [u8; 4], _tint: i32) -> (r: [u8; 4])
    ensures
        r@ == tinted(rgba@, grass_tint()),
{
    let tint = [0x91u8, 0xBDu8, 0x59u8];
    assert(tint@ =~= grass_tint());
    tint_with(rgba, tint)
}

/// A tint never brightens a colour, and white leaves every colour as it is.
pub proof fn law_tint_darkens(rgba: Seq<u8>, tint: Seq<u8>)
    requires
        rgba.len() == 4,
        tint.len() == 3,
    ensures
        tinted(rgba, tint)[3] == rgba[3],
        forall|c: int| 0 <= c < 3 ==> #[trigger] tinted(rgba, tint)[c] <= rgba[c],
        tint == seq![255u8, 255u8, 255u8] ==> tinted(rgba, tint) == rgba,
{
    assert forall|c: int| 0 <= c < 3 implies #[trigger] tinted(rgba, tint)[c] <= rgba[c] by {
        let a = rgba[c] as int;
        let t = tint[c] as int;
        assert(0 <= a * t <= a * 255) by (nonlinear_arith)
            requires
                0 <= a,
                0 <= t <= 255,
        ;
    }
    if tint == seq![255u8, 255u8, 255u8] {
        assert(tinted(rgba, tint) =~= rgba);
    }
}

/// The path of a texture in the client archive.
pub open spec fn texture_path(name: Seq<char>) -> Seq<char> {
    "assets/minecraft/textures/"@ + text::trim_prefix(name, "minecraft:"@) + ".png"@
}

/// The path of a texture in the client archive.
pub fn texture_jar_path(name: &str) -> (r: String)
    ensures
        r@ == texture_path(name@),
{
    proof {
        reveal_strlit("minecraft:");
    }
    let short = text::trim_start(name, "minecraft:");
    let mut path: String = "assets/minecraft/textures/".to_owned();
    path.append(short);
    path.append(".png");
    path
}

/// Why a texture could not be loaded.
pub enum TextureError {
    /// The client archive has no such entry.
    Missing,
    /// The entry is not a PNG image that can be read.
    Png(png::DecodingError),
    /// The colour table of the image is not one of up to 256 whole colours.
    BrokenTable,
    /// The image has more pixels than memory can address.
    TooLarge,
    /// The image still refers to a colour table.
    Indexed,
}

/// The error of a failed PNG decoding.
#[verifier::external_type_specification]
#[verifier::external_body]
pub struct ExDecodingError(png::DecodingError);

/// A decoded PNG frame with eight bits per sample.
pub struct PngFrame {
    pub width: u32,
    pub height: u32,
    /// The colour type by its number in the PNG format.
    pub color_type: u8,
    pub raw: Vec<u8>,
}

/// How many samples a pixel has under each colour type.
pub open spec fn samples(color_type: u8) -> int {
    if color_type == 2 {
        3
    } else if color_type == 4 {
        2
    } else if color_type == 6 {
        4
    } else {
        1
    }
}

/// Whether a PNG chunk holds a colour table.
pub open spec fn is_table(kind: Seq<u8>) -> bool {
    kind == seq![0x50u8, 0x4Cu8, 0x54u8, 0x45u8]
}

/// Whether a PNG chunk holds pixels: of the image, or of a frame of an animation.
pub open spec fn is_image_data(kind: Seq<u8>) -> bool {
    kind == seq![0x49u8, 0x44u8, 0x41u8, 0x54u8] || kind == seq![0x66u8, 0x64u8, 0x41u8, 0x54u8]
}

/// Whether every colour table between a position and the first pixels holds
/// whole colours of three bytes, and at most 256 of them. Each chunk is a length
/// of four bytes, a kind of four bytes, that many bytes of content and a check
/// sum of four bytes.
pub open spec fn tables_whole_from(bytes: Seq<u8>, pos: int) -> bool
    decreases vstd::math::max(bytes.len() - pos, 0),
{
    if pos < 0 || pos + 8 > bytes.len() {
        true
    } else {
        let len = bytes::big32(bytes, pos);
        let kind = bytes.subrange(pos + 4, pos + 8);
        if is_image_data(kind) {
            true
        } else {
            (is_table(kind) ==> len % 3 == 0 && len <= 768) && tables_whole_from(
                bytes,
                pos + 12 + len,
            )
        }
    }
}

/// Where the header chunk of a PNG image stands: empty chunks before it do not count.
pub open spec fn header_at(bytes: Seq<u8>, pos: int) -> int
    decreases vstd::math::max(bytes.len() - pos, 0),
{
    if pos < 0 || pos + 8 > bytes.len() || bytes::big32(bytes, pos) > 0 {
        pos
    } else {
        header_at(bytes, pos + 12)
    }
}

/// Whether the colour tables of a PNG image are whole, as far as it needs one.
/// The chunks start at byte 8. The content of the header chunk starts eight bytes
/// after the chunk, and its tenth byte is 3 where the pixels refer to a table.
pub open spec fn tables_whole(bytes: Seq<u8>) -> bool {
    let h = header_at(bytes, 8);
    h + 17 < bytes.len() && bytes[h + 17] == 3 ==> tables_whole_from(bytes, 8)
}

/// Whether the pixels of a PNG image, four bytes each, are no more than a `Vec`
/// can hold. The content of the header chunk starts with the width and the height.
pub open spec fn size_fits(bytes: Seq<u8>) -> bool {
    let h = header_at(bytes, 8);
    h + 16 <= bytes.len() ==> 4 * (bytes::big32(bytes, h + 8) * bytes::big32(bytes, h + 12))
        <= isize::MAX
}

/// Whether four bytes stand at a position.
fn stands_at(bytes: &[u8], pos: usize, want: [u8; 4]) -> (r: bool)
    requires
        pos + 4 <= bytes@.len(),
    ensures
        r == (bytes@.subrange(pos as int, pos + 4) == want@),
{
    let ghost here = bytes@.subrange(pos as int, pos + 4);
    let r: bool = bytes[pos] == want[0] && bytes[pos + 1] == want[1] && bytes[pos + 2] == want[2]
        && bytes[pos + 3] == want[3];
    proof {
        assert(here[0] == bytes@[pos as int] && here[1] == bytes@[pos + 1] && here[2] == bytes@[pos
            + 2] && here[3] == bytes@[pos + 3]);
        if r {
            assert(here =~= want@);
        }
    }
    r
}

/// Finds the header chunk of a PNG image, if there is one.
fn find_header(bytes: &[u8]) -> (r: Option<usize>)
    ensures
        match r {
            Some(h) => h == header_at(bytes@, 8) && h + 8 <= bytes@.len(),
            None => header_at(bytes@, 8) + 8 > bytes@.len(),
        },
{
    if bytes.len() < 16 {
        return None;
    }
    let mut pos: usize = 8;
    while read_be32(bytes, pos) == 0
        invariant
            pos + 8 <= bytes@.len(),
            header_at(bytes@, 8) == header_at(bytes@, pos as int),
        decreases bytes@.len() - pos,
    {
        if bytes.len() - pos < 20 {
            assert(header_at(bytes@, pos + 12) == pos + 12);
            return None;
        }
        pos += 12;
    }
    Some(pos)
}

/// Whether the pixels of a PNG image are no more than a `Vec` can hold.
pub fn has_fitting_size(bytes: &[u8]) -> (r: bool)
    ensures
        r == size_fits(bytes@),
{
    match find_header(bytes) {
        None => true,
        Some(h) => {
            if bytes.len() - h < 16 {
                return true;
            }
            let w: u128 = read_be32(bytes, h + 8) as u128;
            let t: u128 = read_be32(bytes, h + 12) as u128;
            assert(0 <= w * t <= 0xffff_ffff * 0xffff_ffff) by (nonlinear_arith)
                requires
                    0 <= w <= 0xffff_ffff,
                    0 <= t <= 0xffff_ffff,
            ;
            4 * (w * t) <= isize::MAX as u128
        },
    }
}

/// Whether the colour tables of a PNG image are whole, as far as it needs one.
pub fn has_whole_tables(bytes: &[u8]) -> (r: bool)
    ensures
        r == tables_whole(bytes@),
{
    match find_header(bytes) {
        None => return true,
        Some(h) => {
            if bytes.len() - h <= 17 || bytes[h + 17] != 3 {
                return true;
            }
        },
    }
    let mut pos: usize = 8;
    while pos <= bytes.len() && bytes.len() - pos >= 8
        invariant
            pos >= 8,
            tables_whole(bytes@) == tables_whole_from(bytes@, pos as int),
        decreases bytes@.len() - pos,
    {
        let len: u32 = read_be32(bytes, pos);
        let idat = [0x49u8, 0x44u8, 0x41u8, 0x54u8];
        let fdat = [0x66u8, 0x64u8, 0x41u8, 0x54u8];
        let plte = [0x50u8, 0x4Cu8, 0x54u8, 0x45u8];
        proof {
            assert(idat@ =~= seq![0x49u8, 0x44u8, 0x41u8, 0x54u8]);
            assert(fdat@ =~= seq![0x66u8, 0x64u8, 0x41u8, 0x54u8]);
            assert(plte@ =~= seq![0x50u8, 0x4Cu8, 0x54u8, 0x45u8]);
        }
        if stands_at(bytes, pos + 4, idat) || stands_at(bytes, pos + 4, fdat) {
            return true;
        }
        if stands_at(bytes, pos + 4, plte) && (len % 3 != 0 || len > 768) {
            return false;
        }
        let rest: usize = bytes.len() - pos - 8;
        if len as usize > rest || rest - len as usize <= 4 {
            assert(tables_whole_from(bytes@, pos + 12 + len));
            return true;
        }
        pos = pos + 12 + len as usize;
    }
    true
}

/// What `png` decodes from a PNG image: width, height, colour type and samples
/// of its first frame.
pub uninterp spec fn png_frame(bytes: Seq<u8>) -> Option<(u32, u32, u8, Seq<u8>)>;

/// Decodes the first frame of a PNG image with `png::Decoder`, expanded from
/// colour tables and brought to eight bits per sample. The result depends on
/// the bytes alone. A frame is at least one pixel wide and high and has the
/// samples that its size and colour type ask for. Of an error nothing more is
/// claimed than that one is returned exactly where there is no frame. The
/// decoder slices the colour table that it expands into 256 whole colours, and
/// panics where the table is not that. The buffer is made for the whole image
/// even where the first frame is smaller, and `vec!` panics where it cannot be
/// that long. Such images are left out. Nothing is said of memory running out.
#[verifier::external_body]
fn read_png(bytes: &[u8]) -> (r: Result<PngFrame, png::DecodingError>)
    requires
        tables_whole(bytes@),
        size_fits(bytes@),
    ensures
        match r {
            Ok(f) => png_frame(bytes@) == Some((f.width, f.height, f.color_type, f.raw@))
                && f.width >= 1 && f.height >= 1 && f.raw@.len() == f.width * f.height * samples(
                f.color_type,
            ),
            Err(_) => png_frame(bytes@) is None,
        },
{
    let mut decoder = png::Decoder::new(bytes);
    decoder.set_transformations(png::Transformations::EXPAND | png::Transformations::STRIP_16);
    let mut reader = decoder.read_info()?;
    let mut raw = vec![0u8; reader.output_buffer_size()];
    let info = reader.next_frame(&mut raw)?;
    raw.truncate(info.buffer_size());
    Ok(PngFrame { width: info.width, height: info.height, color_type: info.color_type as u8, raw })
}

/// Whether a colour type can be expanded to RGBA: greyscale, colour, either
/// with alpha, but not a colour table.
pub open spec fn expandable(color_type: u8) -> bool {
    color_type == 0 || color_type == 2 || color_type == 4 || color_type == 6
}

/// Samples expanded to RGBA. Grey counts for all three colours, and a pixel
/// without alpha is opaque.
pub open spec fn expanded(color_type: u8, raw: Seq<u8>) -> Seq<u8> {
    if color_type == 6 {
        raw
    } else if color_type == 2 {
        Seq::new(
            raw.len() / 3 * 4,
            |i: int|
                if i % 4 == 3 {
                    255u8
                } else {
                    raw[i / 4 * 3 + i % 4]
                },
        )
    } else if color_type == 4 {
        Seq::new(
            raw.len() / 2 * 4,
            |i: int|
                if i % 4 == 3 {
                    raw[i / 4 * 2 + 1]
                } else {
                    raw[i / 4 * 2]
                },
        )
    } else {
        Seq::new(
            raw.len() * 4,
            |i: int|
                if i % 4 == 3 {
                    255u8
                } else {
                    raw[i / 4]
                },
        )
    }
}

/// Expands a decoded frame to RGBA.
pub fn expand_frame(frame: PngFrame) -> (r: Result<RgbaImage, TextureError>)
    ensures
        match r {
            Ok(img) => {
                &&& expandable(frame.color_type)
                &&& img.width == frame.width
                &&& img.height == frame.height
                &&& img.pixels@ == expanded(frame.color_type, frame.raw@)
            },
            Err(e) => !expandable(frame.color_type) && e is Indexed,
        },
{
    let width: u32 = frame.width;
    let height: u32 = frame.height;
    let color_type: u8 = frame.color_type;
    if color_type == 6 {
        return Ok(RgbaImage { width, height, pixels: frame.raw });
    }
    let step: usize = if color_type == 2 {
        3
    } else if color_type == 4 {
        2
    } else if color_type == 0 {
        1
    } else {
        return Err(TextureError::Indexed);
    };
    let raw = frame.raw;
    let mut pixels: Vec<u8> = Vec::new();
    let mut at: usize = 0;
    let ghost mut k: int = 0;
    while raw.len() - at >= step
        invariant
            step == samples(color_type),
            expandable(color_type) && color_type != 6,
            0 <= at <= raw@.len(),
            step == 3 ==> at == 3 * k,
            step == 2 ==> at == 2 * k,
            step == 1 ==> at == k,
            k >= 0,
            pixels@.len() == 4 * k,
            pixels@ =~= expanded(color_type, raw@).take(4 * k),
            4 * k <= expanded(color_type, raw@).len(),
        decreases raw.len() - at,
    {
        let ghost want = expanded(color_type, raw@);
        proof {
            assert(4 * (k + 1) <= want.len());
            assert(forall|j: int| 4 * k <= j < 4 * k + 4 ==> #[trigger] (j / 4) == k);
        }
        let first: u8 = raw[at];
        pixels.push(first);
        if step == 3 {
            pixels.push(raw[at + 1]);
            pixels.push(raw[at + 2]);
        } else {
            pixels.push(first);
            pixels.push(first);
        }
        if step == 2 {
            pixels.push(raw[at + 1]);
        } else {
            pixels.push(255);
        }
        at += step;
        proof {
            assert(pixels@ =~= want.take(4 * k + 4));
            k = k + 1;
        }
    }
    assert(pixels@ =~= expanded(color_type, raw@));
    Ok(RgbaImage { width, height, pixels })
}

/// Whether a PNG image can be handed to the decoder.
pub open spec fn is_decodable(bytes: Seq<u8>) -> bool {
    tables_whole(bytes) && size_fits(bytes)
}

/// Decodes a PNG image to RGBA.
pub fn decode_png(bytes: &[u8]) -> (r: Result<RgbaImage, TextureError>)
    ensures
        match r {
            Ok(img) => {
                &&& is_decodable(bytes@)
                &&& png_frame(bytes@) matches Some(f)
                &&& expandable(f.2)
                &&& (img.width, img.height, img.pixels@) == (f.0, f.1, expanded(f.2, f.3))
                &&& img.wf()
            },
            Err(TextureError::BrokenTable) => !tables_whole(bytes@),
            Err(TextureError::TooLarge) => tables_whole(bytes@) && !size_fits(bytes@),
            Err(TextureError::Png(_)) => is_decodable(bytes@) && png_frame(bytes@) is None,
            Err(TextureError::Indexed) => is_decodable(bytes@) && (png_frame(bytes@) matches Some(f)
                && !expandable(f.2)),
            Err(TextureError::Missing) => false,
        },
{
    if !has_whole_tables(bytes) {
        return Err(TextureError::BrokenTable);
    }
    if !has_fitting_size(bytes) {
        return Err(TextureError::TooLarge);
    }
    match read_png(bytes) {
        Ok(frame) => {
            proof {
                lemma_expanded_len(frame.width as int * frame.height, frame.color_type, frame.raw@);
            }
            expand_frame(frame)
        },
        Err(e) => Err(TextureError::Png(e)),
    }
}

/// Expansion gives every pixel four channels.
proof fn lemma_expanded_len(pixels: int, color_type: u8, raw: Seq<u8>)
    requires
        0 <= pixels,
        expandable(color_type) ==> raw.len() == pixels * samples(color_type),
    ensures
        expandable(color_type) ==> expanded(color_type, raw).len() == 4 * pixels,
{
}

/// The pixels of the first frame of an image. Frames are square and stand one
/// below the other, so an image that is higher than wide has more than one.
pub open spec fn first_frame(width: u32, height: u32, pixels: Seq<u8>) -> (u32, u32, Seq<u8>) {
    if height > width {
        (width, width, pixels.take(4 * (width * width)))
    } else {
        (width, height, pixels)
    }
}

/// Cuts an image down to its first frame.
pub fn keep_first_frame(img: RgbaImage) -> (r: RgbaImage)
    requires
        img.wf(),
    ensures
        (r.width, r.height, r.pixels@) == first_frame(img.width, img.height, img.pixels@),
        r.wf(),
        r.height <= r.width,
{
    if img.height > img.width {
        let side: u32 = img.width;
        let mut pixels = img.pixels;
        proof {
            let w = side as int;
            let h = img.height as int;
            assert(w * w <= w * h && 0 <= w * w) by (nonlinear_arith)
                requires
                    0 <= w <= h,
            ;
            assert(pixels.len() == pixels@.len());
        }
        pixels.truncate(side as usize * side as usize * 4);
        RgbaImage { width: side, height: side, pixels }
    } else {
        img
    }
}

/// Loads a texture from its archive entry: the first frame of the PNG image.
pub fn load_texture(entry: Option<&[u8]>) -> (r: Result<RgbaImage, TextureError>)
    ensures
        match r {
            Ok(img) => {
                &&& entry matches Some(bytes)
                &&& is_decodable(bytes@)
                &&& png_frame(bytes@) matches Some(f)
                &&& expandable(f.2)
                &&& (img.width, img.height, img.pixels@) == first_frame(f.0, f.1, expanded(f.2, f.3))
                &&& img.wf()
                &&& img.height <= img.width
            },
            Err(TextureError::Missing) => entry is None,
            Err(TextureError::BrokenTable) => entry matches Some(bytes) && !tables_whole(bytes@),
            Err(TextureError::TooLarge) => entry matches Some(bytes) && tables_whole(bytes@)
                && !size_fits(bytes@),
            Err(TextureError::Png(_)) => entry matches Some(bytes) && is_decodable(bytes@)
                && png_frame(bytes@) is None,
            Err(TextureError::Indexed) => entry matches Some(bytes) && is_decodable(bytes@) && (
            png_frame(bytes@) matches Some(f) && !expandable(f.2)),
        },
{
    match entry {
        None => Err(TextureError::Missing),
        Some(bytes) => match decode_png(bytes) {
            Ok(img) => Ok(keep_first_frame(img)),
            Err(e) => Err(e),
        },
    }
}

/// Loaded textures by name.
pub struct TextureCache {
    map: StringHashMap<RgbaImage>,
}

impl View for TextureCache {
    type V = Map<Seq<char>, RgbaImage>;

    closed spec fn view(&self) -> Map<Seq<char>, RgbaImage> {
        self.map@
    }
}

impl TextureCache {
    /// A cache without textures.
    pub fn new() -> (r: TextureCache)
        ensures
            r@ == Map::<Seq<char>, RgbaImage>::empty(),
    {
        TextureCache { map: StringHashMap::new() }
    }

    /// Whether a texture is loaded.
    pub fn has(&self, name: &str) -> (r: bool)
        ensures
            r == self@.contains_key(name@),
    {
        self.map.contains_key(name)
    }

    /// A loaded texture.
    pub fn get(&self, name: &str) -> (r: Option<&RgbaImage>)
        ensures
            match r {
                Some(img) => self@.contains_key(name@) && *img == self@[name@],
                None => !self@.contains_key(name@),
            },
    {
        self.map.get(name)
    }

    /// Takes the outcome of loading a texture into the cache. A texture that
    /// could not be loaded is left out, and one that is there already stays.
    pub fn ensure_texture(&mut self, name: &str, loaded: Result<RgbaImage, TextureError>)
        ensures
            final(self)@ == match loaded {
                Ok(img) => if old(self)@.contains_key(name@) {
                    old(self)@
                } else {
                    old(self)@.insert(name@, img)
                },
                Err(_) => old(self)@,
            },
    {
        if !self.has(name) {
            if let Ok(img) = loaded {
                self.map.insert(name.to_owned(), img);
            }
        }
    }
}

/// A tint multiplies the colours as parts of 255 and rounds down.
pub proof fn law_tint_rounds_down(rgba: Seq<u8>, tint: Seq<u8>)
    ensures
        tinted(rgba, tint).len() == 4,
        tinted(rgba, tint)[3] == rgba[3],
        forall|c: int|
            0 <= c < 3 ==> 255 * (#[trigger] tinted(rgba, tint)[c]) <= rgba[c] * tint[c] < 255
                * tinted(rgba, tint)[c] + 255,
{
    assert forall|c: int| 0 <= c < 3 implies 255 * (#[trigger] tinted(rgba, tint)[c]) <= rgba[c]
        * tint[c] < 255 * tinted(rgba, tint)[c] + 255 by {
        let a = rgba[c] as int;
        let t = tint[c] as int;
        assert(0 <= a * t <= 255 * 255) by (nonlinear_arith)
            requires
                0 <= a <= 255,
                0 <= t <= 255,
        ;
    }
}

/// A texel outside an image is brought to the nearest pixel of the border, and
/// one inside stays where it is.
pub proof fn law_clamping_goes_to_the_border(p: int, side: u32, q: int)
    requires
        1 <= side,
        0 <= q < side,
    ensures
        0 <= clamped(p, side) < side,
        0 <= p < side ==> clamped(p, side) == p,
        p <= q ==> p <= clamped(p, side) <= q || clamped(p, side) == 0,
        q <= p ==> q <= clamped(p, side) <= p || clamped(p, side) == side - 1,
        p < 0 ==> clamped(p, side) == 0,
        p >= side ==> clamped(p, side) == side - 1,
{
}

/// Pixels stand row by row, each row from left to right: a pixel stands behind
/// the rows above it and the pixels left of it.
pub proof fn law_pixels_stand_in_rows(
    img: RgbaImage,
    above: Seq<u8>,
    left: Seq<u8>,
    pixel: Seq<u8>,
    rest: Seq<u8>,
    x: int,
    y: int,
)
    requires
        img.pixels@ == above + left + pixel + rest,
        above.len() == 4 * (y * img.width),
        left.len() == 4 * x,
        pixel.len() == 4,
        0 <= x < img.width,
        0 <= y,
    ensures
        img.pixel(x, y) == pixel,
        0 <= x < img.width && 0 <= y < img.height && 1 <= img.width ==> sampled(img, x, y)
            == pixel,
{
    let off = (y * img.width + x) * 4;
    assert(off == above.len() + left.len());
    assert(img.pixels@.subrange(off, off + 4) =~= pixel);
}

/// A grey pixel becomes a pixel with that grey as its three colours, and a pixel
/// without alpha an opaque one; colours and alpha that are there stay. Every pixel
/// is expanded by itself, in order.
pub proof fn law_expansion_goes_pixel_by_pixel(
    color_type: u8,
    raw: Seq<u8>,
    pixel: Seq<u8>,
    k: int,
)
    requires
        expandable(color_type),
        0 <= k,
        color_type == 0 ==> pixel.len() == 1 && raw.len() == k,
        color_type == 2 ==> pixel.len() == 3 && raw.len() == 3 * k,
        color_type == 4 ==> pixel.len() == 2 && raw.len() == 2 * k,
        color_type == 6 ==> pixel.len() == 4 && raw.len() == 4 * k,
    ensures
        pixel.len() == samples(color_type),
        k == 0 ==> expanded(color_type, raw) == Seq::<u8>::empty(),
        color_type == 0 ==> expanded(color_type, raw + pixel) == expanded(color_type, raw) + seq![
            pixel[0],
            pixel[0],
            pixel[0],
            255u8,
        ],
        color_type == 2 ==> expanded(color_type, raw + pixel) == expanded(color_type, raw) + seq![
            pixel[0],
            pixel[1],
            pixel[2],
            255u8,
        ],
        color_type == 4 ==> expanded(color_type, raw + pixel) == expanded(color_type, raw) + seq![
            pixel[0],
            pixel[0],
            pixel[0],
            pixel[1],
        ],
        color_type == 6 ==> expanded(color_type, raw + pixel) == expanded(color_type, raw) + pixel,
{
    if k == 0 {
        assert(expanded(color_type, raw) =~= Seq::<u8>::empty());
    }
    if color_type == 0 {
        lemma_expand_gray(raw, pixel, k);
    } else if color_type == 2 {
        lemma_expand_rgb(raw, pixel, k);
    } else if color_type == 4 {
        lemma_expand_gray_alpha(raw, pixel, k);
    }
}

/// One more grey pixel.
proof fn lemma_expand_gray(raw: Seq<u8>, pixel: Seq<u8>, k: int)
    requires
        pixel.len() == 1,
        raw.len() == k,
    ensures
        expanded(0, raw + pixel) == expanded(0, raw) + seq![pixel[0], pixel[0], pixel[0], 255u8],
{
    let whole = expanded(0, raw + pixel);
    let next = expanded(0, raw) + seq![pixel[0], pixel[0], pixel[0], 255u8];
    assert(whole.len() == 4 * k + 4 && next.len() == 4 * k + 4);
    assert forall|i: int| 0 <= i < 4 * k + 4 implies whole[i] == next[i] by {
        if i < 4 * k {
            assert(i / 4 < k);
            assert((raw + pixel)[i / 4] == raw[i / 4]);
        } else {
            assert(i / 4 == k && i % 4 == i - 4 * k);
        }
    }
    assert(whole =~= next);
}

/// One more pixel with colours.
proof fn lemma_expand_rgb(raw: Seq<u8>, pixel: Seq<u8>, k: int)
    requires
        pixel.len() == 3,
        raw.len() == 3 * k,
    ensures
        expanded(2, raw + pixel) == expanded(2, raw) + seq![pixel[0], pixel[1], pixel[2], 255u8],
{
    let whole = expanded(2, raw + pixel);
    let next = expanded(2, raw) + seq![pixel[0], pixel[1], pixel[2], 255u8];
    assert((raw + pixel).len() / 3 == k + 1 && raw.len() / 3 == k);
    assert(whole.len() == 4 * k + 4 && next.len() == 4 * k + 4);
    assert forall|i: int| 0 <= i < 4 * k + 4 implies whole[i] == next[i] by {
        if i < 4 * k {
            assert(i / 4 < k);
        } else {
            assert(i / 4 == k && i % 4 == i - 4 * k);
        }
    }
    assert(whole =~= next);
}

/// One more grey pixel with alpha.
proof fn lemma_expand_gray_alpha(raw: Seq<u8>, pixel: Seq<u8>, k: int)
    requires
        pixel.len() == 2,
        raw.len() == 2 * k,
    ensures
        expanded(4, raw + pixel) == expanded(4, raw) + seq![
            pixel[0],
            pixel[0],
            pixel[0],
            pixel[1],
        ],
{
    let whole = expanded(4, raw + pixel);
    let next = expanded(4, raw) + seq![pixel[0], pixel[0], pixel[0], pixel[1]];
    assert((raw + pixel).len() / 2 == k + 1 && raw.len() / 2 == k);
    assert(whole.len() == 4 * k + 4 && next.len() == 4 * k + 4);
    assert forall|i: int| 0 <= i < 4 * k + 4 implies whole[i] == next[i] by {
        if i < 4 * k {
            assert(i / 4 < k);
        } else {
            assert(i / 4 == k && i % 4 == i - 4 * k);
        }
    }
    assert(whole =~= next);
}

/// Of frames that stand one below the other the first one is kept, and an image
/// that is no higher than wide is one frame.
pub proof fn law_first_frame_is_on_top(
    width: u32,
    height: u32,
    frame: Seq<u8>,
    below: Seq<u8>,
)
    requires
        frame.len() == 4 * (width * width),
    ensures
        height > width ==> first_frame(width, height, frame + below) == (width, width, frame),
        height <= width ==> first_frame(width, height, below) == (width, height, below),
{
    assert(0 <= width * width) by (nonlinear_arith);
    assert((frame + below).take(4 * (width * width)) =~= frame);
}

/// Rounding gives the nearest multiple: no multiple of the unit is nearer, and of
/// two that are equally near the even one is taken.
pub proof fn law_rounding_is_nearest(n: int, unit: int, k: int)
    requires
        n >= 0,
        unit >= 1,
    ensures
        round_to(n, unit) % unit == 0,
        n - round_to(n, unit) <= k * unit - n || n - round_to(n, unit) <= n - k * unit,
        round_to(n, unit) - n <= k * unit - n || round_to(n, unit) - n <= n - k * unit,
        n == (2 * k + 1) * unit + unit / 2 && unit % 2 == 0 ==> round_to(n, unit) == (2 * k + 2)
            * unit,
        n == 2 * k * unit + unit / 2 && unit % 2 == 0 ==> round_to(n, unit) == 2 * k * unit,
{
    vstd::arithmetic::div_mod::lemma_fundamental_div_mod(n, unit);
    vstd::arithmetic::div_mod::lemma_mod_bound(n, unit);
    let q = n / unit;
    let r = n % unit;
    assert((q + 1) * unit == unit * q + unit) by (nonlinear_arith);
    assert(q * unit == unit * q) by (nonlinear_arith);
    vstd::arithmetic::div_mod::lemma_mod_multiples_basic(q, unit);
    vstd::arithmetic::div_mod::lemma_mod_multiples_basic(q + 1, unit);
    if k <= q {
        assert(k * unit <= q * unit) by (nonlinear_arith)
            requires
                k <= q,
                unit >= 1,
        ;
    } else {
        assert(k * unit >= (q + 1) * unit) by (nonlinear_arith)
            requires
                k >= q + 1,
                unit >= 1,
        ;
    }
    if n == (2 * k + 1) * unit + unit / 2 && unit % 2 == 0 {
        vstd::arithmetic::div_mod::lemma_fundamental_div_mod_converse(
            n,
            unit,
            2 * k + 1,
            unit / 2,
        );
    }
    if n == 2 * k * unit + unit / 2 && unit % 2 == 0 {
        vstd::arithmetic::div_mod::lemma_fundamental_div_mod_converse(n, unit, 2 * k, unit / 2);
    }
}

/// Numbers of 24 binary digits stay as they are, one digit more is rounded to an
/// even number, twice a number is rounded to twice what the number is rounded to,
/// and no number moves by more than one part in 2^24.
pub proof fn law_24_digits_are_kept(n: int)
    requires
        n >= 1,
    ensures
        n < 16777216 ==> round24(n) == n,
        16777216 <= n < 33554432 ==> round24(n) == round_to(n, 2),
        n >= 8388608 ==> round24(2 * n) == 2 * round24(n),
        -n <= 16777216 * (round24(n) - n) <= n,
{
    lemma_round24_error(n, 1);
    if 16777216 <= n < 33554432 {
        assert(round24_from(n, 1) == round24_from(n, 2));
    }
    if n >= 8388608 {
        lemma_round24_doubles(n, 1);
        assert(round24_from(2 * n, 1) == round24_from(2 * n, 2));
    }
}

/// Rounding moves a number by half a unit at most.
proof fn lemma_round24_error(n: int, unit: int)
    requires
        n >= 1,
        unit >= 1,
        unit == 1 || 8388608 * unit <= n,
    ensures
        -n <= 16777216 * (round24_from(n, unit) - n) <= n,
    decreases n - unit,
{
    if n < 16777216 * unit {
        vstd::arithmetic::div_mod::lemma_fundamental_div_mod(n, unit);
        vstd::arithmetic::div_mod::lemma_mod_bound(n, unit);
        let q = n / unit;
        let r = n % unit;
        assert((q + 1) * unit == unit * q + unit) by (nonlinear_arith);
        assert(q * unit == unit * q) by (nonlinear_arith);
        if unit == 1 {
            assert(r == 0);
        }
    } else {
        lemma_round24_error(n, 2 * unit);
    }
}

/// Twice a number is rounded to twice as much with twice the unit.
proof fn lemma_round24_doubles(n: int, unit: int)
    requires
        n >= 1,
        unit >= 1,
    ensures
        round24_from(2 * n, 2 * unit) == 2 * round24_from(n, unit),
    decreases n - unit,
{
    if n < 16777216 * unit {
        vstd::arithmetic::div_mod::lemma_fundamental_div_mod(n, unit);
        vstd::arithmetic::div_mod::lemma_mod_bound(n, unit);
        let q = n / unit;
        let r = n % unit;
        assert(2 * n == q * (2 * unit) + 2 * r) by (nonlinear_arith)
            requires
                n == unit * q + r,
        ;
        vstd::arithmetic::div_mod::lemma_fundamental_div_mod_converse(2 * n, 2 * unit, q, 2 * r);
        assert(q * (2 * unit) == 2 * (q * unit)) by (nonlinear_arith);
        assert((q + 1) * (2 * unit) == 2 * ((q + 1) * unit)) by (nonlinear_arith);
    } else {
        lemma_round24_doubles(n, 2 * unit);
    }
}

/// The file of a texture is named after it, and its namespace does not count.
pub proof fn law_texture_path(name: Seq<char>)
    ensures
        texture_path("minecraft:"@ + name) == texture_path(name),
        !"minecraft:"@.is_prefix_of(name) ==> texture_path(name) == "assets/minecraft/textures/"@
            + name + ".png"@,
{
    reveal_strlit("minecraft:");
    text::law_trim_takes_prefixes_off(name, "minecraft:"@);
}

/// Pixels are made of gray or of three colors, each with or without alpha: there
/// are four kinds, and the number of samples adds up from these two choices.
pub proof fn law_kinds_of_pixels(color_type: u8)
    ensures
        expandable(color_type) <==> color_type <= 6 && color_type % 2 == 0,
        expandable(color_type) ==> samples(color_type) == (if color_type % 4 == 2 {
            3int
        } else {
            1int
        }) + (if color_type >= 4 {
            1int
        } else {
            0int
        }),
{
}

/// Rounding what is rounded changes nothing, so a side is as good as what it is
/// rounded to.
pub proof fn law_rounding_twice(n: int, k: int)
    requires
        n >= 1,
    ensures
        round24(round24(n)) == round24(n),
        texel_at(k, round24(n)) == texel_at(k, n),
{
    lemma_round24_again(n, 1);
}

/// What is rounded to a unit or a larger one is a multiple that fits 24 digits.
proof fn lemma_round24_again(n: int, unit: int)
    requires
        n >= 1,
        unit >= 1,
        unit == 1 || 8388608 * unit <= n,
    ensures
        round24_from(round24_from(n, unit), unit) == round24_from(n, unit),
        unit > 1 ==> round24_from(n, unit) >= 8388608 * unit,
    decreases n - unit,
{
    if n < 16777216 * unit {
        let r = round_to(n, unit);
        lemma_multiple_stays(n, unit);
        if r >= 16777216 * unit {
            assert(r == 8388608 * (2 * unit));
            lemma_whole_multiple(8388608, 2 * unit);
            assert(round24_from(r, unit) == round24_from(r, 2 * unit));
        }
    } else {
        lemma_round24_again(n, 2 * unit);
    }
}

/// A multiple of the unit is not moved.
proof fn lemma_whole_multiple(q: int, unit: int)
    requires
        unit >= 1,
    ensures
        round_to(q * unit, unit) == q * unit,
{
    vstd::arithmetic::div_mod::lemma_fundamental_div_mod_converse(q * unit, unit, q, 0);
}

/// What a number is rounded to is a multiple of the unit and no further than the
/// ends of the range.
proof fn lemma_multiple_stays(n: int, unit: int)
    requires
        n >= 1,
        unit >= 1,
        n < 16777216 * unit,
        unit == 1 || 8388608 * unit <= n,
    ensures
        round_to(round_to(n, unit), unit) == round_to(n, unit),
        round_to(n, unit) <= 16777216 * unit,
        unit > 1 ==> round_to(n, unit) >= 8388608 * unit,
{
    vstd::arithmetic::div_mod::lemma_fundamental_div_mod(n, unit);
    vstd::arithmetic::div_mod::lemma_mod_bound(n, unit);
    let q = n / unit;
    assert(q < 16777216) by (nonlinear_arith)
        requires
            unit * q <= n,
            n < 16777216 * unit,
            unit >= 1,
    ;
    assert((q + 1) * unit <= 16777216 * unit && q * unit <= (q + 1) * unit) by (nonlinear_arith)
        requires
            q + 1 <= 16777216,
            unit >= 1,
    ;
    if unit > 1 {
        assert(q >= 8388608) by (nonlinear_arith)
            requires
                8388608 * unit <= n,
                n < unit * q + unit,
                unit >= 1,
        ;
        assert(q * unit >= 8388608 * unit) by (nonlinear_arith)
            requires
                q >= 8388608,
                unit >= 1,
        ;
    }
    lemma_whole_multiple(q, unit);
    lemma_whole_multiple(q + 1, unit);
}

/// Color tables are looked at chunk by chunk, up to the first one with image data
/// and to the end of the file: each table has to hold whole colors, 256 at most.
pub proof fn law_color_tables(bytes: Seq<u8>, pos: int)
    requires
        0 <= pos,
    ensures
        pos + 8 > bytes.len() ==> tables_whole_from(bytes, pos),
        ({
            let len = bytes::big32(bytes, pos);
            let kind = bytes.subrange(pos + 4, pos + 8);
            let table = kind == seq!['P' as u8, 'L' as u8, 'T' as u8, 'E' as u8];
            let data = kind == seq!['I' as u8, 'D' as u8, 'A' as u8, 'T' as u8] || kind == seq![
                'f' as u8,
                'd' as u8,
                'A' as u8,
                'T' as u8,
            ];
            &&& pos + 8 <= bytes.len() && data ==> tables_whole_from(bytes, pos)
            &&& pos + 8 <= bytes.len() && table && !(exists|n: int|
                0 <= n <= 256 && len == #[trigger] (3 * n)) ==> !tables_whole_from(bytes, pos)
            &&& pos + 8 <= bytes.len() && !data && (!table || exists|n: int|
                0 <= n <= 256 && len == #[trigger] (3 * n)) ==> (tables_whole_from(bytes, pos)
                <==> tables_whole_from(bytes, pos + 12 + len))
        }),
{
    let len = bytes::big32(bytes, pos);
    let kind = bytes.subrange(pos + 4, pos + 8);
    if len % 3 == 0 && 0 <= len <= 768 {
        assert(len == 3 * (len / 3));
    }
    if kind == seq!['P' as u8, 'L' as u8, 'T' as u8, 'E' as u8] {
        assert(kind[0] == 'P' as u8);
    }
}

/// The header is the first chunk that is not empty.
pub proof fn law_header_is_the_first_chunk(bytes: Seq<u8>, pos: int, k: int)
    requires
        0 <= pos,
        0 <= k,
    ensures
        ({
            let h = header_at(bytes, pos);
            &&& h >= pos
            &&& h + 8 > bytes.len() || bytes::big32(bytes, h) > 0
            &&& pos + 12 * k < h ==> bytes::big32(bytes, pos + 12 * k) == 0
            &&& (h - pos) % 12 == 0
        }),
    decreases vstd::math::max(bytes.len() - pos, 0),
{
    if pos + 8 <= bytes.len() && bytes::big32(bytes, pos) <= 0 {
        law_header_is_the_first_chunk(bytes, pos + 12, if k > 0 {
            k - 1
        } else {
            0
        });
    }
}

/// An image is too large exactly if its bytes could not be addressed, and tables
/// count for images with colors by number only.
pub proof fn law_headers_decide(bytes: Seq<u8>, h: int)
    requires
        h == header_at(bytes, 8),
        h + 18 <= bytes.len(),
    ensures
        size_fits(bytes) <==> bytes::big32(bytes, h + 8) * bytes::big32(bytes, h + 12)
            <= isize::MAX as int / 4,
        bytes[h + 17] != 3 ==> tables_whole(bytes),
        bytes[h + 17] == 3 ==> (tables_whole(bytes) <==> tables_whole_from(bytes, 8)),
{
}

} // verus!
