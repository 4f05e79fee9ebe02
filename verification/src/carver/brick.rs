//! The colours of a brick as bytes.
//!
//! A payload is a four-byte word, the palette and the palette numbers. The
//! highest byte of the word is the number of colours, the next two are the
//! number of solid voxels, and the lowest holds the flags.

use vstd::prelude::*;

use crate::bytes;
use crate::carver::grid::VoxelGrid;
use crate::carver::palette::Palette;

verus! {

/// The first word of a payload. Counts that do not fit lose their high bits.
pub open spec fn meta_word(colors: nat, solid: nat, emissive: bool) -> int {
    (colors % 256) * 16777216 + (solid % 65536) * 256 + if emissive {
        1int
    } else {
        0int
    }
}

/// The bytes of a palette.
pub open spec fn palette_bytes(palette: Seq<Seq<u8>>) -> Seq<u8> {
    bytes::rows(palette, |c: Seq<u8>| c)
}

/// The payload of a palette and palette numbers.
pub open spec fn payload_bytes(palette: Seq<Seq<u8>>, indices: Seq<u8>, emissive: bool) -> Seq<u8> {
    bytes::le32(meta_word(palette.len(), indices.len(), emissive)) + palette_bytes(palette)
        + indices
}

/// Appends the bytes of a palette.
fn append_palette(out: &mut Vec<u8>, palette: &Palette)
    ensures
        final(out)@ == old(out)@ + palette_bytes(palette@),
{
    let ghost head = out@;
    let ghost f = |c: Seq<u8>| c;
    let mut i: usize = 0;
    assert(out@ =~= head + bytes::rows(palette@.take(0), f));
    while i < palette.colors.len()
        invariant
            i <= palette.colors@.len(),
            f == (|c: Seq<u8>| c),
            out@ == head + bytes::rows(palette@.take(i as int), f),
        decreases palette.colors.len() - i,
    {
        let ghost before = out@;
        bytes::append(out, &palette.colors[i]);
        proof {
            assert(out@ =~= before + palette@[i as int]);
            bytes::lemma_rows_push(palette@, f, i as int);
            assert(out@ =~= head + bytes::rows(palette@.take(i + 1), f));
        }
        i += 1;
    }
    assert(palette@.take(palette@.len() as int) =~= palette@);
}

/// The payload of a palette and palette numbers.
pub(crate) fn payload(palette: &Palette, indices: &Vec<u8>, emissive: bool) -> (r: Vec<u8>)
    ensures
        r@ == payload_bytes(palette@, indices@, emissive),
{
    let colors: u32 = (palette.colors.len() % 256) as u32;
    let solid: u32 = (indices.len() % 65536) as u32;
    let flags: u32 = if emissive {
        1
    } else {
        0
    };
    let mut out: Vec<u8> = Vec::new();
    bytes::append_le32(&mut out, colors * 16777216 + solid * 256 + flags);
    append_palette(&mut out, palette);
    bytes::append(&mut out, indices.as_slice());
    assert(out@ =~= payload_bytes(palette@, indices@, emissive));
    out
}

/// The colours of a brick, without flags.
pub fn serialize_color_data(grid: &VoxelGrid) -> (r: Vec<u8>)
    ensures
        r@ == payload_bytes(grid.palette@, grid.color_indices@, false),
{
    payload(&grid.palette, &grid.color_indices, false)
}

/// Payloads with and without the flag of giving off light differ in the lowest
/// bit of their first byte only.
pub proof fn law_flag_is_one_bit(palette: Seq<Seq<u8>>, indices: Seq<u8>)
    ensures
        ({
            let dark = payload_bytes(palette, indices, false);
            let lit = payload_bytes(palette, indices, true);
            &&& dark.len() == lit.len()
            &&& dark[0] == 0
            &&& lit[0] == 1
            &&& forall|i: int| 0 < i < dark.len() ==> #[trigger] dark[i] == lit[i]
        }),
{
    let dark = payload_bytes(palette, indices, false);
    let lit = payload_bytes(palette, indices, true);
    let m = meta_word(palette.len(), indices.len(), false);
    let n = meta_word(palette.len(), indices.len(), true);
    assert(n == m + 1);
    assert(m % 256 == 0);
    assert(n / 256 == m / 256 && n / 65536 == m / 65536 && n / 16777216 == m / 16777216);
    assert(forall|i: int| 0 < i < 4 ==> #[trigger] bytes::le32(m)[i] == bytes::le32(n)[i]);
}

/// The bytes of the first word of a payload.
proof fn lemma_meta_bytes(colors: nat, solid: nat, emissive: bool)
    requires
        colors <= 256,
        solid < 65536,
    ensures
        ({
            let word = bytes::le32(meta_word(colors, solid, emissive));
            &&& word[0] == if emissive {
                1
            } else {
                0int
            }
            &&& word[1] + 256 * word[2] == solid
            &&& word[3] == if colors == 256 {
                0
            } else {
                colors as int
            }
        }),
{
    let m = meta_word(colors, solid, emissive);
    let flag = if emissive {
        1int
    } else {
        0int
    };
    let c = (colors % 256) as int;
    assert(m == 16777216 * c + 256 * solid + flag);
    assert(m % 256 == flag);
    assert(m / 256 == 65536 * c + solid);
    assert(m / 65536 == 256 * c + solid / 256);
    assert(m / 16777216 == c);
}

/// A payload starts with the flag, the number of solid voxels, the low byte first,
/// and the number of colours; the colours follow, four bytes each, and at the end
/// stand the palette numbers.
pub proof fn law_payload_layout(palette: Seq<Seq<u8>>, indices: Seq<u8>, emissive: bool, i: int)
    requires
        palette.len() <= 256,
        indices.len() < 65536,
        forall|k: int| 0 <= k < palette.len() ==> #[trigger] palette[k].len() == 4,
        0 <= i < palette.len(),
    ensures
        ({
            let data = payload_bytes(palette, indices, emissive);
            &&& data.len() == 4 + 4 * palette.len() + indices.len()
            &&& data[0] == if emissive {
                1
            } else {
                0int
            }
            &&& data[1] + 256 * data[2] == indices.len()
            &&& data[3] == if palette.len() == 256 {
                0
            } else {
                palette.len() as int
            }
            &&& data.subrange(4 + 4 * i, 8 + 4 * i) == palette[i]
            &&& data.skip(4 + 4 * palette.len() as int) == indices
        }),
{
    let data = payload_bytes(palette, indices, emissive);
    let flat = palette_bytes(palette);
    let f = |c: Seq<u8>| c;
    let n = palette.len() as int;
    let m = meta_word(palette.len(), indices.len(), emissive);
    lemma_meta_bytes(palette.len(), indices.len(), emissive);
    bytes::lemma_rows_width(palette, f, 4);
    let head = palette.take(i);
    assert forall|k: int| 0 <= k < head.len() implies f(#[trigger] head[k]).len() == 4 by {
        assert(head[k] == palette[k]);
    }
    bytes::lemma_rows_width(head, f, 4);
    bytes::lemma_rows_at(palette, f, i);
    let word = bytes::le32(m);
    assert(word.len() == 4 && flat.len() == 4 * n);
    assert(data == word + flat + indices);
    assert(data.subrange(4 + 4 * i, 8 + 4 * i) =~= flat.subrange(4 * i, 4 * i + 4));
    assert(data.skip(4 + 4 * n) =~= indices);
    assert(data[0] == word[0] && data[1] == word[1] && data[2] == word[2] && data[3] == word[3]);
}

} // verus!
