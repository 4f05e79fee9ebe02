//! The geometry file of a bake.
//!
//! It holds `GEOM`, the number of block states and of shapes, a two-byte shape
//! number per block state, and the shapes: an eight-byte coarse bitmask and a
//! bitmask of 512 bytes each. Block states with the same bitmask share a shape,
//! and shape 0 is the empty one.

use vstd::prelude::*;

use crate::bytes;
use crate::carver::grid;
use crate::carver::grid::VoxelGrid;

verus! {

/// A coarse bitmask and a bitmask.
pub type Shape = (u64, Seq<u32>);

/// A bitmask without voxels.
pub open spec fn no_voxels() -> Seq<u32> {
    Seq::new(128, |i: int| 0u32)
}

/// Shapes by their contents.
pub open spec fn shape_views(shapes: Seq<(u64, [u32; 128])>) -> Seq<Shape> {
    shapes.map_values(|s: (u64, [u32; 128])| (s.0, s.1@))
}

/// Whether one of the shapes has a bitmask.
pub open spec fn has_shape(shapes: Seq<Shape>, mask: Seq<u32>) -> bool {
    exists|i: int| 0 <= i < shapes.len() && (#[trigger] shapes[i]).1 == mask
}

/// The number of the shape with a bitmask.
pub open spec fn shape_number(shapes: Seq<Shape>, mask: Seq<u32>) -> int {
    choose|i: int| 0 <= i < shapes.len() && (#[trigger] shapes[i]).1 == mask
}

/// The shapes of the given results: the empty one, and every further bitmask
/// where it first occurs.
pub open spec fn shapes_of(results: Seq<(u16, VoxelGrid)>) -> Seq<Shape>
    decreases results.len(),
{
    if results.len() == 0 {
        seq![(0u64, no_voxels())]
    } else {
        let before = shapes_of(results.drop_last());
        let grid = results.last().1;
        if has_shape(before, grid.bitmask@) {
            before
        } else {
            before.push((grid.coarse, grid.bitmask@))
        }
    }
}

/// The last of the results for a block state.
pub open spec fn last_result(results: Seq<(u16, VoxelGrid)>, id: int) -> Option<int>
    decreases results.len(),
{
    if results.len() == 0 {
        None
    } else if results.last().0 == id {
        Some(results.len() - 1)
    } else {
        last_result(results.drop_last(), id)
    }
}

/// The shape number of a block state, as far as it fits two bytes.
pub open spec fn shape_id(results: Seq<(u16, VoxelGrid)>, id: int) -> u16 {
    match last_result(results, id) {
        Some(k) => (shape_number(shapes_of(results), results[k].1.bitmask@) % 65536) as u16,
        None => 0,
    }
}

/// The shape numbers of all block states.
pub open spec fn shape_ids(results: Seq<(u16, VoxelGrid)>, count: nat) -> Seq<u16> {
    Seq::new(count, |id: int| shape_id(results, id))
}

/// The bytes of a shape.
pub open spec fn shape_bytes(shape: Shape) -> Seq<u8> {
    bytes::le64(shape.0 as int) + bytes::flat32(shape.1)
}

/// The bytes of shapes.
pub open spec fn shape_table(shapes: Seq<Shape>) -> Seq<u8> {
    bytes::rows(shapes, |s: Shape| shape_bytes(s))
}

/// The magic bytes of a geometry file.
pub open spec fn geometry_magic() -> Seq<u8> {
    seq![0x47u8, 0x45u8, 0x4Fu8, 0x4Du8]
}

/// The geometry file of the given results, for `count` block states.
pub open spec fn geometry_bytes(results: Seq<(u16, VoxelGrid)>, count: nat) -> Seq<u8> {
    geometry_magic() + bytes::le32(count as int) + bytes::le32(shapes_of(results).len() as int)
        + bytes::flat16(shape_ids(results, count)) + shape_table(shapes_of(results))
}

/// Whether every result belongs to one of `count` block states.
pub open spec fn ids_below(results: Seq<(u16, VoxelGrid)>, count: nat) -> bool {
    forall|i: int| 0 <= i < results.len() ==> (#[trigger] results[i]).0 < count
}

/// Whether no bitmask occurs twice.
pub open spec fn shapes_distinct(shapes: Seq<Shape>) -> bool {
    forall|i: int, j: int|
        0 <= i < j < shapes.len() ==> (#[trigger] shapes[i]).1 != (#[trigger] shapes[j]).1
}

/// Shapes are stored once: no two have the same bitmask, and the first is the
/// empty one.
pub proof fn law_shapes_distinct(results: Seq<(u16, VoxelGrid)>)
    ensures
        shapes_distinct(shapes_of(results)),
        shapes_of(results).len() >= 1,
        shapes_of(results)[0] == (0u64, no_voxels()),
    decreases results.len(),
{
    if results.len() > 0 {
        law_shapes_distinct(results.drop_last());
        let before = shapes_of(results.drop_last());
        let mask = results.last().1.bitmask@;
        if !has_shape(before, mask) {
            assert forall|i: int| 0 <= i < before.len() implies (#[trigger] before[i]).1 != mask by {
            }
        }
    }
}

/// The shapes of the first results come first.
proof fn lemma_shapes_grow(results: Seq<(u16, VoxelGrid)>, n: int)
    requires
        0 <= n <= results.len(),
    ensures
        shapes_of(results.take(n)).len() <= shapes_of(results).len(),
        forall|i: int|
            0 <= i < shapes_of(results.take(n)).len() ==> #[trigger] shapes_of(results.take(n))[i]
                == shapes_of(results)[i],
    decreases results.len(),
{
    if n == results.len() {
        assert(results.take(n) =~= results);
    } else {
        let front = results.drop_last();
        assert(front.take(n) =~= results.take(n));
        lemma_shapes_grow(front, n);
    }
}

/// Every result has a shape.
proof fn lemma_result_has_shape(results: Seq<(u16, VoxelGrid)>, k: int)
    requires
        0 <= k < results.len(),
    ensures
        has_shape(shapes_of(results), results[k].1.bitmask@),
{
    let upto = results.take(k + 1);
    let mask = results[k].1.bitmask@;
    assert(upto.last() == results[k]);
    assert(has_shape(shapes_of(upto), mask)) by {
        let before = shapes_of(upto.drop_last());
        if !has_shape(before, mask) {
            assert(shapes_of(upto)[before.len() as int].1 == mask);
        }
    }
    lemma_shapes_grow(results, k + 1);
    let i = choose|i: int| 0 <= i < shapes_of(upto).len() && (#[trigger] shapes_of(upto)[i]).1 == mask;
    assert(shapes_of(results)[i].1 == mask);
}

/// In a list without repetition a bitmask has one number.
proof fn lemma_shape_number(shapes: Seq<Shape>, mask: Seq<u32>, i: int)
    requires
        shapes_distinct(shapes),
        0 <= i < shapes.len(),
        shapes[i].1 == mask,
    ensures
        shape_number(shapes, mask) == i,
{
    let k = shape_number(shapes, mask);
    assert(0 <= k < shapes.len() && shapes[k].1 == mask);
}

/// Whether two bitmasks are the same.
fn same_mask(a: &[u32; 128], b: &[u32; 128]) -> (r: bool)
    ensures
        r == (a@ == b@),
{
    let mut i: usize = 0;
    while i < 128
        invariant
            i <= 128,
            forall|j: int| 0 <= j < i ==> a@[j] == b@[j],
        decreases 128 - i,
    {
        if a[i] != b[i] {
            return false;
        }
        i += 1;
    }
    assert(a@ =~= b@);
    true
}

/// The number of the shape with a bitmask.
fn find_shape(shapes: &Vec<(u64, [u32; 128])>, mask: &[u32; 128]) -> (r: Option<usize>)
    ensures
        match r {
            Some(i) => i < shapes@.len() && shape_views(shapes@)[i as int].1 == mask@,
            None => !has_shape(shape_views(shapes@), mask@),
        },
{
    let mut i: usize = 0;
    while i < shapes.len()
        invariant
            i <= shapes@.len(),
            forall|j: int| 0 <= j < i ==> (#[trigger] shape_views(shapes@)[j]).1 != mask@,
        decreases shapes.len() - i,
    {
        if same_mask(&shapes[i].1, mask) {
            return Some(i);
        }
        i += 1;
    }
    None
}

/// A list of zeros.
pub(crate) fn zeros(count: usize) -> (r: Vec<u16>)
    ensures
        r@ == Seq::new(count as nat, |i: int| 0u16),
{
    let mut r: Vec<u16> = Vec::new();
    let mut i: usize = 0;
    while i < count
        invariant
            i <= count,
            r@ == Seq::new(i as nat, |j: int| 0u16),
        decreases count - i,
    {
        r.push(0);
        i += 1;
        assert(r@ =~= Seq::new(i as nat, |j: int| 0u16));
    }
    r
}

/// One more result changes the shape number of its own block state only.
proof fn lemma_shape_ids_step(results: Seq<(u16, VoxelGrid)>, n: int, count: nat)
    requires
        0 <= n < results.len(),
        results[n].0 < count,
    ensures
        shape_ids(results.take(n + 1), count) == shape_ids(results.take(n), count).update(
            results[n].0 as int,
            (shape_number(shapes_of(results.take(n + 1)), results[n].1.bitmask@) % 65536) as u16,
        ),
{
    let before = results.take(n);
    let after = results.take(n + 1);
    assert(after.drop_last() =~= before);
    assert(after.last() == results[n]);
    let id = results[n].0 as int;
    law_shapes_distinct(after);
    law_shapes_distinct(before);
    lemma_shapes_grow(after, n);
    assert(after.take(n) =~= before);
    assert forall|j: int| 0 <= j < count implies shape_ids(after, count)[j] == shape_ids(
        before,
        count,
    ).update(
        id,
        (shape_number(shapes_of(after), results[n].1.bitmask@) % 65536) as u16,
    )[j] by {
        if j != id {
            assert(last_result(after, j) == last_result(before, j));
            if let Some(k) = last_result(before, j) {
                lemma_last_result(before, j);
                lemma_result_has_shape(before, k);
                let mask = before[k].1.bitmask@;
                let i = shape_number(shapes_of(before), mask);
                assert(0 <= i < shapes_of(before).len() && shapes_of(before)[i].1 == mask);
                assert(shapes_of(after)[i] == shapes_of(before)[i]);
                lemma_shape_number(shapes_of(after), mask, i);
            }
        }
    }
    assert(shape_ids(after, count) =~= shape_ids(before, count).update(
        id,
        (shape_number(shapes_of(after), results[n].1.bitmask@) % 65536) as u16,
    ));
}

/// The last result for a block state is one of the results, and belongs to it.
pub proof fn lemma_last_result(results: Seq<(u16, VoxelGrid)>, id: int)
    ensures
        last_result(results, id) matches Some(k) ==> 0 <= k < results.len() && results[k].0 == id,
    decreases results.len(),
{
    if results.len() > 0 && results.last().0 != id {
        lemma_last_result(results.drop_last(), id);
    }
}

/// The shapes of results and the shape number of every block state.
fn collect_shapes(results: &[(u16, VoxelGrid)], count: usize) -> (r: (
    Vec<(u64, [u32; 128])>,
    Vec<u16>,
))
    requires
        ids_below(results@, count as nat),
    ensures
        shape_views(r.0@) == shapes_of(results@),
        r.1@ == shape_ids(results@, count as nat),
{
    let mut shapes: Vec<(u64, [u32; 128])> = Vec::new();
    let empty: [u32; 128] = [0u32;128];
    shapes.push((0u64, empty));
    let mut ids: Vec<u16> = zeros(count);
    proof {
        assert(results@.take(0) =~= Seq::<(u16, VoxelGrid)>::empty());
        assert(empty@ =~= no_voxels());
        assert(shape_views(shapes@) =~= shapes_of(results@.take(0)));
        assert(ids@ =~= shape_ids(results@.take(0), count as nat));
    }
    let mut n: usize = 0;
    while n < results.len()
        invariant
            n <= results@.len(),
            ids_below(results@, count as nat),
            shape_views(shapes@) == shapes_of(results@.take(n as int)),
            ids@ == shape_ids(results@.take(n as int), count as nat),
        decreases results.len() - n,
    {
        let ghost upto = results@.take(n + 1);
        let ghost before = shapes@;
        proof {
            assert(upto.drop_last() =~= results@.take(n as int));
            assert(upto.last() == results@[n as int]);
            lemma_shape_ids_step(results@, n as int, count as nat);
            law_shapes_distinct(upto);
        }
        let id: u16 = results[n].0;
        let found = find_shape(&shapes, &results[n].1.bitmask);
        let number: usize = match found {
            Some(i) => i,
            None => {
                let next: usize = shapes.len();
                shapes.push((results[n].1.coarse, results[n].1.bitmask));
                proof {
                    assert(shape_views(shapes@) =~= shape_views(before).push(
                        (results@[n as int].1.coarse, results@[n as int].1.bitmask@),
                    ));
                }
                next
            },
        };
        proof {
            let mask = results@[n as int].1.bitmask@;
            if found is Some {
                assert(has_shape(shape_views(before), mask));
            }
            assert(shape_views(shapes@) == shapes_of(upto));
            assert(shapes_of(upto)[number as int].1 == mask);
            lemma_shape_number(shapes_of(upto), mask, number as int);
            assert((id as int) < count);
        }
        ids.set(id as usize, (number % 65536) as u16);
        n += 1;
    }
    assert(results@.take(results@.len() as int) =~= results@);
    (shapes, ids)
}

/// Appends the bytes of shapes.
fn append_shapes(out: &mut Vec<u8>, shapes: &Vec<(u64, [u32; 128])>)
    ensures
        final(out)@ == old(out)@ + shape_table(shape_views(shapes@)),
{
    let ghost head = out@;
    let ghost views = shape_views(shapes@);
    let ghost f = |s: Shape| shape_bytes(s);
    let mut i: usize = 0;
    assert(out@ =~= head + bytes::rows(views.take(0), f));
    while i < shapes.len()
        invariant
            i <= shapes@.len(),
            views == shape_views(shapes@),
            f == (|s: Shape| shape_bytes(s)),
            out@ == head + bytes::rows(views.take(i as int), f),
        decreases shapes.len() - i,
    {
        let ghost before = out@;
        bytes::append_le64(out, shapes[i].0);
        bytes::append_all_le32(out, &shapes[i].1);
        proof {
            assert(out@ =~= before + shape_bytes(views[i as int]));
            bytes::lemma_rows_push(views, f, i as int);
            assert(out@ =~= head + bytes::rows(views.take(i + 1), f));
        }
        i += 1;
    }
    assert(views.take(views.len() as int) =~= views);
}

/// The geometry file of the given results, for `count` block states. Only the
/// low bits of numbers that do not fit their fields are stored.
pub fn write_geometry(results: &[(u16, VoxelGrid)], count: usize) -> (r: Vec<u8>)
    requires
        ids_below(results@, count as nat),
    ensures
        r@ == geometry_bytes(results@, count as nat),
{
    let (shapes, ids) = collect_shapes(results, count);
    let magic: [u8; 4] = [0x47u8, 0x45u8, 0x4Fu8, 0x4Du8];
    let mut out: Vec<u8> = Vec::new();
    bytes::append(&mut out, &magic);
    assert(out@ =~= geometry_magic());
    bytes::append_low32(&mut out, count);
    bytes::append_low32(&mut out, shapes.len());
    bytes::append_all_le16(&mut out, &ids);
    append_shapes(&mut out, &shapes);
    assert(out@ =~= geometry_bytes(results@, count as nat));
    out
}

/// Every shape has 128 words.
pub proof fn lemma_shape_sizes(results: Seq<(u16, VoxelGrid)>)
    ensures
        forall|i: int|
            0 <= i < shapes_of(results).len() ==> (#[trigger] shapes_of(results)[i]).1.len() == 128,
    decreases results.len(),
{
    if results.len() > 0 {
        let front = shapes_of(results.drop_last());
        lemma_shape_sizes(results.drop_last());
        assert(results.last().1.bitmask@.len() == 128);
        assert forall|i: int| 0 <= i < shapes_of(results).len() implies (#[trigger] shapes_of(
            results,
        )[i]).1.len() == 128 by {
            if i < front.len() {
                assert(front[i].1.len() == 128);
            }
        }
    }
}

/// The shape with the bitmask of a result has a coarse bitmask that belongs to it.
pub proof fn lemma_shape_of_result(results: Seq<(u16, VoxelGrid)>, k: int)
    requires
        0 <= k < results.len(),
        forall|i: int|
            0 <= i < results.len() ==> grid::is_coarse(
                (#[trigger] results[i]).1.bitmask@,
                results[i].1.coarse,
            ),
    ensures
        ({
            let mask = results[k].1.bitmask@;
            let number = shape_number(shapes_of(results), mask);
            &&& 0 <= number < shapes_of(results).len()
            &&& shapes_of(results)[number].1 == mask
            &&& grid::is_coarse(mask, shapes_of(results)[number].0)
        }),
{
    lemma_result_has_shape(results, k);
    lemma_shapes_are_coarse(results);
}

/// The coarse bitmasks of all shapes belong to their bitmasks.
proof fn lemma_shapes_are_coarse(results: Seq<(u16, VoxelGrid)>)
    requires
        forall|i: int|
            0 <= i < results.len() ==> grid::is_coarse(
                (#[trigger] results[i]).1.bitmask@,
                results[i].1.coarse,
            ),
    ensures
        forall|i: int|
            0 <= i < shapes_of(results).len() ==> grid::is_coarse(
                (#[trigger] shapes_of(results)[i]).1,
                shapes_of(results)[i].0,
            ),
    decreases results.len(),
{
    if results.len() > 0 {
        let front = results.drop_last();
        assert forall|i: int| 0 <= i < front.len() implies grid::is_coarse(
            (#[trigger] front[i]).1.bitmask@,
            front[i].1.coarse,
        ) by {
            assert(front[i] == results[i]);
        }
        lemma_shapes_are_coarse(front);
        let last = results[results.len() - 1];
        assert(grid::is_coarse(last.1.bitmask@, last.1.coarse));
        assert forall|i: int| 0 <= i < shapes_of(results).len() implies grid::is_coarse(
            (#[trigger] shapes_of(results)[i]).1,
            shapes_of(results)[i].0,
        ) by {
            if i < shapes_of(front).len() {
                assert(shapes_of(results)[i] == shapes_of(front)[i]);
            }
        }
    } else {
        grid::lemma_zero_bits();
        assert forall|v: int| 0 <= v < 4096 implies !#[trigger] grid::is_solid(no_voxels(), v) by {
            assert(no_voxels()[v / 32] == 0u32);
        }
        assert(grid::is_coarse(no_voxels(), 0));
    }
}

/// Whether a file has the parts of the geometry file of results where they belong.
pub open spec fn has_parts(data: Seq<u8>, results: Seq<(u16, VoxelGrid)>, count: nat) -> bool {
    let base = 12 + 2 * count as int;
    let table = shape_table(shapes_of(results));
    &&& data.take(4) == geometry_magic()
    &&& data.subrange(4, 8) == bytes::le32(count as int)
    &&& data.subrange(12, base) == bytes::flat16(shape_ids(results, count))
    &&& data.subrange(base, base + table.len()) == table
    &&& table.len() == 520 * shapes_of(results).len()
    &&& data.len() == base + table.len()
}

/// A geometry file has its parts where they belong.
pub proof fn lemma_geometry_layout(results: Seq<(u16, VoxelGrid)>, count: nat)
    ensures
        has_parts(geometry_bytes(results, count), results, count),
{
    let data = geometry_bytes(results, count);
    let base = 12 + 2 * count as int;
    let shapes = shapes_of(results);
    let table = shape_table(shapes);
    let f = |s: Shape| shape_bytes(s);
    bytes::lemma_flat16_len(shape_ids(results, count));
    lemma_shape_sizes(results);
    assert forall|i: int| 0 <= i < shapes.len() implies f(#[trigger] shapes[i]).len() == 520 by {
        bytes::lemma_flat32_len(shapes[i].1);
    }
    assert(table == bytes::rows(shapes, f));
    bytes::lemma_rows_width(shapes, f, 520);
    assert(data.take(4) =~= geometry_magic());
    assert(data.subrange(4, 8) =~= bytes::le32(count as int));
    assert(data.subrange(12, base) =~= bytes::flat16(shape_ids(results, count)));
    assert(data.subrange(base, base + table.len()) =~= table);
}

/// Where a shape stands among the shapes.
pub proof fn lemma_shape_place(results: Seq<(u16, VoxelGrid)>, number: int)
    requires
        0 <= number < shapes_of(results).len(),
    ensures
        shape_table(shapes_of(results)).subrange(520 * number, 520 * number + 520) == shape_bytes(
            shapes_of(results)[number],
        ),
        shapes_of(results)[number].1.len() == 128,
        520 * number + 520 <= shape_table(shapes_of(results)).len(),
{
    let shapes = shapes_of(results);
    let f = |s: Shape| shape_bytes(s);
    lemma_shape_sizes(results);
    assert forall|i: int| 0 <= i < shapes.len() implies f(#[trigger] shapes[i]).len() == 520 by {
        bytes::lemma_flat32_len(shapes[i].1);
    }
    bytes::lemma_rows_width(shapes.take(number), f, 520);
    bytes::lemma_rows_at(shapes, f, number);
}

/// Of several results for a block state the last one counts, and results for
/// other block states do not matter to it.
pub proof fn law_last_result_counts(
    results: Seq<(u16, VoxelGrid)>,
    result: (u16, VoxelGrid),
    id: int,
)
    ensures
        last_result(seq![], id) is None,
        last_result(results.push(result), result.0 as int) == Some(results.len() as int),
        id != result.0 ==> last_result(results.push(result), id) == last_result(results, id),
{
    assert(results.push(result).drop_last() =~= results);
}

/// Shapes are numbered in the order in which they first occur: one more result
/// adds its shape at the end if it is a new one, and otherwise changes nothing.
pub proof fn law_new_shapes_come_last(results: Seq<(u16, VoxelGrid)>, result: (u16, VoxelGrid))
    ensures
        ({
            let before = shapes_of(results);
            let after = shapes_of(results.push(result));
            let known = exists|i: int|
                0 <= i < before.len() && (#[trigger] before[i]).1 == result.1.bitmask@;
            &&& known ==> after == before
            &&& !known ==> after == before.push((result.1.coarse, result.1.bitmask@))
            &&& shapes_of(seq![]) == seq![(0u64, Seq::new(128, |i: int| 0u32))]
        }),
{
    assert(results.push(result).drop_last() =~= results);
    assert(shapes_of(seq![]) =~= seq![(0u64, Seq::new(128, |i: int| 0u32))]);
}

/// The file starts with its name.
pub proof fn law_geometry_is_named(results: Seq<(u16, VoxelGrid)>, count: nat)
    ensures
        geometry_bytes(results, count).take(4) == seq![
            'G' as u8,
            'E' as u8,
            'O' as u8,
            'M' as u8,
        ],
{
    assert(geometry_bytes(results, count).take(4) =~= geometry_magic());
}

} // verus!
