//! The materials file of a bake.
//!
//! It holds `MATL`, the number of block states and of payloads, a two-byte
//! payload number per block state, a four-byte offset per payload, and the
//! payloads. Block states with the same payload share it. Payload numbers start
//! at 1, and 0 stands for no colours.

use vstd::prelude::*;

use crate::bytes;
use crate::carver::brick;
use crate::carver::geometry;
use crate::carver::geometry::zeros;
use crate::carver::grid;
use crate::carver::grid::VoxelGrid;

verus! {

/// How many payloads there can be.
pub const MAX_PAYLOADS: usize = 65535;

/// The payload of a grid.
pub open spec fn payload_of(grid: VoxelGrid) -> Seq<u8> {
    brick::payload_bytes(grid.palette@, grid.color_indices@, grid.is_emissive)
}

/// Whether a grid has colours.
pub open spec fn is_colored(grid: VoxelGrid) -> bool {
    grid.color_indices@.len() > 0
}

/// The payloads of the given results, each where it first occurs.
pub open spec fn payloads_of(results: Seq<(u16, VoxelGrid)>) -> Seq<Seq<u8>>
    decreases results.len(),
{
    if results.len() == 0 {
        seq![]
    } else {
        let before = payloads_of(results.drop_last());
        let grid = results.last().1;
        if !is_colored(grid) || before.contains(payload_of(grid)) {
            before
        } else {
            before.push(payload_of(grid))
        }
    }
}

/// The last of the results with colours for a block state.
pub open spec fn last_colored(results: Seq<(u16, VoxelGrid)>, id: int) -> Option<int>
    decreases results.len(),
{
    if results.len() == 0 {
        None
    } else if results.last().0 == id && is_colored(results.last().1) {
        Some(results.len() - 1)
    } else {
        last_colored(results.drop_last(), id)
    }
}

/// The payload number of a block state.
pub open spec fn color_id(results: Seq<(u16, VoxelGrid)>, id: int) -> u16 {
    match last_colored(results, id) {
        Some(k) => (payloads_of(results).index_of(payload_of(results[k].1)) + 1) as u16,
        None => 0,
    }
}

/// The payload numbers of all block states.
pub open spec fn color_ids(results: Seq<(u16, VoxelGrid)>, count: nat) -> Seq<u16> {
    Seq::new(count, |id: int| color_id(results, id))
}

/// Whether there is a number left for a payload wherever a result needs one.
pub open spec fn payload_numbers_last(results: Seq<(u16, VoxelGrid)>) -> bool {
    forall|i: int|
        #![trigger results[i]]
        0 <= i < results.len() && is_colored(results[i].1) ==> payloads_of(results.take(i)).len()
            < MAX_PAYLOADS
}

/// Where payload `k` starts, with the lengths as far as they fit four bytes.
pub open spec fn payload_start(payloads: Seq<Seq<u8>>, k: int) -> int
    decreases k,
{
    if k <= 0 {
        0
    } else {
        payload_start(payloads, k - 1) + payloads[k - 1].len() as int % 4294967296
    }
}

/// Where the payloads start.
pub open spec fn payload_starts(payloads: Seq<Seq<u8>>) -> Seq<u32> {
    Seq::new(payloads.len(), |k: int| payload_start(payloads, k) as u32)
}

/// Whether results can be written: payload numbers and offsets fit their fields.
pub open spec fn materials_fit(results: Seq<(u16, VoxelGrid)>) -> bool {
    &&& payload_numbers_last(results)
    &&& payload_start(payloads_of(results), payloads_of(results).len() as int) <= u32::MAX
}

/// The payloads one after the other.
pub open spec fn payload_data(payloads: Seq<Seq<u8>>) -> Seq<u8> {
    bytes::rows(payloads, |p: Seq<u8>| p)
}

/// The magic bytes of a materials file.
pub open spec fn materials_magic() -> Seq<u8> {
    seq![0x4Du8, 0x41u8, 0x54u8, 0x4Cu8]
}

/// The materials file of the given results, for `count` block states.
pub open spec fn materials_bytes(results: Seq<(u16, VoxelGrid)>, count: nat) -> Seq<u8> {
    materials_magic() + bytes::le32(count as int) + bytes::le32(payloads_of(results).len() as int)
        + bytes::flat16(color_ids(results, count)) + bytes::flat32(
        payload_starts(payloads_of(results)),
    ) + payload_data(payloads_of(results))
}

/// Payloads are stored once.
pub proof fn law_payloads_distinct(results: Seq<(u16, VoxelGrid)>)
    ensures
        payloads_of(results).no_duplicates(),
    decreases results.len(),
{
    if results.len() > 0 {
        law_payloads_distinct(results.drop_last());
    }
}

/// The payloads of the first results come first.
proof fn lemma_payloads_grow(results: Seq<(u16, VoxelGrid)>, n: int)
    requires
        0 <= n <= results.len(),
    ensures
        payloads_of(results.take(n)).len() <= payloads_of(results).len(),
        forall|i: int|
            0 <= i < payloads_of(results.take(n)).len() ==> #[trigger] payloads_of(
                results.take(n),
            )[i] == payloads_of(results)[i],
    decreases results.len(),
{
    if n == results.len() {
        assert(results.take(n) =~= results);
    } else {
        let front = results.drop_last();
        assert(front.take(n) =~= results.take(n));
        lemma_payloads_grow(front, n);
    }
}

/// Where numbers last, there are no more payloads than numbers.
proof fn lemma_payload_count(results: Seq<(u16, VoxelGrid)>)
    requires
        payload_numbers_last(results),
    ensures
        payloads_of(results).len() <= MAX_PAYLOADS,
    decreases results.len(),
{
    if results.len() > 0 {
        let last = results.len() - 1;
        let front = results.drop_last();
        assert(results.take(last) =~= front);
        assert(is_colored(results[last].1) ==> payloads_of(results.take(last)).len()
            < MAX_PAYLOADS);
        assert forall|i: int|
            #![trigger front[i]]
            0 <= i < front.len() && is_colored(front[i].1) implies payloads_of(front.take(i)).len()
            < MAX_PAYLOADS by {
            assert(front.take(i) =~= results.take(i));
            assert(results[i] == front[i]);
        }
        lemma_payload_count(front);
    }
}

/// Every result with colours has a payload.
proof fn lemma_result_has_payload(results: Seq<(u16, VoxelGrid)>, k: int)
    requires
        0 <= k < results.len(),
        is_colored(results[k].1),
    ensures
        payloads_of(results).contains(payload_of(results[k].1)),
{
    let upto = results.take(k + 1);
    let p = payload_of(results[k].1);
    assert(upto.last() == results[k]);
    assert(payloads_of(upto).contains(p)) by {
        let before = payloads_of(upto.drop_last());
        if !before.contains(p) {
            assert(payloads_of(upto)[before.len() as int] == p);
        }
    }
    lemma_payloads_grow(results, k + 1);
    let i = choose|i: int| 0 <= i < payloads_of(upto).len() && payloads_of(upto)[i] == p;
    assert(payloads_of(results)[i] == p);
}

/// In a list without repetition a payload has one place.
proof fn lemma_payload_place(payloads: Seq<Seq<u8>>, p: Seq<u8>, i: int)
    requires
        payloads.no_duplicates(),
        0 <= i < payloads.len(),
        payloads[i] == p,
    ensures
        payloads.index_of(p) == i,
{
    let k = payloads.index_of(p);
    assert(payloads.contains(p));
    assert(0 <= k < payloads.len() && payloads[k] == p);
}

/// The last result with colours for a block state is one of the results, has
/// colours and belongs to it.
pub proof fn lemma_last_colored(results: Seq<(u16, VoxelGrid)>, id: int)
    ensures
        last_colored(results, id) matches Some(k) ==> 0 <= k < results.len() && results[k].0 == id
            && is_colored(results[k].1),
    decreases results.len(),
{
    if results.len() > 0 && !(results.last().0 == id && is_colored(results.last().1)) {
        lemma_last_colored(results.drop_last(), id);
    }
}

/// One more result with colours changes the payload number of its own block
/// state only, and one without changes none.
proof fn lemma_color_ids_step(results: Seq<(u16, VoxelGrid)>, n: int, count: nat)
    requires
        0 <= n < results.len(),
        results[n].0 < count,
    ensures
        color_ids(results.take(n + 1), count) == if is_colored(results[n].1) {
            color_ids(results.take(n), count).update(
                results[n].0 as int,
                (payloads_of(results.take(n + 1)).index_of(payload_of(results[n].1)) + 1) as u16,
            )
        } else {
            color_ids(results.take(n), count)
        },
{
    let before = results.take(n);
    let after = results.take(n + 1);
    assert(after.drop_last() =~= before);
    assert(after.last() == results[n]);
    let id = results[n].0 as int;
    let next = if is_colored(results[n].1) {
        color_ids(before, count).update(
            id,
            (payloads_of(after).index_of(payload_of(results[n].1)) + 1) as u16,
        )
    } else {
        color_ids(before, count)
    };
    law_payloads_distinct(after);
    law_payloads_distinct(before);
    lemma_payloads_grow(after, n);
    assert(after.take(n) =~= before);
    assert forall|j: int| 0 <= j < count implies color_ids(after, count)[j] == next[j] by {
        if !(j == id && is_colored(results[n].1)) {
            assert(last_colored(after, j) == last_colored(before, j));
            if let Some(k) = last_colored(before, j) {
                lemma_last_colored(before, j);
                lemma_result_has_payload(before, k);
                let p = payload_of(before[k].1);
                let i = payloads_of(before).index_of(p);
                assert(0 <= i < payloads_of(before).len() && payloads_of(before)[i] == p);
                assert(payloads_of(after)[i] == payloads_of(before)[i]);
                lemma_payload_place(payloads_of(after), p, i);
            }
        }
    }
    assert(color_ids(after, count) =~= next);
}

/// Payload numbers are 0 exactly for block states without colours, and number
/// the payloads from 1 on.
pub proof fn law_color_numbers(results: Seq<(u16, VoxelGrid)>, id: int)
    requires
        materials_fit(results),
    ensures
        color_id(results, id) == 0 <==> last_colored(results, id) is None,
        color_id(results, id) <= payloads_of(results).len(),
        last_colored(results, id) matches Some(k) ==> payloads_of(results)[color_id(results, id)
            - 1] == payload_of(results[k].1),
{
    lemma_payload_count(results);
    if let Some(k) = last_colored(results, id) {
        lemma_last_colored(results, id);
        lemma_result_has_payload(results, k);
        let payloads = payloads_of(results);
        let number = payloads.index_of(payload_of(results[k].1));
        assert(0 <= number < payloads.len() && payloads[number] == payload_of(results[k].1));
    }
}

/// The payload of a grid: its colours and the flag of giving off light.
pub fn serialize_payload(grid: &VoxelGrid) -> (r: Vec<u8>)
    ensures
        r@ == payload_of(*grid),
{
    brick::payload(&grid.palette, &grid.color_indices, grid.is_emissive)
}

/// Payloads by their bytes.
pub open spec fn byte_views(payloads: Seq<Vec<u8>>) -> Seq<Seq<u8>> {
    payloads.map_values(|p: Vec<u8>| p@)
}

/// Whether two byte strings are the same.
fn same_bytes(a: &Vec<u8>, b: &Vec<u8>) -> (r: bool)
    ensures
        r == (a@ == b@),
{
    if a.len() != b.len() {
        return false;
    }
    let mut i: usize = 0;
    while i < a.len()
        invariant
            i <= a@.len(),
            a@.len() == b@.len(),
            forall|j: int| 0 <= j < i ==> a@[j] == b@[j],
        decreases a.len() - i,
    {
        if a[i] != b[i] {
            return false;
        }
        i += 1;
    }
    assert(a@ =~= b@);
    true
}

/// The place of a payload.
fn find_payload(payloads: &Vec<Vec<u8>>, payload: &Vec<u8>) -> (r: Option<usize>)
    ensures
        match r {
            Some(i) => i < payloads@.len() && byte_views(payloads@)[i as int] == payload@,
            None => !byte_views(payloads@).contains(payload@),
        },
{
    let mut i: usize = 0;
    while i < payloads.len()
        invariant
            i <= payloads@.len(),
            forall|j: int| 0 <= j < i ==> #[trigger] byte_views(payloads@)[j] != payload@,
        decreases payloads.len() - i,
    {
        if same_bytes(&payloads[i], payload) {
            return Some(i);
        }
        i += 1;
    }
    None
}

/// The payloads of results and the payload number of every block state, if
/// the numbers last.
#[verifier::rlimit(30)]
fn collect_payloads(results: &[(u16, VoxelGrid)], count: usize) -> (r: Option<
    (Vec<Vec<u8>>, Vec<u16>),
>)
    requires
        geometry::ids_below(results@, count as nat),
    ensures
        match r {
            Some((payloads, ids)) => {
                &&& payload_numbers_last(results@)
                &&& byte_views(payloads@) == payloads_of(results@)
                &&& ids@ == color_ids(results@, count as nat)
            },
            None => !payload_numbers_last(results@),
        },
{
    let mut payloads: Vec<Vec<u8>> = Vec::new();
    let mut ids: Vec<u16> = zeros(count);
    proof {
        assert(results@.take(0) =~= Seq::<(u16, VoxelGrid)>::empty());
        assert(byte_views(payloads@) =~= payloads_of(results@.take(0)));
        assert(ids@ =~= color_ids(results@.take(0), count as nat));
    }
    let mut n: usize = 0;
    while n < results.len()
        invariant
            n <= results@.len(),
            geometry::ids_below(results@, count as nat),
            forall|i: int|
                #![trigger results@[i]]
                0 <= i < n && is_colored(results@[i].1) ==> payloads_of(results@.take(i)).len()
                    < MAX_PAYLOADS,
            byte_views(payloads@) == payloads_of(results@.take(n as int)),
            ids@ == color_ids(results@.take(n as int), count as nat),
        decreases results.len() - n,
    {
        let ghost upto = results@.take(n + 1);
        let ghost before = payloads@;
        proof {
            assert(upto.drop_last() =~= results@.take(n as int));
            assert(upto.last() == results@[n as int]);
            lemma_color_ids_step(results@, n as int, count as nat);
            law_payloads_distinct(upto);
        }
        let id: u16 = results[n].0;
        let grid = &results[n].1;
        if grid.color_indices.len() > 0 {
            if payloads.len() >= MAX_PAYLOADS {
                assert(is_colored(results@[n as int].1));
                return None;
            }
            let payload = serialize_payload(grid);
            let found = find_payload(&payloads, &payload);
            let ghost wanted = payload@;
            let place: usize = match found {
                Some(i) => {
                    assert(byte_views(before).contains(wanted));
                    i
                },
                None => {
                    let next: usize = payloads.len();
                    payloads.push(payload);
                    assert(byte_views(payloads@) =~= byte_views(before).push(wanted));
                    next
                },
            };
            proof {
                assert(byte_views(payloads@) == payloads_of(upto));
                assert(payloads_of(upto)[place as int] == wanted);
                lemma_payload_place(payloads_of(upto), wanted, place as int);
                assert((id as int) < count);
            }
            ids.set(id as usize, (place + 1) as u16);
        }
        n += 1;
    }
    assert(results@.take(results@.len() as int) =~= results@);
    Some((payloads, ids))
}

/// The starts only grow.
proof fn lemma_starts_grow(payloads: Seq<Seq<u8>>, m: int, n: int)
    requires
        m <= n,
    ensures
        0 <= payload_start(payloads, m) <= payload_start(payloads, n),
    decreases n,
{
    if n > 0 {
        if m < n {
            lemma_starts_grow(payloads, m, n - 1);
        } else {
            lemma_starts_grow(payloads, n - 1, n - 1);
        }
    }
}

/// Where the payloads start, if the offsets fit.
fn collect_starts(payloads: &Vec<Vec<u8>>) -> (r: Option<Vec<u32>>)
    ensures
        match r {
            Some(starts) => {
                &&& payload_start(byte_views(payloads@), payloads@.len() as int) <= u32::MAX
                &&& starts@ == payload_starts(byte_views(payloads@))
            },
            None => payload_start(byte_views(payloads@), payloads@.len() as int) > u32::MAX,
        },
{
    let ghost views = byte_views(payloads@);
    let mut starts: Vec<u32> = Vec::new();
    let mut off: u32 = 0;
    let mut k: usize = 0;
    while k < payloads.len()
        invariant
            k <= payloads@.len(),
            views == byte_views(payloads@),
            off == payload_start(views, k as int),
            starts@ == Seq::new(k as nat, |j: int| payload_start(views, j) as u32),
        decreases payloads.len() - k,
    {
        starts.push(off);
        assert(starts@ =~= Seq::new((k + 1) as nat, |j: int| payload_start(views, j) as u32));
        let len: u32 = (payloads[k].len() as u64 % 4294967296) as u32;
        proof {
            assert(views[k as int] == payloads@[k as int]@);
            lemma_starts_grow(views, k + 1, views.len() as int);
        }
        if off > 0xffff_ffff - len {
            return None;
        }
        off = off + len;
        k += 1;
    }
    assert(starts@ =~= payload_starts(views));
    Some(starts)
}

/// Appends the payloads.
fn append_payloads(out: &mut Vec<u8>, payloads: &Vec<Vec<u8>>)
    ensures
        final(out)@ == old(out)@ + payload_data(byte_views(payloads@)),
{
    let ghost head = out@;
    let ghost views = byte_views(payloads@);
    let ghost f = |p: Seq<u8>| p;
    let mut i: usize = 0;
    assert(out@ =~= head + bytes::rows(views.take(0), f));
    while i < payloads.len()
        invariant
            i <= payloads@.len(),
            views == byte_views(payloads@),
            f == (|p: Seq<u8>| p),
            out@ == head + bytes::rows(views.take(i as int), f),
        decreases payloads.len() - i,
    {
        let ghost before = out@;
        bytes::append(out, payloads[i].as_slice());
        proof {
            assert(out@ =~= before + views[i as int]);
            bytes::lemma_rows_push(views, f, i as int);
            assert(out@ =~= head + bytes::rows(views.take(i + 1), f));
        }
        i += 1;
    }
    assert(views.take(views.len() as int) =~= views);
}

/// The materials file of the given results, for `count` block states. Only the
/// low bits of numbers that do not fit their fields are stored.
pub fn write_materials(results: &[(u16, VoxelGrid)], count: usize) -> (r: Vec<u8>)
    requires
        geometry::ids_below(results@, count as nat),
        materials_fit(results@),
    ensures
        r@ == materials_bytes(results@, count as nat),
{
    let mut out: Vec<u8> = Vec::new();
    if let Some((payloads, ids)) = collect_payloads(results, count) {
        if let Some(starts) = collect_starts(&payloads) {
            let magic: [u8; 4] = [0x4Du8, 0x41u8, 0x54u8, 0x4Cu8];
            bytes::append(&mut out, &magic);
            assert(out@ =~= materials_magic());
            bytes::append_low32(&mut out, count);
            bytes::append_low32(&mut out, payloads.len());
            bytes::append_all_le16(&mut out, &ids);
            bytes::append_all_le32(&mut out, starts.as_slice());
            append_payloads(&mut out, &payloads);
            assert(out@ =~= materials_bytes(results@, count as nat));
        }
    }
    out
}

/// Whether the payload numbers and offsets of results fit their fields.
pub fn can_write_materials(results: &[(u16, VoxelGrid)], count: usize) -> (r: bool)
    requires
        geometry::ids_below(results@, count as nat),
    ensures
        r == materials_fit(results@),
{
    match collect_payloads(results, count) {
        Some((payloads, _)) => collect_starts(&payloads).is_some(),
        None => false,
    }
}

/// The parts of a grid that fit together are small.
proof fn lemma_payload_size(grid: VoxelGrid)
    requires
        grid.wf(),
    ensures
        payload_of(grid).len() <= 8192,
        is_colored(grid) ==> grid.palette@.len() >= 1,
        grid.color_indices@.len() <= 4096,
{
    let f = |c: Seq<u8>| c;
    let pal = grid.palette@;
    assert forall|i: int| 0 <= i < pal.len() implies f(#[trigger] pal[i]).len() == 4 by {
        assert(pal[i] == grid.palette.colors@[i]@);
    }
    bytes::lemma_rows_width(pal, f, 4);
    grid::lemma_count_bound(grid.bitmask@, 4096);
    if is_colored(grid) {
        assert(grid.color_indices@[0] < pal.len());
    }
}

/// Payloads of grids that fit together are small.
proof fn lemma_payload_sizes(results: Seq<(u16, VoxelGrid)>)
    requires
        forall|i: int| 0 <= i < results.len() ==> (#[trigger] results[i]).1.wf(),
    ensures
        forall|k: int|
            0 <= k < payloads_of(results).len() ==> #[trigger] payloads_of(results)[k].len() <= 8192,
    decreases results.len(),
{
    if results.len() > 0 {
        let front = results.drop_last();
        let last = results[results.len() - 1];
        assert forall|i: int| 0 <= i < front.len() implies (#[trigger] front[i]).1.wf() by {
            assert(front[i] == results[i]);
        }
        lemma_payload_sizes(front);
        assert(last.1.wf());
        lemma_payload_size(last.1);
        assert forall|k: int| 0 <= k < payloads_of(results).len() implies #[trigger] payloads_of(
            results,
        )[k].len() <= 8192 by {
            if k < payloads_of(front).len() {
                assert(payloads_of(results)[k] == payloads_of(front)[k]);
            }
        }
    }
}

/// Small payloads start where those before them end.
proof fn lemma_starts_are_lengths(payloads: Seq<Seq<u8>>, k: int)
    requires
        0 <= k <= payloads.len(),
        forall|j: int| 0 <= j < payloads.len() ==> #[trigger] payloads[j].len() <= 8192,
    ensures
        payload_start(payloads, k) == payload_data(payloads.take(k)).len(),
    decreases k,
{
    let f = |p: Seq<u8>| p;
    if k > 0 {
        lemma_starts_are_lengths(payloads, k - 1);
        bytes::lemma_rows_push(payloads, f, k - 1);
        assert(payloads[k - 1].len() <= 8192);
    } else {
        assert(payloads.take(0) =~= Seq::<Seq<u8>>::empty());
    }
}

/// Whether a file has the parts of the materials file of results where they belong.
pub open spec fn has_parts(data: Seq<u8>, results: Seq<(u16, VoxelGrid)>, count: nat) -> bool {
    let payloads = payloads_of(results);
    let base = 12 + 2 * count as int;
    let start = base + 4 * payloads.len() as int;
    let blob = payload_data(payloads);
    &&& data.take(4) == materials_magic()
    &&& data.subrange(4, 8) == bytes::le32(count as int)
    &&& data.subrange(8, 12) == bytes::le32(payloads.len() as int)
    &&& data.subrange(12, base) == bytes::flat16(color_ids(results, count))
    &&& data.subrange(base, start) == bytes::flat32(payload_starts(payloads))
    &&& data.subrange(start, start + blob.len()) == blob
    &&& data.len() == start + blob.len()
}

/// A materials file has its parts where they belong.
pub proof fn lemma_materials_layout(results: Seq<(u16, VoxelGrid)>, count: nat)
    ensures
        has_parts(materials_bytes(results, count), results, count),
{
    let data = materials_bytes(results, count);
    let payloads = payloads_of(results);
    let base = 12 + 2 * count as int;
    let start = base + 4 * payloads.len() as int;
    let blob = payload_data(payloads);
    bytes::lemma_flat16_len(color_ids(results, count));
    bytes::lemma_flat32_len(payload_starts(payloads));
    assert(data.take(4) =~= materials_magic());
    assert(data.subrange(4, 8) =~= bytes::le32(count as int));
    assert(data.subrange(8, 12) =~= bytes::le32(payloads.len() as int));
    assert(data.subrange(12, base) =~= bytes::flat16(color_ids(results, count)));
    assert(data.subrange(base, start) =~= bytes::flat32(payload_starts(payloads)));
    assert(data.subrange(start, start + blob.len()) =~= blob);
}

/// Where the payload of a block state stands among the payloads.
pub proof fn lemma_payload_found(results: Seq<(u16, VoxelGrid)>, id: int)
    requires
        materials_fit(results),
        forall|i: int| 0 <= i < results.len() ==> (#[trigger] results[i]).1.wf(),
    ensures
        payloads_of(results).len() <= MAX_PAYLOADS,
        match last_colored(results, id) {
            None => color_id(results, id) == 0,
            Some(k) => {
                let payloads = payloads_of(results);
                let number = color_id(results, id) as int - 1;
                let at = payload_starts(payloads)[number] as int;
                let payload = payload_of(results[k].1);
                &&& 0 <= k < results.len()
                &&& 0 <= number < payloads.len()
                &&& at + payload.len() <= payload_data(payloads).len()
                &&& payload_data(payloads).subrange(at, at + payload.len()) == payload
                &&& 1 <= results[k].1.palette@.len()
                &&& 1 <= results[k].1.color_indices@.len() <= 4096
            },
        },
{
    let payloads = payloads_of(results);
    lemma_payload_count(results);
    law_payloads_distinct(results);
    if let Some(k) = last_colored(results, id) {
        lemma_last_colored(results, id);
        lemma_result_has_payload(results, k);
        let payload = payload_of(results[k].1);
        let number = payloads.index_of(payload);
        assert(0 <= number < payloads.len() && payloads[number] == payload);
        lemma_payload_sizes(results);
        lemma_starts_are_lengths(payloads, number);
        lemma_starts_grow(payloads, number, payloads.len() as int);
        let f = |p: Seq<u8>| p;
        bytes::lemma_rows_at(payloads, f, number);
        assert(results[k].1.wf());
        lemma_payload_size(results[k].1);
    }
}

/// Of several results with colours for a block state the last one counts, and
/// results without colours or for other block states do not matter to it.
pub proof fn law_last_colors_count(
    results: Seq<(u16, VoxelGrid)>,
    result: (u16, VoxelGrid),
    id: int,
)
    ensures
        last_colored(seq![], id) is None,
        result.1.color_indices@.len() > 0 ==> last_colored(results.push(result), result.0 as int)
            == Some(results.len() as int),
        id != result.0 || result.1.color_indices@.len() == 0 ==> last_colored(
            results.push(result),
            id,
        ) == last_colored(results, id),
{
    assert(results.push(result).drop_last() =~= results);
}

/// Payloads are numbered in the order in which they first occur: one more result
/// adds its payload at the end if it has colours and the payload is a new one, and
/// otherwise changes nothing.
pub proof fn law_new_payloads_come_last(results: Seq<(u16, VoxelGrid)>, result: (u16, VoxelGrid))
    ensures
        ({
            let before = payloads_of(results);
            let after = payloads_of(results.push(result));
            let own = payload_of(result.1);
            &&& result.1.color_indices@.len() == 0 || before.contains(own) ==> after == before
            &&& result.1.color_indices@.len() > 0 && !before.contains(own) ==> after
                == before.push(own)
            &&& payloads_of(seq![]) == Seq::<Seq<u8>>::empty()
        }),
{
    assert(results.push(result).drop_last() =~= results);
}

/// Payloads stand one behind the other: the first starts at nothing, and every
/// other one where the one before it ends.
pub proof fn law_payloads_follow_each_other(payloads: Seq<Seq<u8>>, k: int)
    requires
        0 <= k < payloads.len(),
        payloads[k].len() < 4294967296,
    ensures
        payload_start(payloads, 0) == 0,
        payload_start(payloads, k + 1) == payload_start(payloads, k) + payloads[k].len(),
{
}

/// The file starts with its name.
pub proof fn law_materials_are_named(results: Seq<(u16, VoxelGrid)>, count: nat)
    ensures
        materials_bytes(results, count).take(4) == seq![
            'M' as u8,
            'A' as u8,
            'T' as u8,
            'L' as u8,
        ],
{
    assert(materials_bytes(results, count).take(4) =~= materials_magic());
}

/// There is room exactly while every number of a payload fits two bytes with the
/// zero left for what has no colors: as long as there are fewer than 65535
/// payloads, the next result fits in.
pub proof fn law_room_for_payloads(results: Seq<(u16, VoxelGrid)>, next: (u16, VoxelGrid))
    requires
        payload_numbers_last(results),
    ensures
        payloads_of(results).len() < 65535 ==> payload_numbers_last(results.push(next)),
        !is_colored(next.1) ==> payload_numbers_last(results.push(next)),
        payloads_of(results).len() >= 65535 && is_colored(next.1) ==> !payload_numbers_last(
            results.push(next),
        ),
{
    let all = results.push(next);
    let n = results.len() as int;
    assert(all.take(n) =~= results);
    assert(all[n] == next);
    if payloads_of(results).len() < 65535 || !is_colored(next.1) {
        assert forall|i: int|
            #![trigger all[i]]
            0 <= i < all.len() && is_colored(all[i].1) implies payloads_of(all.take(i)).len()
            < MAX_PAYLOADS by {
            if i < n {
                assert(all[i] == results[i]);
                assert(all.take(i) =~= results.take(i));
            }
        }
    }
}

/// All payloads fit as long as their numbers do and their bytes can be counted in
/// four bytes.
pub proof fn law_materials_fit(results: Seq<(u16, VoxelGrid)>)
    requires
        payload_numbers_last(results),
    ensures
        payload_data(payloads_of(results)).len() < 4294967296 ==> materials_fit(results),
{
    let payloads = payloads_of(results);
    lemma_start_is_length(payloads, payloads.len() as int);
    assert(payloads.take(payloads.len() as int) =~= payloads);
}

/// Payloads start no farther than the bytes before them reach.
proof fn lemma_start_is_length(payloads: Seq<Seq<u8>>, k: int)
    requires
        0 <= k <= payloads.len(),
    ensures
        payload_start(payloads, k) <= payload_data(payloads.take(k)).len(),
    decreases k,
{
    if k > 0 {
        lemma_start_is_length(payloads, k - 1);
        assert(payloads.take(k).drop_last() =~= payloads.take(k - 1));
        assert(payloads.take(k).last() == payloads[k - 1]);
        let n = payloads[k - 1].len() as int;
        assert(n % 4294967296 <= n);
    }
}

} // verus!
