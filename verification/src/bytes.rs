//! Fixed-width numbers in byte streams.

use vstd::prelude::*;

verus! {

/// The two bytes of a number, the low one first.
pub open spec fn le16(x: int) -> Seq<u8> {
    seq![(x % 256) as u8, (x / 256 % 256) as u8]
}

/// The four bytes of a number, the lowest first.
pub open spec fn le32(x: int) -> Seq<u8> {
    seq![
        (x % 256) as u8,
        (x / 256 % 256) as u8,
        (x / 65536 % 256) as u8,
        (x / 16777216 % 256) as u8,
    ]
}

/// The eight bytes of a number, the lowest first.
pub open spec fn le64(x: int) -> Seq<u8> {
    le32(x % 4294967296) + le32(x / 4294967296)
}

/// The number in the two bytes at `pos`, the low one first.
pub open spec fn num16(s: Seq<u8>, pos: int) -> int {
    s[pos] + 256 * s[pos + 1]
}

/// The number in the four bytes at `pos`, the lowest first.
pub open spec fn num32(s: Seq<u8>, pos: int) -> int {
    s[pos] + 256 * s[pos + 1] + 65536 * s[pos + 2] + 16777216 * s[pos + 3]
}

/// The number in the eight bytes at `pos`, the lowest first.
pub open spec fn num64(s: Seq<u8>, pos: int) -> int {
    num32(s, pos) + 4294967296 * num32(s, pos + 4)
}

/// The number in the four bytes at `pos`, the highest first.
pub open spec fn big32(s: Seq<u8>, pos: int) -> int {
    16777216 * s[pos] + 65536 * s[pos + 1] + 256 * s[pos + 2] + s[pos + 3]
}

/// A number by its four lowest digits in base 256.
proof fn lemma_digits(x: int)
    ensures
        x % 256 + 256 * (x / 256 % 256) + 65536 * (x / 65536 % 256) + 16777216 * (x / 16777216
            % 256) == x % 4294967296,
{
    let a = x / 256;
    let b = a / 256;
    let c = b / 256;
    let d = c / 256;
    assert(x / 65536 == b && x / 16777216 == c && x / 4294967296 == d);
    assert(x == 256 * a + x % 256);
    assert(a == 256 * b + a % 256);
    assert(b == 256 * c + b % 256);
    assert(c == 256 * d + c % 256);
    assert(x == 4294967296 * d + x % 4294967296);
}

/// What is written as two bytes reads back, up to its low 16 bits.
pub proof fn lemma_le16(s: Seq<u8>, pos: int, x: int)
    requires
        0 <= pos,
        pos + 2 <= s.len(),
        s.subrange(pos, pos + 2) == le16(x),
    ensures
        num16(s, pos) == x % 65536,
{
    let t = s.subrange(pos, pos + 2);
    assert(t[0] == s[pos] && t[1] == s[pos + 1]);
}

/// What is written as four bytes reads back, up to its low 32 bits.
pub proof fn lemma_le32(s: Seq<u8>, pos: int, x: int)
    requires
        0 <= pos,
        pos + 4 <= s.len(),
        s.subrange(pos, pos + 4) == le32(x),
    ensures
        num32(s, pos) == x % 4294967296,
{
    let t = s.subrange(pos, pos + 4);
    assert(t[0] == s[pos] && t[1] == s[pos + 1] && t[2] == s[pos + 2] && t[3] == s[pos + 3]);
    lemma_digits(x);
}

/// Two halves that are written one after the other read back.
proof fn lemma_halves(s: Seq<u8>, pos: int, low: int, high: int)
    requires
        0 <= pos,
        pos + 8 <= s.len(),
        0 <= low < 4294967296,
        0 <= high < 4294967296,
        s.subrange(pos, pos + 8) == le32(low) + le32(high),
    ensures
        num64(s, pos) == low + 4294967296 * high,
{
    let t = s.subrange(pos, pos + 8);
    assert(s.subrange(pos, pos + 4) =~= t.subrange(0, 4));
    assert(s.subrange(pos + 4, pos + 8) =~= t.subrange(4, 8));
    assert(t.subrange(0, 4) =~= le32(low));
    assert(t.subrange(4, 8) =~= le32(high));
    lemma_le32(s, pos, low);
    lemma_le32(s, pos + 4, high);
}

/// What is written as eight bytes reads back.
pub proof fn lemma_le64(s: Seq<u8>, pos: int, x: int)
    requires
        0 <= pos,
        pos + 8 <= s.len(),
        0 <= x <= u64::MAX,
        s.subrange(pos, pos + 8) == le64(x),
    ensures
        num64(s, pos) == x,
{
    let low = x % 4294967296;
    let high = x / 4294967296;
    lemma_halves(s, pos, low, high);
}

/// Appends bytes.
pub fn append(out: &mut Vec<u8>, bytes: &[u8])
    ensures
        final(out)@ == old(out)@ + bytes@,
{
    let ghost start = out@;
    out.extend_from_slice(bytes);
    assert(out@ =~= start + bytes@);
}

/// Appends a number as two bytes.
pub fn append_le16(out: &mut Vec<u8>, x: u16)
    ensures
        final(out)@ == old(out)@ + le16(x as int),
{
    let ghost start = out@;
    out.push((x % 256) as u8);
    out.push((x / 256) as u8);
    assert(out@ =~= start + le16(x as int));
}

/// Appends a number as four bytes.
pub fn append_le32(out: &mut Vec<u8>, x: u32)
    ensures
        final(out)@ == old(out)@ + le32(x as int),
{
    let ghost start = out@;
    out.push((x % 256) as u8);
    out.push((x / 256 % 256) as u8);
    out.push((x / 65536 % 256) as u8);
    out.push((x / 16777216) as u8);
    assert(out@ =~= start + le32(x as int));
}

/// Appends a number as eight bytes.
pub fn append_le64(out: &mut Vec<u8>, x: u64)
    ensures
        final(out)@ == old(out)@ + le64(x as int),
{
    let ghost start = out@;
    append_le32(out, (x % 4294967296) as u32);
    append_le32(out, (x / 4294967296) as u32);
    assert(out@ =~= start + le64(x as int));
}

/// Only the low 16 bits of a number reach its two bytes.
proof fn lemma_low16(x: int)
    requires
        0 <= x,
    ensures
        le16(x % 65536) == le16(x),
{
    assert(x % 65536 % 256 == x % 256);
    assert(x % 65536 / 256 % 256 == x / 256 % 256);
}

/// Multiples of 256 do not reach the low byte.
proof fn lemma_low8(z: int, m: int)
    ensures
        (256 * m + z) % 256 == z % 256,
{
}

/// Only the low 32 bits of a number reach its four bytes.
proof fn lemma_low32(x: int)
    requires
        0 <= x,
    ensures
        le32(x % 4294967296) == le32(x),
{
    let y = x % 4294967296;
    let q = x / 4294967296;
    assert(x == 4294967296 * q + y);
    lemma_low8(y, 16777216 * q);
    assert(x / 256 == 256 * (65536 * q) + y / 256);
    lemma_low8(y / 256, 65536 * q);
    assert(x / 65536 == 256 * (256 * q) + y / 65536);
    lemma_low8(y / 65536, 256 * q);
    assert(x / 16777216 == 256 * q + y / 16777216);
    lemma_low8(y / 16777216, q);
}

/// Appends the low 16 bits of a number as two bytes.
pub fn append_low16(out: &mut Vec<u8>, n: usize)
    ensures
        final(out)@ == old(out)@ + le16(n as int),
{
    proof {
        lemma_low16(n as int);
    }
    append_le16(out, (n % 65536) as u16);
}

/// Appends the low 32 bits of a number as four bytes.
pub fn append_low32(out: &mut Vec<u8>, n: usize)
    ensures
        final(out)@ == old(out)@ + le32(n as int),
{
    proof {
        lemma_low32(n as int);
    }
    append_le32(out, (n as u64 % 4294967296) as u32);
}

/// The number in the two bytes at `pos`.
pub fn read_le16(data: &[u8], pos: usize) -> (r: u16)
    requires
        pos + 2 <= data@.len(),
    ensures
        r == num16(data@, pos as int),
{
    data[pos] as u16 + 256 * data[pos + 1] as u16
}

/// The number in the four bytes at `pos`.
pub fn read_le32(data: &[u8], pos: usize) -> (r: u32)
    requires
        pos + 4 <= data@.len(),
    ensures
        r == num32(data@, pos as int),
{
    data[pos] as u32 + 256 * data[pos + 1] as u32 + 65536 * data[pos + 2] as u32 + 16777216
        * data[pos + 3] as u32
}

/// The number in the eight bytes at `pos`.
pub fn read_le64(data: &[u8], pos: usize) -> (r: u64)
    requires
        pos + 8 <= data@.len(),
    ensures
        r == num64(data@, pos as int),
{
    assert(data.len() == data@.len());
    read_le32(data, pos) as u64 + 4294967296 * read_le32(data, pos + 4) as u64
}

/// The number in the four bytes at `pos`, the highest first.
pub fn read_be32(data: &[u8], pos: usize) -> (r: u32)
    requires
        pos + 4 <= data@.len(),
    ensures
        r == big32(data@, pos as int),
{
    16777216 * data[pos] as u32 + 65536 * data[pos + 1] as u32 + 256 * data[pos + 2] as u32
        + data[pos + 3] as u32
}

/// A copy of the bytes from `from` up to `to`.
pub fn copy_range(data: &[u8], from: usize, to: usize) -> (r: Vec<u8>)
    requires
        from <= to <= data@.len(),
    ensures
        r@ == data@.subrange(from as int, to as int),
{
    let mut out: Vec<u8> = Vec::new();
    append(&mut out, vstd::slice::slice_subrange(data, from, to));
    assert(out@ =~= data@.subrange(from as int, to as int));
    out
}

/// The bytes of items one after the other.
pub open spec fn rows<T>(items: Seq<T>, f: spec_fn(T) -> Seq<u8>) -> Seq<u8>
    decreases items.len(),
{
    if items.len() == 0 {
        seq![]
    } else {
        rows(items.drop_last(), f) + f(items.last())
    }
}

/// One more item comes last.
pub proof fn lemma_rows_push<T>(items: Seq<T>, f: spec_fn(T) -> Seq<u8>, i: int)
    requires
        0 <= i < items.len(),
    ensures
        rows(items.take(i + 1), f) == rows(items.take(i), f) + f(items[i]),
{
    assert(items.take(i + 1).drop_last() =~= items.take(i));
}

/// An item stands behind those before it.
pub proof fn lemma_rows_at<T>(items: Seq<T>, f: spec_fn(T) -> Seq<u8>, i: int)
    requires
        0 <= i < items.len(),
    ensures
        rows(items.take(i), f).len() + f(items[i]).len() <= rows(items, f).len(),
        rows(items, f).subrange(
            rows(items.take(i), f).len() as int,
            (rows(items.take(i), f).len() + f(items[i]).len()) as int,
        ) == f(items[i]),
    decreases items.len(),
{
    let off = rows(items.take(i), f).len() as int;
    let len = f(items[i]).len() as int;
    let last = items.len() - 1;
    if i == last {
        assert(items.take(i) =~= items.drop_last());
        assert(rows(items, f).subrange(off, off + len) =~= f(items[i]));
    } else {
        let front = items.drop_last();
        assert(front.take(i) =~= items.take(i));
        lemma_rows_at(front, f, i);
        assert(rows(items, f).subrange(off, off + len) =~= rows(front, f).subrange(off, off + len));
    }
}

/// Items of one width stand at multiples of it.
pub proof fn lemma_rows_width<T>(items: Seq<T>, f: spec_fn(T) -> Seq<u8>, width: nat)
    requires
        forall|i: int| 0 <= i < items.len() ==> f(#[trigger] items[i]).len() == width,
    ensures
        rows(items, f).len() == width * items.len(),
    decreases items.len(),
{
    if items.len() > 0 {
        let front = items.drop_last();
        assert forall|i: int| 0 <= i < front.len() implies f(#[trigger] front[i]).len() == width by {
            assert(front[i] == items[i]);
        }
        lemma_rows_width(front, f, width);
        assert(f(items[items.len() - 1]).len() == width);
        assert(width * front.len() + width == width * items.len()) by (nonlinear_arith)
            requires
                front.len() + 1 == items.len(),
        ;
    } else {
        assert(width * 0 == 0) by (nonlinear_arith);
    }
}

/// Two-byte numbers one after the other.
pub open spec fn flat16(numbers: Seq<u16>) -> Seq<u8> {
    rows(numbers, |x: u16| le16(x as int))
}

/// Four-byte numbers one after the other.
pub open spec fn flat32(numbers: Seq<u32>) -> Seq<u8> {
    rows(numbers, |x: u32| le32(x as int))
}

/// Appends two-byte numbers.
pub fn append_all_le16(out: &mut Vec<u8>, numbers: &Vec<u16>)
    ensures
        final(out)@ == old(out)@ + flat16(numbers@),
{
    let ghost head = out@;
    let ghost f = |x: u16| le16(x as int);
    let mut i: usize = 0;
    assert(out@ =~= head + rows(numbers@.take(0), f));
    while i < numbers.len()
        invariant
            i <= numbers@.len(),
            f == (|x: u16| le16(x as int)),
            out@ == head + rows(numbers@.take(i as int), f),
        decreases numbers.len() - i,
    {
        append_le16(out, numbers[i]);
        proof {
            lemma_rows_push(numbers@, f, i as int);
            assert(out@ =~= head + rows(numbers@.take(i + 1), f));
        }
        i += 1;
    }
    assert(numbers@.take(numbers@.len() as int) =~= numbers@);
}

/// Appends four-byte numbers.
pub fn append_all_le32(out: &mut Vec<u8>, numbers: &[u32])
    ensures
        final(out)@ == old(out)@ + flat32(numbers@),
{
    let ghost head = out@;
    let ghost f = |x: u32| le32(x as int);
    let mut i: usize = 0;
    assert(out@ =~= head + rows(numbers@.take(0), f));
    while i < numbers.len()
        invariant
            i <= numbers@.len(),
            f == (|x: u32| le32(x as int)),
            out@ == head + rows(numbers@.take(i as int), f),
        decreases numbers.len() - i,
    {
        append_le32(out, numbers[i]);
        proof {
            lemma_rows_push(numbers@, f, i as int);
            assert(out@ =~= head + rows(numbers@.take(i + 1), f));
        }
        i += 1;
    }
    assert(numbers@.take(numbers@.len() as int) =~= numbers@);
}

/// A two-byte number reads back from a list.
pub proof fn lemma_flat16_at(data: Seq<u8>, base: int, numbers: Seq<u16>, i: int)
    requires
        0 <= base,
        base + 2 * numbers.len() <= data.len(),
        data.subrange(base, base + 2 * numbers.len()) == flat16(numbers),
        0 <= i < numbers.len(),
    ensures
        num16(data, base + 2 * i) == numbers[i],
{
    let f = |x: u16| le16(x as int);
    let all = data.subrange(base, base + 2 * numbers.len());
    assert(flat16(numbers) == rows(numbers, f));
    lemma_rows_at(numbers, f, i);
    lemma_rows_width(numbers.take(i), f, 2);
    assert(data.subrange(base + 2 * i, base + 2 * i + 2) =~= all.subrange(2 * i, 2 * i + 2));
    lemma_le16(data, base + 2 * i, numbers[i] as int);
}

/// A list of two-byte numbers takes up two bytes for each.
pub proof fn lemma_flat16_len(numbers: Seq<u16>)
    ensures
        flat16(numbers).len() == 2 * numbers.len(),
{
    lemma_rows_width(numbers, |x: u16| le16(x as int), 2);
}

/// A four-byte number reads back from a list.
pub proof fn lemma_flat32_at(data: Seq<u8>, base: int, numbers: Seq<u32>, i: int)
    requires
        0 <= base,
        base + 4 * numbers.len() <= data.len(),
        data.subrange(base, base + 4 * numbers.len()) == flat32(numbers),
        0 <= i < numbers.len(),
    ensures
        num32(data, base + 4 * i) == numbers[i],
{
    let f = |x: u32| le32(x as int);
    let all = data.subrange(base, base + 4 * numbers.len());
    assert(flat32(numbers) == rows(numbers, f));
    lemma_rows_at(numbers, f, i);
    lemma_rows_width(numbers.take(i), f, 4);
    assert(data.subrange(base + 4 * i, base + 4 * i + 4) =~= all.subrange(4 * i, 4 * i + 4));
    lemma_le32(data, base + 4 * i, numbers[i] as int);
}

/// A list of four-byte numbers takes up four bytes for each.
pub proof fn lemma_flat32_len(numbers: Seq<u32>)
    ensures
        flat32(numbers).len() == 4 * numbers.len(),
{
    lemma_rows_width(numbers, |x: u32| le32(x as int), 4);
}

/// Numbers are written with the lowest byte first: the first byte is what is left
/// by 256, and the others are those of the number without it.
pub proof fn law_lowest_byte_first(x: int, b: u8)
    requires
        0 <= x,
    ensures
        le16(256 * x + b).len() == 2,
        le32(256 * x + b).len() == 4,
        le64(256 * x + b).len() == 8,
        le16(256 * x + b)[0] == b,
        le32(256 * x + b)[0] == b,
        le64(256 * x + b)[0] == b,
        le16(256 * x + b)[1] == le16(x)[0],
        forall|i: int| 0 <= i < 3 ==> le32(256 * x + b)[i + 1] == #[trigger] le32(x)[i],
        forall|i: int| 0 <= i < 7 ==> le64(256 * x + b)[i + 1] == #[trigger] le64(x)[i],
{
    let y = 256 * x + b;
    assert(y % 256 == b && y / 256 == x);
    assert(y / 65536 == x / 256 && y / 16777216 == x / 65536);
    let low = y % 4294967296;
    let high = y / 4294967296;
    let xl = x % 4294967296;
    let xh = x / 4294967296;
    assert(x == 4294967296 * xh + xl);
    let t = xl / 16777216;
    let r = xl % 16777216;
    assert(xl == 16777216 * t + r && 0 <= t < 256);
    assert(y == 4294967296 * (256 * xh + t) + 256 * r + b);
    assert(low == 256 * r + b && high == 256 * xh + t);
    assert(low % 256 == b && low / 256 == r && low / 65536 == r / 256 && low / 16777216 == r
        / 65536);
    assert(r % 256 == xl % 256 && r / 256 % 256 == xl / 256 % 256 && r / 65536 % 256 == xl / 65536
        % 256);
    assert(high % 256 == t && high / 256 == xh && high / 65536 == xh / 256 && high / 16777216
        == xh / 65536);
    assert(xl / 16777216 % 256 == t);
}

/// Numbers are read digit by digit, from the end that holds the highest byte.
pub proof fn law_bytes_are_digits(s: Seq<u8>, pos: int)
    ensures
        num16(s, pos) == 256 * s[pos + 1] + s[pos],
        num32(s, pos) == 256 * (256 * (256 * s[pos + 3] + s[pos + 2]) + s[pos + 1]) + s[pos],
        num64(s, pos) == 4294967296 * num32(s, pos + 4) + num32(s, pos),
        big32(s, pos) == 256 * (256 * (256 * s[pos] + s[pos + 1]) + s[pos + 2]) + s[pos + 3],
{
}

/// Lists of numbers are written number by number.
pub proof fn law_lists_are_written_in_order(halves: Seq<u16>, h: u16, words: Seq<u32>, w: u32)
    ensures
        flat16(seq![]) == Seq::<u8>::empty(),
        flat16(halves.push(h)) == flat16(halves) + le16(h as int),
        flat32(seq![]) == Seq::<u8>::empty(),
        flat32(words.push(w)) == flat32(words) + le32(w as int),
{
    assert(halves.push(h).drop_last() =~= halves);
    assert(words.push(w).drop_last() =~= words);
}

} // verus!
