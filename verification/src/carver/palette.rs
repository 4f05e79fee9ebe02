//! The colour palette of a brick.

use vstd::prelude::*;

verus! {

/// The colours of a brick by number.
pub struct Palette {
    pub colors: Vec<[u8; 4]>,
}

/// The largest palette that a one-byte number can index.
pub const MAX_COLORS: usize = 256;

/// How far two colours are apart, without regard to alpha.
pub open spec fn distance(a: Seq<u8>, b: Seq<u8>) -> int {
    (a[0] - b[0]) * (a[0] - b[0]) + (a[1] - b[1]) * (a[1] - b[1]) + (a[2] - b[2]) * (a[2] - b[2])
}

/// Whether entry `i` is the first of the palette entries nearest to a colour.
pub open spec fn is_nearest(palette: Seq<Seq<u8>>, rgba: Seq<u8>, i: int) -> bool {
    &&& 0 <= i < palette.len()
    &&& forall|j: int|
        #![trigger palette[j]]
        0 <= j < palette.len() ==> distance(rgba, palette[i]) <= distance(rgba, palette[j])
    &&& forall|j: int|
        #![trigger palette[j]]
        0 <= j < i ==> distance(rgba, palette[i]) < distance(rgba, palette[j])
}

/// The first of the palette entries nearest to a colour, or zero in an empty palette.
pub open spec fn nearest_index(palette: Seq<Seq<u8>>, rgba: Seq<u8>) -> int {
    if palette.len() == 0 {
        0
    } else {
        choose|i: int| is_nearest(palette, rgba, i)
    }
}

/// The palette once a colour was asked for: with the colour, if there was room for it.
pub open spec fn with_color(palette: Seq<Seq<u8>>, rgba: Seq<u8>) -> Seq<Seq<u8>> {
    if palette.contains(rgba) || palette.len() >= MAX_COLORS {
        palette
    } else {
        palette.push(rgba)
    }
}

/// The number that a palette gives a colour: that of the colour itself, or
/// of the nearest one once the palette is full.
pub open spec fn color_index(palette: Seq<Seq<u8>>, rgba: Seq<u8>) -> int {
    let after = with_color(palette, rgba);
    if after.contains(rgba) {
        after.index_of(rgba)
    } else {
        nearest_index(palette, rgba)
    }
}

/// The palette after asking for colours one after the other.
pub open spec fn with_colors(palette: Seq<Seq<u8>>, colors: Seq<Seq<u8>>) -> Seq<Seq<u8>>
    decreases colors.len(),
{
    if colors.len() == 0 {
        palette
    } else {
        with_color(with_colors(palette, colors.drop_last()), colors.last())
    }
}

/// The number that colour `i` gets when colours are asked for one after the other.
pub open spec fn index_in_order(palette: Seq<Seq<u8>>, colors: Seq<Seq<u8>>, i: int) -> int {
    color_index(with_colors(palette, colors.take(i)), colors[i])
}

/// Whether a palette holds no colour twice and fits one-byte numbers.
pub open spec fn palette_ok(palette: Seq<Seq<u8>>) -> bool {
    palette.no_duplicates() && palette.len() <= MAX_COLORS
}

/// Two nearest entries are the same.
pub proof fn lemma_nearest_unique(palette: Seq<Seq<u8>>, rgba: Seq<u8>, i: int)
    requires
        is_nearest(palette, rgba, i),
    ensures
        nearest_index(palette, rgba) == i,
{
    let k = nearest_index(palette, rgba);
    assert(is_nearest(palette, rgba, k));
    if k < i {
        assert(distance(rgba, palette[i]) < distance(rgba, palette[k]));
    } else if i < k {
        assert(distance(rgba, palette[k]) < distance(rgba, palette[i]));
    }
}

/// The square of the difference of two colours.
fn square_apart(a: u8, b: u8) -> (r: u64)
    ensures
        r == (a - b) * (a - b),
        r <= 65025,
{
    let d: i32 = a as i32 - b as i32;
    assert(0 <= d * d <= 65025) by (nonlinear_arith)
        requires
            -255 <= d <= 255,
    ;
    (d * d) as u64
}

impl View for Palette {
    type V = Seq<Seq<u8>>;

    open spec fn view(&self) -> Seq<Seq<u8>> {
        self.colors@.map_values(|c: [u8; 4]| c@)
    }
}

impl Default for Palette {
    /// The empty palette.
    fn default() -> (r: Palette)
        ensures
            r@ == Seq::<Seq<u8>>::empty(),
            r.wf(),
    {
        let r = Palette { colors: Vec::new() };
        assert(r@ =~= Seq::<Seq<u8>>::empty());
        r
    }
}

impl Palette {
    /// Whether the palette holds no colour twice and fits one-byte numbers.
    pub open spec fn wf(&self) -> bool {
        palette_ok(self@)
    }

    /// The number of a colour. A new colour is added while there is room.
    pub fn get_or_insert(&mut self, rgba: [u8; 4]) -> (r: u8)
        requires
            old(self).wf(),
        ensures
            final(self).wf(),
            final(self)@ == with_color(old(self)@, rgba@),
            r == color_index(old(self)@, rgba@),
    {
        let ghost before = self@;
        let mut i: usize = 0;
        while i < self.colors.len()
            invariant
                self@ == before,
                palette_ok(before),
                i <= self.colors@.len(),
                forall|j: int| 0 <= j < i ==> #[trigger] before[j] != rgba@,
            decreases self.colors.len() - i,
        {
            let c = self.colors[i];
            assert(before[i as int] == c@);
            if c[0] == rgba[0] && c[1] == rgba[1] && c[2] == rgba[2] && c[3] == rgba[3] {
                proof {
                    assert(c@ =~= rgba@);
                    assert(before.contains(rgba@));
                    let k = before.index_of(rgba@);
                    assert(before[k] == rgba@ && 0 <= k < before.len());
                }
                return i as u8;
            }
            i += 1;
        }
        assert(!before.contains(rgba@));
        if self.colors.len() < MAX_COLORS {
            let idx: u8 = self.colors.len() as u8;
            self.colors.push(rgba);
            proof {
                let after = before.push(rgba@);
                assert(self@ =~= after);
                assert(after[before.len() as int] == rgba@);
                let k = after.index_of(rgba@);
                assert(after.contains(rgba@));
                assert(0 <= k < after.len() && after[k] == rgba@);
            }
            idx
        } else {
            proof {
                lemma_nearest_exists(before, rgba@);
            }
            self.nearest(rgba)
        }
    }

    /// The number of the first of the entries nearest to a colour, as far as it
    /// fits a byte.
    pub fn nearest(&self, rgba: [u8; 4]) -> (r: u8)
        ensures
            r == nearest_index(self@, rgba@) % 256,
    {
        (self.nearest_position(rgba) % 256) as u8
    }

    /// The place of the first of the entries nearest to a colour.
    pub(crate) fn nearest_position(&self, rgba: [u8; 4]) -> (r: usize)
        ensures
            r == nearest_index(self@, rgba@),
    {
        let ghost all = self@;
        let mut best: usize = 0;
        let mut best_dist: u64 = u64::MAX;
        let mut i: usize = 0;
        while i < self.colors.len()
            invariant
                all == self@,
                i <= self.colors@.len(),
                i == 0 ==> best == 0 && best_dist == u64::MAX,
                i > 0 ==> is_nearest(all.take(i as int), rgba@, best as int),
                i > 0 ==> best_dist == distance(rgba@, all[best as int]),
            decreases self.colors.len() - i,
        {
            let c = self.colors[i];
            assert(all[i as int] == c@);
            let d: u64 = square_apart(rgba[0], c[0]) + square_apart(rgba[1], c[1]) + square_apart(
                rgba[2],
                c[2],
            );
            assert(d == distance(rgba@, c@));
            let ghost seen = all.take(i as int);
            let ghost next = all.take(i + 1);
            assert(forall|j: int| 0 <= j < i ==> next[j] == #[trigger] seen[j]);
            assert(next[i as int] == c@);
            if d < best_dist {
                best_dist = d;
                best = i;
                proof {
                    assert forall|j: int| #![trigger next[j]] 0 <= j < i implies distance(
                        rgba@,
                        next[i as int],
                    ) < distance(rgba@, next[j]) by {
                        assert(next[j] == seen[j]);
                    }
                }
            } else {
                proof {
                    assert forall|j: int| #![trigger next[j]] 0 <= j < next.len() implies distance(
                        rgba@,
                        next[best as int],
                    ) <= distance(rgba@, next[j]) by {
                        if j < i {
                            assert(next[j] == seen[j]);
                        }
                    }
                    assert forall|j: int| #![trigger next[j]] 0 <= j < best implies distance(
                        rgba@,
                        next[best as int],
                    ) < distance(rgba@, next[j]) by {
                        assert(next[j] == seen[j]);
                    }
                }
            }
            assert(is_nearest(next, rgba@, best as int));
            i += 1;
        }
        proof {
            assert(all.take(all.len() as int) =~= all);
            if all.len() > 0 {
                lemma_nearest_unique(all, rgba@, best as int);
            }
        }
        best
    }
}

/// One of the entries of a palette is nearest to a colour.
pub proof fn lemma_nearest_exists(palette: Seq<Seq<u8>>, rgba: Seq<u8>) -> (i: int)
    requires
        palette.len() > 0,
    ensures
        is_nearest(palette, rgba, i),
        nearest_index(palette, rgba) == i,
    decreases palette.len(),
{
    let last = palette.len() - 1;
    let front = palette.drop_last();
    if last == 0 {
        assert(is_nearest(palette, rgba, 0));
        lemma_nearest_unique(palette, rgba, 0);
        0
    } else {
        let b = lemma_nearest_exists(front, rgba);
        assert(forall|j: int| 0 <= j < last ==> palette[j] == #[trigger] front[j]);
        let i = if distance(rgba, palette[last]) < distance(rgba, palette[b]) {
            last
        } else {
            b
        };
        assert forall|j: int| #![trigger palette[j]] 0 <= j < palette.len() implies distance(
            rgba,
            palette[i],
        ) <= distance(rgba, palette[j]) by {
            if j < last {
                assert(palette[j] == front[j]);
            }
        }
        assert forall|j: int| #![trigger palette[j]] 0 <= j < i implies distance(rgba, palette[i])
            < distance(rgba, palette[j]) by {
            assert(palette[j] == front[j]);
        }
        assert(is_nearest(palette, rgba, i));
        lemma_nearest_unique(palette, rgba, i);
        i
    }
}

/// Asking for one colour keeps a palette in order and its entries in place,
/// and gives a number of the palette.
pub proof fn law_palette_step(palette: Seq<Seq<u8>>, rgba: Seq<u8>)
    requires
        palette_ok(palette),
    ensures
        palette_ok(with_color(palette, rgba)),
        palette.is_prefix_of(with_color(palette, rgba)),
        0 <= color_index(palette, rgba) < with_color(palette, rgba).len(),
        with_color(palette, rgba).contains(rgba) ==> with_color(palette, rgba)[color_index(
            palette,
            rgba,
        )] == rgba,
        with_color(palette, rgba).len() < MAX_COLORS ==> with_color(palette, rgba).contains(rgba),
{
    let after = with_color(palette, rgba);
    if palette.contains(rgba) {
        let k = after.index_of(rgba);
        assert(0 <= k < after.len() && after[k] == rgba);
    } else if palette.len() < MAX_COLORS {
        assert(after[palette.len() as int] == rgba);
        let k = after.index_of(rgba);
        assert(0 <= k < after.len() && after[k] == rgba);
    } else {
        let k = lemma_nearest_exists(palette, rgba);
    }
}

/// Asking for colours one after the other keeps a palette in order and its
/// entries in place.
pub proof fn law_palette_grows(palette: Seq<Seq<u8>>, colors: Seq<Seq<u8>>)
    requires
        palette_ok(palette),
    ensures
        palette_ok(with_colors(palette, colors)),
        palette.is_prefix_of(with_colors(palette, colors)),
    decreases colors.len(),
{
    if colors.len() > 0 {
        let front = with_colors(palette, colors.drop_last());
        law_palette_grows(palette, colors.drop_last());
        law_palette_step(front, colors.last());
        assert(palette =~= with_colors(palette, colors).take(palette.len() as int)) by {
            assert(palette =~= front.take(palette.len() as int));
        }
    } else {
        assert(palette =~= palette.take(palette.len() as int));
    }
}

/// A palette holds what it held before and what it was asked for, and nothing else.
pub proof fn lemma_only_asked_for(palette: Seq<Seq<u8>>, colors: Seq<Seq<u8>>, c: Seq<u8>)
    requires
        with_colors(palette, colors).contains(c),
    ensures
        palette.contains(c) || colors.contains(c),
    decreases colors.len(),
{
    if colors.len() > 0 {
        let front = colors.drop_last();
        let mid = with_colors(palette, front);
        let k = choose|k: int|
            0 <= k < with_colors(palette, colors).len() && with_colors(palette, colors)[k] == c;
        if k < mid.len() {
            assert(mid[k] == c);
            lemma_only_asked_for(palette, front, c);
            if front.contains(c) {
                let j = choose|j: int| 0 <= j < front.len() && front[j] == c;
                assert(colors[j] == c);
            }
        } else {
            assert(colors[colors.len() - 1] == c);
        }
    }
}

/// Colours without a double are no more than those they are taken from.
proof fn lemma_no_more(colors: Seq<Seq<u8>>, from: Seq<Seq<u8>>)
    requires
        colors.no_duplicates(),
        forall|i: int| 0 <= i < colors.len() ==> from.contains(#[trigger] colors[i]),
    ensures
        colors.len() <= from.len(),
{
    colors.unique_seq_to_set();
    from.lemma_cardinality_of_set();
    vstd::seq_lib::seq_to_set_is_finite(from);
    assert(colors.to_set().subset_of(from.to_set())) by {
        assert forall|c: Seq<u8>| colors.to_set().contains(c) implies from.to_set().contains(
            c,
        ) by {
            let i = choose|i: int| 0 <= i < colors.len() && colors[i] == c;
            assert(from.contains(colors[i]));
        }
    }
    vstd::set_lib::lemma_len_subset(colors.to_set(), from.to_set());
}

/// A palette that is asked for colours out of at most 256 holds every one of them.
pub proof fn law_palette_holds_all(colors: Seq<Seq<u8>>, from: Seq<Seq<u8>>, i: int)
    requires
        from.len() <= MAX_COLORS,
        forall|j: int| 0 <= j < colors.len() ==> from.contains(#[trigger] colors[j]),
        0 <= i < colors.len(),
    ensures
        with_colors(seq![], colors).contains(colors[i]),
    decreases colors.len(),
{
    let front = colors.drop_last();
    let last = colors.last();
    let mid = with_colors(seq![], front);
    let all = with_colors(seq![], colors);
    law_palette_grows(seq![], front);
    law_palette_step(mid, last);
    assert(forall|j: int| 0 <= j < front.len() ==> front[j] == #[trigger] colors[j]);
    if i < front.len() {
        law_palette_holds_all(front, from, i);
        let k = choose|k: int| 0 <= k < mid.len() && mid[k] == front[i];
        assert(all[k] == colors[i]);
    } else if !mid.contains(last) && mid.len() >= MAX_COLORS {
        let more = mid.push(last);
        assert forall|k: int| 0 <= k < more.len() implies from.contains(#[trigger] more[k]) by {
            if k < mid.len() {
                assert(mid.contains(mid[k]));
                lemma_only_asked_for(seq![], front, mid[k]);
                let j = choose|j: int| 0 <= j < front.len() && front[j] == mid[k];
                assert(from.contains(colors[j]));
            } else {
                assert(from.contains(colors[i]));
            }
        }
        assert(more.no_duplicates()) by {
            assert forall|k: int, m: int|
                0 <= k < more.len() && 0 <= m < more.len() && k != m implies more[k]
                != more[m] by {
                if k == mid.len() {
                    assert(mid.contains(mid[m]));
                } else if m == mid.len() {
                    assert(mid.contains(mid[k]));
                }
            }
        }
        lemma_no_more(more, from);
    } else if !mid.contains(last) {
        assert(all[mid.len() as int] == last);
    }
}

/// A later palette extends an earlier one.
proof fn lemma_earlier_palette(palette: Seq<Seq<u8>>, colors: Seq<Seq<u8>>, n: int)
    requires
        palette_ok(palette),
        0 <= n <= colors.len(),
    ensures
        with_colors(palette, colors.take(n)).is_prefix_of(with_colors(palette, colors)),
        with_colors(palette, colors.take(n)).len() >= MAX_COLORS ==> with_colors(
            palette,
            colors.take(n),
        ) == with_colors(palette, colors),
    decreases colors.len(),
{
    let early = with_colors(palette, colors.take(n));
    if n == colors.len() {
        assert(colors.take(n) =~= colors);
        assert(early =~= early.take(early.len() as int));
    } else {
        let front = colors.drop_last();
        assert(front.take(n) =~= colors.take(n));
        lemma_earlier_palette(palette, front, n);
        law_palette_grows(palette, front);
        law_palette_step(with_colors(palette, front), colors.last());
        let mid = with_colors(palette, front);
        let late = with_colors(palette, colors);
        assert(early =~= mid.take(early.len() as int));
        assert(mid =~= late.take(mid.len() as int));
        assert(early =~= late.take(early.len() as int));
    }
}

/// Every colour gets a number of the final palette. Where the final palette
/// holds the colour, it is the colour's own number, and it holds every colour
/// asked for as long as it is not full.
pub proof fn law_palette_is_faithful(palette: Seq<Seq<u8>>, colors: Seq<Seq<u8>>, i: int)
    requires
        palette_ok(palette),
        0 <= i < colors.len(),
    ensures
        0 <= index_in_order(palette, colors, i) < with_colors(palette, colors).len() <= MAX_COLORS,
        with_colors(palette, colors).contains(colors[i]) ==> with_colors(
            palette,
            colors,
        )[index_in_order(palette, colors, i)] == colors[i],
        with_colors(palette, colors).len() < MAX_COLORS ==> with_colors(palette, colors).contains(
            colors[i],
        ),
{
    let early = with_colors(palette, colors.take(i));
    let next = with_colors(palette, colors.take(i + 1));
    let late = with_colors(palette, colors);
    assert(colors.take(i + 1).drop_last() =~= colors.take(i));
    assert(colors.take(i + 1).last() == colors[i]);
    law_palette_grows(palette, colors.take(i));
    law_palette_step(early, colors[i]);
    law_palette_grows(palette, colors);
    lemma_earlier_palette(palette, colors, i + 1);
    assert(next == with_color(early, colors[i]));
    let k = index_in_order(palette, colors, i);
    assert(next =~= late.take(next.len() as int));
    assert(late[k] == next[k]);
    if next.contains(colors[i]) {
        let j = choose|j: int| 0 <= j < next.len() && next[j] == colors[i];
        assert(late[j] == colors[i]);
    }
}

/// Asking for the entries of a palette in order gives the palette back.
pub proof fn law_palette_rebuilds(palette: Seq<Seq<u8>>)
    requires
        palette_ok(palette),
    ensures
        with_colors(seq![], palette) == palette,
    decreases palette.len(),
{
    if palette.len() > 0 {
        let front = palette.drop_last();
        law_palette_rebuilds(front);
        let last = palette.len() - 1;
        assert(!front.contains(palette.last())) by {
            if front.contains(palette.last()) {
                let i = choose|i: int| 0 <= i < front.len() && front[i] == palette.last();
                assert(palette[i] == palette[last]);
            }
        }
        assert(front.push(palette.last()) =~= palette);
    } else {
        assert(palette =~= Seq::<Seq<u8>>::empty());
    }
}

/// What squares are like.
proof fn lemma_square(x: int)
    ensures
        x * x >= 0,
        x * x == 0 <==> x == 0,
        (-x) * (-x) == x * x,
{
    assert(x * x >= 0) by (nonlinear_arith);
    assert(x != 0 ==> x * x > 0) by (nonlinear_arith);
    assert((-x) * (-x) == x * x) by (nonlinear_arith);
}

/// Two colors are as far apart one way as the other, and not at all exactly where
/// they differ in alpha alone.
pub proof fn law_distance_is_of_colors(a: Seq<u8>, b: Seq<u8>)
    ensures
        distance(a, b) == distance(b, a),
        distance(a, b) >= 0,
        distance(a, b) == 0 <==> a[0] == b[0] && a[1] == b[1] && a[2] == b[2],
{
    lemma_square(a[0] - b[0]);
    lemma_square(a[1] - b[1]);
    lemma_square(a[2] - b[2]);
    assert(b[0] - a[0] == -(a[0] - b[0]));
    assert(b[1] - a[1] == -(a[1] - b[1]));
    assert(b[2] - a[2] == -(a[2] - b[2]));
}

/// How far two colors are apart adds up: where they differ in one of the three
/// colors it is the square of that difference, and in more it is the sum of these.
pub proof fn law_distance_is_of_squares(a: Seq<u8>, b: Seq<u8>, c: int, d: u8)
    requires
        a.len() == 4,
        b.len() == 4,
        0 <= c < 3,
    ensures
        distance(a, a.update(c, d)) == (a[c] - d) * (a[c] - d),
        distance(a, b) == distance(a, b.update(c, a[c])) + (a[c] - b[c]) * (a[c] - b[c]),
{
    lemma_square(0);
    let u = a.update(c, d);
    assert(u[0] == if c == 0 {
        d
    } else {
        a[0]
    });
    assert(u[1] == if c == 1 {
        d
    } else {
        a[1]
    });
    assert(u[2] == if c == 2 {
        d
    } else {
        a[2]
    });
    let w = b.update(c, a[c]);
    assert(w[0] == if c == 0 {
        a[0]
    } else {
        b[0]
    });
    assert(w[1] == if c == 1 {
        a[1]
    } else {
        b[1]
    });
    assert(w[2] == if c == 2 {
        a[2]
    } else {
        b[2]
    });
}

/// The nearest color of a palette: none is nearer, and of those that are as near it
/// is the first.
pub proof fn law_nearest_color(palette: Seq<Seq<u8>>, rgba: Seq<u8>, j: int)
    requires
        0 <= j < palette.len(),
    ensures
        0 <= nearest_index(palette, rgba) < palette.len(),
        distance(rgba, palette[nearest_index(palette, rgba)]) <= distance(rgba, palette[j]),
        j < nearest_index(palette, rgba) ==> distance(
            rgba,
            palette[nearest_index(palette, rgba)],
        ) < distance(rgba, palette[j]),
{
    let i = lemma_nearest_exists(palette, rgba);
}

/// A color that a palette holds keeps its number, a new one gets the next number,
/// and where 256 colors are held already it gets the number of the nearest one.
pub proof fn law_numbers_of_colors(palette: Seq<Seq<u8>>, rgba: Seq<u8>, i: int)
    requires
        palette.no_duplicates(),
    ensures
        0 <= i < palette.len() && palette[i] == rgba ==> with_color(palette, rgba) == palette
            && color_index(palette, rgba) == i,
        !palette.contains(rgba) && palette.len() < 256 ==> with_color(palette, rgba)
            == palette.push(rgba) && color_index(palette, rgba) == palette.len(),
        !palette.contains(rgba) && palette.len() >= 256 ==> with_color(palette, rgba) == palette
            && color_index(palette, rgba) == nearest_index(palette, rgba),
{
    let after = with_color(palette, rgba);
    if 0 <= i < palette.len() && palette[i] == rgba {
        assert(palette.contains(rgba));
        let k = palette.index_of(rgba);
        assert(0 <= k < palette.len() && palette[k] == rgba);
    } else if !palette.contains(rgba) && palette.len() < 256 {
        let last = palette.len() as int;
        assert(after[last] == rgba);
        assert(after.contains(rgba));
        let k = after.index_of(rgba);
        assert(0 <= k < after.len() && after[k] == rgba);
        if k < last {
            assert(palette[k] == rgba);
        }
    }
}

/// Where there are no colors the place of the nearest one is the first.
pub proof fn law_nearest_of_none(rgba: Seq<u8>)
    ensures
        nearest_index(seq![], rgba) == 0,
        color_index(seq![], rgba) == 0,
{
    let one = seq![rgba];
    assert(with_color(seq![], rgba) =~= one);
    assert(one[0] == rgba);
    assert(one.contains(rgba));
}

} // verus!
