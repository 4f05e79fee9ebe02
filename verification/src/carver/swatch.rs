//! The colours of the textures of a block, each of them once, and the nearest
//! of them to a given colour.

use vstd::prelude::*;

use crate::carver::palette;
use crate::carver::palette::Palette;

verus! {

/// The place of a colour in the order of red, green and blue. Of colours that
/// differ in alpha alone the more opaque one comes first.
pub open spec fn rank(color: Seq<u8>) -> int {
    16777216 * color[0] + 65536 * color[1] + 256 * color[2] + (255 - color[3])
}

/// Whether colours stand in ascending order, none of them twice.
pub open spec fn ascending(list: Seq<Seq<u8>>) -> bool {
    forall|i: int, j: int|
        #![trigger list[i], list[j]]
        0 <= i < j < list.len() ==> rank(list[i]) < rank(list[j])
}

/// Whether every colour has four channels.
pub open spec fn are_rgba(colors: Seq<Seq<u8>>) -> bool {
    forall|i: int| 0 <= i < colors.len() ==> (#[trigger] colors[i]).len() == 4
}

/// Whether a list has exactly the given colours, in ascending order.
pub open spec fn is_listing(list: Seq<Seq<u8>>, colors: Seq<Seq<u8>>) -> bool {
    &&& ascending(list)
    &&& forall|c: Seq<u8>| #[trigger] list.contains(c) <==> colors.contains(c)
}

/// The given colours in ascending order, each of them once.
pub open spec fn distinct(colors: Seq<Seq<u8>>) -> Seq<Seq<u8>> {
    choose|list: Seq<Seq<u8>>| is_listing(list, colors)
}

/// The colour of a list that stands for a colour: the colour itself if it is
/// there, or the first of those nearest to it.
pub open spec fn snapped(list: Seq<Seq<u8>>, color: Seq<u8>) -> Seq<u8> {
    if list.contains(color) {
        color
    } else {
        list[palette::nearest_index(list, color)]
    }
}

/// Colours of the same rank are the same.
proof fn lemma_rank_is_unique(a: Seq<u8>, b: Seq<u8>)
    requires
        a.len() == 4,
        b.len() == 4,
        rank(a) == rank(b),
    ensures
        a == b,
{
    assert(a =~= b);
}

/// A listing has colours of four channels where the colours have.
proof fn lemma_listing_is_rgba(list: Seq<Seq<u8>>, colors: Seq<Seq<u8>>)
    requires
        are_rgba(colors),
        is_listing(list, colors),
    ensures
        are_rgba(list),
{
    assert forall|i: int| 0 <= i < list.len() implies (#[trigger] list[i]).len() == 4 by {
        assert(list.contains(list[i]));
        assert(colors.contains(list[i]));
    }
}

/// Lists in ascending order with the same colours are the same.
proof fn lemma_same_members(a: Seq<Seq<u8>>, b: Seq<Seq<u8>>)
    requires
        ascending(a),
        ascending(b),
        are_rgba(a),
        are_rgba(b),
        forall|c: Seq<u8>| #[trigger] a.contains(c) <==> b.contains(c),
    ensures
        a == b,
    decreases a.len(),
{
    if a.len() == 0 {
        if b.len() > 0 {
            assert(b.contains(b[0]));
            assert(a.contains(b[0]));
        }
        assert(a =~= b);
    } else {
        let x = a.last();
        assert(a.contains(x));
        assert(b.contains(x));
        let y = b.last();
        assert(b.contains(y));
        assert(a.contains(y));
        let i = choose|i: int| 0 <= i < b.len() && b[i] == x;
        let j = choose|j: int| 0 <= j < a.len() && a[j] == y;
        assert(rank(x) <= rank(y));
        assert(rank(y) <= rank(x));
        lemma_rank_is_unique(x, y);
        let s = a.drop_last();
        let t = b.drop_last();
        assert forall|c: Seq<u8>| #[trigger] s.contains(c) <==> t.contains(c) by {
            if s.contains(c) {
                let k = choose|k: int| 0 <= k < s.len() && s[k] == c;
                assert(a[k] == c && a.contains(c));
                assert(b.contains(c));
                let m = choose|m: int| 0 <= m < b.len() && b[m] == c;
                assert(rank(a[k]) < rank(a[a.len() - 1]));
                assert(t[m] == c);
            }
            if t.contains(c) {
                let k = choose|k: int| 0 <= k < t.len() && t[k] == c;
                assert(b[k] == c && b.contains(c));
                assert(a.contains(c));
                let m = choose|m: int| 0 <= m < a.len() && a[m] == c;
                assert(rank(b[k]) < rank(b[b.len() - 1]));
                assert(s[m] == c);
            }
        }
        lemma_same_members(s, t);
        assert(a =~= s.push(x));
        assert(b =~= t.push(y));
    }
}

/// Colours have one listing.
pub proof fn law_listing_is_unique(list: Seq<Seq<u8>>, colors: Seq<Seq<u8>>)
    requires
        are_rgba(colors),
        is_listing(list, colors),
    ensures
        distinct(colors) == list,
{
    let other = distinct(colors);
    assert(is_listing(other, colors));
    lemma_listing_is_rgba(list, colors);
    lemma_listing_is_rgba(other, colors);
    assert forall|c: Seq<u8>| #[trigger] list.contains(c) <==> other.contains(c) by {}
    lemma_same_members(list, other);
}

/// Whether a colour belongs at a place of a list: what comes before ranks lower,
/// and what comes after does not.
spec fn belongs_at(list: Seq<Seq<u8>>, color: Seq<u8>, at: int) -> bool {
    &&& 0 <= at <= list.len()
    &&& forall|i: int| 0 <= i < at ==> rank(#[trigger] list[i]) < rank(color)
    &&& forall|i: int| at <= i < list.len() ==> rank(#[trigger] list[i]) >= rank(color)
}

/// Every colour belongs at some place of a list.
proof fn lemma_place(list: Seq<Seq<u8>>, color: Seq<u8>) -> (at: int)
    requires
        ascending(list),
    ensures
        belongs_at(list, color, at),
    decreases list.len(),
{
    if list.len() == 0 || rank(list.last()) < rank(color) {
        assert forall|i: int| 0 <= i < list.len() implies rank(#[trigger] list[i]) < rank(
            color,
        ) by {
            if i < list.len() - 1 {
                assert(rank(list[i]) < rank(list[list.len() - 1]));
            }
        }
        list.len() as int
    } else {
        let front = list.drop_last();
        let at = lemma_place(front, color);
        assert forall|i: int| 0 <= i < at implies rank(#[trigger] list[i]) < rank(color) by {
            assert(front[i] == list[i]);
        }
        assert forall|i: int| at <= i < list.len() implies rank(#[trigger] list[i]) >= rank(
            color,
        ) by {
            if i < list.len() - 1 {
                assert(front[i] == list[i]);
            }
        }
        at
    }
}

/// The list once a colour was taken into it at its place.
spec fn taken_in(list: Seq<Seq<u8>>, color: Seq<u8>, at: int) -> Seq<Seq<u8>> {
    if at < list.len() && list[at] == color {
        list
    } else {
        list.insert(at, color)
    }
}

/// A colour is in a list exactly if it stands where it belongs.
proof fn lemma_found(list: Seq<Seq<u8>>, color: Seq<u8>, at: int)
    requires
        ascending(list),
        belongs_at(list, color, at),
    ensures
        list.contains(color) <==> at < list.len() && list[at] == color,
{
    if list.contains(color) {
        let k = choose|k: int| 0 <= k < list.len() && list[k] == color;
        if at < k {
            assert(rank(list[at]) < rank(list[k]));
        }
    }
}

/// A list stays in order when a colour is taken in, and has one colour more.
proof fn lemma_taken_in(list: Seq<Seq<u8>>, color: Seq<u8>, at: int)
    requires
        color.len() == 4,
        are_rgba(list),
        ascending(list),
        belongs_at(list, color, at),
    ensures
        ascending(taken_in(list, color, at)),
        forall|c: Seq<u8>| #[trigger]
            taken_in(list, color, at).contains(c) <==> list.contains(c) || c == color,
{
    let next = taken_in(list, color, at);
    lemma_found(list, color, at);
    if !list.contains(color) {
        if at < list.len() && rank(list[at]) == rank(color) {
            lemma_rank_is_unique(list[at], color);
        }
        assert forall|i: int, j: int|
            #![trigger next[i], next[j]]
            0 <= i < j < next.len() implies rank(next[i]) < rank(next[j]) by {
            if at < list.len() {
                assert(rank(color) < rank(list[at]));
            }
            if j == at {
                assert(rank(list[i]) < rank(color));
            } else if i == at {
                if at < j - 1 {
                    assert(rank(list[at]) < rank(list[j - 1]));
                }
            } else {
                let p = if i < at {
                    i
                } else {
                    i - 1
                };
                let q = if j < at {
                    j
                } else {
                    j - 1
                };
                assert(rank(list[p]) < rank(list[q]));
            }
        }
        assert(next[at] == color);
        assert forall|c: Seq<u8>| #[trigger]
            next.contains(c) <==> list.contains(c) || c == color by {
            if next.contains(c) {
                let k = choose|k: int| 0 <= k < next.len() && next[k] == c;
                if k < at {
                    assert(list[k] == c);
                } else if k > at {
                    assert(list[k - 1] == c);
                }
            }
            if list.contains(c) {
                let k = choose|k: int| 0 <= k < list.len() && list[k] == c;
                if k < at {
                    assert(next[k] == c);
                } else {
                    assert(next[k + 1] == c);
                }
            }
        }
    }
}

/// A list that takes a colour in lists that colour too.
pub proof fn lemma_listing_grows(
    before: Seq<Seq<u8>>,
    after: Seq<Seq<u8>>,
    colors: Seq<Seq<u8>>,
    color: Seq<u8>,
)
    requires
        is_listing(before, colors),
        ascending(after),
        forall|c: Seq<u8>| #[trigger] after.contains(c) <==> before.contains(c) || c == color,
    ensures
        is_listing(after, colors.push(color)),
{
    let more = colors.push(color);
    assert forall|c: Seq<u8>| #[trigger] after.contains(c) <==> more.contains(c) by {
        vstd::seq_lib::lemma_seq_contains_after_push(colors, color, c);
        assert(before.contains(c) <==> colors.contains(c));
    }
}

/// Colours have a listing.
pub proof fn law_listing_exists(colors: Seq<Seq<u8>>)
    requires
        are_rgba(colors),
    ensures
        is_listing(distinct(colors), colors),
        are_rgba(distinct(colors)),
    decreases colors.len(),
{
    if colors.len() == 0 {
        let none = Seq::<Seq<u8>>::empty();
        assert(colors =~= none);
        assert(is_listing(none, colors));
    } else {
        let front = colors.drop_last();
        law_listing_exists(front);
        let list = distinct(front);
        let last = colors.last();
        let at = lemma_place(list, last);
        lemma_taken_in(list, last, at);
        let next = taken_in(list, last, at);
        lemma_listing_grows(list, next, front, last);
        assert(front.push(last) =~= colors);
    }
    assert(is_listing(distinct(colors), colors));
    lemma_listing_is_rgba(distinct(colors), colors);
}

/// What a colour is snapped to is one of the colours, no other of them is
/// nearer, and a colour among them stays as it is.
pub proof fn law_snap_is_nearest(colors: Seq<Seq<u8>>, color: Seq<u8>)
    requires
        are_rgba(colors),
        colors.len() > 0,
    ensures
        colors.contains(snapped(distinct(colors), color)),
        forall|i: int|
            0 <= i < colors.len() ==> palette::distance(color, snapped(distinct(colors), color))
                <= palette::distance(color, #[trigger] colors[i]),
        colors.contains(color) ==> snapped(distinct(colors), color) == color,
{
    let list = distinct(colors);
    law_listing_exists(colors);
    assert(colors.contains(colors[0]));
    assert(list.contains(colors[0]));
    let best = snapped(list, color);
    if list.contains(color) {
        assert forall|i: int| 0 <= i < colors.len() implies palette::distance(color, best)
            <= palette::distance(color, #[trigger] colors[i]) by {
            lemma_distance(color, colors[i]);
        }
    } else {
        let n = palette::lemma_nearest_exists(list, color);
        assert(list.contains(list[n]));
        assert forall|i: int| 0 <= i < colors.len() implies palette::distance(color, best)
            <= palette::distance(color, #[trigger] colors[i]) by {
            assert(colors.contains(colors[i]));
            assert(list.contains(colors[i]));
            let k = choose|k: int| 0 <= k < list.len() && list[k] == colors[i];
            assert(palette::distance(color, list[n]) <= palette::distance(color, list[k]));
        }
    }
}

/// No distance is negative, and a colour has none from itself.
proof fn lemma_distance(a: Seq<u8>, b: Seq<u8>)
    ensures
        palette::distance(a, b) >= 0,
        palette::distance(a, a) == 0,
{
    let r = a[0] - b[0];
    let g = a[1] - b[1];
    let c = a[2] - b[2];
    assert(r * r >= 0) by (nonlinear_arith);
    assert(g * g >= 0) by (nonlinear_arith);
    assert(c * c >= 0) by (nonlinear_arith);
}

/// The distinct colours of textures, in ascending order.
pub struct Swatch {
    list: Palette,
}

impl View for Swatch {
    type V = Seq<Seq<u8>>;

    closed spec fn view(&self) -> Seq<Seq<u8>> {
        self.list@
    }
}

impl Swatch {
    /// A swatch without colours.
    pub fn new() -> (r: Swatch)
        ensures
            r@ == Seq::<Seq<u8>>::empty(),
            ascending(r@),
    {
        Swatch { list: Palette::default() }
    }

    /// The place at which a colour belongs.
    fn place(&self, color: [u8; 4]) -> (at: usize)
        requires
            ascending(self@),
        ensures
            belongs_at(self@, color@, at as int),
    {
        let ghost all = self@;
        let want: u32 = rank_of(color);
        let mut lo: usize = 0;
        let mut hi: usize = self.list.colors.len();
        while lo < hi
            invariant
                all == self.list@,
                ascending(all),
                want == rank(color@),
                0 <= lo <= hi <= self.list.colors@.len(),
                forall|i: int| 0 <= i < lo ==> rank(#[trigger] all[i]) < want,
                forall|i: int| hi <= i < all.len() ==> rank(#[trigger] all[i]) >= want,
            decreases hi - lo,
        {
            let mid: usize = lo + (hi - lo) / 2;
            let here: u32 = rank_of(self.list.colors[mid]);
            assert(here == rank(all[mid as int]));
            if here < want {
                assert forall|i: int| 0 <= i < mid + 1 implies rank(#[trigger] all[i]) < want by {
                    if i < mid {
                        assert(rank(all[i]) < rank(all[mid as int]));
                    }
                }
                lo = mid + 1;
            } else {
                assert forall|i: int| mid <= i < all.len() implies rank(#[trigger] all[i])
                    >= want by {
                    if mid < i {
                        assert(rank(all[mid as int]) < rank(all[i]));
                    }
                }
                hi = mid;
            }
        }
        lo
    }

    /// Whether a colour stands at the place at which it belongs.
    fn stands(&self, color: [u8; 4], at: usize) -> (r: bool)
        requires
            at <= self@.len(),
        ensures
            r == (at < self@.len() && self@[at as int] == color@),
    {
        if at >= self.list.colors.len() {
            return false;
        }
        let c = self.list.colors[at];
        assert(self@[at as int] == c@);
        let r: bool = c[0] == color[0] && c[1] == color[1] && c[2] == color[2] && c[3] == color[3];
        proof {
            if r {
                assert(c@ =~= color@);
            }
        }
        r
    }

    /// Takes one more colour in.
    pub fn insert(&mut self, color: [u8; 4])
        requires
            ascending(old(self)@),
        ensures
            ascending(final(self)@),
            forall|c: Seq<u8>| #[trigger]
                final(self)@.contains(c) <==> old(self)@.contains(c) || c == color@,
    {
        let at: usize = self.place(color);
        let ghost before = self@;
        proof {
            assert(are_rgba(before));
            lemma_taken_in(before, color@, at as int);
        }
        if !self.stands(color, at) {
            self.list.colors.insert(at, color);
            assert(self@ =~= before.insert(at as int, color@));
        }
    }

    /// The colour that stands for a colour: the colour itself if it is there,
    /// or the first of those nearest to it.
    pub fn snap(&self, color: [u8; 4]) -> (r: [u8; 4])
        requires
            self@.len() > 0,
            ascending(self@),
        ensures
            r@ == snapped(self@, color@),
    {
        let at: usize = self.place(color);
        proof {
            lemma_found(self@, color@, at as int);
        }
        if self.stands(color, at) {
            return color;
        }
        proof {
            let n = palette::lemma_nearest_exists(self@, color@);
        }
        let best: usize = self.list.nearest_position(color);
        let r = self.list.colors[best];
        assert(self@[best as int] == r@);
        r
    }
}

/// The place of a colour in the order of red, green and blue.
fn rank_of(color: [u8; 4]) -> (r: u32)
    ensures
        r == rank(color@),
{
    16777216 * color[0] as u32 + 65536 * color[1] as u32 + 256 * color[2] as u32 + (255
        - color[3] as u32)
}

/// Colours are listed by red, then by green, then by blue, and the more opaque of
/// two that are the same in these first.
pub proof fn law_order_of_colors(a: Seq<u8>, b: Seq<u8>)
    requires
        a.len() == 4,
        b.len() == 4,
    ensures
        a[0] < b[0] ==> rank(a) < rank(b),
        a[0] == b[0] && a[1] < b[1] ==> rank(a) < rank(b),
        a[0] == b[0] && a[1] == b[1] && a[2] < b[2] ==> rank(a) < rank(b),
        a[0] == b[0] && a[1] == b[1] && a[2] == b[2] && a[3] > b[3] ==> rank(a) < rank(b),
        rank(a) == rank(b) ==> a == b,
{
    if rank(a) == rank(b) {
        lemma_rank_is_unique(a, b);
    }
}

} // verus!
