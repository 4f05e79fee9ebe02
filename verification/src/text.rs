//! Text helpers over the characters of a string: searching, splitting,
//! prefix trimming and the alphabetical order of keys.

use vstd::prelude::*;
use vstd::utf8::*;

verus! {

/// The characters of each piece of text.
pub open spec fn views(parts: Seq<&str>) -> Seq<Seq<char>> {
    parts.map_values(|p: &str| p@)
}

/// How many characters stand before the first `c`; the whole length where there is none.
pub open spec fn position(s: Seq<char>, c: char) -> int
    decreases s.len(),
{
    if s.len() == 0 || s[0] == c {
        0
    } else {
        1 + position(s.drop_first(), c)
    }
}

/// The pieces of `s` between the separators. There is always one piece more than separators.
pub open spec fn split(s: Seq<char>, sep: char) -> Seq<Seq<char>>
    decreases s.len(),
{
    if s.contains(sep) {
        let at = position(s, sep);
        seq![s.take(at)] + if 0 <= at < s.len() {
            split(s.skip(at + 1), sep)
        } else {
            seq![]
        }
    } else {
        seq![s]
    }
}

/// `s` without any repetition of `prefix` at its start.
pub open spec fn trim_prefix(s: Seq<char>, prefix: Seq<char>) -> Seq<char>
    decreases s.len(),
{
    if prefix.len() > 0 && prefix.is_prefix_of(s) {
        trim_prefix(s.skip(prefix.len() as int), prefix)
    } else {
        s
    }
}

/// The alphabetical order: by the first character that differs, a proper prefix first.
pub open spec fn before(a: Seq<char>, b: Seq<char>) -> bool
    decreases a.len(),
{
    if b.len() == 0 {
        false
    } else if a.len() == 0 {
        true
    } else if a[0] != b[0] {
        (a[0] as int) < (b[0] as int)
    } else {
        before(a.drop_first(), b.drop_first())
    }
}

/// Whether `needle` stands somewhere in `s`.
pub open spec fn occurs(s: Seq<char>, needle: Seq<char>) -> bool {
    exists|i: int| 0 <= i <= s.len() && #[trigger] needle.is_prefix_of(s.skip(i))
}

/// `position` is the first place of `c`.
pub proof fn lemma_position(s: Seq<char>, c: char)
    ensures
        0 <= position(s, c) <= s.len(),
        forall|i: int| 0 <= i < position(s, c) ==> s[i] != c,
        position(s, c) < s.len() <==> s.contains(c),
        position(s, c) < s.len() ==> s[position(s, c)] == c,
    decreases s.len(),
{
    if s.len() > 0 {
        if s[0] == c {
            assert(s.contains(c));
        } else {
            let rest = s.drop_first();
            lemma_position(rest, c);
            let p = position(s, c);
            assert forall|i: int| 0 <= i < p implies s[i] != c by {
                if i > 0 {
                    assert(s[i] == rest[i - 1]);
                }
            }
            if p < s.len() {
                assert(s[p] == rest[p - 1]);
            }
            if s.contains(c) {
                let k = choose|k: int| 0 <= k < s.len() && s[k] == c;
                assert(rest[k - 1] == c);
            }
        }
    }
}

/// The first place of `c` is the only place that is preceded by no `c`.
pub proof fn lemma_position_unique(s: Seq<char>, c: char, at: int)
    requires
        0 <= at <= s.len(),
        forall|i: int| 0 <= i < at ==> s[i] != c,
        at < s.len() ==> s[at] == c,
    ensures
        position(s, c) == at,
{
    lemma_position(s, c);
    let p = position(s, c);
    if p < at {
        assert(s[p] != c);
    }
}

/// The code of a character as an exact number.
pub proof fn lemma_char_code(c: char)
    ensures
        (c as u32) as int == c as int,
{
}

/// No text precedes itself.
pub proof fn lemma_before_irreflexive(a: Seq<char>)
    ensures
        !before(a, a),
    decreases a.len(),
{
    if a.len() > 0 {
        lemma_before_irreflexive(a.drop_first());
    }
}

/// Alphabetical order is transitive.
pub proof fn lemma_before_transitive(a: Seq<char>, b: Seq<char>, c: Seq<char>)
    requires
        before(a, b),
        before(b, c),
    ensures
        before(a, c),
    decreases a.len(),
{
    if a.len() > 0 && a[0] == b[0] && b[0] == c[0] {
        lemma_before_transitive(a.drop_first(), b.drop_first(), c.drop_first());
    }
}

/// Of two different texts one precedes the other.
pub proof fn lemma_before_total(a: Seq<char>, b: Seq<char>)
    ensures
        before(a, b) || before(b, a) || a == b,
    decreases a.len(),
{
    if a.len() == 0 || b.len() == 0 {
        if a.len() == 0 && b.len() == 0 {
            assert(a =~= b);
        }
    } else if a[0] == b[0] {
        lemma_before_total(a.drop_first(), b.drop_first());
        if a.drop_first() == b.drop_first() {
            assert(a =~= seq![a[0]] + a.drop_first());
            assert(b =~= seq![b[0]] + b.drop_first());
        }
    }
}

/// Trimming stops at a text that does not start with the prefix.
pub proof fn lemma_trim_prefix_done(s: Seq<char>, prefix: Seq<char>)
    ensures
        !(prefix.len() > 0 && prefix.is_prefix_of(trim_prefix(s, prefix))),
        trim_prefix(trim_prefix(s, prefix), prefix) == trim_prefix(s, prefix),
        trim_prefix(s, prefix).len() <= s.len(),
        trim_prefix(s, prefix) == s.skip(s.len() - trim_prefix(s, prefix).len()),
    decreases s.len(),
{
    if prefix.len() > 0 && prefix.is_prefix_of(s) {
        let rest = s.skip(prefix.len() as int);
        lemma_trim_prefix_done(rest, prefix);
        let t = trim_prefix(s, prefix);
        assert(t =~= s.skip(s.len() - t.len()));
    } else {
        assert(s =~= s.skip(0));
    }
}

/// The characters of `s` in a vector.
pub fn to_chars(s: &str) -> (r: Vec<char>)
    ensures
        r@ == s@,
{
    let mut v: Vec<char> = Vec::new();
    for c in it: s.chars()
        invariant
            v@ == it.seq().take(it.index() as int),
            it.seq() == s@,
    {
        v.push(c);
    }
    v
}

/// Whether two texts are the same.
pub fn same(a: &str, b: &str) -> (r: bool)
    ensures
        r == (a@ == b@),
{
    let x = a.as_bytes();
    let y = b.as_bytes();
    if x.len() != y.len() {
        return false;
    }
    let mut i: usize = 0;
    while i < x.len()
        invariant
            x@ == encode_utf8(a@),
            y@ == encode_utf8(b@),
            x@.len() == y@.len(),
            0 <= i <= x@.len(),
            forall|k: int| 0 <= k < i ==> x@[k] == y@[k],
        decreases x.len() - i,
    {
        if x[i] != y[i] {
            return false;
        }
        i += 1;
    }
    proof {
        assert(x@ =~= y@);
        encode_utf8_decode_utf8(a@);
        encode_utf8_decode_utf8(b@);
    }
    true
}

/// The place of the first `c`, counted in characters.
pub fn find(s: &str, c: char) -> (r: Option<usize>)
    ensures
        match r {
            Some(i) => s@.contains(c) && i < s@.len() && i == position(s@, c),
            None => !s@.contains(c),
        },
{
    let chars = to_chars(s);
    let mut i: usize = 0;
    while i < chars.len()
        invariant
            chars@ == s@,
            0 <= i <= chars@.len(),
            forall|k: int| 0 <= k < i ==> chars@[k] != c,
        decreases chars.len() - i,
    {
        if chars[i] == c {
            proof {
                lemma_position_unique(s@, c, i as int);
            }
            return Some(i);
        }
        i += 1;
    }
    None
}

/// The part of `s` from character `from` up to character `to`.
pub fn slice(s: &str, from: usize, to: usize) -> (r: &str)
    requires
        from <= to <= s@.len(),
    ensures
        r@ == s@.subrange(from as int, to as int),
{
    s.substring_char(from, to)
}

/// The pieces of `s` between the separators.
pub fn split_at_char(s: &str, sep: char) -> (r: Vec<&str>)
    ensures
        views(r@) == split(s@, sep),
{
    let mut parts: Vec<&str> = Vec::new();
    let mut rest: &str = s;
    assert(views(parts@) + split(rest@, sep) =~= split(s@, sep));
    loop
        invariant
            views(parts@) + split(rest@, sep) == split(s@, sep),
        decreases rest@.len(),
    {
        let ghost before_parts = parts@;
        let ghost before_rest = rest@;
        match find(rest, sep) {
            None => {
                parts.push(rest);
                proof {
                    assert(views(parts@) =~= views(before_parts) + seq![rest@]);
                }
                return parts;
            },
            Some(at) => {
                proof {
                    lemma_position(rest@, sep);
                }
                let len: usize = rest.unicode_len();
                let head = slice(rest, 0, at);
                let tail = slice(rest, at + 1, len);
                parts.push(head);
                rest = tail;
                proof {
                    assert(head@ =~= before_rest.take(at as int));
                    assert(tail@ =~= before_rest.skip(at + 1));
                    assert(views(parts@) =~= views(before_parts).push(head@));
                    assert(views(parts@) + split(rest@, sep) =~= views(before_parts) + split(
                        before_rest,
                        sep,
                    ));
                }
            },
        }
    }
}

/// Whether `s` starts with `prefix`.
pub fn starts_with(s: &str, prefix: &str) -> (r: bool)
    ensures
        r == prefix@.is_prefix_of(s@),
{
    let n: usize = prefix.unicode_len();
    let len: usize = s.unicode_len();
    if n > len {
        return false;
    }
    let head = slice(s, 0, n);
    same(head, prefix)
}

/// Whether `s` ends with `suffix`.
pub fn ends_with(s: &str, suffix: &str) -> (r: bool)
    ensures
        r == suffix@.is_suffix_of(s@),
{
    let n: usize = suffix.unicode_len();
    let len: usize = s.unicode_len();
    if n > len {
        return false;
    }
    let tail = slice(s, len - n, len);
    same(tail, suffix)
}

/// `s` without any repetition of `prefix` at its start.
pub fn trim_start<'a>(s: &'a str, prefix: &str) -> (r: &'a str)
    requires
        prefix@.len() > 0,
    ensures
        r@ == trim_prefix(s@, prefix@),
{
    let mut rest: &'a str = s;
    while starts_with(rest, prefix)
        invariant
            prefix@.len() > 0,
            trim_prefix(rest@, prefix@) == trim_prefix(s@, prefix@),
        decreases rest@.len(),
    {
        let len: usize = rest.unicode_len();
        let n: usize = prefix.unicode_len();
        rest = slice(rest, n, len);
    }
    rest
}

/// Whether `needle` stands somewhere in `s`.
pub fn contains_text(s: &str, needle: &str) -> (r: bool)
    ensures
        r == occurs(s@, needle@),
{
    let len: usize = s.unicode_len();
    let mut i: usize = 0;
    while i <= len
        invariant
            len == s@.len(),
            0 <= i <= len + 1,
            forall|k: int| 0 <= k < i ==> !#[trigger] needle@.is_prefix_of(s@.skip(k)),
        decreases len + 1 - i,
    {
        let tail = slice(s, i, len);
        if starts_with(tail, needle) {
            assert(needle@.is_prefix_of(s@.skip(i as int)));
            return true;
        }
        if i == len {
            return false;
        }
        i += 1;
    }
    false
}

/// Whether `a` stands before `b` in alphabetical order.
pub fn is_before(a: &str, b: &str) -> (r: bool)
    ensures
        r == before(a@, b@),
{
    let x = to_chars(a);
    let y = to_chars(b);
    let mut i: usize = 0;
    assert(x@.skip(0) =~= x@ && y@.skip(0) =~= y@);
    while i < x.len() && i < y.len()
        invariant
            x@ == a@,
            y@ == b@,
            0 <= i <= x@.len(),
            i <= y@.len(),
            before(x@, y@) == before(x@.skip(i as int), y@.skip(i as int)),
        decreases x.len() - i,
    {
        let p = x[i];
        let q = y[i];
        if p != q {
            proof {
                assert(x@.skip(i as int)[0] == p && y@.skip(i as int)[0] == q);
                lemma_char_code(p);
                lemma_char_code(q);
            }
            return (p as u32) < (q as u32);
        }
        assert(x@.skip(i as int).drop_first() =~= x@.skip(i + 1));
        assert(y@.skip(i as int).drop_first() =~= y@.skip(i + 1));
        i += 1;
    }
    i < y.len()
}

/// The pieces of two texts with a separator between them are those of the one
/// and then those of the other, and a text without a separator is one piece.
pub proof fn law_split_is_additive(a: Seq<char>, sep: char, b: Seq<char>)
    ensures
        split(a + seq![sep] + b, sep) == split(a, sep) + split(b, sep),
        !a.contains(sep) ==> split(a, sep) == seq![a],
    decreases a.len(),
{
    let s = a + seq![sep] + b;
    assert(s[a.len() as int] == sep);
    lemma_position(s, sep);
    lemma_position(a, sep);
    if a.contains(sep) {
        let at = position(a, sep);
        assert(s[at] == sep);
        assert forall|i: int| 0 <= i < at implies s[i] != sep by {
            assert(s[i] == a[i]);
        }
        lemma_position_unique(s, sep, at);
        let rest = a.skip(at + 1);
        assert(s.take(at) =~= a.take(at));
        assert(s.skip(at + 1) =~= rest + seq![sep] + b);
        law_split_is_additive(rest, sep, b);
        assert(split(s, sep) =~= split(a, sep) + split(b, sep));
    } else {
        assert forall|i: int| 0 <= i < a.len() implies s[i] != sep by {
            assert(a.contains(a[i]));
            assert(s[i] == a[i]);
        }
        lemma_position_unique(s, sep, a.len() as int);
        assert(s.take(a.len() as int) =~= a);
        assert(s.skip(a.len() as int + 1) =~= b);
        assert(split(s, sep) =~= seq![a] + split(b, sep));
    }
}

/// Trimming takes a prefix off as often as it stands there, and leaves a text
/// that does not start with it as it is.
pub proof fn law_trim_takes_prefixes_off(s: Seq<char>, prefix: Seq<char>)
    requires
        prefix.len() > 0,
    ensures
        trim_prefix(prefix + s, prefix) == trim_prefix(s, prefix),
        !prefix.is_prefix_of(s) ==> trim_prefix(s, prefix) == s,
        !prefix.is_prefix_of(trim_prefix(s, prefix)),
{
    let t = prefix + s;
    assert(t.take(prefix.len() as int) =~= prefix);
    assert(prefix.is_prefix_of(t));
    assert(t.skip(prefix.len() as int) =~= s);
    lemma_trim_prefix_done(s, prefix);
}

/// A text stands before its extensions, and of two texts that part ways the one
/// with the lower character there stands first.
pub proof fn law_before_is_alphabetical(
    head: Seq<char>,
    a: char,
    x: Seq<char>,
    b: char,
    y: Seq<char>,
)
    ensures
        before(head, head + seq![a] + x),
        !before(head + seq![a] + x, head),
        a != b ==> (before(head + seq![a] + x, head + seq![b] + y) <==> (a as int) < (b as int)),
    decreases head.len(),
{
    let p = head + seq![a] + x;
    let q = head + seq![b] + y;
    if head.len() > 0 {
        let rest = head.drop_first();
        law_before_is_alphabetical(rest, a, x, b, y);
        assert(p.drop_first() =~= rest + seq![a] + x);
        assert(q.drop_first() =~= rest + seq![b] + y);
        assert(p[0] == head[0] && q[0] == head[0]);
    } else {
        assert(p[0] == a && q[0] == b);
    }
}

/// A text occurs in whatever stands around it, and where it occurs something
/// stands around it.
pub proof fn law_occurs_in_the_middle(
    s: Seq<char>,
    left: Seq<char>,
    needle: Seq<char>,
    right: Seq<char>,
)
    ensures
        occurs(left + needle + right, needle),
        occurs(s, needle) ==> exists|l: Seq<char>, r: Seq<char>| s == #[trigger] (l + needle + r),
{
    let t = left + needle + right;
    let tail = t.skip(left.len() as int);
    assert(tail.take(needle.len() as int) =~= needle);
    assert(needle.is_prefix_of(t.skip(left.len() as int)));
    if occurs(s, needle) {
        let i = choose|i: int| 0 <= i <= s.len() && #[trigger] needle.is_prefix_of(s.skip(i));
        let l = s.take(i);
        let r = s.skip(i + needle.len());
        assert(needle =~= s.skip(i).take(needle.len() as int));
        assert(s =~= l + needle + r) by {
            assert forall|k: int| 0 <= k < s.len() implies s[k] == (l + needle + r)[k] by {
                if i <= k < i + needle.len() {
                    assert(s.skip(i).take(needle.len() as int)[k - i] == s[k]);
                }
            }
        }
    }
}

} // verus!
