//! Names with values, kept in alphabetical order of the names, each name once:
//! the properties of a block state, or the texture variables of a model.

use vstd::prelude::*;

use crate::text;

verus! {

/// A property with its value.
pub type Pair = (Seq<char>, Seq<char>);

/// Whether the names ascend alphabetically. No name then stands twice.
pub open spec fn ascending(pairs: Seq<Pair>) -> bool {
    forall|i: int, j: int|
        0 <= i < j < pairs.len() ==> text::before(#[trigger] pairs[i].0, #[trigger] pairs[j].0)
}

/// The value of a property, where it is there.
pub open spec fn value_of(pairs: Seq<Pair>, name: Seq<char>) -> Option<Seq<char>>
    decreases pairs.len(),
{
    if pairs.len() == 0 {
        None
    } else if pairs[0].0 == name {
        Some(pairs[0].1)
    } else {
        value_of(pairs.drop_first(), name)
    }
}

/// The properties with `name` set to `value`, a former value replaced.
pub open spec fn with(pairs: Seq<Pair>, name: Seq<char>, value: Seq<char>) -> Seq<Pair>
    decreases pairs.len(),
{
    if pairs.len() == 0 {
        seq![(name, value)]
    } else if text::before(pairs[0].0, name) {
        seq![pairs[0]] + with(pairs.drop_first(), name, value)
    } else if pairs[0].0 == name {
        seq![(name, value)] + pairs.drop_first()
    } else {
        seq![(name, value)] + pairs
    }
}

/// The properties after setting each of `settings` in turn, the last one of a name winning.
pub open spec fn with_all(settings: Seq<Pair>) -> Seq<Pair>
    decreases settings.len(),
{
    if settings.len() == 0 {
        seq![]
    } else {
        with(with_all(settings.drop_last()), settings.last().0, settings.last().1)
    }
}

/// A list of pairs by its text.
pub open spec fn pair_views(pairs: Seq<(String, String)>) -> Seq<Pair> {
    pairs.map_values(|p: (String, String)| (p.0@, p.1@))
}

/// Names with values, such as the properties of a block state.
pub struct Properties {
    entries: Vec<(String, String)>,
}

impl View for Properties {
    type V = Seq<Pair>;

    closed spec fn view(&self) -> Seq<Pair> {
        pair_views(self.entries@)
    }
}

/// Setting a property keeps the order, sets that property and no other.
pub proof fn lemma_with(pairs: Seq<Pair>, name: Seq<char>, value: Seq<char>)
    requires
        ascending(pairs),
    ensures
        ascending(with(pairs, name, value)),
        value_of(with(pairs, name, value), name) == Some(value),
        forall|other: Seq<char>|
            other != name ==> #[trigger] value_of(with(pairs, name, value), other) == value_of(
                pairs,
                other,
            ),
        forall|i: int|
            0 <= i < with(pairs, name, value).len() ==> (#[trigger] with(pairs, name, value)[i] == (
                name,
                value,
            ) || pairs.contains(with(pairs, name, value)[i])),
    decreases pairs.len(),
{
    let result = with(pairs, name, value);
    if pairs.len() == 0 {
        assert(result.drop_first() =~= pairs);
    } else {
        let head = pairs[0];
        let rest = pairs.drop_first();
        assert(ascending(rest)) by {
            assert forall|i: int, j: int| 0 <= i < j < rest.len() implies text::before(
                #[trigger] rest[i].0,
                #[trigger] rest[j].0,
            ) by {
                assert(rest[i] == pairs[i + 1] && rest[j] == pairs[j + 1]);
            }
        }
        if text::before(head.0, name) {
            let tail = with(rest, name, value);
            lemma_with(rest, name, value);
            text::lemma_before_irreflexive(name);
            assert(result.drop_first() =~= tail);
            assert forall|i: int| 0 <= i < tail.len() implies #[trigger] tail[i] == (name, value)
                || pairs.contains(tail[i]) by {
                if rest.contains(tail[i]) {
                    let k = choose|k: int| 0 <= k < rest.len() && rest[k] == tail[i];
                    assert(pairs[k + 1] == tail[i]);
                }
            }
            assert forall|i: int, j: int| 0 <= i < j < result.len() implies text::before(
                #[trigger] result[i].0,
                #[trigger] result[j].0,
            ) by {
                assert(result[j] == tail[j - 1]);
                if i == 0 {
                    if rest.contains(tail[j - 1]) {
                        let k = choose|k: int| 0 <= k < rest.len() && rest[k] == tail[j - 1];
                        assert(pairs[k + 1] == tail[j - 1]);
                        assert(text::before(pairs[0].0, pairs[k + 1].0));
                    }
                } else {
                    assert(result[i] == tail[i - 1]);
                }
            }
            assert forall|i: int| 0 <= i < result.len() implies #[trigger] result[i] == (name, value)
                || pairs.contains(result[i]) by {
                if i == 0 {
                    assert(pairs[0] == result[0]);
                } else {
                    assert(result[i] == tail[i - 1]);
                }
            }
            assert forall|other: Seq<char>| other != name implies #[trigger] value_of(
                result,
                other,
            ) == value_of(pairs, other) by {
                assert(value_of(tail, other) == value_of(rest, other));
            }
        } else {
            text::lemma_before_total(head.0, name);
            assert forall|i: int| 0 <= i < result.len() implies #[trigger] result[i] == (name, value)
                || pairs.contains(result[i]) by {
                if i > 0 {
                    let k = if head.0 == name {
                        i
                    } else {
                        i - 1
                    };
                    assert(pairs[k] == result[i]);
                }
            }
            assert forall|i: int, j: int| 0 <= i < j < result.len() implies text::before(
                #[trigger] result[i].0,
                #[trigger] result[j].0,
            ) by {
                let d: int = if head.0 == name {
                    0
                } else {
                    1
                };
                assert(result[j] == pairs[j - d]);
                if i > 0 {
                    assert(result[i] == pairs[i - d]);
                } else if j - d > 0 {
                    assert(text::before(pairs[0].0, pairs[j - d].0));
                    if d == 1 {
                        text::lemma_before_transitive(name, head.0, pairs[j - d].0);
                    }
                }
            }
            if head.0 == name {
                assert(result.drop_first() =~= rest);
            } else {
                assert(result.drop_first() =~= pairs);
            }
        }
    }
}

/// Setting properties one after the other gives an ascending list.
pub proof fn lemma_with_all_ascending(settings: Seq<Pair>)
    ensures
        ascending(with_all(settings)),
    decreases settings.len(),
{
    if settings.len() > 0 {
        lemma_with_all_ascending(settings.drop_last());
        lemma_with(with_all(settings.drop_last()), settings.last().0, settings.last().1);
    }
}

/// A name that stands nowhere has no value.
proof fn lemma_value_absent(pairs: Seq<Pair>, name: Seq<char>)
    requires
        forall|i: int| 0 <= i < pairs.len() ==> (#[trigger] pairs[i]).0 != name,
    ensures
        value_of(pairs, name) is None,
    decreases pairs.len(),
{
    if pairs.len() > 0 {
        let rest = pairs.drop_first();
        assert forall|i: int| 0 <= i < rest.len() implies (#[trigger] rest[i]).0 != name by {
            assert(rest[i] == pairs[i + 1]);
        }
        lemma_value_absent(rest, name);
        assert(pairs[0].0 != name);
    }
}

/// Each pair of an ascending list is the value of its name.
pub proof fn lemma_value_at(pairs: Seq<Pair>, i: int)
    requires
        ascending(pairs),
        0 <= i < pairs.len(),
    ensures
        value_of(pairs, pairs[i].0) == Some(pairs[i].1),
    decreases pairs.len(),
{
    if i > 0 {
        let rest = pairs.drop_first();
        assert(ascending(rest)) by {
            assert forall|k: int, j: int| 0 <= k < j < rest.len() implies text::before(
                #[trigger] rest[k].0,
                #[trigger] rest[j].0,
            ) by {
                assert(rest[k] == pairs[k + 1] && rest[j] == pairs[j + 1]);
            }
        }
        lemma_value_at(rest, i - 1);
        assert(text::before(pairs[0].0, pairs[i].0));
        text::lemma_before_irreflexive(pairs[i].0);
    }
}

/// Two ascending lists that give every name the same value are the same list.
pub proof fn law_properties_extensional(a: Seq<Pair>, b: Seq<Pair>)
    requires
        ascending(a),
        ascending(b),
        forall|name: Seq<char>| #[trigger] value_of(a, name) == value_of(b, name),
    ensures
        a == b,
    decreases a.len(),
{
    if a.len() == 0 || b.len() == 0 {
        if a.len() > 0 {
            lemma_value_at(a, 0);
            assert(value_of(a, a[0].0) == value_of(b, a[0].0));
        }
        if b.len() > 0 {
            lemma_value_at(b, 0);
            assert(value_of(a, b[0].0) == value_of(b, b[0].0));
        }
        assert(a =~= b);
    } else {
        let x = a[0].0;
        let y = b[0].0;
        lemma_value_at(a, 0);
        lemma_value_at(b, 0);
        assert(value_of(a, x) == value_of(b, x));
        assert(value_of(a, y) == value_of(b, y));
        text::lemma_before_total(x, y);
        if text::before(x, y) {
            assert forall|i: int| 0 <= i < b.len() implies (#[trigger] b[i]).0 != x by {
                text::lemma_before_irreflexive(x);
                if i > 0 {
                    assert(text::before(b[0].0, b[i].0));
                    text::lemma_before_transitive(x, y, b[i].0);
                }
            }
            lemma_value_absent(b, x);
        }
        if text::before(y, x) {
            assert forall|i: int| 0 <= i < a.len() implies (#[trigger] a[i]).0 != y by {
                text::lemma_before_irreflexive(y);
                if i > 0 {
                    assert(text::before(a[0].0, a[i].0));
                    text::lemma_before_transitive(y, x, a[i].0);
                }
            }
            lemma_value_absent(a, y);
        }
        assert(x == y);
        let ra = a.drop_first();
        let rb = b.drop_first();
        assert(ascending(ra)) by {
            assert forall|k: int, j: int| 0 <= k < j < ra.len() implies text::before(
                #[trigger] ra[k].0,
                #[trigger] ra[j].0,
            ) by {
                assert(ra[k] == a[k + 1] && ra[j] == a[j + 1]);
            }
        }
        assert(ascending(rb)) by {
            assert forall|k: int, j: int| 0 <= k < j < rb.len() implies text::before(
                #[trigger] rb[k].0,
                #[trigger] rb[j].0,
            ) by {
                assert(rb[k] == b[k + 1] && rb[j] == b[j + 1]);
            }
        }
        assert forall|name: Seq<char>| #[trigger] value_of(ra, name) == value_of(rb, name) by {
            assert(value_of(a, name) == value_of(b, name));
            if name == x {
                assert forall|i: int| 0 <= i < ra.len() implies (#[trigger] ra[i]).0 != x by {
                    assert(text::before(a[0].0, a[i + 1].0));
                    text::lemma_before_irreflexive(x);
                }
                assert forall|i: int| 0 <= i < rb.len() implies (#[trigger] rb[i]).0 != x by {
                    assert(text::before(b[0].0, b[i + 1].0));
                    text::lemma_before_irreflexive(x);
                }
                lemma_value_absent(ra, x);
                lemma_value_absent(rb, x);
            }
        }
        law_properties_extensional(ra, rb);
        assert(a =~= seq![a[0]] + ra);
        assert(b =~= seq![b[0]] + rb);
    }
}

/// The order in which two different properties are set does not matter.
pub proof fn law_with_commutes(
    pairs: Seq<Pair>,
    name1: Seq<char>,
    value1: Seq<char>,
    name2: Seq<char>,
    value2: Seq<char>,
)
    requires
        ascending(pairs),
        name1 != name2,
    ensures
        with(with(pairs, name1, value1), name2, value2) == with(
            with(pairs, name2, value2),
            name1,
            value1,
        ),
{
    let p1 = with(pairs, name1, value1);
    let p2 = with(pairs, name2, value2);
    lemma_with(pairs, name1, value1);
    lemma_with(pairs, name2, value2);
    lemma_with(p1, name2, value2);
    lemma_with(p2, name1, value1);
    let a = with(p1, name2, value2);
    let b = with(p2, name1, value1);
    assert forall|name: Seq<char>| #[trigger] value_of(a, name) == value_of(b, name) by {
        if name != name1 && name != name2 {
            assert(value_of(a, name) == value_of(p1, name));
            assert(value_of(b, name) == value_of(p2, name));
        } else if name == name1 {
            assert(value_of(a, name) == value_of(p1, name));
        } else {
            assert(value_of(b, name) == value_of(p2, name));
        }
    }
    law_properties_extensional(a, b);
}

/// A setting that lands between the names before it and the rest.
pub proof fn lemma_with_at(pairs: Seq<Pair>, name: Seq<char>, value: Seq<char>, at: int)
    requires
        0 <= at <= pairs.len(),
        forall|i: int| 0 <= i < at ==> text::before((#[trigger] pairs[i]).0, name),
        at < pairs.len() ==> !text::before(pairs[at].0, name),
    ensures
        at < pairs.len() && pairs[at].0 == name ==> with(pairs, name, value) == pairs.update(
            at,
            (name, value),
        ),
        !(at < pairs.len() && pairs[at].0 == name) ==> with(pairs, name, value) == pairs.insert(
            at,
            (name, value),
        ),
    decreases pairs.len(),
{
    let result = with(pairs, name, value);
    if at == 0 {
        if pairs.len() == 0 {
            assert(result =~= pairs.insert(0, (name, value)));
        } else if pairs[0].0 == name {
            assert(result =~= pairs.update(0, (name, value)));
        } else {
            assert(result =~= pairs.insert(0, (name, value)));
        }
    } else {
        let rest = pairs.drop_first();
        assert(text::before(pairs[0].0, name));
        assert forall|i: int| 0 <= i < at - 1 implies text::before((#[trigger] rest[i]).0, name) by {
            assert(rest[i] == pairs[i + 1]);
        }
        lemma_with_at(rest, name, value, at - 1);
        if at < pairs.len() && pairs[at].0 == name {
            assert(result =~= pairs.update(at, (name, value)));
        } else {
            assert(result =~= pairs.insert(at, (name, value)));
        }
    }
}

impl Properties {
    /// The names ascend.
    pub open spec fn wf(&self) -> bool {
        ascending(self@)
    }

    /// No properties.
    pub fn new() -> (r: Properties)
        ensures
            r.wf(),
            r@ == Seq::<Pair>::empty(),
    {
        let r = Properties { entries: Vec::new() };
        assert(r@ =~= Seq::<Pair>::empty());
        r
    }

    /// How many properties there are.
    pub fn len(&self) -> (n: usize)
        ensures
            n == self@.len(),
    {
        self.entries.len()
    }

    /// Property `i` in alphabetical order.
    pub fn entry(&self, i: usize) -> (r: (&str, &str))
        requires
            i < self@.len(),
        ensures
            r.0@ == self@[i as int].0,
            r.1@ == self@[i as int].1,
    {
        let e = &self.entries[i];
        (e.0.as_str(), e.1.as_str())
    }

    /// The value of a property.
    pub fn get(&self, name: &str) -> (r: Option<&str>)
        ensures
            match r {
                Some(v) => value_of(self@, name@) == Some(v@),
                None => value_of(self@, name@) is None,
            },
    {
        let mut i: usize = 0;
        assert(self@.skip(0) =~= self@);
        while i < self.entries.len()
            invariant
                0 <= i <= self.entries@.len(),
                value_of(self@.skip(i as int), name@) == value_of(self@, name@),
            decreases self.entries.len() - i,
        {
            let e = &self.entries[i];
            if text::same(e.0.as_str(), name) {
                return Some(e.1.as_str());
            }
            assert(self@.skip(i as int).drop_first() =~= self@.skip(i + 1));
            i += 1;
        }
        None
    }

    /// Whether a property has the given value.
    pub fn has(&self, name: &str, value: &str) -> (r: bool)
        ensures
            r == (value_of(self@, name@) == Some(value@)),
    {
        match self.get(name) {
            Some(v) => text::same(v, value),
            None => false,
        }
    }

    /// Sets a property.
    pub fn insert(&mut self, name: String, value: String)
        requires
            old(self).wf(),
        ensures
            final(self).wf(),
            final(self)@ == with(old(self)@, name@, value@),
    {
        let ghost start = self@;
        let mut at: usize = 0;
        while at < self.entries.len() && text::is_before(self.entries[at].0.as_str(), name.as_str())
            invariant
                self@ == start,
                0 <= at <= self.entries@.len(),
                forall|i: int| 0 <= i < at ==> text::before((#[trigger] self@[i]).0, name@),
            decreases self.entries.len() - at,
        {
            at += 1;
        }
        proof {
            lemma_with(start, name@, value@);
            lemma_with_at(start, name@, value@, at as int);
        }
        let ghost pair = (name@, value@);
        if at < self.entries.len() && text::same(self.entries[at].0.as_str(), name.as_str()) {
            self.entries[at] = (name, value);
            assert(self@ =~= start.update(at as int, pair));
        } else {
            self.entries.insert(at, (name, value));
            assert(self@ =~= start.insert(at as int, pair));
        }
    }
}

/// A property with a value stands somewhere.
pub proof fn lemma_value_found(pairs: Seq<Pair>, name: Seq<char>) -> (i: int)
    requires
        value_of(pairs, name) is Some,
    ensures
        0 <= i < pairs.len(),
        pairs[i].0 == name,
    decreases pairs.len(),
{
    if pairs[0].0 == name {
        0
    } else {
        let rest = pairs.drop_first();
        let i = lemma_value_found(rest, name);
        assert(pairs[i + 1] == rest[i]);
        i + 1
    }
}

/// Where no two of the settings share a name, setting them one after the other
/// gives each name its value; where they do, the last one counts.
pub proof fn law_last_setting_wins(settings: Seq<Pair>, name: Seq<char>, value: Seq<char>)
    ensures
        value_of(with_all(settings.push((name, value))), name) == Some(value),
        forall|other: Seq<char>|
            other != name ==> #[trigger] value_of(with_all(settings.push((name, value))), other)
                == value_of(with_all(settings), other),
        with_all(seq![]) == Seq::<Pair>::empty(),
{
    let more = settings.push((name, value));
    assert(more.drop_last() =~= settings);
    lemma_with_all_ascending(settings);
    lemma_with(with_all(settings), name, value);
}

/// A name has the value of the first pair with that name, and none where no
/// pair has it.
pub proof fn law_first_pair_counts(front: Seq<Pair>, pair: Pair, rest: Seq<Pair>)
    requires
        forall|i: int| 0 <= i < front.len() ==> (#[trigger] front[i]).0 != pair.0,
    ensures
        value_of(front, pair.0) is None,
        value_of(front + seq![pair] + rest, pair.0) == Some(pair.1),
    decreases front.len(),
{
    lemma_value_absent(front, pair.0);
    let all = front + seq![pair] + rest;
    if front.len() > 0 {
        let fewer = front.drop_first();
        assert forall|i: int| 0 <= i < fewer.len() implies (#[trigger] fewer[i]).0 != pair.0 by {
            assert(fewer[i] == front[i + 1]);
        }
        law_first_pair_counts(fewer, pair, rest);
        assert(all[0] == front[0]);
        assert(all.drop_first() =~= fewer + seq![pair] + rest);
    } else {
        assert(all[0] == pair);
    }
}

} // verus!
