//! Block state keys.

use vstd::prelude::*;

use crate::properties;
use crate::properties::Properties;
use crate::text;

verus! {

// Keys

/// The name of a block without its namespace.
pub open spec fn short_name(name: Seq<char>) -> Seq<char> {
    text::trim_prefix(name, "minecraft:"@)
}

/// One property as it stands in a key: `name=value`.
pub open spec fn setting_text(pair: properties::Pair) -> Seq<char> {
    pair.0 + seq!['='] + pair.1
}

/// Properties as they stand in a key, with commas between them.
pub open spec fn joined(pairs: Seq<properties::Pair>) -> Seq<char>
    decreases pairs.len(),
{
    if pairs.len() == 0 {
        seq![]
    } else if pairs.len() == 1 {
        setting_text(pairs[0])
    } else {
        setting_text(pairs[0]) + seq![','] + joined(pairs.drop_first())
    }
}

/// The key of a block state: the short name, and the properties in brackets where it has any.
pub open spec fn key_of(name: Seq<char>, pairs: Seq<properties::Pair>) -> Seq<char> {
    if pairs.len() == 0 {
        short_name(name)
    } else {
        short_name(name) + seq!['['] + joined(pairs) + seq![']']
    }
}

/// The part of a key before the first bracket.
pub open spec fn key_name(key: Seq<char>) -> Seq<char> {
    key.take(text::position(key, '['))
}

/// One property of a key. What holds no `=` is no property.
pub open spec fn setting_of(part: Seq<char>) -> Option<properties::Pair> {
    if part.contains('=') {
        let at = text::position(part, '=');
        Some((part.take(at), part.skip(at + 1)))
    } else {
        None
    }
}

/// The properties among the given parts of a key.
pub open spec fn settings_of(parts: Seq<Seq<char>>) -> Seq<properties::Pair>
    decreases parts.len(),
{
    if parts.len() == 0 {
        seq![]
    } else {
        let rest = settings_of(parts.drop_last());
        match setting_of(parts.last()) {
            Some(pair) => rest.push(pair),
            None => rest,
        }
    }
}

/// What stands between the brackets of a key.
pub open spec fn bracketed(key: Seq<char>) -> Seq<char> {
    key.subrange(text::position(key, '[') + 1, key.len() - 1)
}

/// The properties of a key in alphabetical order. Of a name that stands twice the last one counts.
pub open spec fn key_properties(key: Seq<char>) -> Seq<properties::Pair> {
    if key.contains('[') {
        properties::with_all(settings_of(text::split(bracketed(key), ',')))
    } else {
        seq![]
    }
}

/// Whether a key can be taken apart: where it has a bracket, one more character
/// follows, and the last character is a single byte.
pub open spec fn key_parses(key: Seq<char>) -> bool {
    key.contains('[') ==> text::position(key, '[') + 1 < key.len() && (key.last() as int) < 128
}

/// A key with its properties in alphabetical order.
pub open spec fn normal_key(key: Seq<char>) -> Seq<char> {
    if key.contains('[') {
        key_of(key_name(key), key_properties(key))
    } else {
        key
    }
}

/// The name of a block without its namespace.
pub fn strip_namespace(name: &str) -> (r: &str)
    ensures
        r@ == short_name(name@),
{
    proof {
        reveal_strlit("minecraft:");
    }
    text::trim_start(name, "minecraft:")
}

/// The key of a block state.
pub fn build_block_key(name: &str, properties: &Properties) -> (r: String)
    ensures
        r@ == key_of(name@, properties@),
{
    let mut key: String = strip_namespace(name).to_owned();
    let n: usize = properties.len();
    if n == 0 {
        return key;
    }
    proof {
        reveal_strlit("[");
        reveal_strlit("]");
        reveal_strlit("=");
        reveal_strlit(",");
        assert("["@ =~= seq!['[']);
        assert("]"@ =~= seq![']']);
        assert("="@ =~= seq!['=']);
        assert(","@ =~= seq![',']);
    }
    let ghost head = short_name(name@) + seq!['['];
    key.append("[");
    let mut i: usize = 0;
    assert(properties@.skip(0) =~= properties@);
    assert(key@ =~= head);
    while i < n
        invariant
            n == properties@.len(),
            0 <= i <= n,
            "="@ == seq!['='],
            ","@ == seq![','],
            key@ + joined(properties@.skip(i as int)) == head + joined(properties@),
        decreases n - i,
    {
        let ghost before = key@;
        let ghost rest = properties@.skip(i as int);
        let (k, v) = properties.entry(i);
        key.append(k);
        key.append("=");
        key.append(v);
        if i + 1 < n {
            key.append(",");
        }
        proof {
            let next = properties@.skip(i + 1);
            assert(rest.drop_first() =~= next);
            assert(rest[0] == properties@[i as int]);
            assert(key@ + joined(next) =~= before + joined(rest));
        }
        i += 1;
    }
    assert(key@ =~= head + joined(properties@)) by {
        assert(properties@.skip(n as int) =~= Seq::<properties::Pair>::empty());
    }
    key.append("]");
    assert(key@ =~= key_of(name@, properties@));
    key
}

/// Whether a key can be taken apart.
pub fn can_parse_key(key: &str) -> (r: bool)
    ensures
        r == key_parses(key@),
{
    match text::find(key, '[') {
        None => true,
        Some(at) => {
            proof {
                text::lemma_position(key@, '[');
            }
            let chars = text::to_chars(key);
            let n: usize = chars.len();
            let last: char = chars[n - 1];
            proof {
                text::lemma_char_code(last);
            }
            at + 1 < n && (last as u32) < 128
        },
    }
}

/// Takes a key apart into the block name and the properties.
pub fn parse_key(key: &str) -> (r: (&str, Properties))
    requires
        key_parses(key@),
    ensures
        r.0@ == key_name(key@),
        r.1@ == key_properties(key@),
        r.1.wf(),
{
    match text::find(key, '[') {
        None => {
            proof {
                text::lemma_position(key@, '[');
                assert(key_name(key@) =~= key@);
            }
            (key, Properties::new())
        },
        Some(at) => {
            proof {
                text::lemma_position(key@, '[');
            }
            let n: usize = key.unicode_len();
            let name = text::slice(key, 0, at);
            assert(name@ =~= key_name(key@));
            let inner = text::slice(key, at + 1, n - 1);
            (name, parse_settings(inner))
        },
    }
}

/// The properties in a comma-separated list.
fn parse_settings(list: &str) -> (r: Properties)
    ensures
        r@ == properties::with_all(settings_of(text::split(list@, ','))),
        r.wf(),
{
    let parts = text::split_at_char(list, ',');
    let ghost all = text::views(parts@);
    let mut props = Properties::new();
    let mut i: usize = 0;
    assert(all.take(0) =~= Seq::<Seq<char>>::empty());
    while i < parts.len()
        invariant
            all == text::views(parts@),
            0 <= i <= parts@.len(),
            props.wf(),
            props@ == properties::with_all(settings_of(all.take(i as int))),
        decreases parts.len() - i,
    {
        let part: &str = parts[i];
        proof {
            let next = all.take(i + 1);
            assert(next.drop_last() =~= all.take(i as int));
            assert(next.last() == part@);
            text::lemma_position(part@, '=');
        }
        let ghost before = settings_of(all.take(i as int));
        if let Some(at) = text::find(part, '=') {
            let n: usize = part.unicode_len();
            let k = text::slice(part, 0, at);
            let v = text::slice(part, at + 1, n);
            proof {
                assert(k@ =~= part@.take(at as int));
                assert(v@ =~= part@.skip(at + 1));
                let now = before.push((k@, v@));
                assert(now.drop_last() =~= before);
            }
            props.insert(k.to_owned(), v.to_owned());
        }
        i += 1;
    }
    assert(all.take(parts@.len() as int) =~= all);
    props
}

/// A key with its properties in alphabetical order, as the table holds it.
pub fn normalize_key(key: &str) -> (r: String)
    requires
        key_parses(key@),
    ensures
        r@ == normal_key(key@),
{
    match text::find(key, '[') {
        None => key.to_owned(),
        Some(_) => {
            let (name, props) = parse_key(key);
            build_block_key(name, &props)
        },
    }
}

// Laws of keys

/// Whether a text is free of a character.
pub open spec fn free_of(s: Seq<char>, c: char) -> bool {
    !s.contains(c)
}

/// Whether properties can be read back out of a key: no name holds `=` or `,`
/// and no value holds `,`.
pub open spec fn plain_pairs(pairs: Seq<properties::Pair>) -> bool {
    forall|i: int|
        0 <= i < pairs.len() ==> free_of((#[trigger] pairs[i]).0, '=') && free_of(pairs[i].0, ',')
            && free_of(pairs[i].1, ',')
}

/// The first separator of `head + [sep] + tail` stands behind a head that holds none.
proof fn lemma_position_after(head: Seq<char>, sep: char, tail: Seq<char>)
    requires
        free_of(head, sep),
    ensures
        text::position(head + seq![sep] + tail, sep) == head.len(),
        (head + seq![sep] + tail).contains(sep),
        (head + seq![sep] + tail).take(head.len() as int) == head,
        (head + seq![sep] + tail).skip(head.len() as int + 1) == tail,
{
    let s = head + seq![sep] + tail;
    assert forall|i: int| 0 <= i < head.len() implies s[i] != sep by {
        assert(head.contains(head[i]));
    }
    assert(s[head.len() as int] == sep);
    text::lemma_position_unique(s, sep, head.len() as int);
    assert(s.take(head.len() as int) =~= head);
    assert(s.skip(head.len() as int + 1) =~= tail);
}

/// A property that is written into a key reads back.
proof fn lemma_setting(pair: properties::Pair)
    requires
        free_of(pair.0, '='),
    ensures
        setting_of(setting_text(pair)) == Some(pair),
{
    lemma_position_after(pair.0, '=', pair.1);
}

/// A text is free of a character when its parts are.
proof fn lemma_setting_free(pair: properties::Pair)
    requires
        free_of(pair.0, ','),
        free_of(pair.1, ','),
    ensures
        free_of(setting_text(pair), ','),
{
    let s = setting_text(pair);
    if s.contains(',') {
        let i = choose|i: int| 0 <= i < s.len() && s[i] == ',';
        if i < pair.0.len() {
            assert(pair.0[i] == ',');
        } else if i > pair.0.len() {
            assert(pair.1[i - pair.0.len() - 1] == ',');
        }
    }
}

/// Reading the parts one by one from the front.
proof fn lemma_settings_front(first: Seq<char>, rest: Seq<Seq<char>>)
    ensures
        settings_of(seq![first] + rest) == match setting_of(first) {
            Some(pair) => seq![pair] + settings_of(rest),
            None => settings_of(rest),
        },
    decreases rest.len(),
{
    let all = seq![first] + rest;
    if rest.len() == 0 {
        assert(all.drop_last() =~= Seq::<Seq<char>>::empty());
        assert(all.last() == first);
        assert(settings_of(all.drop_last()) =~= Seq::<properties::Pair>::empty());
        match setting_of(first) {
            Some(pair) => {
                assert(settings_of(all) =~= seq![pair] + settings_of(rest));
            },
            None => {
                assert(settings_of(all) =~= settings_of(rest));
            },
        }
    } else {
        lemma_settings_front(first, rest.drop_last());
        assert(all.drop_last() =~= seq![first] + rest.drop_last());
        assert(all.last() == rest.last());
        match setting_of(first) {
            Some(pair) => {
                assert(settings_of(all) =~= seq![pair] + settings_of(rest));
            },
            None => {},
        }
    }
}

/// Properties that are joined with commas come apart again.
proof fn lemma_joined_splits(pairs: Seq<properties::Pair>)
    requires
        pairs.len() > 0,
        plain_pairs(pairs),
    ensures
        settings_of(text::split(joined(pairs), ',')) == pairs,
    decreases pairs.len(),
{
    let first = pairs[0];
    let rest = pairs.drop_first();
    lemma_setting(first);
    lemma_setting_free(first);
    if pairs.len() == 1 {
        let none = Seq::<Seq<char>>::empty();
        lemma_settings_front(setting_text(first), none);
        assert(text::split(joined(pairs), ',') =~= seq![setting_text(first)] + none);
        assert(settings_of(none) =~= Seq::<properties::Pair>::empty());
        assert(pairs =~= seq![first]);
    } else {
        assert forall|i: int| 0 <= i < rest.len() implies free_of((#[trigger] rest[i]).0, '=')
            && free_of(rest[i].0, ',') && free_of(rest[i].1, ',') by {
            assert(rest[i] == pairs[i + 1]);
        }
        lemma_joined_splits(rest);
        lemma_position_after(setting_text(first), ',', joined(rest));
        lemma_settings_front(setting_text(first), text::split(joined(rest), ','));
        assert(pairs =~= seq![first] + rest);
    }
}

/// Properties that are set in alphabetical order stay as they are.
proof fn lemma_ascending_settled(pairs: Seq<properties::Pair>)
    requires
        properties::ascending(pairs),
    ensures
        properties::with_all(pairs) == pairs,
    decreases pairs.len(),
{
    if pairs.len() > 0 {
        let init = pairs.drop_last();
        lemma_ascending_settled(init);
        assert forall|i: int| 0 <= i < init.len() implies text::before(
            (#[trigger] init[i]).0,
            pairs.last().0,
        ) by {
            assert(init[i] == pairs[i]);
        }
        properties::lemma_with_at(init, pairs.last().0, pairs.last().1, init.len() as int);
        assert(init.insert(init.len() as int, pairs.last()) =~= pairs);
    }
}

/// A key reads back as the name and the properties that it was built from.
pub proof fn law_key_round_trip(name: Seq<char>, pairs: Seq<properties::Pair>)
    requires
        free_of(short_name(name), '['),
        properties::ascending(pairs),
        plain_pairs(pairs),
    ensures
        key_parses(key_of(name, pairs)),
        key_name(key_of(name, pairs)) == short_name(name),
        key_properties(key_of(name, pairs)) == pairs,
{
    let short = short_name(name);
    let key = key_of(name, pairs);
    if pairs.len() == 0 {
        text::lemma_position(short, '[');
        assert(key_name(key) =~= short);
        assert(key_properties(key) =~= pairs);
    } else {
        let tail = joined(pairs) + seq![']'];
        assert(key =~= short + seq!['['] + tail);
        lemma_position_after(short, '[', tail);
        assert(bracketed(key) =~= joined(pairs));
        lemma_joined_splits(pairs);
        lemma_ascending_settled(pairs);
        assert(key.last() == ']');
    }
}

/// A key that is built from a name and properties is normal.
pub proof fn law_built_key_is_normal(name: Seq<char>, pairs: Seq<properties::Pair>)
    requires
        free_of(short_name(name), '['),
        properties::ascending(pairs),
        plain_pairs(pairs),
    ensures
        normal_key(key_of(name, pairs)) == key_of(name, pairs),
{
    law_key_round_trip(name, pairs);
    reveal_strlit("minecraft:");
    text::lemma_trim_prefix_done(name, "minecraft:"@);
}

/// No piece between separators holds a separator.
proof fn lemma_split_pieces(s: Seq<char>, sep: char)
    ensures
        forall|i: int| 0 <= i < text::split(s, sep).len() ==> free_of(#[trigger] text::split(s, sep)[i], sep),
    decreases s.len(),
{
    let parts = text::split(s, sep);
    text::lemma_position(s, sep);
    if s.contains(sep) {
        let at = text::position(s, sep);
        let rest = s.skip(at + 1);
        lemma_split_pieces(rest, sep);
        assert(free_of(s.take(at), sep));
        assert forall|i: int| 0 <= i < parts.len() implies free_of(#[trigger] parts[i], sep) by {
            if i > 0 {
                assert(parts[i] == text::split(rest, sep)[i - 1]);
            }
        }
    }
}

/// Properties read from pieces without commas are plain.
proof fn lemma_settings_plain(parts: Seq<Seq<char>>)
    requires
        forall|i: int| 0 <= i < parts.len() ==> free_of(#[trigger] parts[i], ','),
    ensures
        plain_pairs(settings_of(parts)),
    decreases parts.len(),
{
    if parts.len() > 0 {
        lemma_settings_plain(parts.drop_last());
        let part = parts.last();
        assert(free_of(part, ','));
        text::lemma_position(part, '=');
        if let Some(pair) = setting_of(part) {
            let at = text::position(part, '=');
            if pair.0.contains(',') {
                let i = choose|i: int| 0 <= i < pair.0.len() && pair.0[i] == ',';
                assert(part[i] == ',');
            }
            if pair.1.contains(',') {
                let i = choose|i: int| 0 <= i < pair.1.len() && pair.1[i] == ',';
                assert(part[i + at + 1] == ',');
            }
            assert(free_of(pair.0, '='));
        }
    }
}

/// Setting plain properties gives plain properties.
proof fn lemma_with_all_plain(settings: Seq<properties::Pair>)
    requires
        plain_pairs(settings),
    ensures
        plain_pairs(properties::with_all(settings)),
    decreases settings.len(),
{
    if settings.len() > 0 {
        let init = settings.drop_last();
        assert forall|i: int| 0 <= i < init.len() implies free_of((#[trigger] init[i]).0, '=')
            && free_of(init[i].0, ',') && free_of(init[i].1, ',') by {
            assert(init[i] == settings[i]);
        }
        lemma_with_all_plain(init);
        properties::lemma_with_all_ascending(init);
        let old_pairs = properties::with_all(init);
        let new_pairs = properties::with_all(settings);
        properties::lemma_with(old_pairs, settings.last().0, settings.last().1);
        assert forall|i: int| 0 <= i < new_pairs.len() implies free_of((#[trigger] new_pairs[i]).0, '=')
            && free_of(new_pairs[i].0, ',') && free_of(new_pairs[i].1, ',') by {
            assert(settings[settings.len() - 1] == settings.last());
            if old_pairs.contains(new_pairs[i]) {
                let k = choose|k: int| 0 <= k < old_pairs.len() && old_pairs[k] == new_pairs[i];
                assert(free_of(old_pairs[k].0, '='));
            }
        }
    }
}

/// Normalizing a normal key changes nothing.
pub proof fn law_normal_key_idempotent(key: Seq<char>)
    requires
        key_parses(key),
    ensures
        key_parses(normal_key(key)),
        normal_key(normal_key(key)) == normal_key(key),
{
    if key.contains('[') {
        let name = key_name(key);
        let pairs = key_properties(key);
        text::lemma_position(key, '[');
        lemma_split_pieces(bracketed(key), ',');
        lemma_settings_plain(text::split(bracketed(key), ','));
        lemma_with_all_plain(settings_of(text::split(bracketed(key), ',')));
        properties::lemma_with_all_ascending(settings_of(text::split(bracketed(key), ',')));
        let short = short_name(name);
        text::lemma_trim_prefix_done(name, "minecraft:"@);
        if short.contains('[') {
            let i = choose|i: int| 0 <= i < short.len() && short[i] == '[';
            assert(name[i + name.len() - short.len()] == '[');
            assert(key[i + name.len() - short.len()] == '[');
        }
        law_key_round_trip(name, pairs);
        let again = normal_key(key);
        if pairs.len() > 0 {
            assert(again[short.len() as int] == '[');
            assert(again.contains('['));
        }
    }
}

/// The order in which properties are written in a key does not matter to its normal form:
/// two keys of one name with the same values have one normal form.
pub proof fn law_normal_key_order_free(key1: Seq<char>, key2: Seq<char>)
    requires
        key1.contains('['),
        key2.contains('['),
        key_name(key1) == key_name(key2),
        forall|name: Seq<char>| #[trigger]
            properties::value_of(key_properties(key1), name) == properties::value_of(
                key_properties(key2),
                name,
            ),
    ensures
        normal_key(key1) == normal_key(key2),
{
    properties::lemma_with_all_ascending(settings_of(text::split(bracketed(key1), ',')));
    properties::lemma_with_all_ascending(settings_of(text::split(bracketed(key2), ',')));
    properties::law_properties_extensional(key_properties(key1), key_properties(key2));
}

/// The namespace of a name does not matter to a key, and no other part of the
/// name is lost.
pub proof fn law_namespace_is_dropped(name: Seq<char>, pairs: Seq<properties::Pair>)
    ensures
        short_name("minecraft:"@ + name) == short_name(name),
        key_of("minecraft:"@ + name, pairs) == key_of(name, pairs),
        !"minecraft:"@.is_prefix_of(name) ==> short_name(name) == name,
        !"minecraft:"@.is_prefix_of(short_name(name)),
{
    reveal_strlit("minecraft:");
    text::law_trim_takes_prefixes_off(name, "minecraft:"@);
}

/// A key is written from left to right: the name alone, or the name and the
/// first property in brackets, and every further property before the closing
/// bracket.
pub proof fn law_key_is_written_in_order(
    name: Seq<char>,
    pairs: Seq<properties::Pair>,
    pair: properties::Pair,
)
    ensures
        key_of(name, seq![]) == short_name(name),
        key_of(name, seq![pair]) == short_name(name) + seq!['['] + pair.0 + seq!['='] + pair.1
            + seq![']'],
        pairs.len() > 0 ==> key_of(name, pairs.push(pair)) == key_of(name, pairs).drop_last()
            + seq![','] + pair.0 + seq!['='] + pair.1 + seq![']'],
{
    let one = seq![pair];
    assert(key_of(name, one) =~= short_name(name) + seq!['['] + pair.0 + seq!['='] + pair.1
        + seq![']']);
    if pairs.len() > 0 {
        lemma_joined_push(pairs, pair);
        assert(key_of(name, pairs).drop_last() =~= short_name(name) + seq!['['] + joined(pairs));
        assert(key_of(name, pairs.push(pair)) =~= key_of(name, pairs).drop_last() + seq![',']
            + pair.0 + seq!['='] + pair.1 + seq![']']);
    }
}

/// A further property stands behind a comma.
proof fn lemma_joined_push(pairs: Seq<properties::Pair>, pair: properties::Pair)
    requires
        pairs.len() > 0,
    ensures
        joined(pairs.push(pair)) == joined(pairs) + seq![','] + setting_text(pair),
    decreases pairs.len(),
{
    let more = pairs.push(pair);
    let rest = pairs.drop_first();
    assert(more.drop_first() =~= rest.push(pair));
    if pairs.len() == 1 {
        assert(more.drop_first().len() == 1);
        assert(more.drop_first()[0] == pair);
        assert(joined(more.drop_first()) =~= setting_text(pair));
    } else {
        lemma_joined_push(rest, pair);
    }
    assert(joined(more) =~= joined(pairs) + seq![','] + setting_text(pair));
}

/// A key in brackets gives each of its properties, in any order, the last one of
/// a name counting, and what holds no `=` is skipped.
pub proof fn law_key_lists_properties(
    name: Seq<char>,
    list: Seq<char>,
    pair: properties::Pair,
    junk: Seq<char>,
)
    requires
        free_of(name, '['),
        free_of(pair.0, '='),
        free_of(pair.0, ','),
        free_of(pair.1, ','),
        free_of(junk, '='),
        free_of(junk, ','),
    ensures
        ({
            let key = |inner: Seq<char>| name + seq!['['] + inner + seq![']'];
            let more = key(list + seq![','] + (pair.0 + seq!['='] + pair.1));
            &&& key_name(key(list)) == name
            &&& properties::value_of(key_properties(more), pair.0) == Some(pair.1)
            &&& forall|other: Seq<char>|
                other != pair.0 ==> #[trigger] properties::value_of(key_properties(more), other)
                    == properties::value_of(key_properties(key(list)), other)
            &&& key_properties(key(list + seq![','] + junk)) == key_properties(key(list))
            &&& key_properties(name) == Seq::<properties::Pair>::empty()
        }),
{
    let tail = list + seq![']'];
    assert(name + seq!['['] + list + seq![']'] =~= name + seq!['['] + tail);
    lemma_position_after(name, '[', tail);
    let key = name + seq!['['] + list + seq![']'];
    assert(bracketed(key) =~= list);
    let setting = pair.0 + seq!['='] + pair.1;
    lemma_setting(pair);
    lemma_setting_free(pair);
    lemma_bracketed(name, list + seq![','] + setting);
    lemma_bracketed(name, list + seq![','] + junk);
    text::law_split_is_additive(list, ',', setting);
    text::law_split_is_additive(list, ',', junk);
    text::law_split_is_additive(setting, ',', setting);
    text::law_split_is_additive(junk, ',', junk);
    let parts = text::split(list, ',');
    let a = parts + seq![setting];
    assert(a.drop_last() =~= parts);
    let b = parts + seq![junk];
    assert(b.drop_last() =~= parts);
    properties::law_last_setting_wins(settings_of(parts), pair.0, pair.1);
    assert(settings_of(a) == settings_of(parts).push(pair));
    assert(settings_of(b) == settings_of(parts));
}

/// What stands between the brackets of a key is what was put there.
proof fn lemma_bracketed(name: Seq<char>, inner: Seq<char>)
    requires
        free_of(name, '['),
    ensures
        (name + seq!['['] + inner + seq![']']).contains('['),
        bracketed(name + seq!['['] + inner + seq![']']) == inner,
{
    let tail = inner + seq![']'];
    assert(name + seq!['['] + inner + seq![']'] =~= name + seq!['['] + tail);
    lemma_position_after(name, '[', tail);
    assert(bracketed(name + seq!['['] + inner + seq![']']) =~= inner);
}

/// A property that is written with its value reads back and holds no comma.
pub proof fn lemma_setting_reads(name: Seq<char>, value: Seq<char>)
    requires
        free_of(name, '='),
        free_of(name, ','),
        free_of(value, ','),
    ensures
        setting_of(name + seq!['='] + value) == Some((name, value)),
        free_of(name + seq!['='] + value, ','),
{
    lemma_setting((name, value));
    lemma_setting_free((name, value));
}

/// The last character of a key is taken for the closing bracket, whichever of one
/// byte it is. Without one, or with one of more bytes, a key with an opening
/// bracket can not be taken apart, and without brackets every key can.
pub proof fn law_last_character_is_left_out(name: Seq<char>, inner: Seq<char>, c: char, d: char)
    requires
        free_of(name, '['),
        (c as int) < 128,
        d as int >= 128,
    ensures
        ({
            let key = |last: char| name + seq!['['] + inner + seq![last];
            &&& key_parses(name)
            &&& !key_parses(name + seq!['['])
            &&& key_parses(key(c))
            &&& !key_parses(key(d))
            &&& key_name(key(c)) == name
            &&& key_properties(key(c)) == key_properties(key(']'))
        }),
{
    let open = name + seq!['['];
    assert(open =~= name + seq!['['] + Seq::<char>::empty());
    lemma_position_after(name, '[', seq![]);
    lemma_bracketed(name, inner);
    let key = name + seq!['['] + inner + seq![c];
    assert(key =~= name + seq!['['] + (inner + seq![c]));
    lemma_position_after(name, '[', inner + seq![c]);
    assert(bracketed(key) =~= inner);
    let wide = name + seq!['['] + inner + seq![d];
    assert(wide =~= name + seq!['['] + (inner + seq![d]));
    lemma_position_after(name, '[', inner + seq![d]);
    assert(wide.last() == d);
}

} // verus!
