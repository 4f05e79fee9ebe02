//! Block state files: which models a block state shows.

use vstd::prelude::*;

use crate::properties;
use crate::properties::Properties;
use crate::reader::block_states;
pub use crate::reader::block_states::parse_key;
use crate::reader::block_states::strip_namespace;
pub use crate::reader::table::load_entries;
use crate::text;

verus! {

/// A model and how it is turned.
pub struct Variant {
    pub model: String,
    pub x: u32,
    pub y: u32,
}

/// A model, or a list of models to choose from.
pub enum Apply {
    Single(Variant),
    List(Vec<Variant>),
}

/// A value of a condition.
pub enum WhenValue {
    Text(String),
    List(Vec<WhenValue>),
    Object(Vec<(String, WhenValue)>),
    Other,
}

/// A part of a model that is put together from parts. Without a condition it
/// always applies.
pub struct MultipartEntry {
    pub when: Option<WhenValue>,
    pub apply: Apply,
}

/// A block state file: variants, or parts. The variants are in the order in
/// which they are tried.
pub struct BlockstateJson {
    pub variants: Vec<(String, Apply)>,
    pub multipart: Vec<MultipartEntry>,
}

/// A model by name, and how it is turned around `x` and around `y`.
pub type ModelView = (Seq<char>, u32, u32);

/// Models by name.
pub open spec fn model_views(models: Seq<(String, u32, u32)>) -> Seq<ModelView> {
    models.map_values(|m: (String, u32, u32)| (m.0@, m.1, m.2))
}

/// A model under its short name.
pub open spec fn variant_model(variant: Variant) -> ModelView {
    (block_states::short_name(variant.model@), variant.x, variant.y)
}

/// The model that is shown: of a list the first one, and of an empty list none.
pub open spec fn applied(apply: Apply) -> ModelView {
    match apply {
        Apply::Single(v) => variant_model(v),
        Apply::List(list) => if list@.len() > 0 {
            variant_model(list@[0])
        } else {
            (seq![], 0, 0)
        },
    }
}

/// The value of a field.
pub open spec fn field_of(fields: Seq<(String, WhenValue)>, name: Seq<char>) -> Option<WhenValue>
    decreases fields.len(),
{
    if fields.len() == 0 {
        None
    } else if fields[0].0@ == name {
        Some(fields[0].1)
    } else {
        field_of(fields.drop_first(), name)
    }
}

/// The text that a property is compared with.
pub open spec fn expected_text(value: WhenValue) -> Seq<char> {
    match value {
        WhenValue::Text(s) => s@,
        _ => seq![],
    }
}

/// Whether a property has one of the values that an expected text allows, with
/// `|` between them.
pub open spec fn one_of(
    props: Seq<properties::Pair>,
    name: Seq<char>,
    expected: Seq<char>,
) -> bool {
    exists|j: int|
        0 <= j < text::split(expected, '|').len() && properties::value_of(props, name) == Some(
            #[trigger] text::split(expected, '|')[j],
        )
}

/// Whether all conditions of a set hold. What is no set of conditions holds.
pub open spec fn conditions_hold(cond: WhenValue, props: Seq<properties::Pair>) -> bool {
    match cond {
        WhenValue::Object(fields) => forall|i: int|
            0 <= i < fields@.len() ==> one_of(
                props,
                (#[trigger] fields@[i]).0@,
                expected_text(fields@[i].1),
            ),
        _ => true,
    }
}

/// Whether the condition of a part holds: one of several sets of conditions
/// under `OR`, or a single set.
pub open spec fn when_holds(when: WhenValue, props: Seq<properties::Pair>) -> bool {
    match when {
        WhenValue::Object(fields) => match field_of(fields@, "OR"@) {
            Some(WhenValue::List(list)) => exists|i: int|
                0 <= i < list@.len() && #[trigger] conditions_hold(list@[i], props),
            Some(_) => false,
            None => conditions_hold(when, props),
        },
        _ => conditions_hold(when, props),
    }
}

/// Whether a part applies.
pub open spec fn part_applies(part: MultipartEntry, props: Seq<properties::Pair>) -> bool {
    match part.when {
        Some(when) => when_holds(when, props),
        None => true,
    }
}

/// The models of the parts that apply.
pub open spec fn part_models(parts: Seq<MultipartEntry>, props: Seq<properties::Pair>) -> Seq<
    ModelView,
>
    decreases parts.len(),
{
    if parts.len() == 0 {
        seq![]
    } else {
        let before = part_models(parts.drop_last(), props);
        if part_applies(parts.last(), props) {
            before.push(applied(parts.last().apply))
        } else {
            before
        }
    }
}

/// Whether a variant names only properties that the block state has.
pub open spec fn variant_matches(key: Seq<char>, props: Seq<properties::Pair>) -> bool {
    forall|i: int|
        0 <= i < text::split(key, ',').len() ==> (block_states::setting_of(
            #[trigger] text::split(key, ',')[i],
        ) matches Some(pair) && properties::value_of(props, pair.0) == Some(pair.1))
}

/// How many properties a variant names.
pub open spec fn variant_score(key: Seq<char>) -> nat {
    text::split(key, ',').len()
}

/// Whether a variant names properties, and only those that the block state has.
pub open spec fn is_candidate(key: Seq<char>, props: Seq<properties::Pair>) -> bool {
    key.len() > 0 && variant_matches(key, props)
}

/// Whether variant `i` is the first of the candidates that name the most properties.
pub open spec fn is_best(keys: Seq<Seq<char>>, props: Seq<properties::Pair>, i: int) -> bool {
    &&& 0 <= i < keys.len()
    &&& is_candidate(keys[i], props)
    &&& forall|j: int|
        #![trigger keys[j]]
        0 <= j < keys.len() && is_candidate(keys[j], props) ==> variant_score(keys[j])
            <= variant_score(keys[i])
    &&& forall|j: int|
        #![trigger keys[j]]
        0 <= j < i && is_candidate(keys[j], props) ==> variant_score(keys[j]) < variant_score(
            keys[i],
        )
}

/// Whether variant `i` is the last one without properties.
pub open spec fn is_fallback(keys: Seq<Seq<char>>, i: int) -> bool {
    &&& 0 <= i < keys.len()
    &&& keys[i].len() == 0
    &&& forall|j: int| i < j < keys.len() ==> (#[trigger] keys[j]).len() > 0
}

/// Whether variant `i`, or none, is the one that is shown: the only one, or
/// the best candidate, or one without properties.
pub open spec fn is_chosen(
    keys: Seq<Seq<char>>,
    props: Seq<properties::Pair>,
    chosen: Option<int>,
) -> bool {
    match chosen {
        Some(i) => if keys.len() == 1 {
            i == 0
        } else if exists|j: int| is_best(keys, props, j) {
            is_best(keys, props, i)
        } else {
            is_fallback(keys, i)
        },
        None => {
            &&& keys.len() != 1
            &&& forall|j: int|
                #![trigger keys[j]]
                0 <= j < keys.len() ==> keys[j].len() > 0 && !is_candidate(keys[j], props)
        },
    }
}

/// The keys of variants.
pub open spec fn variant_keys(variants: Seq<(String, Apply)>) -> Seq<Seq<char>> {
    variants.map_values(|v: (String, Apply)| v.0@)
}

/// Whether models are those that a block state file gives for properties.
pub open spec fn are_models(
    bs: BlockstateJson,
    props: Seq<properties::Pair>,
    models: Seq<ModelView>,
) -> bool {
    if bs.variants@.len() > 0 {
        exists|chosen: Option<int>|
            #[trigger] is_chosen(variant_keys(bs.variants@), props, chosen) && models
                == match chosen {
                Some(i) => seq![applied(bs.variants@[i].1)],
                None => seq![],
            }
    } else {
        models == part_models(bs.multipart@, props)
    }
}

/// The path of a block state file in the client archive.
pub fn blockstate_path(short_name: &str) -> (r: String)
    ensures
        r@ == "assets/minecraft/blockstates/"@ + short_name@ + ".json"@,
{
    let mut path: String = "assets/minecraft/blockstates/".to_owned();
    path.append(short_name);
    path.append(".json");
    path
}

/// A model under its short name.
fn model_of_variant(variant: &Variant) -> (r: (String, u32, u32))
    ensures
        (r.0@, r.1, r.2) == variant_model(*variant),
{
    (strip_namespace(variant.model.as_str()).to_owned(), variant.x, variant.y)
}

/// The model that is shown.
pub fn model_from_apply(apply: &Apply) -> (r: (String, u32, u32))
    ensures
        (r.0@, r.1, r.2) == applied(*apply),
{
    match apply {
        Apply::Single(v) => model_of_variant(v),
        Apply::List(list) => if list.len() > 0 {
            model_of_variant(&list[0])
        } else {
            proof {
                reveal_strlit("");
                assert(""@ =~= Seq::<char>::empty());
            }
            ("".to_owned(), 0, 0)
        },
    }
}

/// Whether a property has one of the allowed values.
fn has_one_of(props: &Properties, name: &str, expected: &str) -> (r: bool)
    ensures
        r == one_of(props@, name@, expected@),
{
    let parts = text::split_at_char(expected, '|');
    let ghost all = text::split(expected@, '|');
    let mut j: usize = 0;
    while j < parts.len()
        invariant
            j <= parts@.len(),
            text::views(parts@) == all,
            all == text::split(expected@, '|'),
            forall|k: int|
                0 <= k < j ==> properties::value_of(props@, name@) != Some(#[trigger] all[k]),
        decreases parts.len() - j,
    {
        assert(all[j as int] == parts@[j as int]@);
        if props.has(name, parts[j]) {
            return true;
        }
        j += 1;
    }
    assert(parts@.len() == all.len());
    false
}

/// Whether all conditions of a set hold.
fn all_match(fields: &Vec<(String, WhenValue)>, props: &Properties) -> (r: bool)
    ensures
        r == (forall|i: int|
            0 <= i < fields@.len() ==> one_of(
                props@,
                (#[trigger] fields@[i]).0@,
                expected_text(fields@[i].1),
            )),
{
    proof {
        reveal_strlit("");
        assert(""@ =~= Seq::<char>::empty());
    }
    let mut i: usize = 0;
    while i < fields.len()
        invariant
            i <= fields@.len(),
            ""@ == Seq::<char>::empty(),
            forall|k: int|
                0 <= k < i ==> one_of(
                    props@,
                    (#[trigger] fields@[k]).0@,
                    expected_text(fields@[k].1),
                ),
        decreases fields.len() - i,
    {
        let field = &fields[i];
        let expected: &str = match &field.1 {
            WhenValue::Text(s) => s.as_str(),
            _ => "",
        };
        if !has_one_of(props, field.0.as_str(), expected) {
            assert(!one_of(props@, fields@[i as int].0@, expected_text(fields@[i as int].1)));
            return false;
        }
        i += 1;
    }
    true
}

/// Whether all conditions of a set hold.
pub fn conditions_match(cond: &WhenValue, props: &Properties) -> (r: bool)
    ensures
        r == conditions_hold(*cond, props@),
{
    match cond {
        WhenValue::Object(fields) => all_match(fields, props),
        _ => true,
    }
}

/// Whether one of several sets of conditions holds.
fn any_match(list: &Vec<WhenValue>, props: &Properties) -> (r: bool)
    ensures
        r == (exists|i: int| 0 <= i < list@.len() && #[trigger] conditions_hold(list@[i], props@)),
{
    let mut i: usize = 0;
    while i < list.len()
        invariant
            i <= list@.len(),
            forall|k: int| 0 <= k < i ==> !#[trigger] conditions_hold(list@[k], props@),
        decreases list.len() - i,
    {
        if conditions_match(&list[i], props) {
            return true;
        }
        i += 1;
    }
    false
}

/// The value of a field.
fn find_field<'a>(fields: &'a Vec<(String, WhenValue)>, name: &str) -> (r: Option<&'a WhenValue>)
    ensures
        match r {
            Some(v) => field_of(fields@, name@) == Some(*v),
            None => field_of(fields@, name@) is None,
        },
{
    let mut i: usize = 0;
    assert(fields@.skip(0) =~= fields@);
    while i < fields.len()
        invariant
            i <= fields@.len(),
            field_of(fields@, name@) == field_of(fields@.skip(i as int), name@),
        decreases fields.len() - i,
    {
        assert(fields@.skip(i as int)[0] == fields@[i as int]);
        if text::same(fields[i].0.as_str(), name) {
            return Some(&fields[i].1);
        }
        assert(fields@.skip(i as int).drop_first() =~= fields@.skip(i + 1));
        i += 1;
    }
    assert(fields@.skip(i as int).len() == 0);
    None
}

/// Whether the condition of a part holds.
pub fn when_matches(when: &WhenValue, props: &Properties) -> (r: bool)
    ensures
        r == when_holds(*when, props@),
{
    match when {
        WhenValue::Object(fields) => match find_field(fields, "OR") {
            Some(or) => match or {
                WhenValue::List(list) => any_match(list, props),
                _ => false,
            },
            None => conditions_match(when, props),
        },
        _ => conditions_match(when, props),
    }
}

/// Whether a variant names only properties that the block state has.
fn matches_key(key: &str, props: &Properties) -> (r: Option<usize>)
    ensures
        match r {
            Some(score) => variant_matches(key@, props@) && score == variant_score(key@),
            None => !variant_matches(key@, props@),
        },
{
    let parts = text::split_at_char(key, ',');
    let ghost all = text::split(key@, ',');
    let mut i: usize = 0;
    while i < parts.len()
        invariant
            i <= parts@.len(),
            text::views(parts@) == all,
            all == text::split(key@, ','),
            forall|k: int|
                0 <= k < i ==> (block_states::setting_of(#[trigger] all[k]) matches Some(pair)
                    && properties::value_of(props@, pair.0) == Some(pair.1)),
        decreases parts.len() - i,
    {
        let part = parts[i];
        assert(all[i as int] == part@);
        let good: bool = match text::find(part, '=') {
            Some(at) => {
                let n: usize = part.unicode_len();
                let name = text::slice(part, 0, at);
                let value = text::slice(part, at + 1, n);
                proof {
                    assert(name@ =~= part@.take(at as int));
                    assert(value@ =~= part@.skip(at + 1));
                }
                props.has(name, value)
            },
            None => false,
        };
        if !good {
            return None;
        }
        i += 1;
    }
    assert(parts@.len() == all.len());
    Some(parts.len())
}

/// The variant that is shown.
pub fn find_variant(variants: &Vec<(String, Apply)>, props: &Properties) -> (r: Option<usize>)
    ensures
        match r {
            Some(i) => i < variants@.len() && is_chosen(
                variant_keys(variants@),
                props@,
                Some(i as int),
            ),
            None => is_chosen(variant_keys(variants@), props@, None),
        },
{
    let ghost keys = variant_keys(variants@);
    if variants.len() == 1 {
        return Some(0);
    }
    let mut best: Option<usize> = None;
    let mut best_score: usize = 0;
    let mut fallback: Option<usize> = None;
    let mut i: usize = 0;
    while i < variants.len()
        invariant
            i <= variants@.len(),
            keys == variant_keys(variants@),
            match best {
                Some(b) => best_score == variant_score(keys[b as int]) && is_best(
                    keys.take(i as int),
                    props@,
                    b as int,
                ),
                None => best_score == 0 && forall|j: int|
                    #![trigger keys[j]]
                    0 <= j < i ==> !is_candidate(keys[j], props@),
            },
            match fallback {
                Some(f) => is_fallback(keys.take(i as int), f as int),
                None => forall|j: int| 0 <= j < i ==> (#[trigger] keys[j]).len() > 0,
            },
        decreases variants.len() - i,
    {
        let key = variants[i].0.as_str();
        let ghost seen = keys.take(i as int);
        let ghost next = keys.take(i + 1);
        proof {
            assert(keys[i as int] == key@);
            assert forall|j: int| 0 <= j < i implies #[trigger] next[j] == seen[j] by {}
            assert forall|j: int| 0 <= j < i implies #[trigger] next[j] == keys[j] by {}
        }
        if key.unicode_len() == 0 {
            fallback = Some(i);
            proof {
                assert(is_fallback(next, i as int));
                if let Some(b) = best {
                    lemma_best_stays(seen, next, props@, b as int);
                }
            }
        } else {
            let score = matches_key(key, props);
            proof {
                lemma_split_not_empty(key@);
                if let Some(f) = fallback {
                    assert forall|j: int| f < j < next.len() implies (#[trigger] next[j]).len()
                        > 0 by {
                        if j < i {
                            assert(seen[j].len() > 0);
                        }
                    }
                    assert(is_fallback(next, f as int));
                }
            }
            let better: bool = match score {
                Some(n) => n > best_score,
                None => false,
            };
            if better {
                proof {
                    assert forall|j: int| #![trigger next[j]] 0 <= j < i && is_candidate(
                        next[j],
                        props@,
                    ) implies variant_score(next[j]) < variant_score(next[i as int]) by {
                        assert(next[j] == keys[j] && next[j] == seen[j]);
                    }
                    assert(is_best(next, props@, i as int));
                }
                best = Some(i);
                best_score = score.unwrap();
            } else {
                proof {
                    if let Some(b) = best {
                        lemma_best_stays(seen, next, props@, b as int);
                    }
                }
            }
        }
        i += 1;
    }
    proof {
        assert(keys.take(i as int) =~= keys);
    }
    match best {
        Some(_) => best,
        None => {
            assert(forall|j: int| !is_best(keys, props@, j));
            fallback
        },
    }
}

/// A best candidate stays the best unless the next one names more.
proof fn lemma_best_stays(
    seen: Seq<Seq<char>>,
    next: Seq<Seq<char>>,
    props: Seq<properties::Pair>,
    b: int,
)
    requires
        next.len() == seen.len() + 1,
        forall|j: int| 0 <= j < seen.len() ==> #[trigger] next[j] == seen[j],
        is_best(seen, props, b),
        is_candidate(next[seen.len() as int], props) ==> variant_score(next[seen.len() as int])
            <= variant_score(seen[b]),
    ensures
        is_best(next, props, b),
{
    assert forall|j: int|
        #![trigger next[j]]
        0 <= j < next.len() && is_candidate(next[j], props) implies variant_score(next[j])
        <= variant_score(next[b]) by {
        if j < seen.len() {
            assert(next[j] == seen[j]);
        }
    }
    assert forall|j: int| #![trigger next[j]] 0 <= j < b && is_candidate(next[j], props) implies
        variant_score(next[j]) < variant_score(next[b]) by {
        assert(next[j] == seen[j]);
    }
}

/// Every text has a first piece.
proof fn lemma_split_not_empty(key: Seq<char>)
    ensures
        text::split(key, ',').len() >= 1,
{
}

/// The models that a block state file gives for properties. Without a file
/// there are none.
pub fn find_model(bs: Option<&BlockstateJson>, props: &Properties) -> (r: Vec<(String, u32, u32)>)
    ensures
        match bs {
            Some(file) => are_models(*file, props@, model_views(r@)),
            None => r@.len() == 0,
        },
{
    let mut models: Vec<(String, u32, u32)> = Vec::new();
    let file = match bs {
        None => {
            return models;
        },
        Some(file) => file,
    };
    if file.variants.len() > 0 {
        match find_variant(&file.variants, props) {
            Some(i) => {
                models.push(model_from_apply(&file.variants[i].1));
                proof {
                    assert(model_views(models@) =~= seq![applied(file.variants@[i as int].1)]);
                    assert(is_chosen(variant_keys(file.variants@), props@, Some(i as int)));
                }
            },
            None => {
                assert(model_views(models@) =~= Seq::<ModelView>::empty());
                assert(is_chosen(variant_keys(file.variants@), props@, None));
            },
        }
        return models;
    }
    let ghost parts = file.multipart@;
    let mut i: usize = 0;
    assert(parts.take(0) =~= Seq::<MultipartEntry>::empty());
    assert(model_views(models@) =~= part_models(parts.take(0), props@));
    while i < file.multipart.len()
        invariant
            i <= parts.len(),
            parts == file.multipart@,
            model_views(models@) == part_models(parts.take(i as int), props@),
        decreases file.multipart.len() - i,
    {
        let part = &file.multipart[i];
        let ghost before = models@;
        proof {
            assert(parts.take(i + 1).drop_last() =~= parts.take(i as int));
            assert(parts.take(i + 1).last() == *part);
        }
        let applies: bool = match &part.when {
            Some(when) => when_matches(when, props),
            None => true,
        };
        if applies {
            models.push(model_from_apply(&part.apply));
            assert(model_views(models@) =~= model_views(before).push(applied(part.apply)));
        }
        i += 1;
    }
    assert(parts.take(i as int) =~= parts);
    models
}

/// Two best candidates are the same.
proof fn lemma_best_unique(
    keys: Seq<Seq<char>>,
    props: Seq<properties::Pair>,
    i: int,
    j: int,
)
    requires
        is_best(keys, props, i),
        is_best(keys, props, j),
    ensures
        i == j,
{
    if i < j {
        assert(variant_score(keys[i]) < variant_score(keys[j]));
    } else if j < i {
        assert(variant_score(keys[j]) < variant_score(keys[i]));
    }
}

/// Where there is a candidate, one is the best.
proof fn lemma_best_exists(keys: Seq<Seq<char>>, props: Seq<properties::Pair>, i: int) -> (b: int)
    requires
        0 <= i < keys.len(),
        is_candidate(keys[i], props),
    ensures
        is_best(keys, props, b),
    decreases keys.len(),
{
    let last = keys.len() - 1;
    let front = keys.drop_last();
    assert forall|j: int| 0 <= j < front.len() implies #[trigger] keys[j] == front[j] by {}
    if exists|j: int| 0 <= j < last && is_candidate(#[trigger] front[j], props) {
        let j = choose|j: int| 0 <= j < last && is_candidate(#[trigger] front[j], props);
        let b = lemma_best_exists(front, props, j);
        if is_candidate(keys[last], props) && variant_score(keys[last]) > variant_score(keys[b]) {
            assert forall|k: int|
                #![trigger keys[k]]
                0 <= k < last && is_candidate(keys[k], props) implies variant_score(keys[k])
                < variant_score(keys[last]) by {
                assert(keys[k] == front[k]);
            }
            last
        } else {
            lemma_best_stays(front, keys, props, b);
            b
        }
    } else {
        if i < last {
            assert(front[i] == keys[i]);
        }
        assert forall|k: int| #![trigger keys[k]] 0 <= k < last implies !is_candidate(
            keys[k],
            props,
        ) by {
            assert(keys[k] == front[k]);
        }
        last
    }
}

/// A block state file shows one variant at most for given properties.
pub proof fn law_choice_is_unique(
    keys: Seq<Seq<char>>,
    props: Seq<properties::Pair>,
    a: Option<int>,
    b: Option<int>,
)
    requires
        is_chosen(keys, props, a),
        is_chosen(keys, props, b),
    ensures
        a == b,
{
    if let Some(i) = a {
        if let Some(j) = b {
            if keys.len() != 1 {
                if exists|k: int| is_best(keys, props, k) {
                    lemma_best_unique(keys, props, i, j);
                } else if i < j {
                    assert(keys[j].len() > 0);
                } else if j < i {
                    assert(keys[i].len() > 0);
                }
            }
        }
    }
}

/// Whether no two variants have the same key.
pub open spec fn keys_distinct(keys: Seq<Seq<char>>) -> bool {
    forall|i: int, j: int| 0 <= i < j < keys.len() ==> #[trigger] keys[i] != #[trigger] keys[j]
}

/// Whether no two candidates name equally many properties.
pub open spec fn no_ties(keys: Seq<Seq<char>>, props: Seq<properties::Pair>) -> bool {
    forall|i: int, j: int|
        #![trigger keys[i], keys[j]]
        0 <= i < j < keys.len() && is_candidate(keys[i], props) && is_candidate(keys[j], props)
            ==> variant_score(keys[i]) != variant_score(keys[j])
}

/// The order in which variants are tried does not matter where no two
/// candidates name equally many properties: the variant that is shown has the
/// same key.
pub proof fn law_variant_order_free(
    a: Seq<Seq<char>>,
    b: Seq<Seq<char>>,
    props: Seq<properties::Pair>,
    i: int,
    j: int,
)
    requires
        keys_distinct(a),
        keys_distinct(b),
        forall|key: Seq<char>| #[trigger] a.contains(key) <==> b.contains(key),
        no_ties(a, props),
        is_chosen(a, props, Some(i)),
        is_chosen(b, props, Some(j)),
    ensures
        a[i] == b[j],
{
    assert(0 <= i < a.len() && 0 <= j < b.len());
    assert(a.contains(a[i]) && b.contains(b[j]));
    assert(b.contains(a[i]) && a.contains(b[j]));
    let ib = choose|k: int| 0 <= k < b.len() && b[k] == a[i];
    let ja = choose|k: int| 0 <= k < a.len() && a[k] == b[j];
    if a.len() == 1 || b.len() == 1 {
        // All keys of the one are the single key of the other.
        if a.len() == 1 {
            assert(a[ja] == a[0]);
        } else {
            assert(b[ib] == b[0]);
        }
    } else if exists|k: int| is_best(a, props, k) {
        assert(is_candidate(b[ib], props));
        lemma_best_exists(b, props, ib);
        assert(is_best(b, props, j));
        assert(variant_score(b[ib]) <= variant_score(b[j]));
        assert(variant_score(a[ja]) <= variant_score(a[i]));
        if ja != i {
            assert(variant_score(a[ja]) != variant_score(a[i]));
        }
    } else {
        if exists|k: int| is_best(b, props, k) {
            assert(is_best(b, props, j));
            lemma_best_exists(a, props, ja);
        }
        assert(a[i].len() == 0 && b[j].len() == 0);
        assert(a[i] =~= b[j]);
    }
}

/// A property has one of several values exactly if it has one of the first or
/// one of the others, whichever way they are parted, and a single value exactly
/// if it is that one. So the order of the values does not matter.
pub proof fn law_alternatives_are_any_of(
    props: Seq<properties::Pair>,
    name: Seq<char>,
    a: Seq<char>,
    b: Seq<char>,
)
    ensures
        one_of(props, name, a + seq!['|'] + b) <==> one_of(props, name, a) || one_of(
            props,
            name,
            b,
        ),
        !a.contains('|') ==> (one_of(props, name, a) <==> properties::value_of(props, name) == Some(
            a,
        )),
{
    text::law_split_is_additive(a, '|', b);
    let s = text::split(a, '|');
    let t = text::split(b, '|');
    let all = text::split(a + seq!['|'] + b, '|');
    let value = properties::value_of(props, name);
    if one_of(props, name, a + seq!['|'] + b) {
        let j = choose|j: int| 0 <= j < all.len() && value == Some(#[trigger] all[j]);
        if j < s.len() {
            assert(value == Some(s[j]));
        } else {
            assert(value == Some(t[j - s.len()]));
        }
    }
    if one_of(props, name, a) {
        let j = choose|j: int| 0 <= j < s.len() && value == Some(#[trigger] s[j]);
        assert(all[j] == s[j]);
    }
    if one_of(props, name, b) {
        let j = choose|j: int| 0 <= j < t.len() && value == Some(#[trigger] t[j]);
        assert(all[s.len() + j] == t[j]);
    }
    if !a.contains('|') {
        assert(s[0] == a);
    }
}

/// A set of conditions holds exactly if all of its conditions do: without any it
/// holds, and with one more it holds where it did and that one holds too. What is
/// no text is compared with the empty text.
pub proof fn law_conditions_are_all_of(
    props: Seq<properties::Pair>,
    some: Vec<(String, WhenValue)>,
    more: Vec<(String, WhenValue)>,
    name: String,
    value: WhenValue,
)
    requires
        more@ == some@.push((name, value)),
    ensures
        some@.len() == 0 ==> conditions_hold(WhenValue::Object(some), props),
        conditions_hold(WhenValue::Object(more), props) <==> conditions_hold(
            WhenValue::Object(some),
            props,
        ) && one_of(
            props,
            name@,
            match value {
                WhenValue::Text(s) => s@,
                _ => Seq::<char>::empty(),
            },
        ),
{
    let last = some@.len() as int;
    let few = WhenValue::Object(some);
    let all = WhenValue::Object(more);
    assert(few->Object_0 == some && all->Object_0 == more);
    assert(more@[last] == (name, value));
    assert(forall|i: int| 0 <= i < last ==> #[trigger] more@[i] == some@[i]);
    if conditions_hold(all, props) {
        assert forall|i: int| 0 <= i < some@.len() implies one_of(
            props,
            (#[trigger] some@[i]).0@,
            expected_text(some@[i].1),
        ) by {
            assert(more@[i] == some@[i]);
        }
        assert(one_of(props, more@[last].0@, expected_text(more@[last].1)));
    }
}

/// Sets of conditions under `OR` hold exactly if one of them does, whatever else
/// stands beside them; without such a field the conditions themselves count.
pub proof fn law_or_is_any_of(
    props: Seq<properties::Pair>,
    fields: Vec<(String, WhenValue)>,
    others: Vec<(String, WhenValue)>,
    some: Vec<WhenValue>,
    more: Vec<WhenValue>,
    set: WhenValue,
    i: int,
)
    requires
        more@ == some@.push(set),
        0 <= i < fields@.len(),
        fields@[i].0@ == "OR"@,
        forall|k: int| 0 <= k < i ==> (#[trigger] fields@[k]).0@ != "OR"@,
        fields@[i].1 == WhenValue::List(more),
        others@ == fields@.update(i, (fields@[i].0, WhenValue::List(some))),
    ensures
        when_holds(WhenValue::Object(fields), props) <==> when_holds(
            WhenValue::Object(others),
            props,
        ) || conditions_hold(set, props),
        some@.len() == 0 ==> !when_holds(WhenValue::Object(others), props),
{
    let list = WhenValue::List(some);
    assert(fields@[i].1->List_0 == more && list->List_0 == some);
    let whole = WhenValue::Object(fields);
    let part = WhenValue::Object(others);
    assert(whole->Object_0 == fields && part->Object_0 == others);
    lemma_field_found(fields@, "OR"@, i);
    assert forall|k: int| 0 <= k < i implies (#[trigger] others@[k]).0@ != "OR"@ by {
        assert(others@[k] == fields@[k]);
    }
    lemma_field_found(others@, "OR"@, i);
    let last = some@.len() as int;
    assert(more@[last] == set);
    if exists|k: int| 0 <= k < some@.len() && #[trigger] conditions_hold(some@[k], props) {
        let k = choose|k: int| 0 <= k < some@.len() && #[trigger] conditions_hold(some@[k], props);
        assert(conditions_hold(more@[k], props));
    }
    if exists|k: int| 0 <= k < more@.len() && #[trigger] conditions_hold(more@[k], props) {
        let k = choose|k: int| 0 <= k < more@.len() && #[trigger] conditions_hold(more@[k], props);
        if k < last {
            assert(conditions_hold(some@[k], props));
        }
    }
}

/// A field is the first one with its name.
proof fn lemma_field_found(fields: Seq<(String, WhenValue)>, name: Seq<char>, i: int)
    requires
        0 <= i < fields.len(),
        fields[i].0@ == name,
        forall|k: int| 0 <= k < i ==> (#[trigger] fields[k]).0@ != name,
    ensures
        field_of(fields, name) == Some(fields[i].1),
    decreases i,
{
    if i > 0 {
        assert(fields[0].0@ != name);
        let rest = fields.drop_first();
        assert forall|k: int| 0 <= k < i - 1 implies (#[trigger] rest[k]).0@ != name by {
            assert(rest[k] == fields[k + 1]);
        }
        lemma_field_found(rest, name, i - 1);
    }
}

/// A field that stands nowhere is not found.
proof fn lemma_field_absent(fields: Seq<(String, WhenValue)>, name: Seq<char>)
    requires
        forall|k: int| 0 <= k < fields.len() ==> (#[trigger] fields[k]).0@ != name,
    ensures
        field_of(fields, name) is None,
    decreases fields.len(),
{
    if fields.len() > 0 {
        assert(fields[0].0@ != name);
        let rest = fields.drop_first();
        assert forall|k: int| 0 <= k < rest.len() implies (#[trigger] rest[k]).0@ != name by {
            assert(rest[k] == fields[k + 1]);
        }
        lemma_field_absent(rest, name);
    }
}

/// Without a field `OR` all conditions have to hold.
pub proof fn law_conditions_without_or(
    props: Seq<properties::Pair>,
    fields: Vec<(String, WhenValue)>,
)
    requires
        forall|k: int| 0 <= k < fields@.len() ==> (#[trigger] fields@[k]).0@ != "OR"@,
    ensures
        when_holds(WhenValue::Object(fields), props) <==> conditions_hold(
            WhenValue::Object(fields),
            props,
        ),
{
    lemma_field_absent(fields@, "OR"@);
}

/// The models of parts come part by part: a part adds its model at the end exactly
/// if it has no condition or its condition holds.
pub proof fn law_parts_come_in_order(
    parts: Seq<MultipartEntry>,
    part: MultipartEntry,
    props: Seq<properties::Pair>,
)
    ensures
        part_models(seq![], props) == Seq::<ModelView>::empty(),
        part_models(parts.push(part), props) == if part.when is None || when_holds(
            part.when->0,
            props,
        ) {
            part_models(parts, props).push(applied(part.apply))
        } else {
            part_models(parts, props)
        },
{
    assert(parts.push(part).drop_last() =~= parts);
}

/// The model of a list is its first one, as if it stood alone, and a model keeps
/// how it is turned and loses its namespace.
pub proof fn law_first_of_a_list_is_shown(list: Vec<Variant>, plain: Variant, named: Variant)
    requires
        named.model@ == "minecraft:"@ + plain.model@,
        named.x == plain.x,
        named.y == plain.y,
    ensures
        list@.len() > 0 ==> applied(Apply::List(list)) == applied(Apply::Single(list@[0])),
        applied(Apply::Single(plain)).1 == plain.x,
        applied(Apply::Single(plain)).2 == plain.y,
        applied(Apply::Single(named)) == applied(Apply::Single(plain)),
        !"minecraft:"@.is_prefix_of(plain.model@) ==> applied(Apply::Single(plain)).0
            == plain.model@,
{
    block_states::law_namespace_is_dropped(plain.model@, seq![]);
}

/// A variant that names one property matches exactly if the block state has it
/// with that value, and one that names more matches exactly if each part of the
/// key does. The number of named properties adds up.
pub proof fn law_variant_matches_all_of(
    props: Seq<properties::Pair>,
    a: Seq<char>,
    b: Seq<char>,
    name: Seq<char>,
    value: Seq<char>,
)
    requires
        !name.contains('='),
        !name.contains(','),
        !value.contains(','),
    ensures
        variant_matches(a + seq![','] + b, props) <==> variant_matches(a, props)
            && variant_matches(b, props),
        variant_score(a + seq![','] + b) == variant_score(a) + variant_score(b),
        variant_score(name + seq!['='] + value) == 1,
        variant_matches(name + seq!['='] + value, props) <==> properties::value_of(props, name)
            == Some(value),
{
    text::law_split_is_additive(a, ',', b);
    let s = text::split(a, ',');
    let t = text::split(b, ',');
    let all = text::split(a + seq![','] + b, ',');
    if variant_matches(a + seq![','] + b, props) {
        assert forall|i: int| 0 <= i < s.len() implies (block_states::setting_of(
            #[trigger] s[i],
        ) matches Some(pair) && properties::value_of(props, pair.0) == Some(pair.1)) by {
            assert(all[i] == s[i]);
        }
        assert forall|i: int| 0 <= i < t.len() implies (block_states::setting_of(
            #[trigger] t[i],
        ) matches Some(pair) && properties::value_of(props, pair.0) == Some(pair.1)) by {
            assert(all[s.len() + i] == t[i]);
        }
    }
    if variant_matches(a, props) && variant_matches(b, props) {
        assert forall|i: int| 0 <= i < all.len() implies (block_states::setting_of(
            #[trigger] all[i],
        ) matches Some(pair) && properties::value_of(props, pair.0) == Some(pair.1)) by {
            if i < s.len() {
                assert(all[i] == s[i]);
            } else {
                assert(all[i] == t[i - s.len()]);
            }
        }
    }
    let one = name + seq!['='] + value;
    block_states::lemma_setting_reads(name, value);
    text::law_split_is_additive(one, ',', one);
    assert(text::split(one, ',')[0] == one);
}

/// The variant that is shown: the only one there is; else one that matches, of
/// those the one that names the most properties, and of these the first; else the
/// last one without properties.
pub proof fn law_most_specific_variant_is_shown(
    keys: Seq<Seq<char>>,
    props: Seq<properties::Pair>,
    i: int,
    j: int,
)
    requires
        is_chosen(keys, props, Some(i)),
        0 <= j < keys.len(),
    ensures
        0 <= i < keys.len(),
        keys.len() > 1 && keys[j].len() > 0 && variant_matches(keys[j], props) ==> {
            &&& keys[i].len() > 0
            &&& variant_matches(keys[i], props)
            &&& variant_score(keys[j]) <= variant_score(keys[i])
            &&& variant_score(keys[j]) == variant_score(keys[i]) ==> i <= j
        },
        keys.len() > 1 && keys[i].len() == 0 ==> (keys[j].len() == 0 ==> j <= i) && !(keys[j].len()
            > 0 && variant_matches(keys[j], props)),
        keys.len() > 1 && keys[i].len() > 0 ==> variant_matches(keys[i], props),
{
    if keys.len() > 1 {
        if is_candidate(keys[j], props) {
            lemma_best_exists(keys, props, j);
        }
        if exists|k: int| is_best(keys, props, k) {
            assert(is_best(keys, props, i));
        }
    }
}

/// A variant is shown wherever there is one that matches, one without properties,
/// or only one.
pub proof fn law_matching_variant_is_not_passed_over(
    keys: Seq<Seq<char>>,
    props: Seq<properties::Pair>,
    j: int,
)
    requires
        is_chosen(keys, props, None),
        0 <= j < keys.len(),
    ensures
        keys.len() > 1,
        keys[j].len() > 0,
        !variant_matches(keys[j], props),
{
    assert(keys[j].len() > 0 && !is_candidate(keys[j], props));
}

/// A condition that is no set of conditions always holds, but what stands under
/// `OR` has to be a list.
pub proof fn law_conditions_of_other_kinds(
    props: Seq<properties::Pair>,
    cond: WhenValue,
    fields: Vec<(String, WhenValue)>,
    i: int,
)
    requires
        !(cond is Object),
        0 <= i < fields@.len(),
        fields@[i].0@ == "OR"@,
        forall|k: int| 0 <= k < i ==> (#[trigger] fields@[k]).0@ != "OR"@,
        !(fields@[i].1 is List),
    ensures
        conditions_hold(cond, props),
        when_holds(cond, props),
        !when_holds(WhenValue::Object(fields), props),
{
    let whole = WhenValue::Object(fields);
    assert(whole->Object_0 == fields);
    lemma_field_found(fields@, "OR"@, i);
}

/// A block state with variants has the model of the one that is chosen, or none,
/// and its parts do not count. Without variants it has the models of its parts.
pub proof fn law_variants_come_first(
    bs: BlockstateJson,
    props: Seq<properties::Pair>,
    models: Seq<ModelView>,
)
    requires
        are_models(bs, props, models),
    ensures
        bs.variants@.len() == 0 ==> models == part_models(bs.multipart@, props),
        bs.variants@.len() > 0 ==> models.len() <= 1,
        bs.variants@.len() > 0 && models.len() == 0 ==> is_chosen(
            variant_keys(bs.variants@),
            props,
            None,
        ),
        bs.variants@.len() > 0 && models.len() == 1 ==> exists|i: int| #[trigger]
            is_chosen(variant_keys(bs.variants@), props, Some(i)) && models[0] == applied(
                bs.variants@[i].1,
            ),
{
    if bs.variants@.len() > 0 {
        let keys = variant_keys(bs.variants@);
        let chosen = choose|chosen: Option<int>|
            #[trigger] is_chosen(keys, props, chosen) && models == match chosen {
                Some(i) => seq![applied(bs.variants@[i].1)],
                None => seq![],
            };
        if let Some(i) = chosen {
            assert(is_chosen(keys, props, Some(i)));
        }
    }
}

/// A list of models that holds none stands for a model without a name.
pub proof fn law_empty_list_has_no_model(list: Vec<Variant>)
    requires
        list@.len() == 0,
    ensures
        applied(Apply::List(list)).0 == Seq::<char>::empty(),
        applied(Apply::List(list)).1 == 0,
        applied(Apply::List(list)).2 == 0,
{
    let apply = Apply::List(list);
    assert(apply->List_0 == list);
}

} // verus!
