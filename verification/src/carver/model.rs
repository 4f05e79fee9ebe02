//! Block models: inheritance, texture variables and faces.

use vstd::prelude::*;

use crate::carver::face;
pub use crate::carver::face::FaceDir;
use crate::properties;
use crate::properties::Properties;
use crate::reader::block_states;
use crate::reader::block_states::strip_namespace;
use crate::text;

verus! {

/// How many models a chain of parents may hold.
pub const MAX_DEPTH: usize = 64;

/// How often texture variables are substituted.
pub const MAX_PASSES: usize = 16;

/// A model as it is stored, with elements of any kind.
pub struct RawModel<E> {
    pub parent: Option<String>,
    pub textures: Vec<(String, String)>,
    pub elements: Option<Vec<E>>,
}

/// The path of a model in the client archive.
pub open spec fn path_of(name: Seq<char>) -> Seq<char> {
    "assets/minecraft/models/"@ + block_states::short_name(name) + ".json"@
}

/// The path of a model in the client archive.
pub fn model_path(name: &str) -> (r: String)
    ensures
        r@ == path_of(name@),
{
    let mut path: String = "assets/minecraft/models/".to_owned();
    path.append(strip_namespace(name));
    path.append(".json");
    path
}

/// Texture variables with those of a parent, which count where a variable is not set yet.
pub open spec fn inherited(
    textures: Seq<properties::Pair>,
    parent: Seq<properties::Pair>,
) -> Seq<properties::Pair>
    decreases parent.len(),
{
    if parent.len() == 0 {
        textures
    } else {
        let rest = inherited(textures, parent.drop_last());
        let pair = parent.last();
        if properties::value_of(rest, pair.0) is Some {
            rest
        } else {
            properties::with(rest, pair.0, pair.1)
        }
    }
}

/// A walk along a chain of parents.
pub struct ModelChain<E> {
    /// The model to look at next.
    pub current: String,
    /// How many models were looked at.
    pub depth: usize,
    /// The texture variables found so far.
    pub textures: Properties,
    /// The elements found so far.
    pub elements: Option<Vec<E>>,
}

/// What to do next on a walk.
pub enum ChainStep {
    /// Give up: the chain is too long.
    TooDeep,
    /// Stop: the model is built in.
    Finished,
    /// Load the model with a path.
    Load(String),
}

/// Whether a step is the next one of a walk that is at a model after a number of others.
pub open spec fn is_step(depth: int, current: Seq<char>, step: ChainStep) -> bool {
    match step {
        ChainStep::TooDeep => depth == MAX_DEPTH,
        ChainStep::Finished => depth < MAX_DEPTH && text::occurs(current, "builtin"@),
        ChainStep::Load(path) => depth < MAX_DEPTH && !text::occurs(current, "builtin"@) && path@
            == path_of(current),
    }
}

/// The elements of a walk after a model: those found before, or else its own.
pub open spec fn nearest_elements<E>(found: Option<Vec<E>>, own: Option<Vec<E>>) -> Option<
    Vec<E>,
> {
    if found is Some {
        found
    } else {
        own
    }
}

impl<E> ModelChain<E> {
    /// Whether the walk is in order.
    pub open spec fn wf(&self) -> bool {
        self.textures.wf() && self.depth <= MAX_DEPTH
    }

    /// A walk that starts with a model.
    pub fn start(name: &str) -> (r: ModelChain<E>)
        ensures
            r.wf(),
            r.current@ == name@,
            r.depth == 0,
            r.textures@ == Seq::<properties::Pair>::empty(),
            r.elements is None,
    {
        ModelChain {
            current: name.to_owned(),
            depth: 0,
            textures: Properties::new(),
            elements: None,
        }
    }

    /// What to do next. A model counts once it is to be loaded.
    pub fn next(&mut self) -> (r: ChainStep)
        requires
            old(self).wf(),
        ensures
            final(self).wf(),
            final(self).current == old(self).current,
            final(self).textures == old(self).textures,
            final(self).elements == old(self).elements,
            is_step(old(self).depth as int, old(self).current@, r),
            final(self).depth == old(self).depth + if r is Load {
                1int
            } else {
                0int
            },
    {
        if self.depth >= MAX_DEPTH {
            return ChainStep::TooDeep;
        }
        if text::contains_text(self.current.as_str(), "builtin") {
            return ChainStep::Finished;
        }
        self.depth = self.depth + 1;
        ChainStep::Load(model_path(self.current.as_str()))
    }

    /// Takes in a model that was loaded, and tells whether the walk goes on:
    /// it does if there is a model and it has a parent.
    pub fn take(&mut self, model: Option<RawModel<E>>) -> (goes_on: bool)
        requires
            old(self).wf(),
        ensures
            final(self).wf(),
            final(self).depth == old(self).depth,
            match model {
                None => !goes_on && final(self).current == old(self).current
                    && final(self).textures@ == old(self).textures@ && final(self).elements
                    == old(self).elements,
                Some(raw) => {
                    &&& final(self).textures@ == inherited(
                        old(self).textures@,
                        properties::pair_views(raw.textures@),
                    )
                    &&& final(self).elements == nearest_elements(old(self).elements, raw.elements)
                    &&& goes_on == (raw.parent is Some)
                    &&& final(self).current@ == match raw.parent {
                        Some(p) => p@,
                        None => old(self).current@,
                    }
                },
            },
    {
        match model {
            None => false,
            Some(raw) => {
                let ghost start = self.textures@;
                let ghost pairs = properties::pair_views(raw.textures@);
                let ghost was = *self;
                let mut i: usize = 0;
                assert(pairs.take(0) =~= Seq::<properties::Pair>::empty());
                while i < raw.textures.len()
                    invariant
                        i <= raw.textures@.len(),
                        pairs == properties::pair_views(raw.textures@),
                        self.wf(),
                        self.current == was.current,
                        self.depth == was.depth,
                        self.elements == was.elements,
                        self.textures@ == inherited(start, pairs.take(i as int)),
                    decreases raw.textures.len() - i,
                {
                    let name = raw.textures[i].0.as_str();
                    proof {
                        assert(pairs.take(i + 1).drop_last() =~= pairs.take(i as int));
                        assert(pairs.take(i + 1).last() == pairs[i as int]);
                    }
                    if self.textures.get(name).is_none() {
                        self.textures.insert(name.to_owned(), raw.textures[i].1.clone());
                    }
                    i += 1;
                }
                assert(pairs.take(i as int) =~= pairs);
                if self.elements.is_none() {
                    self.elements = raw.elements;
                }
                match raw.parent {
                    Some(p) => {
                        self.current = p;
                        true
                    },
                    None => false,
                }
            },
        }
    }
}

/// A walk gives up once it has looked at 64 models. Before that it stops
/// at a model exactly if `builtin` stands somewhere in its name, and else loads it.
pub proof fn law_steps_of_a_walk(
    depth: int,
    current: Seq<char>,
    before: Seq<char>,
    after: Seq<char>,
    step: ChainStep,
)
    requires
        is_step(depth, current, step),
        depth <= MAX_DEPTH,
    ensures
        step is TooDeep <==> depth == 64,
        depth < 64 && current == before + "builtin"@ + after ==> step is Finished,
        step is Finished ==> exists|l: Seq<char>, r: Seq<char>| current == #[trigger] (l
            + "builtin"@ + r),
        step is Load ==> step->Load_0@ == path_of(current),
{
    text::law_occurs_in_the_middle(current, before, "builtin"@, after);
}

/// The elements of the first model that has some are kept, whatever models come
/// after it.
pub proof fn law_first_elements_are_kept<E>(
    found: Option<Vec<E>>,
    own: Option<Vec<E>>,
    later: Option<Vec<E>>,
)
    ensures
        found is Some ==> nearest_elements(nearest_elements(found, own), later) == found,
        found is None && own is Some ==> nearest_elements(nearest_elements(found, own), later)
            == own,
        found is None && own is None ==> nearest_elements(nearest_elements(found, own), later)
            == later,
{
}

/// A texture variable keeps the value of the first model that sets it.
pub proof fn law_nearest_model_wins(
    textures: Seq<properties::Pair>,
    parent: Seq<properties::Pair>,
    name: Seq<char>,
)
    requires
        properties::ascending(textures),
    ensures
        properties::ascending(inherited(textures, parent)),
        properties::value_of(inherited(textures, parent), name) == match properties::value_of(
            textures,
            name,
        ) {
            Some(value) => Some(value),
            None => properties::value_of(parent, name),
        },
    decreases parent.len(),
{
    if parent.len() > 0 {
        let front = parent.drop_last();
        let pair = parent.last();
        let rest = inherited(textures, front);
        law_nearest_model_wins(textures, front, name);
        law_nearest_model_wins(textures, front, pair.0);
        properties::lemma_with(rest, pair.0, pair.1);
        lemma_value_in_longer(parent, name);
    }
}

/// A later pair counts where none before it has the name.
proof fn lemma_value_in_longer(pairs: Seq<properties::Pair>, name: Seq<char>)
    requires
        pairs.len() > 0,
    ensures
        properties::value_of(pairs, name) == match properties::value_of(pairs.drop_last(), name) {
            Some(value) => Some(value),
            None => if pairs.last().0 == name {
                Some(pairs.last().1)
            } else {
                None
            },
        },
    decreases pairs.len(),
{
    if pairs.len() > 1 {
        lemma_value_in_longer(pairs.drop_first(), name);
        assert(pairs.drop_first().drop_last() =~= pairs.drop_last().drop_first());
        assert(pairs.drop_last()[0] == pairs[0]);
        assert(pairs.drop_first().last() == pairs.last());
    } else {
        assert(pairs.drop_first().len() == 0);
        assert(properties::value_of(pairs.drop_first(), name) is None);
        assert(pairs.drop_last().len() == 0);
        assert(pairs.last() == pairs[0]);
    }
}

/// Whether a texture is a variable that names another one.
pub open spec fn is_variable(value: Seq<char>) -> bool {
    value.len() > 0 && value[0] == '#'
}

/// The texture that a variable leads to over at most `n` others.
pub open spec fn leads_to(textures: Seq<properties::Pair>, name: Seq<char>, n: nat) -> Option<
    Seq<char>,
>
    decreases n,
{
    match properties::value_of(textures, name) {
        None => None,
        Some(value) => if !is_variable(value) {
            Some(value)
        } else if n == 0 {
            None
        } else {
            leads_to(textures, value.skip(1), (n - 1) as nat)
        },
    }
}

/// Whether a variable is left as it was, or has the texture that it leads to.
pub open spec fn kept_or_resolved(
    before: Seq<properties::Pair>,
    after: Seq<properties::Pair>,
    name: Seq<char>,
) -> bool {
    properties::value_of(after, name) == properties::value_of(before, name) || exists|n: nat|
        (#[trigger] leads_to(before, name, n)) is Some && properties::value_of(after, name)
            == leads_to(before, name, n)
}

/// Whether a variable that leads to a texture over at most `n` others has it.
pub open spec fn resolved_within(
    before: Seq<properties::Pair>,
    after: Seq<properties::Pair>,
    name: Seq<char>,
    n: nat,
) -> bool {
    leads_to(before, name, n) is Some ==> properties::value_of(after, name) == leads_to(
        before,
        name,
        n,
    )
}

/// More steps lead to the same texture.
proof fn lemma_leads_further(
    textures: Seq<properties::Pair>,
    name: Seq<char>,
    m: nat,
    n: nat,
)
    requires
        m <= n,
        leads_to(textures, name, m) is Some,
    ensures
        leads_to(textures, name, n) == leads_to(textures, name, m),
        !is_variable(leads_to(textures, name, m)->0),
    decreases n,
{
    let value = properties::value_of(textures, name)->0;
    if is_variable(value) {
        lemma_leads_further(textures, value.skip(1), (m - 1) as nat, (n - 1) as nat);
    }
}

/// Two numbers of steps lead to the same texture.
proof fn lemma_leads_unique(textures: Seq<properties::Pair>, name: Seq<char>, m: nat, n: nat)
    requires
        leads_to(textures, name, m) is Some,
        leads_to(textures, name, n) is Some,
    ensures
        leads_to(textures, name, m) == leads_to(textures, name, n),
{
    if m <= n {
        lemma_leads_further(textures, name, m, n);
    } else {
        lemma_leads_further(textures, name, n, m);
    }
}

/// The texture that can be put in place of a variable right away.
pub open spec fn substitute(textures: Seq<properties::Pair>, name: Seq<char>) -> Option<Seq<char>> {
    match properties::value_of(textures, name) {
        Some(value) => if is_variable(value) {
            match properties::value_of(textures, value.skip(1)) {
                Some(found) => if is_variable(found) {
                    None
                } else {
                    Some(found)
                },
                None => None,
            }
        } else {
            None
        },
        None => None,
    }
}

/// What can be put in place of a variable is what it leads to.
proof fn lemma_substitute(
    before: Seq<properties::Pair>,
    now: Seq<properties::Pair>,
    name: Seq<char>,
)
    requires
        forall|other: Seq<char>| #[trigger] kept_or_resolved(before, now, other),
        substitute(now, name) is Some,
    ensures
        exists|n: nat| #[trigger] leads_to(before, name, n) == substitute(now, name),
{
    assert(kept_or_resolved(before, now, name));
    let value = properties::value_of(now, name)->0;
    if properties::value_of(now, name) != properties::value_of(before, name) {
        let n = choose|n: nat|
            (#[trigger] leads_to(before, name, n)) is Some && properties::value_of(now, name)
                == leads_to(before, name, n);
        lemma_leads_further(before, name, n, n);
    }
    let inner = value.skip(1);
    assert(kept_or_resolved(before, now, inner));
    let found = properties::value_of(now, inner)->0;
    if properties::value_of(now, inner) == properties::value_of(before, inner) {
        assert(leads_to(before, inner, 0) == Some(found));
        assert(leads_to(before, name, 1) == Some(found));
    } else {
        let n = choose|n: nat|
            (#[trigger] leads_to(before, inner, n)) is Some && properties::value_of(now, inner)
                == leads_to(before, inner, n);
        assert(leads_to(before, name, n + 1) == Some(found));
    }
}

/// Where nothing can be put in place of a variable any more, it has what it
/// leads to, once those on its way have.
proof fn lemma_nothing_left(
    before: Seq<properties::Pair>,
    now: Seq<properties::Pair>,
    name: Seq<char>,
    n: nat,
)
    requires
        forall|other: Seq<char>| #[trigger] kept_or_resolved(before, now, other),
        substitute(now, name) is None,
        n > 0 ==> forall|other: Seq<char>|
            #[trigger] resolved_within(before, now, other, (n - 1) as nat),
    ensures
        resolved_within(before, now, name, n),
{
    assert(kept_or_resolved(before, now, name));
    if leads_to(before, name, n) is Some {
        let old_value = properties::value_of(before, name)->0;
        if properties::value_of(now, name) == properties::value_of(before, name) {
            if is_variable(old_value) {
                let inner = old_value.skip(1);
                assert(resolved_within(before, now, inner, (n - 1) as nat));
                lemma_leads_further(before, inner, (n - 1) as nat, (n - 1) as nat);
            }
        } else {
            let m = choose|m: nat|
                (#[trigger] leads_to(before, name, m)) is Some && properties::value_of(now, name)
                    == leads_to(before, name, m);
            lemma_leads_unique(before, name, m, n);
        }
    }
}

/// Where nothing can be put in place of any variable any more, all have what
/// they lead to.
proof fn lemma_all_done(before: Seq<properties::Pair>, now: Seq<properties::Pair>, n: nat)
    requires
        forall|other: Seq<char>| #[trigger] kept_or_resolved(before, now, other),
        forall|name: Seq<char>| #[trigger] substitute(now, name) is None,
    ensures
        forall|name: Seq<char>| #[trigger] resolved_within(before, now, name, n),
    decreases n,
{
    if n > 0 {
        lemma_all_done(before, now, (n - 1) as nat);
    }
    assert forall|name: Seq<char>| #[trigger] resolved_within(before, now, name, n) by {
        assert(substitute(now, name) is None);
        lemma_nothing_left(before, now, name, n);
    }
}

/// Puts a texture in place of variable `i`, if that can be done right away.
fn substitute_at(textures: &mut Properties, i: usize) -> (changed: bool)
    requires
        old(textures).wf(),
        i < old(textures)@.len(),
    ensures
        final(textures).wf(),
        final(textures)@.len() == old(textures)@.len(),
        forall|j: int|
            0 <= j < old(textures)@.len() ==> (#[trigger] final(textures)@[j]).0
                == old(textures)@[j].0,
        match substitute(old(textures)@, old(textures)@[i as int].0) {
            Some(found) => changed && final(textures)@ == properties::with(
                old(textures)@,
                old(textures)@[i as int].0,
                found,
            ),
            None => !changed && final(textures)@ == old(textures)@,
        },
{
    let ghost start = textures@;
    let (name, value) = textures.entry(i);
    proof {
        properties::lemma_value_at(start, i as int);
        reveal_strlit("#");
        assert("#"@ =~= seq!['#']);
    }
    if !text::starts_with(value, "#") {
        assert(!is_variable(value@)) by {
            if is_variable(value@) {
                assert(value@.take(1) =~= "#"@);
            }
        }
        return false;
    }
    assert(is_variable(value@)) by {
        assert(value@.take(1)[0] == '#');
    }
    let n: usize = value.unicode_len();
    let inner = text::slice(value, 1, n);
    assert(inner@ =~= value@.skip(1));
    let found: String = match textures.get(inner) {
        None => {
            return false;
        },
        Some(found) => {
            if text::starts_with(found, "#") {
                assert(is_variable(found@)) by {
                    assert(found@.take(1)[0] == '#');
                }
                return false;
            }
            assert(!is_variable(found@)) by {
                if is_variable(found@) {
                    assert(found@.take(1) =~= "#"@);
                }
            }
            found.to_owned()
        },
    };
    let name: String = name.to_owned();
    proof {
        assert forall|j: int| 0 <= j < i implies text::before((#[trigger] start[j]).0, name@) by {}
        text::lemma_before_irreflexive(name@);
        properties::lemma_with_at(start, name@, found@, i as int);
    }
    textures.insert(name, found);
    true
}

/// Substitutes texture variables until none is left that leads to a texture
/// over at most sixteen others. A variable that leads to no texture is left as
/// it is, and one that leads to a texture over more others may be.
pub fn resolve_textures(textures: &mut Properties)
    requires
        old(textures).wf(),
    ensures
        final(textures).wf(),
        forall|name: Seq<char>|
            #[trigger] kept_or_resolved(old(textures)@, final(textures)@, name),
        forall|name: Seq<char>|
            #[trigger] resolved_within(
                old(textures)@,
                final(textures)@,
                name,
                MAX_PASSES as nat,
            ),
{
    let ghost before = textures@;
    let count: usize = textures.len();
    let mut pass: usize = 0;
    while pass < MAX_PASSES
        invariant
            pass <= MAX_PASSES,
            before == old(textures)@,
            textures.wf(),
            properties::ascending(before),
            count == before.len(),
            textures@.len() == count,
            forall|j: int| 0 <= j < count ==> (#[trigger] textures@[j]).0 == before[j].0,
            forall|name: Seq<char>| #[trigger] kept_or_resolved(before, textures@, name),
            forall|name: Seq<char>|
                #[trigger] resolved_within(before, textures@, name, pass as nat),
        decreases MAX_PASSES - pass,
    {
        let mut changed: bool = false;
        let mut i: usize = 0;
        while i < count
            invariant
                i <= count,
                textures.wf(),
                properties::ascending(before),
                count == before.len(),
                textures@.len() == count,
                forall|j: int| 0 <= j < count ==> (#[trigger] textures@[j]).0 == before[j].0,
                forall|name: Seq<char>| #[trigger] kept_or_resolved(before, textures@, name),
                forall|name: Seq<char>|
                    #[trigger] resolved_within(before, textures@, name, pass as nat),
                forall|j: int|
                    0 <= j < i ==> resolved_within(
                        before,
                        textures@,
                        (#[trigger] before[j]).0,
                        (pass + 1) as nat,
                    ),
                !changed ==> forall|j: int|
                    0 <= j < i ==> substitute(textures@, (#[trigger] before[j]).0) is None,
            decreases count - i,
        {
            let ghost now = textures@;
            let ghost key = before[i as int].0;
            assert(now[i as int].0 == key);
            let here: bool = substitute_at(textures, i);
            proof {
                let after = textures@;
                if here {
                    lemma_substitute(before, now, key);
                    lemma_step_keeps(before, now, key, substitute(now, key)->0, pass as nat);
                    lemma_step_keeps(
                        before,
                        now,
                        key,
                        substitute(now, key)->0,
                        (pass + 1) as nat,
                    );
                    assert forall|j: int| 0 <= j < i + 1 implies resolved_within(
                        before,
                        after,
                        (#[trigger] before[j]).0,
                        (pass + 1) as nat,
                    ) by {
                        if j < i {
                            assert(resolved_within(before, now, before[j].0, (pass + 1) as nat));
                        }
                    }
                } else {
                    lemma_nothing_left(before, now, key, (pass + 1) as nat);
                }
                assert forall|j: int| 0 <= j < count implies (#[trigger] after[j]).0
                    == before[j].0 by {
                    assert(after[j].0 == now[j].0);
                }
            }
            if here {
                changed = true;
            }
            i += 1;
        }
        proof {
            assert forall|name: Seq<char>| #[trigger] resolved_within(
                before,
                textures@,
                name,
                (pass + 1) as nat,
            ) by {
                if properties::value_of(before, name) is Some {
                    let j = properties::lemma_value_found(before, name);
                    assert(resolved_within(before, textures@, before[j].0, (pass + 1) as nat));
                }
            }
        }
        if !changed {
            proof {
                assert forall|name: Seq<char>| #[trigger] substitute(textures@, name) is None by {
                    if properties::value_of(textures@, name) is Some {
                        let j = properties::lemma_value_found(textures@, name);
                        assert(textures@[j].0 == before[j].0);
                        assert(substitute(textures@, before[j].0) is None);
                    }
                }
                lemma_all_done(before, textures@, MAX_PASSES as nat);
            }
            return;
        }
        pass += 1;
    }
}

/// Putting the texture that a variable leads to in its place keeps what holds
/// of the others.
proof fn lemma_step_keeps(
    before: Seq<properties::Pair>,
    now: Seq<properties::Pair>,
    key: Seq<char>,
    found: Seq<char>,
    n: nat,
)
    requires
        properties::ascending(now),
        exists|m: nat| #[trigger] leads_to(before, key, m) == Some(found),
        forall|name: Seq<char>| #[trigger] kept_or_resolved(before, now, name),
    ensures
        forall|name: Seq<char>|
            #[trigger] kept_or_resolved(before, properties::with(now, key, found), name),
        forall|name: Seq<char>|
            name == key || resolved_within(before, now, name, n) ==> #[trigger] resolved_within(
                before,
                properties::with(now, key, found),
                name,
                n,
            ),
{
    let after = properties::with(now, key, found);
    let m = choose|m: nat| #[trigger] leads_to(before, key, m) == Some(found);
    properties::lemma_with(now, key, found);
    assert forall|name: Seq<char>| #[trigger] kept_or_resolved(before, after, name) by {
        assert(kept_or_resolved(before, now, name));
        if name == key {
            assert(leads_to(before, key, m) is Some);
        } else {
            assert(properties::value_of(after, name) == properties::value_of(now, name));
        }
    }
    assert forall|name: Seq<char>|
        name == key || resolved_within(before, now, name, n) implies #[trigger] resolved_within(
        before,
        after,
        name,
        n,
    ) by {
        if name == key {
            if leads_to(before, key, n) is Some {
                lemma_leads_unique(before, key, m, n);
            }
        } else {
            assert(properties::value_of(after, name) == properties::value_of(now, name));
        }
    }
}

/// The texture of a face: what its variable stands for, under its short name.
/// There is none where the variable is not set or was not resolved.
pub open spec fn texture_of_face(
    textures: Seq<properties::Pair>,
    reference: Seq<char>,
) -> Option<Seq<char>> {
    match properties::value_of(textures, text::trim_prefix(reference, "#"@)) {
        Some(value) => if is_variable(value) {
            None
        } else {
            Some(block_states::short_name(value))
        },
        None => None,
    }
}

/// The texture of a face.
pub fn face_texture(textures: &Properties, reference: &str) -> (r: Option<String>)
    ensures
        match r {
            Some(name) => texture_of_face(textures@, reference@) == Some(name@),
            None => texture_of_face(textures@, reference@) is None,
        },
{
    proof {
        reveal_strlit("#");
        assert("#"@ =~= seq!['#']);
    }
    match textures.get(text::trim_start(reference, "#")) {
        None => None,
        Some(value) => {
            if text::starts_with(value, "#") {
                assert(is_variable(value@)) by {
                    assert(value@.take(1)[0] == '#');
                }
                None
            } else {
                assert(!is_variable(value@)) by {
                    if is_variable(value@) {
                        assert(value@.take(1) =~= "#"@);
                    }
                }
                Some(strip_namespace(value).to_owned())
            }
        },
    }
}

/// A face that a model shows: its direction, its texture and what else is known
/// of it. There is none where the name is not that of a direction or the face has
/// no texture.
pub open spec fn shown_face<F>(
    entry: (String, String, F),
    textures: Seq<properties::Pair>,
) -> Option<(FaceDir, Seq<char>, F)> {
    match face::dir_named(entry.0@) {
        Some(dir) => match texture_of_face(textures, entry.1@) {
            Some(texture) => Some((dir, texture, entry.2)),
            None => None,
        },
        None => None,
    }
}

/// The faces that a model shows, in order.
pub open spec fn shown_faces<F>(
    entries: Seq<(String, String, F)>,
    textures: Seq<properties::Pair>,
) -> Seq<(FaceDir, Seq<char>, F)>
    decreases entries.len(),
{
    if entries.len() == 0 {
        seq![]
    } else {
        let front = shown_faces(entries.drop_last(), textures);
        match shown_face(entries.last(), textures) {
            Some(shown) => front.push(shown),
            None => front,
        }
    }
}

/// Whether a list has the given faces, in order.
pub open spec fn lists_faces<F>(
    list: Seq<(FaceDir, String, F)>,
    shown: Seq<(FaceDir, Seq<char>, F)>,
) -> bool {
    &&& list.len() == shown.len()
    &&& forall|i: int|
        #![trigger list[i]]
        0 <= i < list.len() ==> (list[i].0, list[i].1@, list[i].2) == shown[i]
}

/// The faces that a model shows, from the name, the texture variable and the
/// rest of each face of an element.
pub fn face_list<F>(faces: Vec<(String, String, F)>, textures: &Properties) -> (r: Vec<
    (FaceDir, String, F),
>)
    ensures
        lists_faces(r@, shown_faces(faces@, textures@)),
{
    let ghost all = faces@;
    let ghost mut k: int = 0;
    let mut rest = faces;
    let mut list: Vec<(FaceDir, String, F)> = Vec::new();
    assert(all.skip(0) =~= all);
    while rest.len() > 0
        invariant
            0 <= k <= all.len(),
            rest@ == all.skip(k),
            lists_faces(list@, shown_faces(all.take(k), textures@)),
        decreases rest@.len(),
    {
        let (name, reference, face) = rest.remove(0);
        proof {
            assert(all[k] == (name, reference, face));
            assert(all.take(k + 1).drop_last() =~= all.take(k));
            assert(all.skip(k).remove(0) =~= all.skip(k + 1));
        }
        if let Some(dir) = FaceDir::from_str(name.as_str()) {
            if let Some(texture) = face_texture(textures, reference.as_str()) {
                list.push((dir, texture, face));
            }
        }
        proof {
            k = k + 1;
        }
    }
    assert(all.take(k) =~= all);
    list
}

/// A face that is shown stands among the faces of the element.
proof fn lemma_shown_from<F>(
    entries: Seq<(String, String, F)>,
    textures: Seq<properties::Pair>,
    i: int,
) -> (k: int)
    requires
        0 <= i < shown_faces(entries, textures).len(),
    ensures
        0 <= k < entries.len(),
        shown_face(entries[k], textures) == Some(shown_faces(entries, textures)[i]),
    decreases entries.len(),
{
    let front = shown_faces(entries.drop_last(), textures);
    if i < front.len() {
        lemma_shown_from(entries.drop_last(), textures, i)
    } else {
        entries.len() - 1
    }
}

/// Whether no two faces of an element have the same name.
pub open spec fn names_differ<F>(entries: Seq<(String, String, F)>) -> bool {
    forall|i: int, j: int|
        #![trigger entries[i], entries[j]]
        0 <= i < j < entries.len() ==> entries[i].0@ != entries[j].0@
}

/// No two faces that are shown look in the same direction.
proof fn lemma_directions_differ<F>(
    entries: Seq<(String, String, F)>,
    textures: Seq<properties::Pair>,
    i: int,
    j: int,
)
    requires
        names_differ(entries),
        0 <= i < j < shown_faces(entries, textures).len(),
    ensures
        shown_faces(entries, textures)[i].0 != shown_faces(entries, textures)[j].0,
    decreases entries.len(),
{
    let fewer = entries.drop_last();
    let front = shown_faces(fewer, textures);
    if j < front.len() {
        lemma_directions_differ(fewer, textures, i, j);
    } else {
        let k = lemma_shown_from(fewer, textures, i);
        assert(entries[k].0@ != entries[entries.len() - 1].0@);
    }
}

/// An element whose faces have different names shows at most six of them, each
/// in a direction of its own.
pub proof fn law_up_to_six_faces<F>(
    entries: Seq<(String, String, F)>,
    textures: Seq<properties::Pair>,
)
    requires
        names_differ(entries),
    ensures
        shown_faces(entries, textures).len() <= 6,
        forall|i: int, j: int|
            0 <= i < j < shown_faces(entries, textures).len() ==> (#[trigger] shown_faces(
                entries,
                textures,
            )[i]).0 != (#[trigger] shown_faces(entries, textures)[j]).0,
{
    let shown = shown_faces(entries, textures);
    assert forall|i: int, j: int| 0 <= i < j < shown.len() implies (#[trigger] shown[i]).0 != (
    #[trigger] shown[j]).0 by {
        lemma_directions_differ(entries, textures, i, j);
    }
    let dirs = Seq::new(shown.len(), |i: int| shown[i].0);
    let six = seq![
        FaceDir::North,
        FaceDir::South,
        FaceDir::East,
        FaceDir::West,
        FaceDir::Up,
        FaceDir::Down,
    ];
    assert(dirs.no_duplicates()) by {
        assert forall|i: int, j: int|
            0 <= i < dirs.len() && 0 <= j < dirs.len() && i != j implies dirs[i] != dirs[j] by {
            assert(shown[i].0 == dirs[i] && shown[j].0 == dirs[j]);
        }
    }
    assert forall|d: FaceDir| six.contains(d) by {
        assert(six[0] == FaceDir::North && six[1] == FaceDir::South && six[2] == FaceDir::East
            && six[3] == FaceDir::West && six[4] == FaceDir::Up && six[5] == FaceDir::Down);
    }
    dirs.unique_seq_to_set();
    six.lemma_cardinality_of_set();
    vstd::seq_lib::seq_to_set_is_finite(six);
    vstd::set_lib::lemma_len_subset(dirs.to_set(), six.to_set());
}

/// A texture that is no variable stands for itself, and a variable stands for what
/// the variable stands for that it names.
pub proof fn law_variables_are_followed(
    textures: Seq<properties::Pair>,
    name: Seq<char>,
    target: Seq<char>,
    texture: Seq<char>,
    n: nat,
)
    requires
        texture.len() == 0 || texture[0] != '#',
    ensures
        properties::value_of(textures, name) is None ==> leads_to(textures, name, n) is None,
        properties::value_of(textures, name) == Some(texture) ==> leads_to(textures, name, n)
            == Some(texture),
        properties::value_of(textures, name) == Some(seq!['#'] + target) ==> leads_to(
            textures,
            name,
            n + 1,
        ) == leads_to(textures, target, n) && leads_to(textures, name, 0) is None,
{
    let variable = seq!['#'] + target;
    assert(variable[0] == '#');
    assert(variable.skip(1) =~= target);
}

/// What a variable leads to is never a variable.
pub proof fn law_no_variable_is_left(textures: Seq<properties::Pair>, name: Seq<char>, n: nat)
    ensures
        leads_to(textures, name, n) matches Some(texture) ==> texture.len() == 0 || texture[0]
            != '#',
    decreases n,
{
    if let Some(value) = properties::value_of(textures, name) {
        if n > 0 && value.len() > 0 && value[0] == '#' {
            law_no_variable_is_left(textures, value.skip(1), (n - 1) as nat);
        }
    }
}

/// A face has the texture of its variable, which it can name with or without `#`,
/// under its short name. It has none where the variable is not set or still is a
/// variable.
pub proof fn law_faces_name_variables(
    textures: Seq<properties::Pair>,
    name: Seq<char>,
    texture: Seq<char>,
)
    requires
        name.len() == 0 || name[0] != '#',
    ensures
        texture_of_face(textures, seq!['#'] + name) == texture_of_face(textures, name),
        properties::value_of(textures, name) is None ==> texture_of_face(textures, name) is None,
        properties::value_of(textures, name) == Some(texture) ==> texture_of_face(textures, name)
            == if texture.len() > 0 && texture[0] == '#' {
            None
        } else {
            Some(block_states::short_name(texture))
        },
{
    reveal_strlit("#");
    assert("#"@ =~= seq!['#']);
    text::law_trim_takes_prefixes_off(name, "#"@);
    if "#"@.is_prefix_of(name) {
        assert(name.take(1)[0] == '#');
    }
}

/// The faces of an element are shown in order: one more face is added at the end
/// exactly if its name is that of a direction and it has a texture.
pub proof fn law_faces_come_in_order<F>(
    entries: Seq<(String, String, F)>,
    entry: (String, String, F),
    textures: Seq<properties::Pair>,
)
    ensures
        shown_faces(Seq::<(String, String, F)>::empty(), textures).len() == 0,
        ({
            let dir = face::dir_named(entry.0@);
            let texture = texture_of_face(textures, entry.1@);
            shown_faces(entries.push(entry), textures) == if dir is Some && texture is Some {
                shown_faces(entries, textures).push((dir->0, texture->0, entry.2))
            } else {
                shown_faces(entries, textures)
            }
        }),
{
    assert(entries.push(entry).drop_last() =~= entries);
}

/// The file of a model is named after it, and its namespace does not count.
pub proof fn law_model_path(name: Seq<char>)
    ensures
        path_of("minecraft:"@ + name) == path_of(name),
        !"minecraft:"@.is_prefix_of(name) ==> path_of(name) == "assets/minecraft/models/"@ + name
            + ".json"@,
{
    block_states::law_namespace_is_dropped(name, seq![]);
}

/// A chain of up to sixteen variables, each of which names the next, is resolved to
/// the texture at its end.
pub proof fn law_chains_are_resolved(
    before: Seq<properties::Pair>,
    after: Seq<properties::Pair>,
    names: Seq<Seq<char>>,
    texture: Seq<char>,
    n: nat,
)
    requires
        n <= 16,
        names.len() == n + 1,
        forall|i: int|
            0 <= i < n ==> properties::value_of(before, #[trigger] names[i]) == Some(
                seq!['#'] + names[i + 1],
            ),
        properties::value_of(before, names[n as int]) == Some(texture),
        texture.len() == 0 || texture[0] != '#',
        resolved_within(before, after, names[0], MAX_PASSES as nat),
    ensures
        properties::value_of(after, names[0]) == Some(texture),
{
    lemma_chain_leads(before, names, texture, n, 0);
    lemma_leads_further(before, names[0], n, MAX_PASSES as nat);
}

/// A chain of variables leads to the texture at its end.
proof fn lemma_chain_leads(
    textures: Seq<properties::Pair>,
    names: Seq<Seq<char>>,
    texture: Seq<char>,
    n: nat,
    i: int,
)
    requires
        0 <= i <= n,
        names.len() == n + 1,
        forall|i: int|
            0 <= i < n ==> properties::value_of(textures, #[trigger] names[i]) == Some(
                seq!['#'] + names[i + 1],
            ),
        properties::value_of(textures, names[n as int]) == Some(texture),
        texture.len() == 0 || texture[0] != '#',
    ensures
        leads_to(textures, names[i], (n - i) as nat) == Some(texture),
    decreases n - i,
{
    if i < n {
        lemma_chain_leads(textures, names, texture, n, i + 1);
        law_variables_are_followed(textures, names[i], names[i + 1], texture, (n - i - 1) as nat);
    } else {
        law_variables_are_followed(textures, names[i], names[i], texture, 0);
    }
}

/// Only variables are substituted, and only by what is none.
pub proof fn law_textures_are_not_substituted(
    before: Seq<properties::Pair>,
    after: Seq<properties::Pair>,
    name: Seq<char>,
)
    requires
        kept_or_resolved(before, after, name),
    ensures
        ({
            let was = properties::value_of(before, name);
            let now = properties::value_of(after, name);
            &&& was is None ==> now is None
            &&& was is Some && (was->0.len() == 0 || was->0[0] != '#') ==> now == was
            &&& now != was ==> now is Some && (now->0.len() == 0 || now->0[0] != '#')
        }),
{
    let was = properties::value_of(before, name);
    let now = properties::value_of(after, name);
    if now != was {
        let n = choose|n: nat|
            (#[trigger] leads_to(before, name, n)) is Some && now == leads_to(before, name, n);
        law_no_variable_is_left(before, name, n);
    }
}

/// A list of faces has a face for each that is shown, in order, with its
/// direction, its texture and all else that belongs to it.
pub proof fn law_faces_are_listed<F>(
    list: Seq<(FaceDir, String, F)>,
    shown: Seq<(FaceDir, Seq<char>, F)>,
    i: int,
)
    requires
        lists_faces(list, shown),
        0 <= i < shown.len(),
    ensures
        list.len() == shown.len(),
        list[i].0 == shown[i].0,
        list[i].1@ == shown[i].1,
        list[i].2 == shown[i].2,
{
}

} // verus!
