//! The bake tool: what it is asked to do, and the block states that it numbers.

use vstd::prelude::*;

use crate::properties::Properties;
use crate::reader::block_states;
use crate::reader::block_states::build_block_key;
use crate::reader::table;
use crate::text;

verus! {

/// A block with its states, as the data generator reports them.
pub struct BlockEntry {
    pub name: String,
    pub states: Vec<BlockState>,
}

/// A state of a block.
pub struct BlockState {
    pub id: u32,
    pub properties: Properties,
}

/// The table entries of the first `n` states of a block. Only the low 16 bits
/// of a state's number are kept.
pub open spec fn state_entries(block: BlockEntry, n: int) -> Seq<table::EntryView>
    decreases n,
{
    if n <= 0 {
        seq![]
    } else {
        let state = block.states@[n - 1];
        state_entries(block, n - 1).push(
            (
                (state.id % 65536) as u16,
                block_states::key_of(block.name@, state.properties@),
            ),
        )
    }
}

/// The table entries of the first `n` blocks.
pub open spec fn block_entries(blocks: Seq<BlockEntry>, n: int) -> Seq<table::EntryView>
    decreases n,
{
    if n <= 0 {
        seq![]
    } else {
        block_entries(blocks, n - 1) + state_entries(
            blocks[n - 1],
            blocks[n - 1].states@.len() as int,
        )
    }
}

/// The table entries of all states of all blocks, in the order of the blocks.
pub fn table_entries(blocks: &[BlockEntry]) -> (r: Vec<(u16, String)>)
    ensures
        table::entry_views(r@) == block_entries(blocks@, blocks@.len() as int),
{
    let mut entries: Vec<(u16, String)> = Vec::new();
    let mut b: usize = 0;
    assert(table::entry_views(entries@) =~= block_entries(blocks@, 0));
    while b < blocks.len()
        invariant
            b <= blocks@.len(),
            table::entry_views(entries@) == block_entries(blocks@, b as int),
        decreases blocks.len() - b,
    {
        let block = &blocks[b];
        let ghost head = block_entries(blocks@, b as int);
        let mut s: usize = 0;
        assert(head + state_entries(*block, 0) =~= head);
        while s < block.states.len()
            invariant
                s <= block.states@.len(),
                table::entry_views(entries@) == head + state_entries(*block, s as int),
            decreases block.states.len() - s,
        {
            let ghost before = entries@;
            let state = &block.states[s];
            let key = build_block_key(block.name.as_str(), &state.properties);
            let id: u16 = (state.id % 65536) as u16;
            let ghost entry = (id, key@);
            entries.push((id, key));
            proof {
                assert(table::entry_views(entries@) =~= table::entry_views(before).push(entry));
                assert(table::entry_views(entries@) =~= head + state_entries(*block, s + 1));
            }
            s += 1;
        }
        b += 1;
    }
    entries
}

/// What the bake tool is asked to do.
pub enum Request {
    /// Bake all files.
    Bake,
    /// Export a block state, but none is named.
    MissingKey,
    /// Export the block state with a key to a file.
    Export { key: String, out: String },
}

/// The place of the first of the arguments that asks for an export, or the
/// number of arguments if none does.
pub open spec fn flag_place(args: Seq<Seq<char>>) -> int
    decreases args.len(),
{
    if args.len() == 0 || args[0] == "--export-vox"@ {
        0
    } else {
        1 + flag_place(args.drop_first())
    }
}

/// A character of a file name. Those that stand around properties are replaced.
pub open spec fn name_char(c: char) -> char {
    if c == '[' || c == ']' || c == '=' || c == ',' {
        '_'
    } else {
        c
    }
}

/// The file that a block state is exported to if no other is named.
pub open spec fn default_file(key: Seq<char>) -> Seq<char> {
    key.map_values(|c: char| name_char(c)) + ".vox"@
}

/// Whether a request is the one that the arguments make.
pub open spec fn is_requested(args: Seq<Seq<char>>, request: Request) -> bool {
    let at = flag_place(args);
    match request {
        Request::Bake => at >= args.len(),
        Request::MissingKey => at == args.len() - 1,
        Request::Export { key, out } => at + 1 < args.len() && key@ == args[at + 1] && out@
            == if at + 2 < args.len() {
            args[at + 2]
        } else {
            default_file(args[at + 1])
        },
    }
}

/// Arguments as texts.
pub open spec fn arg_views(args: Seq<String>) -> Seq<Seq<char>> {
    args.map_values(|a: String| a@)
}

/// The file that a block state is exported to if no other is named.
pub fn default_vox_file(key: &str) -> (r: String)
    ensures
        r@ == default_file(key@),
{
    let n: usize = key.unicode_len();
    let mut name: String = "".to_owned();
    let ghost mapped = key@.map_values(|c: char| name_char(c));
    let mut i: usize = 0;
    proof {
        reveal_strlit("");
        reveal_strlit("_");
        assert("_"@ =~= seq!['_']);
        assert(name@ =~= mapped.take(0));
    }
    while i < n
        invariant
            i <= n,
            n == key@.len(),
            mapped == key@.map_values(|c: char| name_char(c)),
            "_"@ == seq!['_'],
            name@ == mapped.take(i as int),
        decreases n - i,
    {
        let c: char = key.get_char(i);
        if c == '[' || c == ']' || c == '=' || c == ',' {
            name.append("_");
        } else {
            let one = text::slice(key, i, i + 1);
            assert(one@ =~= seq![c]);
            name.append(one);
        }
        assert(name@ =~= mapped.take(i + 1));
        i += 1;
    }
    assert(mapped.take(n as int) =~= mapped);
    name.append(".vox");
    name
}

/// What the arguments ask the bake tool to do.
pub fn requested(args: &Vec<String>) -> (r: Request)
    ensures
        is_requested(arg_views(args@), r),
{
    let ghost all = arg_views(args@);
    let mut at: usize = 0;
    assert(all.skip(0) =~= all);
    while at < args.len()
        invariant
            at <= args@.len(),
            all == arg_views(args@),
            flag_place(all) == at + flag_place(all.skip(at as int)),
        decreases args.len() - at,
    {
        assert(all.skip(at as int)[0] == args@[at as int]@);
        if text::same(args[at].as_str(), "--export-vox") {
            if args.len() - at < 2 {
                return Request::MissingKey;
            }
            let key = args[at + 1].clone();
            let out: String = if args.len() - at < 3 {
                default_vox_file(key.as_str())
            } else {
                args[at + 2].clone()
            };
            return Request::Export { key, out };
        }
        assert(all.skip(at as int).drop_first() =~= all.skip(at + 1));
        at += 1;
    }
    assert(all.skip(at as int).len() == 0);
    Request::Bake
}

/// The table has an entry for each state of each block, in order: the number of
/// the state, as far as it fits two bytes, and the key of the block with the
/// properties of the state.
pub proof fn law_states_are_numbered_in_order(
    blocks: Seq<BlockEntry>,
    block: BlockEntry,
    n: int,
)
    requires
        0 <= n < block.states@.len(),
    ensures
        block_entries(seq![], 0) == Seq::<table::EntryView>::empty(),
        state_entries(block, 0) == Seq::<table::EntryView>::empty(),
        state_entries(block, n + 1).len() == n + 1,
        state_entries(block, n + 1).drop_last() == state_entries(block, n),
        state_entries(block, n + 1)[n].1 == block_states::key_of(
            block.name@,
            block.states@[n].properties@,
        ),
        block.states@[n].id < 65536 ==> state_entries(block, n + 1)[n].0 == block.states@[n].id,
        (block.states@[n].id - state_entries(block, n + 1)[n].0) % 65536 == 0,
        block_entries(blocks.push(block), blocks.len() as int + 1) == block_entries(
            blocks,
            blocks.len() as int,
        ) + state_entries(block, block.states@.len() as int),
{
    lemma_states_len(block, n);
    assert(state_entries(block, n + 1).drop_last() =~= state_entries(block, n));
    lemma_blocks_prefix(blocks.push(block), blocks, blocks.len() as int);
}

/// Every state has an entry.
proof fn lemma_states_len(block: BlockEntry, n: int)
    requires
        0 <= n,
    ensures
        state_entries(block, n).len() == n,
    decreases n,
{
    if n > 0 {
        lemma_states_len(block, n - 1);
    }
}

/// The entries of the first blocks depend on these alone.
proof fn lemma_blocks_prefix(a: Seq<BlockEntry>, b: Seq<BlockEntry>, n: int)
    requires
        n <= a.len(),
        n <= b.len(),
        forall|i: int| 0 <= i < n ==> a[i] == b[i],
    ensures
        block_entries(a, n) == block_entries(b, n),
    decreases n,
{
    if n > 0 {
        lemma_blocks_prefix(a, b, n - 1);
    }
}

/// The first argument that asks for an export counts. The argument behind it is
/// the key and the one behind that the file; without a key the request is not
/// complete, without a file the key names it, and where no argument asks for an
/// export all files are baked.
pub proof fn law_arguments(before: Seq<Seq<char>>, after: Seq<Seq<char>>, request: Request)
    requires
        forall|i: int| 0 <= i < before.len() ==> #[trigger] before[i] != "--export-vox"@,
    ensures
        is_requested(before, request) ==> request is Bake,
        is_requested(before + seq!["--export-vox"@] + after, request) ==> {
            &&& request is MissingKey <==> after.len() == 0
            &&& request is Export <==> after.len() > 0
            &&& request is Export ==> request->key@ == after[0]
            &&& request is Export && after.len() > 1 ==> request->out@ == after[1]
            &&& request is Export && after.len() == 1 ==> request->out@ == default_file(after[0])
        },
{
    lemma_flag_absent(before);
    lemma_flag_found(before, after);
    let all = before + seq!["--export-vox"@] + after;
    if after.len() > 0 {
        assert(all[before.len() as int + 1] == after[0]);
    }
    if after.len() > 1 {
        assert(all[before.len() as int + 2] == after[1]);
    }
}

/// Without the flag every argument stands before its place.
proof fn lemma_flag_absent(args: Seq<Seq<char>>)
    requires
        forall|i: int| 0 <= i < args.len() ==> #[trigger] args[i] != "--export-vox"@,
    ensures
        flag_place(args) == args.len(),
    decreases args.len(),
{
    if args.len() > 0 {
        assert(args[0] != "--export-vox"@);
        let rest = args.drop_first();
        assert forall|i: int| 0 <= i < rest.len() implies #[trigger] rest[i] != "--export-vox"@ by {
            assert(rest[i] == args[i + 1]);
        }
        lemma_flag_absent(rest);
    }
}

/// The place of the flag is behind what stands before it.
proof fn lemma_flag_found(before: Seq<Seq<char>>, after: Seq<Seq<char>>)
    requires
        forall|i: int| 0 <= i < before.len() ==> #[trigger] before[i] != "--export-vox"@,
    ensures
        flag_place(before + seq!["--export-vox"@] + after) == before.len(),
    decreases before.len(),
{
    let all = before + seq!["--export-vox"@] + after;
    if before.len() > 0 {
        assert(before[0] != "--export-vox"@);
        assert(all[0] == before[0]);
        let rest = before.drop_first();
        assert forall|i: int| 0 <= i < rest.len() implies #[trigger] rest[i] != "--export-vox"@ by {
            assert(rest[i] == before[i + 1]);
        }
        lemma_flag_found(rest, after);
        assert(all.drop_first() =~= rest + seq!["--export-vox"@] + after);
    } else {
        assert(all[0] == "--export-vox"@);
    }
}

/// A file that no one names has the name of its block state, with an underscore
/// for each character that stands around properties, and ends in `.vox`.
pub proof fn law_default_file(key: Seq<char>, i: int)
    requires
        0 <= i < key.len(),
    ensures
        default_file(key).len() == key.len() + 4,
        key[i] == '[' || key[i] == ']' || key[i] == '=' || key[i] == ',' ==> default_file(key)[i]
            == '_',
        key[i] != '[' && key[i] != ']' && key[i] != '=' && key[i] != ',' ==> default_file(key)[i]
            == key[i],
        default_file(key).skip(key.len() as int) == seq!['.', 'v', 'o', 'x'],
{
    reveal_strlit(".vox");
    assert(".vox"@ =~= seq!['.', 'v', 'o', 'x']);
    assert(default_file(key).skip(key.len() as int) =~= ".vox"@);
}

} // verus!
