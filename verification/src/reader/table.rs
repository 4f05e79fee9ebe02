//! The table of block states and its file.
//!
//! The file starts with a magic number and the number of entries, each four
//! bytes. An entry is a two-byte number, the two-byte length of its key and
//! the key in UTF-8.

use vstd::hash_map::StringHashMap;
use vstd::prelude::*;
use vstd::utf8::*;

use crate::bytes;
use crate::properties::Properties;
use crate::reader::block_states;
use crate::reader::block_states::build_block_key;

verus! {

/// The number that a table file starts with.
pub const TABLE_MAGIC: u32 = 0x42534944;

/// A block state: its number and its key.
pub type EntryView = (u16, Seq<char>);

/// Entries by number and text.
pub open spec fn entry_views(entries: Seq<(u16, String)>) -> Seq<EntryView> {
    entries.map_values(|e: (u16, String)| (e.0, e.1@))
}

/// Where the entry at `pos` ends.
pub open spec fn entry_end(data: Seq<u8>, pos: int) -> int {
    pos + 4 + bytes::num16(data, pos + 2)
}

/// The bytes of the key of the entry at `pos`.
pub open spec fn entry_key(data: Seq<u8>, pos: int) -> Seq<u8> {
    data.subrange(pos + 4, entry_end(data, pos))
}

/// Whether the entry at `pos` lies within the file.
pub open spec fn entry_fits(data: Seq<u8>, pos: int) -> bool {
    pos + 4 <= data.len() && entry_end(data, pos) <= data.len()
}

/// Whether `n` entries from `pos` on lie within the file, as far as their keys are text.
pub open spec fn entries_fit(data: Seq<u8>, pos: int, n: nat) -> bool
    decreases n,
{
    n == 0 || (entry_fits(data, pos) && (valid_utf8(entry_key(data, pos)) ==> entries_fit(
        data,
        entry_end(data, pos),
        (n - 1) as nat,
    )))
}

/// Whether the keys of `n` entries from `pos` on are text.
pub open spec fn entries_are_text(data: Seq<u8>, pos: int, n: nat) -> bool
    decreases n,
{
    n == 0 || (valid_utf8(entry_key(data, pos)) && entries_are_text(
        data,
        entry_end(data, pos),
        (n - 1) as nat,
    ))
}

/// The `n` entries from `pos` on.
pub open spec fn entries_at(data: Seq<u8>, pos: int, n: nat) -> Seq<EntryView>
    decreases n,
{
    if n == 0 {
        seq![]
    } else {
        seq![(bytes::num16(data, pos) as u16, decode_utf8(entry_key(data, pos)))] + entries_at(
            data,
            entry_end(data, pos),
            (n - 1) as nat,
        )
    }
}

/// Whether a file starts with the magic number.
pub open spec fn has_magic(data: Seq<u8>) -> bool {
    bytes::num32(data, 0) == TABLE_MAGIC
}

/// How many entries a file announces.
pub open spec fn entry_count(data: Seq<u8>) -> nat {
    bytes::num32(data, 4) as nat
}

/// Whether a file is long enough to be read: the magic number is there, and
/// where it is the right one, so are the entries.
pub open spec fn file_fits(data: Seq<u8>) -> bool {
    data.len() >= 4 && (has_magic(data) ==> data.len() >= 8 && entries_fit(
        data,
        8,
        entry_count(data),
    ))
}

/// The entries of a file.
pub open spec fn file_entries(data: Seq<u8>) -> Seq<EntryView> {
    entries_at(data, 8, entry_count(data))
}

/// The table that entries make. Of a key that stands twice the last one counts.
pub open spec fn table_of(entries: Seq<EntryView>) -> Map<Seq<char>, u16>
    decreases entries.len(),
{
    if entries.len() == 0 {
        Map::empty()
    } else {
        table_of(entries.drop_last()).insert(entries.last().1, entries.last().0)
    }
}

/// One entry as it stands in a file.
pub open spec fn entry_bytes(entry: EntryView) -> Seq<u8> {
    let key = encode_utf8(entry.1);
    bytes::le16(entry.0 as int) + bytes::le16(key.len() as int) + key
}

/// Entries as they stand in a file.
pub open spec fn entries_bytes(entries: Seq<EntryView>) -> Seq<u8>
    decreases entries.len(),
{
    if entries.len() == 0 {
        seq![]
    } else {
        entries_bytes(entries.drop_last()) + entry_bytes(entries.last())
    }
}

/// A whole table file.
pub open spec fn file_bytes(entries: Seq<EntryView>) -> Seq<u8> {
    bytes::le32(TABLE_MAGIC as int) + bytes::le32(entries.len() as int) + entries_bytes(entries)
}

/// Why a table file could not be read.
pub enum EntriesError {
    /// The magic number is not there.
    BadMagic,
    /// A key is not text.
    InvalidKey,
}

/// The error of a failed conversion to text.
#[verifier::external_type_specification]
#[verifier::external_body]
pub struct ExUtf8Error(std::str::Utf8Error);

/// `std::str::from_utf8` accepts exactly the valid UTF-8 sequences and hands
/// back the text that has these bytes. Nothing is claimed of the error.
pub assume_specification[ std::str::from_utf8 ](v: &[u8]) -> (r: Result<&str, std::str::Utf8Error>)
    ensures
        match r {
            Ok(s) => valid_utf8(v@) && encode_utf8(s@) == v@,
            Err(_) => !valid_utf8(v@),
        },
;

/// Whether a file is long enough to be read.
pub fn is_complete(data: &[u8]) -> (r: bool)
    ensures
        r == file_fits(data@),
{
    if data.len() < 4 {
        return false;
    }
    if bytes::read_le32(data, 0) != TABLE_MAGIC {
        return true;
    }
    if data.len() < 8 {
        return false;
    }
    let count: u32 = bytes::read_le32(data, 4);
    let mut left: u32 = count;
    let mut cursor: usize = 8;
    while left > 0
        invariant
            cursor <= data@.len(),
            data@.len() >= 8,
            has_magic(data@),
            count == entry_count(data@),
            entries_fit(data@, 8, count as nat) == entries_fit(data@, cursor as int, left as nat),
        decreases left,
    {
        if data.len() - cursor < 4 {
            return false;
        }
        let len: usize = bytes::read_le16(data, cursor + 2) as usize;
        if data.len() - cursor - 4 < len {
            return false;
        }
        let end: usize = cursor + 4 + len;
        match std::str::from_utf8(vstd::slice::slice_subrange(data, cursor + 4, end)) {
            Ok(_) => {},
            Err(_) => {
                return true;
            },
        }
        cursor = end;
        left -= 1;
    }
    true
}

/// The entries of a table file.
pub fn load_entries(data: &[u8]) -> (r: Result<Vec<(u16, String)>, EntriesError>)
    requires
        file_fits(data@),
    ensures
        match r {
            Ok(entries) => has_magic(data@) && entries_are_text(data@, 8, entry_count(data@))
                && entry_views(entries@) == file_entries(data@),
            Err(EntriesError::BadMagic) => !has_magic(data@),
            Err(EntriesError::InvalidKey) => has_magic(data@) && !entries_are_text(
                data@,
                8,
                entry_count(data@),
            ),
        },
{
    if bytes::read_le32(data, 0) != TABLE_MAGIC {
        return Err(EntriesError::BadMagic);
    }
    let count: u32 = bytes::read_le32(data, 4);
    let mut entries: Vec<(u16, String)> = Vec::new();
    let mut left: u32 = count;
    let mut cursor: usize = 8;
    assert(entry_views(entries@) + entries_at(data@, 8, count as nat) =~= file_entries(data@));
    while left > 0
        invariant
            has_magic(data@),
            count == entry_count(data@),
            entries_fit(data@, cursor as int, left as nat),
            entries_are_text(data@, 8, count as nat) == entries_are_text(
                data@,
                cursor as int,
                left as nat,
            ),
            entry_views(entries@) + entries_at(data@, cursor as int, left as nat) == file_entries(
                data@,
            ),
        decreases left,
    {
        assert(data.len() == data@.len());
        let id: u16 = bytes::read_le16(data, cursor);
        let len: usize = bytes::read_le16(data, cursor + 2) as usize;
        let end: usize = cursor + 4 + len;
        let ghost before = entries@;
        match std::str::from_utf8(vstd::slice::slice_subrange(data, cursor + 4, end)) {
            Err(_) => {
                return Err(EntriesError::InvalidKey);
            },
            Ok(key) => {
                proof {
                    encode_utf8_decode_utf8(key@);
                }
                entries.push((id, key.to_owned()));
                proof {
                    assert(entry_views(entries@) =~= entry_views(before).push((id, key@)));
                    assert(entry_views(entries@) + entries_at(data@, end as int, (left - 1) as nat)
                        =~= entry_views(before) + entries_at(data@, cursor as int, left as nat));
                }
            },
        }
        cursor = end;
        left -= 1;
    }
    assert(entry_views(entries@) =~= file_entries(data@));
    Ok(entries)
}

/// The number of every block state key.
pub struct BlockStateTable {
    map: StringHashMap<u16>,
}

impl View for BlockStateTable {
    type V = Map<Seq<char>, u16>;

    closed spec fn view(&self) -> Map<Seq<char>, u16> {
        self.map@
    }
}

impl BlockStateTable {
    /// The table in a table file.
    pub fn load(data: &[u8]) -> (r: BlockStateTable)
        requires
            file_fits(data@),
            has_magic(data@),
            entries_are_text(data@, 8, entry_count(data@)),
        ensures
            r@ == table_of(file_entries(data@)),
    {
        let mut map: StringHashMap<u16> = StringHashMap::new();
        if let Ok(entries) = load_entries(data) {
            let ghost all = entry_views(entries@);
            let mut i: usize = 0;
            assert(all.take(0) =~= Seq::<EntryView>::empty());
            while i < entries.len()
                invariant
                    all == entry_views(entries@),
                    0 <= i <= entries@.len(),
                    map@ == table_of(all.take(i as int)),
                decreases entries.len() - i,
            {
                let e = &entries[i];
                map.insert(e.1.clone(), e.0);
                proof {
                    let next = all.take(i + 1);
                    assert(next.drop_last() =~= all.take(i as int));
                    assert(next.last() == (e.0, e.1@));
                }
                i += 1;
            }
            assert(all.take(entries@.len() as int) =~= all);
        }
        BlockStateTable { map }
    }

    /// The bytes of the table file with the given entries. Only the low 16 bits
    /// of a key's length are stored, and the low 32 bits of the number of entries.
    pub fn save(entries: &[(u16, String)]) -> (r: Vec<u8>)
        ensures
            r@ == file_bytes(entry_views(entries@)),
    {
        let ghost all = entry_views(entries@);
        let mut out: Vec<u8> = Vec::new();
        bytes::append_le32(&mut out, TABLE_MAGIC);
        bytes::append_low32(&mut out, entries.len());
        let ghost head = out@;
        assert(head =~= bytes::le32(TABLE_MAGIC as int) + bytes::le32(all.len() as int));
        let mut i: usize = 0;
        assert(all.take(0) =~= Seq::<EntryView>::empty());
        assert(out@ =~= head + entries_bytes(all.take(0)));
        while i < entries.len()
            invariant
                all == entry_views(entries@),
                0 <= i <= entries@.len(),
                out@ == head + entries_bytes(all.take(i as int)),
            decreases entries.len() - i,
        {
            let ghost before = out@;
            let e = &entries[i];
            let key = e.1.as_str().as_bytes();
            bytes::append_le16(&mut out, e.0);
            bytes::append_low16(&mut out, key.len());
            bytes::append(&mut out, key);
            proof {
                let next = all.take(i + 1);
                assert(next.drop_last() =~= all.take(i as int));
                assert(next.last() == (e.0, e.1@));
                assert(out@ =~= before + entry_bytes((e.0, e.1@)));
                assert(out@ =~= head + entries_bytes(next));
            }
            i += 1;
        }
        assert(all.take(entries@.len() as int) =~= all);
        out
    }

    /// The number of the block state with a key.
    pub fn lookup(&self, key: &str) -> (r: Option<u16>)
        ensures
            r == if self@.contains_key(key@) {
                Some(self@[key@])
            } else {
                None
            },
    {
        match self.map.get(key) {
            Some(id) => Some(*id),
            None => None,
        }
    }

    /// The number of the block state with a name and properties.
    pub fn get(&self, name: &str, properties: &Properties) -> (r: Option<u16>)
        ensures
            ({
                let key = block_states::key_of(name@, properties@);
                r == if self@.contains_key(key) {
                    Some(self@[key])
                } else {
                    None
                }
            }),
    {
        let key = build_block_key(name, properties);
        self.lookup(key.as_str())
    }
}

/// The first entry stands first.
proof fn lemma_entries_bytes_front(entries: Seq<EntryView>)
    requires
        entries.len() > 0,
    ensures
        entries_bytes(entries) == entry_bytes(entries[0]) + entries_bytes(entries.drop_first()),
    decreases entries.len(),
{
    let rest = entries.drop_first();
    if entries.len() == 1 {
        assert(entries.drop_last() =~= Seq::<EntryView>::empty());
        assert(entries_bytes(entries.drop_last()) =~= Seq::<u8>::empty());
        assert(entries_bytes(rest) =~= Seq::<u8>::empty());
        assert(entries_bytes(entries) =~= entry_bytes(entries[0]) + entries_bytes(rest));
    } else {
        lemma_entries_bytes_front(entries.drop_last());
        assert(entries.drop_last().drop_first() =~= rest.drop_last());
        assert(entries_bytes(entries) =~= entry_bytes(entries[0]) + entries_bytes(rest));
    }
}

/// One entry reads back from where it was written.
proof fn lemma_entry_read(data: Seq<u8>, pos: int, entry: EntryView, behind: Seq<u8>)
    requires
        0 <= pos <= data.len(),
        data.skip(pos) == entry_bytes(entry) + behind,
        encode_utf8(entry.1).len() < 65536,
    ensures
        entry_fits(data, pos),
        entry_key(data, pos) == encode_utf8(entry.1),
        bytes::num16(data, pos) == entry.0,
        data.skip(entry_end(data, pos)) == behind,
{
    let key = encode_utf8(entry.1);
    let n = key.len() as int;
    let tail = data.skip(pos);
    assert(tail.len() == data.len() - pos);
    assert(entry_bytes(entry).len() == 4 + n);
    assert(data.subrange(pos, pos + 2) =~= tail.subrange(0, 2));
    assert(tail.subrange(0, 2) =~= bytes::le16(entry.0 as int));
    bytes::lemma_le16(data, pos, entry.0 as int);
    assert(data.subrange(pos + 2, pos + 4) =~= tail.subrange(2, 4));
    assert(tail.subrange(2, 4) =~= bytes::le16(n));
    bytes::lemma_le16(data, pos + 2, n);
    assert(entry_end(data, pos) == pos + 4 + n);
    assert(entry_key(data, pos) =~= tail.subrange(4, 4 + n));
    assert(tail.subrange(4, 4 + n) =~= key);
    assert(data.skip(pos + 4 + n) =~= tail.skip(4 + n));
    assert(tail.skip(4 + n) =~= behind);
}

/// Entries read back from where they were written.
proof fn lemma_entries_read(data: Seq<u8>, pos: int, entries: Seq<EntryView>)
    requires
        0 <= pos <= data.len(),
        data.skip(pos) == entries_bytes(entries),
        forall|i: int| 0 <= i < entries.len() ==> encode_utf8(#[trigger] entries[i].1).len() < 65536,
    ensures
        entries_fit(data, pos, entries.len()),
        entries_are_text(data, pos, entries.len()),
        entries_at(data, pos, entries.len()) == entries,
    decreases entries.len(),
{
    if entries.len() == 0 {
        assert(entries =~= Seq::<EntryView>::empty());
    } else {
        let rest = entries.drop_first();
        lemma_entries_bytes_front(entries);
        assert(encode_utf8(entries[0].1).len() < 65536);
        lemma_entry_read(data, pos, entries[0], entries_bytes(rest));
        encode_utf8_valid_utf8(entries[0].1);
        encode_utf8_decode_utf8(entries[0].1);
        assert forall|i: int| 0 <= i < rest.len() implies encode_utf8(#[trigger] rest[i].1).len()
            < 65536 by {
            assert(rest[i] == entries[i + 1]);
        }
        lemma_entries_read(data, entry_end(data, pos), rest);
        assert(entries_at(data, pos, entries.len()) =~= seq![entries[0]] + rest);
        assert(seq![entries[0]] + rest =~= entries);
    }
}

/// A table file gives back the entries that it was written from.
pub proof fn law_table_file_round_trip(entries: Seq<EntryView>)
    requires
        entries.len() < 4294967296,
        forall|i: int| 0 <= i < entries.len() ==> encode_utf8(#[trigger] entries[i].1).len() < 65536,
    ensures
        file_fits(file_bytes(entries)),
        has_magic(file_bytes(entries)),
        entries_are_text(file_bytes(entries), 8, entry_count(file_bytes(entries))),
        file_entries(file_bytes(entries)) == entries,
{
    let data = file_bytes(entries);
    assert(data.subrange(0, 4) =~= bytes::le32(TABLE_MAGIC as int));
    bytes::lemma_le32(data, 0, TABLE_MAGIC as int);
    assert(data.subrange(4, 8) =~= bytes::le32(entries.len() as int));
    bytes::lemma_le32(data, 4, entries.len() as int);
    assert(data.skip(8) =~= entries_bytes(entries));
    lemma_entries_read(data, 8, entries);
}

/// A table knows the keys of its entries and no others.
pub proof fn law_table_keys(entries: Seq<EntryView>, key: Seq<char>)
    ensures
        table_of(entries).contains_key(key) <==> exists|i: int|
            0 <= i < entries.len() && #[trigger] entries[i].1 == key,
    decreases entries.len(),
{
    if entries.len() > 0 {
        let front = entries.drop_last();
        let last = entries.len() - 1;
        law_table_keys(front, key);
        if table_of(front).contains_key(key) {
            let i = choose|i: int| 0 <= i < front.len() && #[trigger] front[i].1 == key;
            assert(entries[i].1 == key);
        }
        if exists|i: int| 0 <= i < entries.len() && #[trigger] entries[i].1 == key {
            let i = choose|i: int| 0 <= i < entries.len() && #[trigger] entries[i].1 == key;
            if i < last {
                assert(front[i].1 == key);
            }
        }
        if entries[last].1 == key {
            assert(table_of(entries).contains_key(key));
        }
    }
}

/// A table gives a key the number of the last entry with that key.
pub proof fn law_table_lookup(entries: Seq<EntryView>, i: int)
    requires
        0 <= i < entries.len(),
        forall|j: int| i < j < entries.len() ==> #[trigger] entries[j].1 != entries[i].1,
    ensures
        table_of(entries).contains_key(entries[i].1),
        table_of(entries)[entries[i].1] == entries[i].0,
    decreases entries.len(),
{
    let front = entries.drop_last();
    let last = entries.len() - 1;
    if i < last {
        assert(entries[last].1 != entries[i].1);
        assert forall|j: int| i < j < front.len() implies #[trigger] front[j].1 != front[i].1 by {
            assert(entries[j].1 != entries[i].1);
        }
        law_table_lookup(front, i);
    }
}

/// A table file starts with four fixed bytes and the number of its entries, and
/// every entry stands behind those before it: its number, the length of its key
/// and its key.
pub proof fn law_table_file_layout(entries: Seq<EntryView>, entry: EntryView)
    ensures
        file_bytes(entries).take(4) == seq![0x44u8, 0x49u8, 0x53u8, 0x42u8],
        file_bytes(entries).subrange(4, 8) == bytes::le32(entries.len() as int),
        file_bytes(seq![]).len() == 8,
        file_bytes(entries.push(entry)).skip(8) == file_bytes(entries).skip(8) + bytes::le16(
            entry.0 as int,
        ) + bytes::le16(encode_utf8(entry.1).len() as int) + encode_utf8(entry.1),
{
    let more = entries.push(entry);
    assert(file_bytes(entries).take(4) =~= bytes::le32(TABLE_MAGIC as int));
    assert(bytes::le32(TABLE_MAGIC as int) =~= seq![0x44u8, 0x49u8, 0x53u8, 0x42u8]);
    assert(file_bytes(entries).subrange(4, 8) =~= bytes::le32(entries.len() as int));
    assert(more.drop_last() =~= entries);
    assert(file_bytes(entries).skip(8) =~= entries_bytes(entries));
    assert(file_bytes(more).skip(8) =~= entries_bytes(entries) + bytes::le16(entry.0 as int)
        + bytes::le16(encode_utf8(entry.1).len() as int) + encode_utf8(entry.1));
}

/// A table file that is cut off is not complete, wherever the cut is behind the
/// four fixed bytes.
pub proof fn law_cut_table_file_is_not_complete(entries: Seq<EntryView>, n: int)
    requires
        entries.len() < 4294967296,
        forall|i: int| 0 <= i < entries.len() ==> encode_utf8(#[trigger] entries[i].1).len() < 65536,
        0 <= n < file_bytes(entries).len(),
    ensures
        !file_fits(file_bytes(entries).take(n)),
{
    let whole = file_bytes(entries);
    let data = whole.take(n);
    if n >= 8 {
        assert(whole.subrange(4, 8) =~= bytes::le32(entries.len() as int));
        assert(data.subrange(4, 8) =~= whole.subrange(4, 8));
        bytes::lemma_le32(data, 4, entries.len() as int);
        assert(whole.skip(8) =~= entries_bytes(entries));
        lemma_cut_entries(whole, n, 8, entries);
    }
    if n >= 4 {
        assert(data.subrange(0, 4) =~= bytes::le32(TABLE_MAGIC as int));
        bytes::lemma_le32(data, 0, TABLE_MAGIC as int);
    }
}

/// Entries that are cut off do not lie within the file.
proof fn lemma_cut_entries(whole: Seq<u8>, n: int, pos: int, entries: Seq<EntryView>)
    requires
        0 <= pos <= n < whole.len(),
        whole.skip(pos) == entries_bytes(entries),
        forall|i: int| 0 <= i < entries.len() ==> encode_utf8(#[trigger] entries[i].1).len() < 65536,
    ensures
        !entries_fit(whole.take(n), pos, entries.len()),
    decreases entries.len(),
{
    let data = whole.take(n);
    if entries.len() == 0 {
        assert(entries_bytes(entries).len() == 0);
        assert(whole.skip(pos).len() == whole.len() - pos);
    } else {
        let rest = entries.drop_first();
        lemma_entries_bytes_front(entries);
        assert(encode_utf8(entries[0].1).len() < 65536);
        lemma_entry_read(whole, pos, entries[0], entries_bytes(rest));
        if entry_fits(data, pos) {
            assert(entry_end(data, pos) == entry_end(whole, pos));
            assert(entry_key(data, pos) =~= entry_key(whole, pos));
            encode_utf8_valid_utf8(entries[0].1);
            assert forall|i: int| 0 <= i < rest.len() implies encode_utf8(#[trigger] rest[i].1).len()
                < 65536 by {
                assert(rest[i] == entries[i + 1]);
            }
            lemma_cut_entries(whole, n, entry_end(whole, pos), rest);
        }
    }
}

/// A file is that of a table exactly if its first four bytes say so. A file of
/// fewer bytes is not complete, and of a file that is no table nothing more is read.
pub proof fn law_table_files_are_told_apart(data: Seq<u8>)
    ensures
        data.len() < 4 ==> !file_fits(data),
        data.len() >= 4 ==> (has_magic(data) <==> data.take(4) == seq![
            'D' as u8,
            'I' as u8,
            'S' as u8,
            'B' as u8,
        ]),
        data.len() >= 4 && !has_magic(data) ==> file_fits(data),
        data.len() < 8 && has_magic(data) ==> !file_fits(data),
{
    if data.len() >= 4 {
        let head = data.take(4);
        assert(head[0] == data[0] && head[1] == data[1] && head[2] == data[2] && head[3]
            == data[3]);
        if has_magic(data) {
            let n = data[0] + 256 * data[1] + 65536 * data[2] + 16777216 * data[3];
            assert(n == 1112754500);
            assert(data[0] == 68 && data[1] == 73 && data[2] == 83 && data[3] == 66);
            assert(head =~= seq!['D' as u8, 'I' as u8, 'S' as u8, 'B' as u8]);
        }
    }
}

} // verus!
