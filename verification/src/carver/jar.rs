//! The entries of the client archive that were read already.

use vstd::hash_map::StringHashMap;
use vstd::prelude::*;

verus! {

/// Entries by path.
pub struct EntryCache {
    map: StringHashMap<Vec<u8>>,
}

/// Bytes by path: those of an archive, or those of it that were read already.
pub type Entries = Map<Seq<char>, Seq<u8>>;

impl View for EntryCache {
    type V = Entries;

    closed spec fn view(&self) -> Entries {
        self.map@.map_values(|bytes: Vec<u8>| bytes@)
    }
}

/// The bytes under a path, if there are any.
pub open spec fn held(entries: Entries, path: Seq<char>) -> Option<Seq<u8>> {
    if entries.contains_key(path) {
        Some(entries[path])
    } else {
        None
    }
}

/// The cache once it is known what the archive holds under a path. A missing
/// entry is not remembered.
pub open spec fn settled(cache: Entries, path: Seq<char>, found: Option<Seq<u8>>) -> Entries {
    match found {
        Some(bytes) => cache.insert(path, bytes),
        None => cache,
    }
}

/// A copy of bytes.
fn copy_bytes(bytes: &Vec<u8>) -> (r: Vec<u8>)
    ensures
        r@ == bytes@,
{
    let mut out: Vec<u8> = Vec::new();
    crate::bytes::append(&mut out, bytes.as_slice());
    assert(out@ =~= bytes@);
    out
}

/// The bytes of an optional entry.
pub open spec fn content(entry: Option<Vec<u8>>) -> Option<Seq<u8>> {
    match entry {
        Some(bytes) => Some(bytes@),
        None => None,
    }
}

impl EntryCache {
    /// A cache without entries.
    pub fn new() -> (r: EntryCache)
        ensures
            r@ == Entries::empty(),
    {
        let r = EntryCache { map: StringHashMap::new() };
        assert(r@ =~= Entries::empty());
        r
    }

    /// The bytes of an entry that was read already.
    pub fn get(&self, path: &str) -> (r: Option<Vec<u8>>)
        ensures
            content(r) == held(self@, path@),
    {
        match self.map.get(path) {
            Some(bytes) => Some(copy_bytes(bytes)),
            None => None,
        }
    }

    /// Takes note of what the archive holds under a path, and hands it on. A
    /// missing entry is not remembered.
    pub fn settle(&mut self, path: &str, found: Option<Vec<u8>>) -> (r: Option<Vec<u8>>)
        ensures
            content(r) == content(found),
            final(self)@ == settled(old(self)@, path@, content(found)),
    {
        let ghost before = self@;
        match found {
            Some(bytes) => {
                let copy = copy_bytes(&bytes);
                self.map.insert(path.to_owned(), bytes);
                assert(self@ =~= before.insert(path@, copy@));
                Some(copy)
            },
            None => None,
        }
    }
}

/// Whether everything in the cache is what the archive holds.
pub open spec fn is_faithful(cache: Entries, archive: Entries) -> bool {
    forall|path: Seq<char>| #[trigger]
        cache.contains_key(path) ==> held(archive, path) == Some(cache[path])
}

/// An empty cache is faithful to every archive, and stays so when it is told
/// what the archive holds. A faithful cache gives no bytes but the archive's.
pub proof fn law_cache_is_faithful(cache: Entries, archive: Entries, path: Seq<char>)
    ensures
        is_faithful(Entries::empty(), archive),
        is_faithful(cache, archive) ==> is_faithful(
            settled(cache, path, held(archive, path)),
            archive,
        ),
        is_faithful(cache, archive) && held(cache, path) is Some ==> held(cache, path) == held(
            archive,
            path,
        ),
{
}

/// What asking for a path gives: what the cache holds, or else what the archive holds.
pub open spec fn answer(cache: Entries, archive: Entries, path: Seq<char>) -> Option<Seq<u8>> {
    match held(cache, path) {
        Some(bytes) => Some(bytes),
        None => held(archive, path),
    }
}

/// The cache after asking for a path: what the cache did not hold is settled.
pub open spec fn asked(cache: Entries, archive: Entries, path: Seq<char>) -> Entries {
    match held(cache, path) {
        Some(_) => cache,
        None => settled(cache, path, held(archive, path)),
    }
}

/// The cache after asking for paths one after the other.
pub open spec fn asked_all(cache: Entries, archive: Entries, paths: Seq<Seq<char>>) -> Entries
    decreases paths.len(),
{
    if paths.len() == 0 {
        cache
    } else {
        asked(asked_all(cache, archive, paths.drop_last()), archive, paths.last())
    }
}

/// Asking for paths keeps a cache faithful.
proof fn lemma_asking_keeps_faith(cache: Entries, archive: Entries, paths: Seq<Seq<char>>)
    requires
        is_faithful(cache, archive),
    ensures
        is_faithful(asked_all(cache, archive, paths), archive),
    decreases paths.len(),
{
    if paths.len() > 0 {
        lemma_asking_keeps_faith(cache, archive, paths.drop_last());
        law_cache_is_faithful(
            asked_all(cache, archive, paths.drop_last()),
            archive,
            paths.last(),
        );
    }
}

/// A path gives what the archive holds under it, and nothing if the archive has
/// no such entry, whichever paths were asked for before. So it gives the same
/// every time.
pub proof fn law_answers_come_from_the_archive(
    archive: Entries,
    paths: Seq<Seq<char>>,
    path: Seq<char>,
)
    ensures
        answer(asked_all(Entries::empty(), archive, paths), archive, path) == held(archive, path),
{
    let cache = asked_all(Entries::empty(), archive, paths);
    lemma_asking_keeps_faith(Entries::empty(), archive, paths);
    law_cache_is_faithful(cache, archive, path);
}

/// A file that is found is held from then on, in place of what was held before, and
/// other files and what is not found change nothing.
pub proof fn law_found_files_are_held(
    cache: Entries,
    path: Seq<char>,
    other: Seq<char>,
    bytes: Seq<u8>,
)
    requires
        other != path,
    ensures
        held(settled(cache, path, Some(bytes)), path) == Some(bytes),
        held(settled(cache, path, Some(bytes)), other) == held(cache, other),
        settled(cache, path, None) == cache,
{
}

} // verus!
