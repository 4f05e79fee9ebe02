//! Worlds: which files of a zipped world hold its chunks.

use vstd::prelude::*;

use crate::text;

verus! {

/// The directories and the file that a path names.
pub open spec fn path_parts(pieces: Seq<Seq<char>>) -> Seq<Seq<char>>
    decreases pieces.len(),
{
    if pieces.len() == 0 {
        seq![]
    } else {
        let before = path_parts(pieces.drop_last());
        if pieces.last() == ""@ || pieces.last() == "."@ {
            before
        } else {
            before.push(pieces.last())
        }
    }
}

/// Whether a directory holds a dimension other than the overworld.
pub open spec fn is_other_dimension(name: Seq<char>) -> bool {
    name == "DIM-1"@ || name == "DIM1"@
}

/// Whether a file of a zipped world is a region file of the overworld: its name
/// ends in `.mca`, and it lies in a directory named `region` outside the other
/// dimensions, or in no named directory.
pub open spec fn is_overworld_region(name: Seq<char>) -> bool {
    let parts = path_parts(text::split(name, '/'));
    let n = parts.len() as int;
    &&& ".mca"@.is_suffix_of(name)
    &&& if n < 2 || parts[n - 2] == ".."@ {
        true
    } else {
        parts[n - 2] == "region"@ && !(n >= 3 && is_other_dimension(parts[n - 3]))
    }
}

/// The directories and the file that a path names.
fn named_parts(name: &str) -> (r: Vec<&str>)
    ensures
        text::views(r@) == path_parts(text::split(name@, '/')),
{
    let pieces = text::split_at_char(name, '/');
    let ghost all = text::split(name@, '/');
    let mut parts: Vec<&str> = Vec::new();
    let mut i: usize = 0;
    assert(all.take(0) =~= Seq::<Seq<char>>::empty());
    assert(text::views(parts@) =~= path_parts(all.take(0)));
    while i < pieces.len()
        invariant
            i <= pieces@.len(),
            text::views(pieces@) == all,
            text::views(parts@) == path_parts(all.take(i as int)),
        decreases pieces.len() - i,
    {
        let piece = pieces[i];
        let ghost before = parts@;
        proof {
            assert(all[i as int] == piece@);
            assert(all.take(i + 1).drop_last() =~= all.take(i as int));
            assert(all.take(i + 1).last() == piece@);
        }
        if !text::same(piece, "") && !text::same(piece, ".") {
            parts.push(piece);
            assert(text::views(parts@) =~= text::views(before).push(piece@));
        }
        i += 1;
    }
    assert(pieces@.len() == all.len());
    assert(all.take(i as int) =~= all);
    parts
}

/// Whether a file of a zipped world is a region file of the overworld.
pub fn is_region_file(name: &str) -> (r: bool)
    ensures
        r == is_overworld_region(name@),
{
    if !text::ends_with(name, ".mca") {
        return false;
    }
    let parts = named_parts(name);
    let n: usize = parts.len();
    proof {
        let views = text::views(parts@);
        assert(forall|i: int| 0 <= i < n ==> #[trigger] views[i] == parts@[i]@);
    }
    if n < 2 || text::same(parts[n - 2], "..") {
        return true;
    }
    if !text::same(parts[n - 2], "region") {
        return false;
    }
    !(n >= 3 && (text::same(parts[n - 3], "DIM-1") || text::same(parts[n - 3], "DIM1")))
}

/// Parts of a path come in order: empty pieces and single dots name nothing, and
/// every other piece is the next part.
pub proof fn law_path_parts(pieces: Seq<Seq<char>>, piece: Seq<char>)
    ensures
        path_parts(seq![]) == Seq::<Seq<char>>::empty(),
        path_parts(pieces.push(piece)) == if piece == ""@ || piece == "."@ {
            path_parts(pieces)
        } else {
            path_parts(pieces).push(piece)
        },
{
    assert(pieces.push(piece).drop_last() =~= pieces);
}

/// Two texts with a slash between them.
pub open spec fn in_directory(dir: Seq<char>, name: Seq<char>) -> Seq<char> {
    dir + seq!['/'] + name
}

/// A file in a folder is a region file of the overworld exactly if its name ends
/// in `.mca`, the folder is named `region`, and the directory that holds the folder
/// is not that of the Nether or the End. A file in no directory, or in one that is
/// named by two dots only, has to end in `.mca` and no more.
pub proof fn law_region_files_of_the_overworld(
    dir: Seq<char>,
    folder: Seq<char>,
    file: Seq<char>,
)
    requires
        !folder.contains('/'),
        !file.contains('/'),
        folder != ""@ && folder != "."@,
        file != ""@ && file != "."@,
    ensures
        ({
            let parts = path_parts(text::split(dir, '/'));
            let elsewhere = parts.len() > 0 && (parts.last() == "DIM-1"@ || parts.last()
                == "DIM1"@);
            let name = in_directory(dir, in_directory(folder, file));
            &&& is_overworld_region(name) <==> ".mca"@.is_suffix_of(file) && (folder == ".."@
                || folder == "region"@ && !elsewhere)
            &&& is_overworld_region(file) <==> ".mca"@.is_suffix_of(file)
        }),
{
    let inner = in_directory(folder, file);
    let name = in_directory(dir, inner);
    text::law_split_is_additive(folder, '/', file);
    text::law_split_is_additive(file, '/', file);
    text::law_split_is_additive(dir, '/', inner);
    let above = text::split(dir, '/');
    let pieces = text::split(name, '/');
    assert(pieces =~= above.push(folder).push(file));
    law_path_parts(above, folder);
    law_path_parts(above.push(folder), file);
    let none = Seq::<Seq<char>>::empty();
    law_path_parts(none, file);
    assert(text::split(file, '/') =~= none.push(file));
    lemma_suffix_of_last(dir + seq!['/'] + folder, file);
    assert(name =~= dir + seq!['/'] + folder + seq!['/'] + file);
}

/// What holds no slash ends a path exactly if it ends what stands behind the last slash.
proof fn lemma_suffix_of_last(dir: Seq<char>, file: Seq<char>)
    ensures
        ".mca"@.is_suffix_of(dir + seq!['/'] + file) <==> ".mca"@.is_suffix_of(file),
{
    reveal_strlit(".mca");
    let end = ".mca"@;
    let name = dir + seq!['/'] + file;
    assert(end[0] == '.' && end[1] == 'm' && end[2] == 'c' && end[3] == 'a');
    if end.is_suffix_of(name) {
        let tail = name.subrange(name.len() - 4, name.len() as int);
        assert(end =~= tail);
        if file.len() < 4 {
            let k = 3 - file.len();
            assert(tail[k] == name[dir.len() as int]);
            assert(tail[k] == '/');
            assert(end[k] != '/');
        } else {
            assert(file.subrange(file.len() - 4, file.len() as int) =~= tail);
        }
    }
    if end.is_suffix_of(file) {
        assert(name.subrange(name.len() - 4, name.len() as int) =~= file.subrange(
            file.len() - 4,
            file.len() as int,
        ));
    }
}

} // verus!
