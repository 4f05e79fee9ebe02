//! The block states of a bake in the order of their numbers.

use vstd::prelude::*;

use crate::reader::table;

verus! {

/// The entries with a number among the first `n`.
pub open spec fn with_id(entries: Seq<table::EntryView>, id: int, n: int) -> Seq<table::EntryView>
    decreases n,
{
    if n <= 0 {
        seq![]
    } else if entries[n - 1].0 == id {
        with_id(entries, id, n - 1).push(entries[n - 1])
    } else {
        with_id(entries, id, n - 1)
    }
}

/// The entries with numbers below `n`, by number, and those with the same
/// number in the order in which they stood.
pub open spec fn sorted_below(entries: Seq<table::EntryView>, n: int) -> Seq<table::EntryView>
    decreases n,
{
    if n <= 0 {
        seq![]
    } else {
        sorted_below(entries, n - 1) + with_id(entries, n - 1, entries.len() as int)
    }
}

/// The entries by number.
pub open spec fn sorted(entries: Seq<table::EntryView>) -> Seq<table::EntryView> {
    sorted_below(entries, 65536)
}

/// Whether all numbers are below a limit, and the limit is the least one above zero.
pub open spec fn is_slot_count(entries: Seq<table::EntryView>, count: int) -> bool {
    &&& count >= 1
    &&& forall|i: int| 0 <= i < entries.len() ==> (#[trigger] entries[i]).0 < count
    &&& count > 1 ==> exists|i: int|
        0 <= i < entries.len() && (#[trigger] entries[i]).0 == count - 1
}

/// How many slots the files of a bake have: one for every number up to the
/// largest, and one if there are no entries.
pub fn slot_count(entries: &[(u16, String)]) -> (count: usize)
    ensures
        is_slot_count(table::entry_views(entries@), count as int),
{
    let ghost all = table::entry_views(entries@);
    let mut count: usize = 1;
    let mut i: usize = 0;
    while i < entries.len()
        invariant
            i <= entries@.len(),
            all == table::entry_views(entries@),
            1 <= count <= 65536,
            forall|j: int| 0 <= j < i ==> (#[trigger] all[j]).0 < count,
            count > 1 ==> exists|j: int| 0 <= j < all.len() && (#[trigger] all[j]).0 == count - 1,
        decreases entries.len() - i,
    {
        let id: u16 = entries[i].0;
        assert(all[i as int].0 == id);
        if id as usize >= count {
            count = id as usize + 1;
        }
        i += 1;
    }
    count
}

/// Numbers from a limit on do not occur.
proof fn lemma_no_more(entries: Seq<table::EntryView>, id: int, n: int)
    requires
        0 <= n <= entries.len(),
        forall|i: int| 0 <= i < entries.len() ==> (#[trigger] entries[i]).0 != id,
    ensures
        with_id(entries, id, n) == Seq::<table::EntryView>::empty(),
    decreases n,
{
    if n > 0 {
        lemma_no_more(entries, id, n - 1);
        assert(entries[n - 1].0 != id);
    }
}

/// Above the largest number nothing is added.
proof fn lemma_sorted_at_count(entries: Seq<table::EntryView>, count: int, n: int)
    requires
        is_slot_count(entries, count),
        count <= n,
    ensures
        sorted_below(entries, n) == sorted_below(entries, count),
    decreases n,
{
    if n > count {
        lemma_sorted_at_count(entries, count, n - 1);
        lemma_no_more(entries, n - 1, entries.len() as int);
        assert(sorted_below(entries, n) =~= sorted_below(entries, n - 1));
    }
}

/// The entries by number.
pub fn sort_entries(entries: &[(u16, String)]) -> (r: Vec<(u16, String)>)
    ensures
        table::entry_views(r@) == sorted(table::entry_views(entries@)),
{
    let ghost all = table::entry_views(entries@);
    let count: usize = slot_count(entries);
    let mut out: Vec<(u16, String)> = Vec::new();
    let mut id: usize = 0;
    assert(table::entry_views(out@) =~= sorted_below(all, 0));
    while id < count
        invariant
            id <= count,
            all == table::entry_views(entries@),
            table::entry_views(out@) == sorted_below(all, id as int),
        decreases count - id,
    {
        let ghost head = sorted_below(all, id as int);
        let mut i: usize = 0;
        assert(head + with_id(all, id as int, 0) =~= head);
        while i < entries.len()
            invariant
                i <= entries@.len(),
                all == table::entry_views(entries@),
                table::entry_views(out@) == head + with_id(all, id as int, i as int),
            decreases entries.len() - i,
        {
            let ghost before = out@;
            let e = &entries[i];
            assert(all[i as int] == (e.0, e.1@));
            if e.0 as usize == id {
                let key = e.1.clone();
                out.push((e.0, key));
                proof {
                    assert(table::entry_views(out@) =~= table::entry_views(before).push(
                        all[i as int],
                    ));
                    assert(table::entry_views(out@) =~= head + with_id(all, id as int, i + 1));
                }
            }
            i += 1;
        }
        assert(all.len() == entries@.len());
        id += 1;
    }
    proof {
        // Numbers have 16 bits, so the limit is at most one above the largest of them.
        if count > 65536 {
            let i = choose|i: int| 0 <= i < all.len() && (#[trigger] all[i]).0 == count - 1;
            assert(all[i].0 <= 65535);
        }
        lemma_sorted_at_count(all, count as int, 65536);
    }
    out
}

/// Entries with a number have that number.
proof fn lemma_with_id(entries: Seq<table::EntryView>, id: int, n: int)
    requires
        0 <= n <= entries.len(),
    ensures
        forall|i: int|
            0 <= i < with_id(entries, id, n).len() ==> (#[trigger] with_id(entries, id, n)[i]).0
                == id,
    decreases n,
{
    if n > 0 {
        lemma_with_id(entries, id, n - 1);
        let front = with_id(entries, id, n - 1);
        assert forall|i: int| 0 <= i < with_id(entries, id, n).len() implies (#[trigger] with_id(
            entries,
            id,
            n,
        )[i]).0 == id by {
            if i < front.len() {
                assert(front[i].0 == id);
            }
        }
    }
}

/// Entries with a number occur as often as among all.
proof fn lemma_with_id_count(
    entries: Seq<table::EntryView>,
    id: int,
    n: int,
    e: table::EntryView,
)
    requires
        0 <= n <= entries.len(),
    ensures
        with_id(entries, id, n).to_multiset().count(e) == if e.0 == id {
            entries.take(n).to_multiset().count(e)
        } else {
            0
        },
    decreases n,
{
    broadcast use vstd::seq_lib::group_to_multiset_ensures;

    if n > 0 {
        lemma_with_id_count(entries, id, n - 1, e);
        let front = entries.take(n - 1);
        assert(entries.take(n) =~= front.push(entries[n - 1]));
    } else {
        assert(entries.take(0) =~= Seq::<table::EntryView>::empty());
        assert(with_id(entries, id, 0).to_multiset() =~= vstd::multiset::Multiset::empty());
    }
}

/// Sorted entries with numbers below a limit ascend and lie below it.
proof fn lemma_sorted_ascends(entries: Seq<table::EntryView>, n: int)
    ensures
        forall|i: int|
            0 <= i < sorted_below(entries, n).len() ==> (#[trigger] sorted_below(entries, n)[i]).0
                < n,
        forall|i: int, j: int|
            0 <= i <= j < sorted_below(entries, n).len() ==> (#[trigger] sorted_below(
                entries,
                n,
            )[i]).0 <= (#[trigger] sorted_below(entries, n)[j]).0,
    decreases n,
{
    if n > 0 {
        lemma_sorted_ascends(entries, n - 1);
        lemma_with_id(entries, n - 1, entries.len() as int);
        let front = sorted_below(entries, n - 1);
        let last = with_id(entries, n - 1, entries.len() as int);
        let whole = sorted_below(entries, n);
        assert forall|i: int| 0 <= i < whole.len() implies (#[trigger] whole[i]).0 < n && (i
            >= front.len() ==> whole[i].0 == n - 1) && (i < front.len() ==> whole[i] == front[i]) by {
            if i < front.len() {
                assert(front[i].0 < n - 1);
            } else {
                assert(last[i - front.len()].0 == n - 1);
            }
        }
    }
}

/// Sorted entries occur as often as among all.
proof fn lemma_sorted_count(entries: Seq<table::EntryView>, n: int, e: table::EntryView)
    requires
        0 <= n,
    ensures
        sorted_below(entries, n).to_multiset().count(e) == if e.0 < n {
            entries.to_multiset().count(e)
        } else {
            0
        },
    decreases n,
{
    broadcast use vstd::seq_lib::group_to_multiset_ensures;

    if n > 0 {
        lemma_sorted_count(entries, n - 1, e);
        lemma_with_id_count(entries, n - 1, entries.len() as int, e);
        assert(entries.take(entries.len() as int) =~= entries);
        vstd::seq_lib::lemma_multiset_commutative(
            sorted_below(entries, n - 1),
            with_id(entries, n - 1, entries.len() as int),
        );
    } else {
        assert(sorted_below(entries, n).to_multiset() =~= vstd::multiset::Multiset::empty());
    }
}

/// Sorting keeps the entries and puts them in the order of their numbers.
pub proof fn law_sorting(entries: Seq<table::EntryView>)
    ensures
        sorted(entries).to_multiset() == entries.to_multiset(),
        forall|i: int, j: int|
            0 <= i <= j < sorted(entries).len() ==> (#[trigger] sorted(entries)[i]).0 <= (
            #[trigger] sorted(entries)[j]).0,
{
    lemma_sorted_ascends(entries, 65536);
    assert forall|e: table::EntryView|
        sorted(entries).to_multiset().count(e) == entries.to_multiset().count(e) by {
        lemma_sorted_count(entries, 65536, e);
    }
    assert(sorted(entries).to_multiset() =~= entries.to_multiset());
}

/// The entries with a number of two lists in a row.
proof fn lemma_with_id_concat(
    a: Seq<table::EntryView>,
    b: Seq<table::EntryView>,
    id: int,
    n: int,
)
    requires
        0 <= n <= b.len(),
    ensures
        with_id(a + b, id, a.len() + n) == with_id(a, id, a.len() as int) + with_id(b, id, n),
    decreases n,
{
    if n > 0 {
        lemma_with_id_concat(a, b, id, n - 1);
        assert((a + b)[a.len() + n - 1] == b[n - 1]);
        assert(with_id(a + b, id, a.len() + n) =~= with_id(a, id, a.len() as int) + with_id(
            b,
            id,
            n,
        ));
    } else {
        lemma_with_id_prefix(a + b, a, id, a.len() as int);
        assert(with_id(a, id, a.len() as int) + with_id(b, id, 0) =~= with_id(
            a,
            id,
            a.len() as int,
        ));
    }
}

/// The entries with a number among the first ones depend on these alone.
proof fn lemma_with_id_prefix(
    a: Seq<table::EntryView>,
    b: Seq<table::EntryView>,
    id: int,
    n: int,
)
    requires
        n <= a.len(),
        n <= b.len(),
        forall|i: int| 0 <= i < n ==> a[i] == b[i],
    ensures
        with_id(a, id, n) == with_id(b, id, n),
    decreases n,
{
    if n > 0 {
        lemma_with_id_prefix(a, b, id, n - 1);
    }
}

/// Entries that all have one number.
proof fn lemma_with_id_same(entries: Seq<table::EntryView>, other: int, id: int, n: int)
    requires
        0 <= n <= entries.len(),
        forall|i: int| 0 <= i < entries.len() ==> (#[trigger] entries[i]).0 == other,
    ensures
        with_id(entries, id, n) == if id == other {
            entries.take(n)
        } else {
            seq![]
        },
    decreases n,
{
    if n > 0 {
        lemma_with_id_same(entries, other, id, n - 1);
        assert(entries[n - 1].0 == other);
        if id == other {
            assert(entries.take(n) =~= entries.take(n - 1).push(entries[n - 1]));
        }
    } else {
        assert(entries.take(0) =~= seq![]);
    }
}

/// The entries with a number among the sorted ones.
proof fn lemma_sorted_with_id(entries: Seq<table::EntryView>, n: int, id: int)
    requires
        0 <= id,
    ensures
        with_id(sorted_below(entries, n), id, sorted_below(entries, n).len() as int) == if id < n {
            with_id(entries, id, entries.len() as int)
        } else {
            seq![]
        },
    decreases n,
{
    if n > 0 {
        lemma_sorted_with_id(entries, n - 1, id);
        let front = sorted_below(entries, n - 1);
        let last = with_id(entries, n - 1, entries.len() as int);
        lemma_with_id(entries, n - 1, entries.len() as int);
        lemma_with_id_concat(front, last, id, last.len() as int);
        lemma_with_id_same(last, n - 1, id, last.len() as int);
        assert(last.take(last.len() as int) =~= last);
        let none = Seq::<table::EntryView>::empty();
        if id == n - 1 {
            assert(none + last =~= last);
        } else {
            let own = with_id(front, id, front.len() as int);
            assert(own + none =~= own);
        }
    }
}

/// Sorting keeps entries with the same number in the order in which they stood.
pub proof fn law_sorting_is_stable(entries: Seq<table::EntryView>, id: int)
    requires
        0 <= id < 65536,
    ensures
        with_id(sorted(entries), id, sorted(entries).len() as int) == with_id(
            entries,
            id,
            entries.len() as int,
        ),
{
    lemma_sorted_with_id(entries, 65536, id);
}

/// The entries with a number are picked in order: one more entry is added at the
/// end exactly if it has the number.
pub proof fn law_picking_keeps_order(
    entries: Seq<table::EntryView>,
    entry: table::EntryView,
    id: int,
)
    ensures
        with_id(seq![], id, 0) == Seq::<table::EntryView>::empty(),
        with_id(entries.push(entry), id, entries.len() as int + 1) == if entry.0 == id {
            with_id(entries, id, entries.len() as int).push(entry)
        } else {
            with_id(entries, id, entries.len() as int)
        },
{
    lemma_with_id_prefix(entries.push(entry), entries, id, entries.len() as int);
}

/// There are as many slots as the largest number and one, and one if there are
/// no entries. So the number of slots is certain.
pub proof fn law_slot_count_is_unique(entries: Seq<table::EntryView>, a: int, b: int, i: int)
    requires
        is_slot_count(entries, a),
        is_slot_count(entries, b),
        0 <= i < entries.len(),
        forall|j: int| 0 <= j < entries.len() ==> (#[trigger] entries[j]).0 <= entries[i].0,
    ensures
        a == b,
        a == entries[i].0 + 1,
{
    assert(entries[i].0 < a && entries[i].0 < b);
    if a > 1 {
        let j = choose|j: int| 0 <= j < entries.len() && (#[trigger] entries[j]).0 == a - 1;
        assert(entries[j].0 <= entries[i].0);
    }
    if b > 1 {
        let j = choose|j: int| 0 <= j < entries.len() && (#[trigger] entries[j]).0 == b - 1;
        assert(entries[j].0 <= entries[i].0);
    }
}

/// Without entries there is one slot, and an entry more makes room for its number.
pub proof fn law_entries_make_room(
    entries: Seq<table::EntryView>,
    entry: table::EntryView,
    a: int,
    b: int,
)
    requires
        is_slot_count(entries, a),
        is_slot_count(entries.push(entry), b),
    ensures
        is_slot_count(seq![], 1),
        entries.len() == 0 ==> a == 1,
        b == vstd::math::max(a, entry.0 + 1),
{
    let all = entries.push(entry);
    let n = entries.len() as int;
    assert(all[n] == entry);
    assert forall|i: int| 0 <= i < n implies (#[trigger] entries[i]).0 < b by {
        assert(all[i] == entries[i]);
    }
    if a > 1 {
        let i = choose|i: int| 0 <= i < entries.len() && (#[trigger] entries[i]).0 == a - 1;
        assert(entries[i].0 < b);
    }
    if b > 1 {
        let i = choose|i: int| 0 <= i < all.len() && (#[trigger] all[i]).0 == b - 1;
        if i < n {
            assert(all[i] == entries[i]);
        }
    }
}

} // verus!
