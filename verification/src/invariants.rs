//! What stays true of the shelves whatever is done to them: no two shelves
//! share a name, and no book stands in two places.

use crate::library::{
    default_shelf_name, discard_verdict, heir_of, holds_book, merged, move_verdict, moved,
    name_taken, registered, removal_verdict, set_apart, stands_at, with_books, with_default_shelf,
    without,
};
use crate::shelf::{empty_shelf, same_name, ShelfView};
use vstd::prelude::*;

verus! {

/// Whether no two shelves have the same name, letter case set aside.
pub open spec fn names_distinct(shelves: Seq<ShelfView>) -> bool {
    forall|i: int, j: int|
        0 <= i < j < shelves.len() ==> !same_name(
            (#[trigger] shelves[i]).name,
            (#[trigger] shelves[j]).name,
        )
}

/// How often `id` occurs in `ids`.
pub open spec fn copies_on(ids: Seq<Seq<char>>, id: Seq<char>) -> nat
    decreases ids.len(),
{
    if ids.len() == 0 {
        0
    } else if ids.last() == id {
        copies_on(ids.drop_last(), id) + 1
    } else {
        copies_on(ids.drop_last(), id)
    }
}

/// How often the book `id` occurs on all shelves together.
pub open spec fn copies(shelves: Seq<ShelfView>, id: Seq<char>) -> nat
    decreases shelves.len(),
{
    if shelves.len() == 0 {
        0
    } else {
        copies(shelves.drop_last(), id) + copies_on(shelves.last().uuids, id)
    }
}

/// Whether no book stands in two places: on two shelves, or twice on one.
pub open spec fn books_distinct(shelves: Seq<ShelfView>) -> bool {
    forall|id: Seq<char>| #[trigger] copies(shelves, id) <= 1
}

/// Whether the shelves are in order: names and books are distinct.
pub open spec fn well_formed(shelves: Seq<ShelfView>) -> bool {
    names_distinct(shelves) && books_distinct(shelves)
}

/// The copies in two runs of books are those in the first and those in the
/// second.
pub proof fn lemma_copies_on_concat(a: Seq<Seq<char>>, b: Seq<Seq<char>>, id: Seq<char>)
    ensures
        copies_on(a + b, id) == copies_on(a, id) + copies_on(b, id),
    decreases b.len(),
{
    if b.len() == 0 {
        assert(a + b =~= a);
    } else {
        lemma_copies_on_concat(a, b.drop_last(), id);
        assert((a + b).drop_last() =~= a + b.drop_last());
        assert((a + b).last() == b.last());
    }
}

/// A single book is one copy of itself and none of any other.
pub proof fn lemma_copies_on_one(x: Seq<char>, id: Seq<char>)
    ensures
        copies_on(seq![x], id) == (if x == id {
            1nat
        } else {
            0nat
        }),
{
    let one = seq![x];
    assert(one.drop_last() =~= Seq::<Seq<char>>::empty());
    assert(copies_on(one.drop_last(), id) == 0);
    assert(one.last() == x);
}

/// Putting a book into a run adds one copy of that book and of no other.
pub proof fn lemma_copies_on_insert(ids: Seq<Seq<char>>, at: int, x: Seq<char>, id: Seq<char>)
    requires
        0 <= at <= ids.len(),
    ensures
        copies_on(ids.insert(at, x), id) == copies_on(ids, id) + (if x == id {
            1nat
        } else {
            0nat
        }),
{
    let head = ids.take(at);
    let tail = ids.skip(at);
    assert(ids =~= head + tail);
    assert(ids.insert(at, x) =~= head + seq![x] + tail);
    lemma_copies_on_concat(head, tail, id);
    lemma_copies_on_concat(head + seq![x], tail, id);
    lemma_copies_on_concat(head, seq![x], id);
    lemma_copies_on_one(x, id);
}

/// Taking a book out of a run leaves no copy of it and every copy of the
/// others.
pub proof fn lemma_copies_on_without(ids: Seq<Seq<char>>, gone: Seq<char>, id: Seq<char>)
    ensures
        copies_on(without(ids, gone), id) == (if id == gone {
            0nat
        } else {
            copies_on(ids, id)
        }),
    decreases ids.len(),
{
    if ids.len() > 0 {
        lemma_copies_on_without(ids.drop_last(), gone, id);
        if ids.last() != gone {
            let kept = without(ids.drop_last(), gone).push(ids.last());
            assert(kept.drop_last() =~= without(ids.drop_last(), gone));
            assert(kept.last() == ids.last());
        }
    }
}

/// A run holds a book exactly where the book has a copy in it.
pub proof fn lemma_copies_on_contains(ids: Seq<Seq<char>>, id: Seq<char>)
    ensures
        ids.contains(id) <==> copies_on(ids, id) > 0,
    decreases ids.len(),
{
    if ids.len() > 0 {
        lemma_copies_on_contains(ids.drop_last(), id);
        if ids.last() == id {
            assert(ids[ids.len() - 1] == id);
        } else if ids.contains(id) {
            let k = choose|k: int| 0 <= k < ids.len() && ids[k] == id;
            assert(ids.drop_last()[k] == id);
        } else if ids.drop_last().contains(id) {
            let k = choose|k: int| 0 <= k < ids.drop_last().len() && ids.drop_last()[k] == id;
            assert(ids[k] == id);
        }
    }
}

/// The copies on two runs of shelves are those on the first and those on
/// the second.
pub proof fn lemma_copies_concat(a: Seq<ShelfView>, b: Seq<ShelfView>, id: Seq<char>)
    ensures
        copies(a + b, id) == copies(a, id) + copies(b, id),
    decreases b.len(),
{
    if b.len() == 0 {
        assert(a + b =~= a);
    } else {
        lemma_copies_concat(a, b.drop_last(), id);
        assert((a + b).drop_last() =~= a + b.drop_last());
        assert((a + b).last() == b.last());
    }
}

/// The copies on one shelf alone are those among its books.
pub proof fn lemma_copies_one(shelf: ShelfView, id: Seq<char>)
    ensures
        copies(seq![shelf], id) == copies_on(shelf.uuids, id),
{
    let one = seq![shelf];
    assert(one.drop_last() =~= Seq::<ShelfView>::empty());
    assert(copies(one.drop_last(), id) == 0);
    assert(one.last() == shelf);
}

/// The copies on all shelves are those on one shelf and those on the rest.
pub proof fn lemma_copies_split(shelves: Seq<ShelfView>, at: int, id: Seq<char>)
    requires
        0 <= at < shelves.len(),
    ensures
        copies(shelves, id) == copies(shelves.remove(at), id) + copies_on(shelves[at].uuids, id),
{
    let head = shelves.take(at);
    let tail = shelves.skip(at + 1);
    assert(shelves =~= head + seq![shelves[at]] + tail);
    assert(shelves.remove(at) =~= head + tail);
    lemma_copies_concat(head + seq![shelves[at]], tail, id);
    lemma_copies_concat(head, seq![shelves[at]], id);
    lemma_copies_concat(head, tail, id);
    lemma_copies_one(shelves[at], id);
}

/// Giving one shelf other books changes the copies by the difference.
pub proof fn lemma_copies_with_books(
    shelves: Seq<ShelfView>,
    at: int,
    uuids: Seq<Seq<char>>,
    id: Seq<char>,
)
    requires
        0 <= at < shelves.len(),
    ensures
        copies(with_books(shelves, at, uuids), id) + copies_on(shelves[at].uuids, id) == copies(
            shelves,
            id,
        ) + copies_on(uuids, id),
{
    let after = with_books(shelves, at, uuids);
    lemma_copies_split(shelves, at, id);
    lemma_copies_split(after, at, id);
    assert(after.remove(at) =~= shelves.remove(at));
}

/// A shelf holds a book exactly where the book has a copy on the shelves.
pub proof fn lemma_copies_holds(shelves: Seq<ShelfView>, id: Seq<char>)
    ensures
        holds_book(shelves, id) <==> copies(shelves, id) > 0,
    decreases shelves.len(),
{
    if shelves.len() > 0 {
        let rest = shelves.drop_last();
        lemma_copies_holds(rest, id);
        lemma_copies_on_contains(shelves.last().uuids, id);
        if holds_book(shelves, id) {
            let i = choose|i: int|
                0 <= i < shelves.len() && (#[trigger] shelves[i]).uuids.contains(id);
            if i < shelves.len() - 1 {
                assert(rest[i].uuids.contains(id));
            }
        }
        if copies(shelves, id) > 0 {
            if copies_on(shelves.last().uuids, id) > 0 {
                assert(shelves[shelves.len() - 1].uuids.contains(id));
            } else {
                let i = choose|i: int| 0 <= i < rest.len() && (#[trigger] rest[i]).uuids.contains(id);
                assert(shelves[i].uuids.contains(id));
            }
        }
    }
}

/// A new shelf under a name that is free leaves the shelves in order.
pub proof fn lemma_create_keeps_order(shelves: Seq<ShelfView>, name: Seq<char>)
    requires
        well_formed(shelves),
        !name_taken(shelves, name, -1),
    ensures
        well_formed(shelves.push(empty_shelf(name))),
{
    let after = shelves.push(empty_shelf(name));
    assert forall|id: Seq<char>| #[trigger] copies(after, id) <= 1 by {
        assert(after.drop_last() =~= shelves);
        assert(copies(shelves, id) <= 1);
    }
    assert forall|i: int, j: int| 0 <= i < j < after.len() implies !same_name(
        (#[trigger] after[i]).name,
        (#[trigger] after[j]).name,
    ) by {
        if j == shelves.len() {
            assert(!same_name(shelves[i].name, name));
        } else {
            assert(!same_name(shelves[i].name, shelves[j].name));
        }
    }
}

/// A shelf renamed to a name no other shelf has leaves the shelves in order.
pub proof fn lemma_rename_keeps_order(shelves: Seq<ShelfView>, shelf: int, name: Seq<char>)
    requires
        well_formed(shelves),
        0 <= shelf < shelves.len(),
        !name_taken(shelves, name, shelf),
    ensures
        well_formed(shelves.update(shelf, ShelfView { name, ..shelves[shelf] })),
{
    let after = shelves.update(shelf, ShelfView { name, ..shelves[shelf] });
    assert forall|id: Seq<char>| #[trigger] copies(after, id) <= 1 by {
        assert(after =~= with_books(after, shelf, shelves[shelf].uuids));
        lemma_copies_split(shelves, shelf, id);
        lemma_copies_split(after, shelf, id);
        assert(after.remove(shelf) =~= shelves.remove(shelf));
        assert(copies(shelves, id) <= 1);
    }
    assert forall|i: int, j: int| 0 <= i < j < after.len() implies !same_name(
        (#[trigger] after[i]).name,
        (#[trigger] after[j]).name,
    ) by {
        if i == shelf {
            assert(!same_name(shelves[j].name, name));
        } else if j == shelf {
            assert(!same_name(shelves[i].name, name));
        } else {
            assert(!same_name(shelves[i].name, shelves[j].name));
        }
    }
}

/// Changes to a shelf that leave its name alone leave the names distinct.
pub proof fn lemma_same_names(before: Seq<ShelfView>, after: Seq<ShelfView>)
    requires
        names_distinct(before),
        after.len() == before.len(),
        forall|i: int| 0 <= i < before.len() ==> (#[trigger] after[i]).name == before[i].name,
    ensures
        names_distinct(after),
{
    assert forall|i: int, j: int| 0 <= i < j < after.len() implies !same_name(
        (#[trigger] after[i]).name,
        (#[trigger] after[j]).name,
    ) by {
        assert(!same_name(before[i].name, before[j].name));
    }
}

/// Registering a book leaves the shelves in order.
pub proof fn lemma_register_keeps_order(shelves: Seq<ShelfView>, id: Seq<char>)
    requires
        well_formed(shelves),
    ensures
        well_formed(registered(shelves, id)),
{
    let base = with_default_shelf(shelves);
    let after = registered(shelves, id);
    assert(names_distinct(base));
    assert forall|x: Seq<char>| #[trigger] copies(base, x) <= 1 by {
        if shelves.len() == 0 {
            lemma_copies_one(empty_shelf(default_shelf_name()), x);
        } else {
            assert(copies(shelves, x) <= 1);
        }
    }
    if !holds_book(shelves, id) {
        lemma_same_names(base, after);
        assert forall|x: Seq<char>| #[trigger] copies(after, x) <= 1 by {
            let grown = base[0].uuids.push(id);
            lemma_copies_with_books(base, 0, grown, x);
            assert(grown =~= base[0].uuids.insert(base[0].uuids.len() as int, id));
            lemma_copies_on_insert(base[0].uuids, base[0].uuids.len() as int, id, x);
            assert(copies(base, x) <= 1);
            if x == id {
                lemma_copies_holds(shelves, id);
                if shelves.len() == 0 {
                    lemma_copies_one(empty_shelf(default_shelf_name()), x);
                }
            }
        }
    }
}

/// Removing a shelf, its books going to its heir, leaves the shelves in
/// order.
pub proof fn lemma_removal_keeps_order(shelves: Seq<ShelfView>, shelf: int)
    requires
        well_formed(shelves),
        removal_verdict(shelves, shelf) is Ok,
    ensures
        well_formed(merged(shelves, shelf)),
{
    let heir = heir_of(shelf);
    let joined = shelves[heir].uuids + shelves[shelf].uuids;
    let grown = with_books(shelves, heir, joined);
    let after = merged(shelves, shelf);
    assert(after == grown.remove(shelf));
    assert forall|id: Seq<char>| #[trigger] copies(after, id) <= 1 by {
        lemma_copies_with_books(shelves, heir, joined, id);
        lemma_copies_on_concat(shelves[heir].uuids, shelves[shelf].uuids, id);
        lemma_copies_split(grown, shelf, id);
        assert(grown[shelf].uuids == shelves[shelf].uuids);
        assert(copies(shelves, id) <= 1);
    }
    assert forall|i: int, j: int| 0 <= i < j < after.len() implies !same_name(
        (#[trigger] after[i]).name,
        (#[trigger] after[j]).name,
    ) by {
        let a = if i < shelf {
            i
        } else {
            i + 1
        };
        let b = if j < shelf {
            j
        } else {
            j + 1
        };
        assert(after[i].name == shelves[a].name);
        assert(after[j].name == shelves[b].name);
        assert(!same_name(shelves[a].name, shelves[b].name));
    }
}

/// Taking a book off a shelf leaves the shelves in order.
pub proof fn lemma_discard_keeps_order(shelves: Seq<ShelfView>, shelf: int, id: Seq<char>)
    requires
        well_formed(shelves),
        0 <= shelf < shelves.len(),
    ensures
        well_formed(with_books(shelves, shelf, without(shelves[shelf].uuids, id))),
        !holds_book(with_books(shelves, shelf, without(shelves[shelf].uuids, id)), id)
            <== discard_verdict(shelves, shelf, id) is Ok,
{
    let after = with_books(shelves, shelf, without(shelves[shelf].uuids, id));
    lemma_same_names(shelves, after);
    assert forall|x: Seq<char>| #[trigger] copies(after, x) <= 1 by {
        lemma_copies_with_books(shelves, shelf, without(shelves[shelf].uuids, id), x);
        lemma_copies_on_without(shelves[shelf].uuids, id, x);
        assert(copies(shelves, x) <= 1);
    }
    if discard_verdict(shelves, shelf, id) is Ok {
        lemma_copies_with_books(shelves, shelf, without(shelves[shelf].uuids, id), id);
        lemma_copies_on_without(shelves[shelf].uuids, id, id);
        lemma_copies_on_contains(shelves[shelf].uuids, id);
        assert(copies(shelves, id) <= 1);
        lemma_copies_holds(after, id);
    }
}

/// Moving a book leaves the shelves in order.
pub proof fn lemma_move_keeps_order(
    shelves: Seq<ShelfView>,
    id: Seq<char>,
    from: int,
    to: int,
    position: int,
)
    requires
        well_formed(shelves),
        move_verdict(shelves, id, from, to) is Ok,
        0 <= position,
    ensures
        well_formed(moved(shelves, id, from, to, position)),
{
    if !stands_at(shelves, id, to, position) {
        let taken = with_books(shelves, from, without(shelves[from].uuids, id));
        let slot = if position < taken[to].uuids.len() {
            position
        } else {
            taken[to].uuids.len() as int
        };
        let after = moved(shelves, id, from, to, position);
        lemma_same_names(shelves, taken);
        lemma_same_names(taken, after);
        assert forall|x: Seq<char>| #[trigger] copies(after, x) <= 1 by {
            lemma_copies_with_books(shelves, from, without(shelves[from].uuids, id), x);
            lemma_copies_on_without(shelves[from].uuids, id, x);
            lemma_copies_with_books(taken, to, taken[to].uuids.insert(slot, id), x);
            lemma_copies_on_insert(taken[to].uuids, slot, id, x);
            lemma_copies_on_contains(shelves[from].uuids, id);
            assert(copies(shelves, x) <= 1);
        }
    }
}

/// Setting a book apart on a new shelf under a free name leaves the shelves
/// in order.
pub proof fn lemma_set_apart_keeps_order(
    shelves: Seq<ShelfView>,
    id: Seq<char>,
    from: int,
    name: Seq<char>,
)
    requires
        well_formed(shelves),
        0 <= from < shelves.len(),
        shelves[from].uuids.contains(id),
        !name_taken(shelves, name, -1),
    ensures
        well_formed(set_apart(shelves, id, from, name)),
{
    let taken = with_books(shelves, from, without(shelves[from].uuids, id));
    let apart = ShelfView { uuids: seq![id], ..empty_shelf(name) };
    let after = set_apart(shelves, id, from, name);
    assert(after == taken.push(apart));
    lemma_same_names(shelves, taken);
    assert forall|i: int, j: int| 0 <= i < j < after.len() implies !same_name(
        (#[trigger] after[i]).name,
        (#[trigger] after[j]).name,
    ) by {
        if j == taken.len() {
            assert(!same_name(shelves[i].name, name));
        } else {
            assert(!same_name(taken[i].name, taken[j].name));
        }
    }
    assert forall|x: Seq<char>| #[trigger] copies(after, x) <= 1 by {
        assert(after.drop_last() =~= taken);
        assert(after.last() == apart);
        lemma_copies_on_one(id, x);
        lemma_copies_with_books(shelves, from, without(shelves[from].uuids, id), x);
        lemma_copies_on_without(shelves[from].uuids, id, x);
        lemma_copies_on_contains(shelves[from].uuids, id);
        assert(copies(shelves, x) <= 1);
    }
}

/// Shelves with the same books hold the same copies.
pub proof fn lemma_same_books(before: Seq<ShelfView>, after: Seq<ShelfView>, id: Seq<char>)
    requires
        after.len() == before.len(),
        forall|i: int| 0 <= i < before.len() ==> (#[trigger] after[i]).uuids == before[i].uuids,
    ensures
        copies(after, id) == copies(before, id),
    decreases before.len(),
{
    if before.len() > 0 {
        assert(after.last().uuids == before.last().uuids);
        assert forall|i: int| 0 <= i < before.drop_last().len() implies (
        #[trigger] after.drop_last()[i]).uuids == before.drop_last()[i].uuids by {
            assert(after[i].uuids == before[i].uuids);
        }
        lemma_same_books(before.drop_last(), after.drop_last(), id);
    }
}

/// Changes that leave every shelf its name and its books leave the shelves
/// in order.
pub proof fn lemma_relabel_keeps_order(before: Seq<ShelfView>, after: Seq<ShelfView>)
    requires
        well_formed(before),
        after.len() == before.len(),
        forall|i: int| 0 <= i < before.len() ==> (#[trigger] after[i]).name == before[i].name,
        forall|i: int| 0 <= i < before.len() ==> (#[trigger] after[i]).uuids == before[i].uuids,
    ensures
        well_formed(after),
{
    lemma_same_names(before, after);
    assert forall|id: Seq<char>| #[trigger] copies(after, id) <= 1 by {
        lemma_same_books(before, after, id);
        assert(copies(before, id) <= 1);
    }
}

/// The books of all shelves, shelf after shelf.
pub open spec fn all_books(shelves: Seq<ShelfView>) -> Seq<Seq<char>>
    decreases shelves.len(),
{
    if shelves.len() == 0 {
        Seq::empty()
    } else {
        all_books(shelves.drop_last()) + shelves.last().uuids
    }
}

/// The copies of a book on the shelves are its copies among all their books.
pub proof fn lemma_copies_all_books(shelves: Seq<ShelfView>, id: Seq<char>)
    ensures
        copies(shelves, id) == copies_on(all_books(shelves), id),
    decreases shelves.len(),
{
    if shelves.len() > 0 {
        lemma_copies_all_books(shelves.drop_last(), id);
        lemma_copies_on_concat(all_books(shelves.drop_last()), shelves.last().uuids, id);
    }
}

/// A run of books without repetition holds one copy of a book at most.
pub proof fn lemma_distinct_has_single_copies(ids: Seq<Seq<char>>, id: Seq<char>)
    requires
        ids.no_duplicates(),
    ensures
        copies_on(ids, id) <= 1,
    decreases ids.len(),
{
    if ids.len() > 0 {
        let rest = ids.drop_last();
        lemma_distinct_has_single_copies(rest, id);
        if ids.last() == id {
            lemma_copies_on_contains(rest, id);
            if rest.contains(id) {
                let k = choose|k: int| 0 <= k < rest.len() && rest[k] == id;
                assert(ids[k] == ids[ids.len() - 1]);
            }
        }
    }
}

/// A run of books that repeats a book holds two copies of it or more.
pub proof fn lemma_repeated_has_copies(ids: Seq<Seq<char>>, a: int, b: int)
    requires
        0 <= a < b < ids.len(),
        ids[a] == ids[b],
    ensures
        copies_on(ids, ids[a]) >= 2,
    decreases ids.len(),
{
    let rest = ids.drop_last();
    if b == ids.len() - 1 {
        lemma_copies_on_contains(rest, ids[a]);
        assert(rest[a] == ids[a]);
    } else {
        assert(rest[a] == ids[a] && rest[b] == ids[b]);
        lemma_repeated_has_copies(rest, a, b);
    }
}

/// No book stands in two places exactly where the books of all shelves,
/// taken together, show no repetition.
pub proof fn lemma_books_distinct_is_no_repetition(shelves: Seq<ShelfView>)
    ensures
        books_distinct(shelves) <==> all_books(shelves).no_duplicates(),
{
    let all = all_books(shelves);
    if all.no_duplicates() {
        assert forall|id: Seq<char>| #[trigger] copies(shelves, id) <= 1 by {
            lemma_copies_all_books(shelves, id);
            lemma_distinct_has_single_copies(all, id);
        }
    }
    if books_distinct(shelves) {
        assert forall|a: int, b: int| 0 <= a < all.len() && 0 <= b < all.len() && a != b implies all[a]
            != all[b] by {
            if all[a] == all[b] {
                lemma_copies_all_books(shelves, all[a]);
                if a < b {
                    lemma_repeated_has_copies(all, a, b);
                } else {
                    lemma_repeated_has_copies(all, b, a);
                }
                assert(copies(shelves, all[a]) <= 1);
            }
        }
    }
}

} // verus!
