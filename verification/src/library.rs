//! The shelves of a library and what can be done to them.

use crate::invariants::{
    all_books, books_distinct, lemma_books_distinct_is_no_repetition, lemma_create_keeps_order,
    lemma_discard_keeps_order, lemma_move_keeps_order, lemma_register_keeps_order,
    lemma_relabel_keeps_order, lemma_removal_keeps_order, lemma_rename_keeps_order,
    lemma_set_apart_keeps_order, names_distinct, well_formed,
};
use crate::shelf::{
    empty_shelf, ids_of, names_match, same_name, RenameState, Shelf, ShelfError, ShelfView,
    NAME_LIMIT,
};
use crate::text::{append_chars, string_of};
use vstd::prelude::*;

verus! {

broadcast use vstd::string::group_string_axioms;

/// The shelves of a library, in the order they are shown.
pub struct Library {
    shelves: Vec<Shelf>,
}

impl View for Library {
    type V = Seq<ShelfView>;

    closed spec fn view(&self) -> Seq<ShelfView> {
        shelf_views(self.shelves@)
    }
}

/// The shelves in `shelves`, each as contracts see it.
pub open spec fn shelf_views(shelves: Seq<Shelf>) -> Seq<ShelfView> {
    Seq::new(shelves.len(), |i: int| shelves[i]@)
}

/// Whether a shelf other than the one at `except` has the name `name`,
/// letter case set aside.
pub open spec fn name_taken(shelves: Seq<ShelfView>, name: Seq<char>, except: int) -> bool {
    exists|i: int|
        0 <= i < shelves.len() && i != except && same_name((#[trigger] shelves[i]).name, name)
}

/// The shelf that takes the books of the shelf at `shelf` when that one is
/// removed: the one before it, or the second shelf for the first.
pub open spec fn heir_of(shelf: int) -> int {
    if shelf == 0 {
        1
    } else {
        shelf - 1
    }
}

/// The shelves after the one at `shelf` is removed and its books are put at
/// the end of its heir.
pub open spec fn merged(shelves: Seq<ShelfView>, shelf: int) -> Seq<ShelfView> {
    let heir = heir_of(shelf);
    shelves.update(
        heir,
        ShelfView { uuids: shelves[heir].uuids + shelves[shelf].uuids, ..shelves[heir] },
    ).remove(shelf)
}

/// The number of books on all shelves together.
pub open spec fn total_books(shelves: Seq<ShelfView>) -> nat
    decreases shelves.len(),
{
    if shelves.len() == 0 {
        0
    } else {
        total_books(shelves.drop_last()) + shelves.last().uuids.len()
    }
}

/// Whether some shelf holds the book `id`.
pub open spec fn holds_book(shelves: Seq<ShelfView>, id: Seq<char>) -> bool {
    exists|i: int| 0 <= i < shelves.len() && (#[trigger] shelves[i]).uuids.contains(id)
}

/// The name of the shelf that is made when the first book arrives: `Books`.
pub open spec fn default_shelf_name() -> Seq<char> {
    seq!['B', 'o', 'o', 'k', 's']
}

/// The shelves a book is registered into: those at hand, or the default
/// shelf alone where there is none.
pub open spec fn with_default_shelf(shelves: Seq<ShelfView>) -> Seq<ShelfView> {
    if shelves.len() == 0 {
        seq![empty_shelf(default_shelf_name())]
    } else {
        shelves
    }
}

/// The shelf at `shelf` with `uuids` as its books.
pub open spec fn with_books(shelves: Seq<ShelfView>, shelf: int, uuids: Seq<Seq<char>>) -> Seq<
    ShelfView,
> {
    shelves.update(shelf, ShelfView { uuids, ..shelves[shelf] })
}

/// The shelves after the book `id` is registered: on the first shelf, at
/// its end, unless a shelf holds it already.
pub open spec fn registered(shelves: Seq<ShelfView>, id: Seq<char>) -> Seq<ShelfView> {
    let base = with_default_shelf(shelves);
    if holds_book(shelves, id) {
        base
    } else {
        with_books(base, 0, base[0].uuids.push(id))
    }
}

/// `ids` without any occurrence of `id`.
pub open spec fn without(ids: Seq<Seq<char>>, id: Seq<char>) -> Seq<Seq<char>>
    decreases ids.len(),
{
    if ids.len() == 0 {
        ids
    } else if ids.last() == id {
        without(ids.drop_last(), id)
    } else {
        without(ids.drop_last(), id).push(ids.last())
    }
}

/// Whether the book `id` already stands at `position` of the shelf at `to`.
pub open spec fn stands_at(shelves: Seq<ShelfView>, id: Seq<char>, to: int, position: int) -> bool {
    0 <= position < shelves[to].uuids.len() && shelves[to].uuids[position] == id
}

/// The shelves after the book `id` is taken from the shelf at `from` and put
/// on the shelf at `to` at `position`, or at its end where the shelf is
/// shorter. A book dropped onto itself stays where it is.
pub open spec fn moved(
    shelves: Seq<ShelfView>,
    id: Seq<char>,
    from: int,
    to: int,
    position: int,
) -> Seq<ShelfView> {
    if stands_at(shelves, id, to, position) {
        shelves
    } else {
        let taken = with_books(shelves, from, without(shelves[from].uuids, id));
        let slot = if position < taken[to].uuids.len() {
            position
        } else {
            taken[to].uuids.len() as int
        };
        with_books(taken, to, taken[to].uuids.insert(slot, id))
    }
}

/// What `move_book` answers.
pub open spec fn move_verdict(shelves: Seq<ShelfView>, id: Seq<char>, from: int, to: int) -> Result<
    (),
    ShelfError,
> {
    if !(0 <= from < shelves.len() && 0 <= to < shelves.len()) {
        Err(ShelfError::NoSuchShelf)
    } else if !shelves[from].uuids.contains(id) {
        Err(ShelfError::NoSuchBook)
    } else {
        Ok(())
    }
}

/// What `remove_book` answers.
pub open spec fn discard_verdict(shelves: Seq<ShelfView>, shelf: int, id: Seq<char>) -> Result<
    (),
    ShelfError,
> {
    if !(0 <= shelf < shelves.len()) {
        Err(ShelfError::NoSuchShelf)
    } else if !shelves[shelf].uuids.contains(id) {
        Err(ShelfError::NoSuchBook)
    } else {
        Ok(())
    }
}

/// Removes every occurrence of `id` from `ids`.
pub fn take_out(ids: &mut Vec<String>, id: &String)
    ensures
        ids_of(final(ids)@) == without(ids_of(old(ids)@), id@),
{
    let ghost orig = ids_of(ids@);
    let ghost mut seen: int = 0;
    let mut i: usize = 0;
    assert(ids_of(ids@).take(0) =~= without(orig.take(0), id@));
    assert(ids_of(ids@).skip(0) =~= orig.skip(0));
    while i < ids.len()
        invariant
            i <= ids.len(),
            0 <= seen <= orig.len(),
            ids.len() - i == orig.len() - seen,
            ids_of(ids@).take(i as int) == without(orig.take(seen), id@),
            ids_of(ids@).skip(i as int) == orig.skip(seen),
        decreases ids.len() - i,
    {
        let ghost before = ids_of(ids@);
        proof {
            assert(before[i as int] == before.skip(i as int)[0]);
            assert(orig.take(seen + 1).drop_last() =~= orig.take(seen));
            assert(orig.take(seen + 1).last() == orig[seen]);
        }
        if ids[i] == *id {
            ids.remove(i);
            proof {
                assert(ids_of(ids@) =~= before.remove(i as int));
                assert(ids_of(ids@).take(i as int) =~= before.take(i as int));
                assert(ids_of(ids@).skip(i as int) =~= before.skip(i as int).skip(1));
                assert(orig.skip(seen).skip(1) =~= orig.skip(seen + 1));
                seen = seen + 1;
            }
        } else {
            i += 1;
            proof {
                assert(before.take(i as int) =~= before.take(i - 1).push(before[i - 1]));
                assert(before.skip(i as int) =~= before.skip(i - 1).skip(1));
                assert(orig.skip(seen).skip(1) =~= orig.skip(seen + 1));
                seen = seen + 1;
            }
        }
    }
    proof {
        assert(ids_of(ids@).take(i as int) =~= ids_of(ids@));
        assert(orig.take(seen) =~= orig);
    }
}

/// What `rename_shelf` answers for the shelf at `shelf` and the name `name`.
pub open spec fn rename_verdict(shelves: Seq<ShelfView>, shelf: int, name: Seq<char>) -> Result<
    (),
    ShelfError,
> {
    if !(0 <= shelf < shelves.len()) {
        Err(ShelfError::NoSuchShelf)
    } else if name_taken(shelves, name, shelf) {
        Err(ShelfError::DuplicateName)
    } else if name.len() > NAME_LIMIT {
        Err(ShelfError::NameTooLong)
    } else {
        Ok(())
    }
}

/// What `remove_shelf` answers for the shelf at `shelf`.
pub open spec fn removal_verdict(shelves: Seq<ShelfView>, shelf: int) -> Result<(), ShelfError> {
    if !(0 <= shelf < shelves.len()) {
        Err(ShelfError::NoSuchShelf)
    } else if shelves.len() < 2 {
        Err(ShelfError::LastShelf)
    } else {
        Ok(())
    }
}

/// Whether no two of `shelves` share a name, letter case set aside.
pub fn names_in_order(shelves: &Vec<Shelf>) -> (r: bool)
    ensures
        r == names_distinct(shelf_views(shelves@)),
{
    let ghost views = shelf_views(shelves@);
    let mut i: usize = 0;
    while i < shelves.len()
        invariant
            i <= shelves.len(),
            views == shelf_views(shelves@),
            forall|a: int, b: int|
                0 <= a < i && a < b < views.len() ==> !same_name(
                    (#[trigger] views[a]).name,
                    (#[trigger] views[b]).name,
                ),
        decreases shelves.len() - i,
    {
        let mut j: usize = i + 1;
        while j < shelves.len()
            invariant
                i < j <= shelves.len(),
                views == shelf_views(shelves@),
                forall|b: int|
                    i < b < j ==> !same_name(views[i as int].name, (#[trigger] views[b]).name),
            decreases shelves.len() - j,
        {
            if names_match(shelves[i].name.as_str(), shelves[j].name.as_str()) {
                assert(same_name(views[i as int].name, views[j as int].name));
                return false;
            }
            j += 1;
        }
        i += 1;
    }
    true
}

/// Whether no book stands in two places on `shelves`.
pub fn books_in_order(shelves: &Vec<Shelf>) -> (r: bool)
    ensures
        r == books_distinct(shelf_views(shelves@)),
{
    let ghost views = shelf_views(shelves@);
    let mut all: Vec<String> = Vec::new();
    let mut i: usize = 0;
    assert(views.take(0) =~= Seq::<ShelfView>::empty());
    assert(ids_of(all@) =~= all_books(views.take(0)));
    while i < shelves.len()
        invariant
            i <= shelves.len(),
            views == shelf_views(shelves@),
            ids_of(all@) == all_books(views.take(i as int)),
        decreases shelves.len() - i,
    {
        let ghost before = ids_of(all@);
        let mut k: usize = 0;
        while k < shelves[i].uuids.len()
            invariant
                i < shelves.len(),
                k <= shelves[i as int].uuids.len(),
                views == shelf_views(shelves@),
                ids_of(all@) == before + views[i as int].uuids.take(k as int),
            decreases shelves[i as int].uuids.len() - k,
        {
            let ghost sofar = ids_of(all@);
            let id = shelves[i].uuids[k].clone();
            all.push(id);
            proof {
                assert(views[i as int].uuids[k as int] == id@);
                assert(ids_of(all@) =~= sofar.push(id@));
                assert(views[i as int].uuids.take(k + 1) =~= views[i as int].uuids.take(
                    k as int,
                ).push(id@));
            }
            k += 1;
            assert(ids_of(all@) =~= before + views[i as int].uuids.take(k as int));
        }
        proof {
            let upto = views.take(i + 1);
            assert(upto.drop_last() =~= views.take(i as int));
            assert(upto.last() == views[i as int]);
            assert(views[i as int].uuids.take(k as int) =~= views[i as int].uuids);
        }
        i += 1;
    }
    proof {
        assert(views.take(i as int) =~= views);
        lemma_books_distinct_is_no_repetition(views);
    }
    let mut a: usize = 0;
    let ghost ids = ids_of(all@);
    while a < all.len()
        invariant
            a <= all.len(),
            ids == ids_of(all@),
            views == shelf_views(shelves@),
            books_distinct(views) <==> ids.no_duplicates(),
            forall|x: int, y: int|
                0 <= x < a && x < y < ids.len() ==> (#[trigger] ids[x]) != (#[trigger] ids[y]),
        decreases all.len() - a,
    {
        let mut b: usize = a + 1;
        while b < all.len()
            invariant
                a < b <= all.len(),
                ids == ids_of(all@),
                views == shelf_views(shelves@),
                books_distinct(views) <==> ids.no_duplicates(),
                forall|y: int| a < y < b ==> ids[a as int] != (#[trigger] ids[y]),
            decreases all.len() - b,
        {
            if all[a] == all[b] {
                assert(ids[a as int] == ids[b as int]);
                return false;
            }
            b += 1;
        }
        a += 1;
    }
    proof {
        assert forall|x: int, y: int| 0 <= x < ids.len() && 0 <= y < ids.len() && x != y implies ids[x]
            != ids[y] by {
            if x < y {
                assert(ids[x] != ids[y]);
            } else {
                assert(ids[y] != ids[x]);
            }
        }
    }
    true
}

/// Whether `shelves` are in order: names and books are distinct.
pub fn shelves_in_order(shelves: &Vec<Shelf>) -> (r: bool)
    ensures
        r == well_formed(shelf_views(shelves@)),
{
    names_in_order(shelves) && books_in_order(shelves)
}

impl Library {
    /// A library without shelves.
    pub fn new() -> (library: Self)
        ensures
            library@ == Seq::<ShelfView>::empty(),
            well_formed(library@),
    {
        let library = Library { shelves: Vec::new() };
        assert(library@ =~= Seq::<ShelfView>::empty());
        library
    }

    /// The library that holds `shelves`, in their order, where they are in
    /// order: no two share a name, letter case set aside, and no book
    /// stands in two places. Shelves that are not make no library.
    pub fn from_shelves(shelves: Vec<Shelf>) -> (r: Option<Self>)
        ensures
            match r {
                Some(library) => library@ == shelf_views(shelves@) && well_formed(library@),
                None => !well_formed(shelf_views(shelves@)),
            },
    {
        if shelves_in_order(&shelves) {
            Some(Library { shelves })
        } else {
            None
        }
    }

    /// The shelves, in order.
    pub fn shelves(&self) -> (shelves: &Vec<Shelf>)
        ensures
            shelf_views(shelves@) == self@,
    {
        &self.shelves
    }

    /// The number of shelves.
    pub fn len(&self) -> (n: usize)
        ensures
            n == self@.len(),
    {
        self.shelves.len()
    }

    /// The position of the first shelf named exactly `name`, if there is one.
    pub fn find_shelf(&self, name: &str) -> (r: Option<usize>)
        ensures
            match r {
                Some(i) => i < self@.len() && self@[i as int].name == name@ && forall|k: int|
                    0 <= k < i ==> (#[trigger] self@[k]).name != name@,
                None => forall|k: int| 0 <= k < self@.len() ==> (#[trigger] self@[k]).name != name@,
            },
    {
        let wanted = name.to_owned();
        let mut i: usize = 0;
        while i < self.shelves.len()
            invariant
                i <= self.shelves.len(),
                wanted@ == name@,
                forall|k: int| 0 <= k < i ==> (#[trigger] self@[k]).name != name@,
            decreases self.shelves.len() - i,
        {
            if self.shelves[i].name == wanted {
                return Some(i);
            }
            i += 1;
        }
        None
    }

    /// Whether a shelf other than the one at `except` has the name `name`,
    /// letter case set aside.
    pub fn is_name_taken(&self, name: &str, except: Option<usize>) -> (r: bool)
        ensures
            r == name_taken(
                self@,
                name@,
                match except {
                    Some(k) => k as int,
                    None => -1,
                },
            ),
    {
        let mut i: usize = 0;
        while i < self.shelves.len()
            invariant
                i <= self.shelves.len(),
                forall|k: int|
                    0 <= k < i && Some(k as usize) != except ==> !same_name(
                        (#[trigger] self@[k]).name,
                        name@,
                    ),
            decreases self.shelves.len() - i,
        {
            let skip = match except {
                Some(k) => k == i,
                None => false,
            };
            if !skip && names_match(self.shelves[i].name.as_str(), name) {
                assert(same_name(self@[i as int].name, name@));
                return true;
            }
            i += 1;
        }
        false
    }

    /// Adds an empty shelf named `name` at the end, unless a shelf has that
    /// name already, letter case set aside.
    pub fn create_shelf(&mut self, name: &str) -> (r: Result<(), ShelfError>)
        ensures
            name_taken(old(self)@, name@, -1) ==> r == Err::<(), ShelfError>(
                ShelfError::DuplicateName,
            ) && final(self)@ == old(self)@,
            !name_taken(old(self)@, name@, -1) ==> r == Ok::<(), ShelfError>(()) && final(self)@
                == old(self)@.push(empty_shelf(name@)),
            well_formed(old(self)@) ==> well_formed(final(self)@),
    {
        if self.is_name_taken(name, None) {
            return Err(ShelfError::DuplicateName);
        }
        self.shelves.push(Shelf::new(name));
        proof {
            assert(self@ =~= old(self)@.push(empty_shelf(name@)));
            if well_formed(old(self)@) {
                lemma_create_keeps_order(old(self)@, name@);
            }
        }
        Ok(())
    }

    /// Gives the shelf at `shelf` the name `new_name`.
    ///
    /// Turned down with `NoSuchShelf` where there is no such shelf, else
    /// with `DuplicateName` where another shelf has that name, letter case
    /// set aside, else with `NameTooLong` where the name has more than
    /// `NAME_LIMIT` characters. The shelves are then as they were.
    pub fn rename_shelf(&mut self, shelf: usize, new_name: &str) -> (r: Result<(), ShelfError>)
        ensures
            r == rename_verdict(old(self)@, shelf as int, new_name@),
            r is Ok ==> final(self)@ == old(self)@.update(
                shelf as int,
                ShelfView { name: new_name@, ..old(self)@[shelf as int] },
            ),
            r is Err ==> final(self)@ == old(self)@,
            well_formed(old(self)@) ==> well_formed(final(self)@),
    {
        if shelf >= self.shelves.len() {
            return Err(ShelfError::NoSuchShelf);
        }
        if self.is_name_taken(new_name, Some(shelf)) {
            return Err(ShelfError::DuplicateName);
        }
        if new_name.unicode_len() > NAME_LIMIT {
            return Err(ShelfError::NameTooLong);
        }
        let mut renamed = self.shelves.remove(shelf);
        renamed.name = new_name.to_owned();
        self.shelves.insert(shelf, renamed);
        proof {
            assert(self@ =~= old(self)@.update(
                shelf as int,
                ShelfView { name: new_name@, ..old(self)@[shelf as int] },
            ));
            if well_formed(old(self)@) {
                lemma_rename_keeps_order(old(self)@, shelf as int, new_name@);
            }
        }
        Ok(())
    }

    /// Removes the shelf at `shelf`; its books go to the end of the shelf
    /// before it, or of the second shelf where the first is removed.
    ///
    /// Turned down with `NoSuchShelf` where there is no such shelf, and with
    /// `LastShelf` where it is the only one. The shelves are then as they
    /// were.
    pub fn remove_shelf(&mut self, shelf: usize) -> (r: Result<(), ShelfError>)
        ensures
            r == removal_verdict(old(self)@, shelf as int),
            r is Ok ==> final(self)@ == merged(old(self)@, shelf as int),
            r is Err ==> final(self)@ == old(self)@,
            well_formed(old(self)@) ==> well_formed(final(self)@),
    {
        if shelf >= self.shelves.len() {
            return Err(ShelfError::NoSuchShelf);
        }
        if self.shelves.len() < 2 {
            return Err(ShelfError::LastShelf);
        }
        let mut gone = self.shelves.remove(shelf);
        let at: usize = if shelf == 0 {
            0
        } else {
            shelf - 1
        };
        let mut heir = self.shelves.remove(at);
        let ghost heir_ids = heir.uuids@;
        let ghost gone_ids = gone.uuids@;
        heir.uuids.append(&mut gone.uuids);
        assert(ids_of(heir.uuids@) =~= ids_of(heir_ids) + ids_of(gone_ids));
        self.shelves.insert(at, heir);
        proof {
            assert(self@ =~= merged(old(self)@, shelf as int));
            if well_formed(old(self)@) {
                lemma_removal_keeps_order(old(self)@, shelf as int);
            }
        }
        Ok(())
    }
}

impl Library {
    /// Whether some shelf holds the book `id`.
    pub fn holds_book(&self, id: &str) -> (r: bool)
        ensures
            r == holds_book(self@, id@),
    {
        let mut i: usize = 0;
        while i < self.shelves.len()
            invariant
                i <= self.shelves.len(),
                forall|k: int| 0 <= k < i ==> !(#[trigger] self@[k]).uuids.contains(id@),
            decreases self.shelves.len() - i,
        {
            if self.shelves[i].holds(id) {
                assert(self@[i as int].uuids.contains(id@));
                return true;
            }
            i += 1;
        }
        false
    }

    /// Registers the book `id`: it goes to the end of the first shelf unless
    /// some shelf holds it already. Where there is no shelf yet, the shelf
    /// `Books` is made first. Returns whether the book was added.
    pub fn register_book(&mut self, id: &str) -> (added: bool)
        ensures
            added == !holds_book(old(self)@, id@),
            final(self)@ == registered(old(self)@, id@),
            well_formed(old(self)@) ==> well_formed(final(self)@),
    {
        if self.shelves.len() == 0 {
            proof {
                reveal_strlit("Books");
            }
            let first = Shelf::new("Books");
            assert(first@.name =~= default_shelf_name());
            self.shelves.push(first);
            assert(self@ =~= with_default_shelf(old(self)@));
        }
        proof {
            if well_formed(old(self)@) {
                lemma_register_keeps_order(old(self)@, id@);
            }
        }
        if self.holds_book(id) {
            return false;
        }
        let mut first = self.shelves.remove(0);
        let ghost ids = ids_of(first.uuids@);
        first.uuids.push(id.to_owned());
        assert(ids_of(first.uuids@) =~= ids.push(id@));
        self.shelves.insert(0, first);
        assert(self@ =~= registered(old(self)@, id@));
        true
    }

    /// Takes the book `id` off the shelf at `shelf`.
    ///
    /// Turned down with `NoSuchShelf` where there is no such shelf, and with
    /// `NoSuchBook` where the shelf does not hold the book. The shelves are
    /// then as they were.
    pub fn remove_book(&mut self, shelf: usize, id: &str) -> (r: Result<(), ShelfError>)
        ensures
            r == discard_verdict(old(self)@, shelf as int, id@),
            r is Ok ==> final(self)@ == with_books(
                old(self)@,
                shelf as int,
                without(old(self)@[shelf as int].uuids, id@),
            ),
            r is Err ==> final(self)@ == old(self)@,
            well_formed(old(self)@) ==> well_formed(final(self)@),
    {
        if shelf >= self.shelves.len() {
            return Err(ShelfError::NoSuchShelf);
        }
        if !self.shelves[shelf].holds(id) {
            return Err(ShelfError::NoSuchBook);
        }
        let wanted = id.to_owned();
        let mut lighter = self.shelves.remove(shelf);
        take_out(&mut lighter.uuids, &wanted);
        self.shelves.insert(shelf, lighter);
        proof {
            assert(self@ =~= with_books(
                old(self)@,
                shelf as int,
                without(old(self)@[shelf as int].uuids, id@),
            ));
            if well_formed(old(self)@) {
                lemma_discard_keeps_order(old(self)@, shelf as int, id@);
            }
        }
        Ok(())
    }

    /// Moves the book `id` from the shelf at `from` to `position` on the
    /// shelf at `to`, or to its end where the shelf is shorter. A book
    /// dropped onto itself stays where it is.
    ///
    /// Turned down with `NoSuchShelf` where one of the shelves does not
    /// exist, and with `NoSuchBook` where the shelf at `from` does not hold
    /// the book. The shelves are then as they were.
    pub fn move_book(&mut self, id: &str, from: usize, to: usize, position: usize) -> (r: Result<
        (),
        ShelfError,
    >)
        ensures
            r == move_verdict(old(self)@, id@, from as int, to as int),
            r is Ok ==> final(self)@ == moved(
                old(self)@,
                id@,
                from as int,
                to as int,
                position as int,
            ),
            r is Err ==> final(self)@ == old(self)@,
            well_formed(old(self)@) ==> well_formed(final(self)@),
    {
        if from >= self.shelves.len() || to >= self.shelves.len() {
            return Err(ShelfError::NoSuchShelf);
        }
        if !self.shelves[from].holds(id) {
            return Err(ShelfError::NoSuchBook);
        }
        proof {
            if well_formed(old(self)@) {
                lemma_move_keeps_order(old(self)@, id@, from as int, to as int, position as int);
            }
        }
        let wanted = id.to_owned();
        if position < self.shelves[to].uuids.len() && self.shelves[to].uuids[position] == wanted {
            assert(stands_at(self@, id@, to as int, position as int));
            return Ok(());
        }
        assert(!stands_at(self@, id@, to as int, position as int));
        let mut source = self.shelves.remove(from);
        take_out(&mut source.uuids, &wanted);
        self.shelves.insert(from, source);
        let ghost taken = self@;
        assert(taken =~= with_books(
            old(self)@,
            from as int,
            without(old(self)@[from as int].uuids, id@),
        ));
        let mut target = self.shelves.remove(to);
        let ghost ids = ids_of(target.uuids@);
        let slot = if position < target.uuids.len() {
            position
        } else {
            target.uuids.len()
        };
        target.uuids.insert(slot, wanted);
        assert(ids_of(target.uuids@) =~= ids.insert(slot as int, id@));
        self.shelves.insert(to, target);
        assert(self@ =~= with_books(taken, to as int, taken[to as int].uuids.insert(slot as int, id@)));
        Ok(())
    }

    /// The number of books on all shelves together, or `None` where it is
    /// more than a `usize` holds.
    pub fn total_books(&self) -> (r: Option<usize>)
        ensures
            match r {
                Some(n) => n == total_books(self@),
                None => total_books(self@) > usize::MAX,
            },
    {
        let mut sum: usize = 0;
        let mut i: usize = 0;
        assert(self@.take(0) =~= Seq::<ShelfView>::empty());
        while i < self.shelves.len()
            invariant
                i <= self.shelves.len(),
                sum == total_books(self@.take(i as int)),
            decreases self.shelves.len() - i,
        {
            let more = self.shelves[i].uuids.len();
            proof {
                let upto = self@.take(i + 1);
                assert(upto.drop_last() =~= self@.take(i as int));
                assert(upto.last() == self@[i as int]);
                assert(self@ =~= upto + self@.skip(i + 1));
                lemma_total_books_concat(upto, self@.skip(i + 1));
            }
            if more > usize::MAX - sum {
                return None;
            }
            sum += more;
            i += 1;
        }
        assert(self@.take(i as int) =~= self@);
        Some(sum)
    }
}

/// The books of two runs of shelves are those of the first and those of the
/// second.
pub proof fn lemma_total_books_concat(a: Seq<ShelfView>, b: Seq<ShelfView>)
    ensures
        total_books(a + b) == total_books(a) + total_books(b),
    decreases b.len(),
{
    if b.len() == 0 {
        assert(a + b =~= a);
    } else {
        lemma_total_books_concat(a, b.drop_last());
        assert((a + b).drop_last() =~= a + b.drop_last());
        assert((a + b).last() == b.last());
    }
}

/// Giving one shelf other books changes the total by the difference.
pub proof fn lemma_total_books_with_books(shelves: Seq<ShelfView>, shelf: int, uuids: Seq<Seq<char>>)
    requires
        0 <= shelf < shelves.len(),
    ensures
        total_books(with_books(shelves, shelf, uuids)) == total_books(shelves)
            - shelves[shelf].uuids.len() + uuids.len(),
{
    let after = with_books(shelves, shelf, uuids);
    let head = shelves.take(shelf);
    let tail = shelves.skip(shelf + 1);
    assert(shelves =~= head + seq![shelves[shelf]] + tail);
    assert(after =~= head + seq![after[shelf]] + tail);
    lemma_total_books_concat(head + seq![shelves[shelf]], tail);
    lemma_total_books_concat(head, seq![shelves[shelf]]);
    lemma_total_books_concat(head + seq![after[shelf]], tail);
    lemma_total_books_concat(head, seq![after[shelf]]);
    lemma_total_books_one(shelves[shelf]);
    lemma_total_books_one(after[shelf]);
}

/// One shelf alone holds as many books as it has.
pub proof fn lemma_total_books_one(shelf: ShelfView)
    ensures
        total_books(seq![shelf]) == shelf.uuids.len(),
{
    let one = seq![shelf];
    assert(one.drop_last() =~= Seq::<ShelfView>::empty());
    assert(total_books(one.drop_last()) == 0);
    assert(one.last() == shelf);
}

/// Removing a shelf loses no book: where there are two shelves or more, the
/// shelves hold as many books after the removal as before, and there is one
/// shelf less.
pub proof fn lemma_removal_keeps_books(shelves: Seq<ShelfView>, shelf: int)
    requires
        removal_verdict(shelves, shelf) is Ok,
    ensures
        total_books(merged(shelves, shelf)) == total_books(shelves),
        merged(shelves, shelf).len() == shelves.len() - 1,
{
    let heir = heir_of(shelf);
    let grown = with_books(shelves, heir, shelves[heir].uuids + shelves[shelf].uuids);
    lemma_total_books_with_books(shelves, heir, shelves[heir].uuids + shelves[shelf].uuids);
    let head = grown.take(shelf);
    let tail = grown.skip(shelf + 1);
    assert(grown =~= head + seq![grown[shelf]] + tail);
    assert(grown.remove(shelf) =~= head + tail);
    lemma_total_books_concat(head + seq![grown[shelf]], tail);
    lemma_total_books_concat(head, seq![grown[shelf]]);
    lemma_total_books_concat(head, tail);
    lemma_total_books_one(grown[shelf]);
    assert(grown[shelf].uuids == shelves[shelf].uuids);
}

/// The only shelf is never removed: with one shelf, removal is turned down.
pub proof fn lemma_last_shelf_stays(shelves: Seq<ShelfView>, shelf: int)
    requires
        shelves.len() == 1,
    ensures
        removal_verdict(shelves, shelf) is Err,
        shelf == 0 ==> removal_verdict(shelves, shelf) == Err::<(), ShelfError>(
            ShelfError::LastShelf,
        ),
{
}

/// The decimal digit `d` as a character.
pub open spec fn digit_char(d: nat) -> char {
    if d == 0 {
        '0'
    } else if d == 1 {
        '1'
    } else if d == 2 {
        '2'
    } else if d == 3 {
        '3'
    } else if d == 4 {
        '4'
    } else if d == 5 {
        '5'
    } else if d == 6 {
        '6'
    } else if d == 7 {
        '7'
    } else if d == 8 {
        '8'
    } else {
        '9'
    }
}

/// `n` written in decimal, without leading zeros.
pub open spec fn decimal(n: nat) -> Seq<char>
    decreases n,
{
    if n < 10 {
        seq![digit_char(n)]
    } else {
        decimal(n / 10).push(digit_char(n % 10))
    }
}

/// The name of the `n`-th numbered shelf: `Shelf `, then `n` in decimal.
pub open spec fn numbered_name(n: nat) -> Seq<char> {
    seq!['S', 'h', 'e', 'l', 'f', ' '] + decimal(n)
}

/// The highest number a numbered shelf is given.
pub open spec fn last_number() -> nat {
    65535
}

/// The least number from `from` to `last_number()` whose numbered name no
/// shelf has, if there is one.
pub open spec fn first_free(shelves: Seq<ShelfView>, from: nat) -> Option<nat>
    decreases last_number() + 1 - from,
{
    if from > last_number() {
        None
    } else if !name_taken(shelves, numbered_name(from), -1) {
        Some(from)
    } else {
        first_free(shelves, from + 1)
    }
}

/// The shelves after the book `id` is taken from the shelf at `from` and put
/// alone on a new last shelf named `name`.
pub open spec fn set_apart(shelves: Seq<ShelfView>, id: Seq<char>, from: int, name: Seq<char>) -> Seq<
    ShelfView,
> {
    with_books(shelves, from, without(shelves[from].uuids, id)).push(
        ShelfView { uuids: seq![id], ..empty_shelf(name) },
    )
}

/// What `move_to_new_shelf` answers.
pub open spec fn set_apart_verdict(shelves: Seq<ShelfView>, id: Seq<char>, from: int) -> Result<
    (),
    ShelfError,
> {
    if !(0 <= from < shelves.len()) {
        Err(ShelfError::NoSuchShelf)
    } else if !shelves[from].uuids.contains(id) {
        Err(ShelfError::NoSuchBook)
    } else if first_free(shelves, 1) is None {
        Err(ShelfError::NoFreeName)
    } else {
        Ok(())
    }
}

/// The shelf `shelf` once renaming has begun: the name typed so far is the
/// name it has.
pub open spec fn rename_begun(shelf: ShelfView) -> ShelfView {
    if shelf.renaming == RenameState::Inactive {
        ShelfView { renaming: RenameState::Active, desired_name: shelf.name, ..shelf }
    } else {
        shelf
    }
}

/// The shelf `shelf` once renaming is given up: the typed name is gone.
pub open spec fn rename_cancelled(shelf: ShelfView) -> ShelfView {
    ShelfView { renaming: RenameState::Inactive, desired_name: Seq::empty(), ..shelf }
}

/// What `confirm_rename` answers: a shelf that is not being renamed, or
/// whose typed name is the name it has, is in order; any other typed name
/// is judged as `rename_shelf` judges it.
pub open spec fn confirm_verdict(shelves: Seq<ShelfView>, shelf: int) -> Result<(), ShelfError> {
    if !(0 <= shelf < shelves.len()) {
        Err(ShelfError::NoSuchShelf)
    } else if shelves[shelf].renaming == RenameState::Inactive || shelves[shelf].desired_name
        == shelves[shelf].name {
        Ok(())
    } else {
        rename_verdict(shelves, shelf, shelves[shelf].desired_name)
    }
}

/// The shelf `shelf` once its renaming is confirmed with a name in order.
pub open spec fn rename_confirmed(shelf: ShelfView) -> ShelfView {
    if shelf.renaming == RenameState::Inactive {
        shelf
    } else {
        ShelfView { name: shelf.desired_name, renaming: RenameState::Inactive, ..shelf }
    }
}

/// The number `first_free` gives is in range and its name is free.
pub proof fn lemma_first_free(shelves: Seq<ShelfView>, from: nat)
    ensures
        first_free(shelves, from) is Some ==> from <= first_free(shelves, from)->0 <= last_number()
            && !name_taken(shelves, numbered_name(first_free(shelves, from)->0), -1),
        first_free(shelves, from) is Some ==> forall|n: nat|
            from <= n < first_free(shelves, from)->0 ==> name_taken(shelves, numbered_name(n), -1),
        first_free(shelves, from) is None ==> forall|n: nat|
            from <= n <= last_number() ==> name_taken(shelves, numbered_name(n), -1),
    decreases last_number() + 1 - from,
{
    if from <= last_number() && name_taken(shelves, numbered_name(from), -1) {
        lemma_first_free(shelves, from + 1);
    }
}

/// The character of the decimal digit `d`.
fn digit(d: u8) -> (c: char)
    requires
        d < 10,
    ensures
        c == digit_char(d as nat),
{
    if d == 0 {
        '0'
    } else if d == 1 {
        '1'
    } else if d == 2 {
        '2'
    } else if d == 3 {
        '3'
    } else if d == 4 {
        '4'
    } else if d == 5 {
        '5'
    } else if d == 6 {
        '6'
    } else if d == 7 {
        '7'
    } else if d == 8 {
        '8'
    } else {
        '9'
    }
}

/// The name of the `n`-th numbered shelf.
pub fn shelf_name_for(n: u16) -> (name: String)
    ensures
        name@ == numbered_name(n as nat),
{
    let mut digits: Vec<char> = Vec::new();
    let mut rest: u16 = n;
    while rest >= 10
        invariant
            decimal(n as nat) == decimal(rest as nat) + digits@,
        decreases rest,
    {
        let ghost before = digits@;
        digits.insert(0, digit((rest % 10) as u8));
        proof {
            assert(decimal(rest as nat) == decimal(rest as nat / 10).push(
                digit_char(rest as nat % 10),
            ));
            assert(decimal(rest as nat) + before =~= decimal(rest as nat / 10) + digits@);
        }
        rest = rest / 10;
    }
    let mut chars: Vec<char> = vec!['S', 'h', 'e', 'l', 'f', ' '];
    chars.push(digit(rest as u8));
    append_chars(&mut chars, &digits);
    assert(chars@ =~= numbered_name(n as nat));
    string_of(&chars)
}

impl Library {
    /// The least number from 1 to 65535 whose numbered name no shelf has,
    /// letter case set aside, if there is one.
    pub fn first_free_number(&self) -> (r: Option<u16>)
        ensures
            match r {
                Some(n) => first_free(self@, 1) == Some(n as nat),
                None => first_free(self@, 1) is None,
            },
    {
        let mut n: u16 = 1;
        loop
            invariant
                1 <= n <= 65535,
                first_free(self@, 1) == first_free(self@, n as nat),
            decreases 65535 - n,
        {
            let name = shelf_name_for(n);
            if !self.is_name_taken(name.as_str(), None) {
                return Some(n);
            }
            if n == 65535 {
                assert(first_free(self@, 65536) is None);
                return None;
            }
            n += 1;
        }
    }

    /// Takes the book `id` from the shelf at `from` and puts it alone on a
    /// new last shelf, named `Shelf N` for the least `N` from 1 that gives a
    /// name no shelf has.
    ///
    /// Turned down with `NoSuchShelf` where there is no such shelf, with
    /// `NoSuchBook` where it does not hold the book, and with `NoFreeName`
    /// where every numbered name is taken. The shelves are then as they were.
    pub fn move_to_new_shelf(&mut self, id: &str, from: usize) -> (r: Result<(), ShelfError>)
        ensures
            r == set_apart_verdict(old(self)@, id@, from as int),
            r is Ok ==> final(self)@ == set_apart(
                old(self)@,
                id@,
                from as int,
                numbered_name(first_free(old(self)@, 1)->0),
            ),
            r is Err ==> final(self)@ == old(self)@,
            well_formed(old(self)@) ==> well_formed(final(self)@),
    {
        if from >= self.shelves.len() {
            return Err(ShelfError::NoSuchShelf);
        }
        if !self.shelves[from].holds(id) {
            return Err(ShelfError::NoSuchBook);
        }
        let number = match self.first_free_number() {
            Some(n) => n,
            None => {
                return Err(ShelfError::NoFreeName);
            },
        };
        let name = shelf_name_for(number);
        proof {
            lemma_first_free(old(self)@, 1);
            if well_formed(old(self)@) {
                lemma_set_apart_keeps_order(old(self)@, id@, from as int, name@);
            }
        }
        let wanted = id.to_owned();
        let mut source = self.shelves.remove(from);
        take_out(&mut source.uuids, &wanted);
        self.shelves.insert(from, source);
        let mut books: Vec<String> = Vec::new();
        books.push(wanted);
        assert(ids_of(books@) =~= seq![id@]);
        self.shelves.push(Shelf::new_with_contents(name.as_str(), books));
        assert(self@ =~= set_apart(
            old(self)@,
            id@,
            from as int,
            numbered_name(first_free(old(self)@, 1)->0),
        ));
        Ok(())
    }

    /// Opens the shelf at `shelf` for renaming, unless it is open already.
    /// Returns whether there is such a shelf.
    pub fn begin_rename(&mut self, shelf: usize) -> (found: bool)
        ensures
            found == (shelf < old(self)@.len()),
            found ==> final(self)@ == old(self)@.update(
                shelf as int,
                rename_begun(old(self)@[shelf as int]),
            ),
            !found ==> final(self)@ == old(self)@,
            well_formed(old(self)@) ==> well_formed(final(self)@),
    {
        if shelf >= self.shelves.len() {
            return false;
        }
        let mut open = self.shelves.remove(shelf);
        if open.renaming == RenameState::Inactive {
            open.renaming = RenameState::Active;
            open.desired_name = open.name.clone();
        }
        self.shelves.insert(shelf, open);
        proof {
            assert(self@ =~= old(self)@.update(shelf as int, rename_begun(old(self)@[shelf as int])));
            if well_formed(old(self)@) {
                lemma_relabel_keeps_order(old(self)@, self@);
            }
        }
        true
    }

    /// Records `text` as the name typed so far for the shelf at `shelf`.
    /// Returns whether there is such a shelf.
    pub fn set_desired_name(&mut self, shelf: usize, text: &str) -> (found: bool)
        ensures
            found == (shelf < old(self)@.len()),
            found ==> final(self)@ == old(self)@.update(
                shelf as int,
                ShelfView { desired_name: text@, ..old(self)@[shelf as int] },
            ),
            !found ==> final(self)@ == old(self)@,
            well_formed(old(self)@) ==> well_formed(final(self)@),
    {
        if shelf >= self.shelves.len() {
            return false;
        }
        let mut open = self.shelves.remove(shelf);
        open.desired_name = text.to_owned();
        self.shelves.insert(shelf, open);
        proof {
            assert(self@ =~= old(self)@.update(
                shelf as int,
                ShelfView { desired_name: text@, ..old(self)@[shelf as int] },
            ));
            if well_formed(old(self)@) {
                lemma_relabel_keeps_order(old(self)@, self@);
            }
        }
        true
    }

    /// Confirms the renaming of the shelf at `shelf`: with a typed name in
    /// order the shelf takes it and is no longer being renamed; with any
    /// other the shelf stays as it is, still open, and the error says why.
    pub fn confirm_rename(&mut self, shelf: usize) -> (r: Result<(), ShelfError>)
        ensures
            r == confirm_verdict(old(self)@, shelf as int),
            r is Ok ==> final(self)@ == old(self)@.update(
                shelf as int,
                rename_confirmed(old(self)@[shelf as int]),
            ),
            r is Err ==> final(self)@ == old(self)@,
            well_formed(old(self)@) ==> well_formed(final(self)@),
    {
        if shelf >= self.shelves.len() {
            return Err(ShelfError::NoSuchShelf);
        }
        if self.shelves[shelf].renaming == RenameState::Inactive {
            assert(self@ =~= old(self)@.update(
                shelf as int,
                rename_confirmed(old(self)@[shelf as int]),
            ));
            return Ok(());
        }
        if self.shelves[shelf].desired_name != self.shelves[shelf].name {
            let typed = self.shelves[shelf].desired_name.clone();
            if self.is_name_taken(typed.as_str(), Some(shelf)) {
                return Err(ShelfError::DuplicateName);
            }
            if typed.as_str().unicode_len() > NAME_LIMIT {
                return Err(ShelfError::NameTooLong);
            }
        }
        let mut closed = self.shelves.remove(shelf);
        closed.name = closed.desired_name.clone();
        closed.renaming = RenameState::Inactive;
        self.shelves.insert(shelf, closed);
        proof {
            assert(self@ =~= old(self)@.update(
                shelf as int,
                rename_confirmed(old(self)@[shelf as int]),
            ));
            if well_formed(old(self)@) {
                let before = old(self)@;
                let named = before.update(
                    shelf as int,
                    ShelfView { name: before[shelf as int].desired_name, ..before[shelf as int] },
                );
                if before[shelf as int].desired_name == before[shelf as int].name {
                    assert(named =~= before);
                } else {
                    lemma_rename_keeps_order(before, shelf as int, before[shelf as int].desired_name);
                }
                lemma_relabel_keeps_order(named, self@);
            }
        }
        Ok(())
    }

    /// Gives up the renaming of the shelf at `shelf`: the shelf keeps its
    /// name and the typed name is cleared. Returns whether there is such a
    /// shelf.
    pub fn cancel_rename(&mut self, shelf: usize) -> (found: bool)
        ensures
            found == (shelf < old(self)@.len()),
            found ==> final(self)@ == old(self)@.update(
                shelf as int,
                rename_cancelled(old(self)@[shelf as int]),
            ),
            !found ==> final(self)@ == old(self)@,
            well_formed(old(self)@) ==> well_formed(final(self)@),
    {
        if shelf >= self.shelves.len() {
            return false;
        }
        let mut closed = self.shelves.remove(shelf);
        closed.renaming = RenameState::Inactive;
        closed.desired_name = String::new();
        self.shelves.insert(shelf, closed);
        proof {
            assert(self@ =~= old(self)@.update(
                shelf as int,
                rename_cancelled(old(self)@[shelf as int]),
            ));
            if well_formed(old(self)@) {
                lemma_relabel_keeps_order(old(self)@, self@);
            }
        }
        true
    }
}

} // verus!
