//! Shelves: named, ordered groups of books, each book known by its
//! identifier.

use crate::text::{lowercase, lowercase_of};
use vstd::prelude::*;
use vstd::std_specs::cmp::PartialEqSpecImpl;

verus! {

broadcast use vstd::string::group_string_axioms;

/// The longest name a shelf can be renamed to, in characters.
pub const NAME_LIMIT: usize = 32;

/// Where a shelf stands in the course of being renamed. `Error` is kept for
/// stored state that holds it; no operation here enters it.
#[derive(Clone, Copy, Debug, PartialEq, Eq, Structural, PartialOrd, Ord)]
pub enum RenameState {
    Active,
    Inactive,
    Error,
}

/// Why an operation on the shelves was turned down.
#[derive(Clone, Copy, Debug, PartialEq, Eq, Structural)]
pub enum ShelfError {
    /// Another shelf has this name, letter case set aside.
    DuplicateName,
    /// The name has more than `NAME_LIMIT` characters.
    NameTooLong,
    /// The only shelf cannot be removed.
    LastShelf,
    /// There is no shelf at this position.
    NoSuchShelf,
    /// The shelf does not hold this book.
    NoSuchBook,
    /// Every numbered shelf name is taken.
    NoFreeName,
}

/// A named group of books.
///
/// `==` on shelves compares the names only.
#[derive(Clone, Debug, Eq)]
pub struct Shelf {
    pub name: String,
    /// The identifiers of the books on this shelf, in order.
    pub uuids: Vec<String>,
    pub renaming: RenameState,
    /// The name typed so far while the shelf is being renamed.
    pub desired_name: String,
}

/// A shelf as contracts see it.
pub struct ShelfView {
    pub name: Seq<char>,
    pub uuids: Seq<Seq<char>>,
    pub renaming: RenameState,
    pub desired_name: Seq<char>,
}

/// The identifiers in `ids`, each as its characters.
pub open spec fn ids_of(ids: Seq<String>) -> Seq<Seq<char>> {
    Seq::new(ids.len(), |i: int| ids[i]@)
}

impl View for Shelf {
    type V = ShelfView;

    open spec fn view(&self) -> ShelfView {
        ShelfView {
            name: self.name@,
            uuids: ids_of(self.uuids@),
            renaming: self.renaming,
            desired_name: self.desired_name@,
        }
    }
}

impl PartialEq for Shelf {
    fn eq(&self, other: &Self) -> (r: bool) {
        self.name == other.name
    }
}

impl PartialEqSpecImpl for Shelf {
    open spec fn obeys_eq_spec() -> bool {
        true
    }

    open spec fn eq_spec(&self, other: &Self) -> bool {
        self.name@ == other.name@
    }
}

/// An empty shelf named `name`, not being renamed.
pub open spec fn empty_shelf(name: Seq<char>) -> ShelfView {
    ShelfView {
        name,
        uuids: Seq::empty(),
        renaming: RenameState::Inactive,
        desired_name: Seq::empty(),
    }
}

impl Shelf {
    /// An empty shelf named `name`.
    pub fn new(name: &str) -> (shelf: Self)
        ensures
            shelf@ == empty_shelf(name@),
    {
        let shelf = Shelf {
            name: name.to_owned(),
            uuids: Vec::new(),
            renaming: RenameState::Inactive,
            desired_name: String::new(),
        };
        assert(shelf@.uuids =~= Seq::<Seq<char>>::empty());
        shelf
    }

    /// A shelf named `name` that holds the books `uuids`.
    pub fn new_with_contents(name: &str, uuids: Vec<String>) -> (shelf: Self)
        ensures
            shelf@ == (ShelfView { uuids: ids_of(uuids@), ..empty_shelf(name@) }),
    {
        Shelf {
            name: name.to_owned(),
            uuids,
            renaming: RenameState::Inactive,
            desired_name: String::new(),
        }
    }

    /// Whether the shelf holds the book `id`.
    pub fn holds(&self, id: &str) -> (r: bool)
        ensures
            r == self@.uuids.contains(id@),
    {
        let wanted = id.to_owned();
        let mut i: usize = 0;
        while i < self.uuids.len()
            invariant
                i <= self.uuids.len(),
                wanted@ == id@,
                forall|k: int| 0 <= k < i ==> self@.uuids[k] != id@,
            decreases self.uuids.len() - i,
        {
            if self.uuids[i] == wanted {
                assert(self@.uuids[i as int] == id@);
                return true;
            }
            i += 1;
        }
        false
    }
}

/// Whether two shelf names are the same name, letter case set aside.
pub open spec fn same_name(a: Seq<char>, b: Seq<char>) -> bool {
    lowercase_of(a) == lowercase_of(b)
}

/// Whether two shelf names are the same name, letter case set aside.
pub fn names_match(a: &str, b: &str) -> (r: bool)
    ensures
        r == same_name(a@, b@),
{
    lowercase(a) == lowercase(b)
}

} // verus!
