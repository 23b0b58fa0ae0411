//! Books entering and leaving the library: a book on a shelf has a record,
//! and a book that has left every shelf has none.

use crate::invariants::well_formed;
use crate::library::{discard_verdict, holds_book, registered, with_books, without, Library};
use crate::shelf::ShelfError;
use crate::store::{is_fresh, AnnotationStore};
use vstd::prelude::*;

verus! {

/// Takes the book `id` into the library: it is put on the first shelf
/// unless a shelf holds it, and it gets a fresh record unless it has one.
/// Returns whether the book was new to the shelves.
pub fn register_epub(library: &mut Library, store: &mut AnnotationStore, id: &str) -> (added: bool)
    ensures
        added == !holds_book(old(library)@, id@),
        final(library)@ == registered(old(library)@, id@),
        well_formed(old(library)@) ==> well_formed(final(library)@),
        final(store)@.contains_key(id@),
        old(store)@.contains_key(id@) ==> final(store)@ == old(store)@,
        !old(store)@.contains_key(id@) ==> is_fresh(final(store)@[id@]) && final(store)@ == old(
            store,
        )@.insert(id@, final(store)@[id@]),
{
    let added = library.register_book(id);
    store.ensure_record(id);
    added
}

/// Takes the book `id` off the shelf at `shelf`. Where no shelf holds it
/// afterwards, its record goes with it. Returns whether the record went.
///
/// Turned down with `NoSuchShelf` where there is no such shelf, and with
/// `NoSuchBook` where the shelf does not hold the book. Shelves and records
/// are then as they were.
pub fn discard_book(library: &mut Library, store: &mut AnnotationStore, shelf: usize, id: &str) -> (r:
    Result<bool, ShelfError>)
    ensures
        match r {
            Ok(gone) => {
                &&& discard_verdict(old(library)@, shelf as int, id@) is Ok
                &&& final(library)@ == with_books(
                    old(library)@,
                    shelf as int,
                    without(old(library)@[shelf as int].uuids, id@),
                )
                &&& well_formed(old(library)@) ==> well_formed(final(library)@)
                &&& gone == (!holds_book(final(library)@, id@) && old(store)@.contains_key(id@))
                &&& final(store)@ == (if holds_book(final(library)@, id@) {
                    old(store)@
                } else {
                    old(store)@.remove(id@)
                })
            },
            Err(e) => {
                &&& discard_verdict(old(library)@, shelf as int, id@) == Err::<(), ShelfError>(e)
                &&& final(library)@ == old(library)@
                &&& final(store)@ == old(store)@
            },
        },
{
    match library.remove_book(shelf, id) {
        Err(e) => Err(e),
        Ok(()) => {
            if library.holds_book(id) {
                Ok(false)
            } else {
                Ok(store.remove(id))
            }
        },
    }
}

/// What is shown for a title or an author that a book does not give:
/// `<Missing Title>`.
pub open spec fn placeholder() -> Seq<char> {
    seq!['<', 'M', 'i', 's', 's', 'i', 'n', 'g', ' ', 'T', 'i', 't', 'l', 'e', '>']
}

/// The text to show for `value`: the value itself, or the placeholder where
/// the book gives none.
pub fn text_or_placeholder(value: Option<String>) -> (text: String)
    ensures
        text@ == (match value {
            Some(given) => given@,
            None => placeholder(),
        }),
{
    match value {
        Some(given) => given,
        None => {
            proof {
                reveal_strlit("<Missing Title>");
            }
            let text = "<Missing Title>".to_owned();
            assert(text@ =~= placeholder());
            text
        },
    }
}

} // verus!
