use pend::color::Color;
use pend::library::Library;
use pend::note::Note;
use pend::registry::{discard_book, register_epub, text_or_placeholder};
use pend::shelf::{Shelf, ShelfError};
use pend::store::AnnotationStore;

#[test]
fn reading_never_makes_a_record() {
    let mut store = AnnotationStore::new();
    assert!(store.get("a").is_none());
    assert!(!store.contains("a"));
    assert!(store.get_mut("a").is_none());
    assert!(store.get("a").is_none());
}

#[test]
fn a_record_is_made_once_and_fresh() {
    let mut store = AnnotationStore::new();
    assert!(store.ensure_record("a"));
    let record = store.get("a").unwrap();
    assert_eq!(record.chapter, 1);
    assert!(record.notes.is_empty());
    assert!(record.highlights.is_empty());
    assert!(record.formatting_info.is_empty());
    store.get_mut("a").unwrap().chapter = 7;
    assert!(!store.ensure_record("a"));
    assert_eq!(store.get("a").unwrap().chapter, 7);
    assert!(store.get("A").is_none());
}

#[test]
fn records_are_kept_apart() {
    let mut store = AnnotationStore::new();
    store.ensure_record("a");
    store.ensure_record("b");
    store.get_mut("a").unwrap().toggle_highlight(1, 2, Color::yellow());
    assert!(store.get_mut("b").unwrap().add_note(Note::new(3, 4)));
    assert_eq!(store.get("a").unwrap().get_highlight(1, 2), Some(Color::yellow()));
    assert_eq!(store.get("b").unwrap().get_highlight(1, 2), None);
    assert!(store.get("a").unwrap().notes.is_empty());
    assert_eq!(store.get("b").unwrap().notes.len(), 1);
}

#[test]
fn removing_a_record() {
    let mut store = AnnotationStore::new();
    store.ensure_record("a");
    store.ensure_record("b");
    store.ensure_record("c");
    store.get_mut("c").unwrap().chapter = 3;
    assert!(store.remove("b"));
    assert!(!store.remove("b"));
    assert!(store.contains("a"));
    assert!(!store.contains("b"));
    assert_eq!(store.get("c").unwrap().chapter, 3);
    assert!(store.remove("a"));
    assert!(store.remove("c"));
    assert!(!store.contains("c"));
}

#[test]
fn a_registered_book_has_a_shelf_and_a_record() {
    let mut library = Library::new();
    let mut store = AnnotationStore::new();
    assert!(register_epub(&mut library, &mut store, "urn:one"));
    assert_eq!(library.shelves()[0].name, "Books");
    assert_eq!(library.shelves()[0].uuids, vec!["urn:one"]);
    assert_eq!(store.get("urn:one").unwrap().chapter, 1);
    store.get_mut("urn:one").unwrap().chapter = 5;
    assert!(!register_epub(&mut library, &mut store, "urn:one"));
    assert_eq!(library.shelves()[0].uuids, vec!["urn:one"]);
    assert_eq!(store.get("urn:one").unwrap().chapter, 5);
    assert!(register_epub(&mut library, &mut store, "urn:two"));
    assert_eq!(library.shelves()[0].uuids, vec!["urn:one", "urn:two"]);
}

#[test]
fn a_discarded_book_loses_its_record() {
    let mut library = Library::new();
    let mut store = AnnotationStore::new();
    register_epub(&mut library, &mut store, "a");
    register_epub(&mut library, &mut store, "b");
    assert_eq!(discard_book(&mut library, &mut store, 0, "zzz"), Err(ShelfError::NoSuchBook));
    assert_eq!(discard_book(&mut library, &mut store, 3, "a"), Err(ShelfError::NoSuchShelf));
    assert!(store.contains("a"));
    assert_eq!(discard_book(&mut library, &mut store, 0, "a"), Ok(true));
    assert!(!store.contains("a"));
    assert!(store.contains("b"));
    assert!(!library.holds_book("a"));
    assert_eq!(library.shelves()[0].uuids, vec!["b"]);
    store.remove("b");
    assert_eq!(discard_book(&mut library, &mut store, 0, "b"), Ok(false));
}

#[test]
fn get_or_create_makes_a_record_once() {
    let mut store = AnnotationStore::new();
    assert_eq!(store.get_or_create("a").chapter, 1);
    store.get_or_create("a").chapter = 9;
    assert_eq!(store.get_or_create("a").chapter, 9);
    assert!(store.get_or_create("b").notes.is_empty());
    assert_eq!(store.get("a").unwrap().chapter, 9);
    let mut ids = store.ids();
    ids.sort();
    assert_eq!(ids, vec!["a", "b"]);
}

#[test]
fn notes_are_added_through_the_store() {
    let mut store = AnnotationStore::new();
    let hello = Note { chapter: 4, line: 10, content: "hello".to_string() };
    let world = Note { chapter: 4, line: 10, content: "world".to_string() };
    assert_eq!(store.add_note("book", hello.clone()), None);
    assert!(!store.contains("book"));
    store.ensure_record("book");
    assert_eq!(store.add_note("book", hello), Some(true));
    assert_eq!(store.add_note("book", world), Some(false));
    let notes = &store.get("book").unwrap().notes;
    assert_eq!(notes.len(), 1);
    assert_eq!((notes[0].chapter, notes[0].line), (4, 10));
    assert_eq!(notes[0].content, "hello");
}

#[test]
fn missing_titles_get_a_placeholder() {
    assert_eq!(text_or_placeholder(None), "<Missing Title>");
    assert_eq!(text_or_placeholder(Some("Emma".to_string())), "Emma");
    assert_eq!(text_or_placeholder(Some(String::new())), "");
}

#[test]
fn a_library_is_restored_from_its_shelves() {
    let shelves = vec![
        Shelf::new_with_contents("One", vec!["a".to_string()]),
        Shelf::new("Two"),
    ];
    let mut library = Library::from_shelves(shelves).unwrap();
    assert_eq!(library.len(), 2);
    assert_eq!(library.find_shelf("Two"), Some(1));
    assert!(library.holds_book("a"));
    assert!(!library.register_book("a"));
    assert_eq!(library.total_books(), Some(1));
    assert_eq!(Library::from_shelves(Vec::new()).unwrap().len(), 0);
}

#[test]
fn shelves_out_of_order_make_no_library() {
    let same_name = vec![Shelf::new("Fiction"), Shelf::new("Other"), Shelf::new("fiction")];
    assert!(Library::from_shelves(same_name).is_none());
    let on_two_shelves = vec![
        Shelf::new_with_contents("One", vec!["a".to_string(), "b".to_string()]),
        Shelf::new_with_contents("Two", vec!["c".to_string(), "a".to_string()]),
    ];
    assert!(Library::from_shelves(on_two_shelves).is_none());
    let twice_on_one = vec![
        Shelf::new("One"),
        Shelf::new_with_contents("Two", vec!["c".to_string(), "d".to_string(), "c".to_string()]),
    ];
    assert!(Library::from_shelves(twice_on_one).is_none());
    let fine = vec![
        Shelf::new_with_contents("One", vec!["a".to_string(), "b".to_string()]),
        Shelf::new_with_contents("Two", vec!["c".to_string(), "A".to_string()]),
    ];
    assert!(Library::from_shelves(fine).is_some());
}
