use pend::library::{shelf_name_for, Library};
use pend::shelf::{names_match, RenameState, Shelf, ShelfError};

fn names(library: &Library) -> Vec<String> {
    library.shelves().iter().map(|s| s.name.clone()).collect()
}

fn books(library: &Library, shelf: usize) -> Vec<String> {
    library.shelves()[shelf].uuids.clone()
}

fn two_shelves() -> Library {
    let mut library = Library::new();
    assert_eq!(library.create_shelf("Fiction"), Ok(()));
    assert_eq!(library.create_shelf("Nonfiction"), Ok(()));
    library
}

#[test]
fn new_shelf_is_empty_and_idle() {
    let shelf = Shelf::new("Books");
    assert_eq!(shelf.name, "Books");
    assert!(shelf.uuids.is_empty());
    assert!(shelf.renaming == RenameState::Inactive);
    assert_eq!(shelf.desired_name, "");
}

#[test]
fn new_shelf_with_contents_holds_them() {
    let shelf = Shelf::new_with_contents("Shelf 1", vec!["a".to_string(), "b".to_string()]);
    assert_eq!(shelf.name, "Shelf 1");
    assert_eq!(shelf.uuids, vec!["a".to_string(), "b".to_string()]);
    assert!(shelf.renaming == RenameState::Inactive);
    assert_eq!(shelf.desired_name, "");
    assert!(shelf.holds("b"));
    assert!(!shelf.holds("c"));
}

#[test]
fn shelves_are_equal_when_their_names_are() {
    let a = Shelf::new_with_contents("Same", vec!["x".to_string()]);
    let b = Shelf::new("Same");
    let c = Shelf::new("same");
    assert!(a == b);
    assert!(a != c);
}

#[test]
fn rename_to_a_name_that_differs_in_case_only_is_a_duplicate() {
    let mut library = two_shelves();
    assert_eq!(library.rename_shelf(0, "nonfiction"), Err(ShelfError::DuplicateName));
    assert_eq!(names(&library), vec!["Fiction", "Nonfiction"]);
    let at = library.find_shelf("Fiction").unwrap();
    assert_eq!(library.rename_shelf(at, "NONFICTION"), Err(ShelfError::DuplicateName));
    assert_eq!(names(&library), vec!["Fiction", "Nonfiction"]);
}

#[test]
fn removing_the_only_shelf_fails_and_keeps_its_books() {
    let mut library = Library::new();
    assert!(library.register_book("one"));
    assert!(library.register_book("two"));
    assert!(library.register_book("three"));
    assert_eq!(names(&library), vec!["Books"]);
    let at = library.find_shelf("Books").unwrap();
    assert_eq!(library.remove_shelf(at), Err(ShelfError::LastShelf));
    assert_eq!(names(&library), vec!["Books"]);
    assert_eq!(books(&library, 0), vec!["one", "two", "three"]);
    assert_eq!(library.total_books(), Some(3));
}

#[test]
fn creating_a_shelf_with_a_taken_name_fails_and_changes_nothing() {
    let mut library = two_shelves();
    library.register_book("a");
    assert_eq!(library.create_shelf("Fiction"), Err(ShelfError::DuplicateName));
    assert_eq!(library.create_shelf("fiction"), Err(ShelfError::DuplicateName));
    assert_eq!(library.create_shelf("NONFICTION"), Err(ShelfError::DuplicateName));
    assert_eq!(names(&library), vec!["Fiction", "Nonfiction"]);
    assert_eq!(books(&library, 0), vec!["a"]);
    assert_eq!(library.create_shelf("Poetry"), Ok(()));
    assert_eq!(names(&library), vec!["Fiction", "Nonfiction", "Poetry"]);
    assert!(books(&library, 2).is_empty());
}

#[test]
fn removing_a_shelf_moves_its_books_to_the_one_before() {
    let mut library = two_shelves();
    library.create_shelf("Poetry").unwrap();
    library.register_book("a");
    library.register_book("b");
    library.register_book("c");
    library.register_book("d");
    library.move_book("b", 0, 1, 0).unwrap();
    library.move_book("c", 0, 2, 0).unwrap();
    library.move_book("d", 0, 2, 1).unwrap();
    assert_eq!(library.total_books(), Some(4));
    assert_eq!(library.remove_shelf(2), Ok(()));
    assert_eq!(names(&library), vec!["Fiction", "Nonfiction"]);
    assert_eq!(books(&library, 0), vec!["a"]);
    assert_eq!(books(&library, 1), vec!["b", "c", "d"]);
    assert_eq!(library.total_books(), Some(4));
    assert_eq!(library.remove_shelf(1), Ok(()));
    assert_eq!(names(&library), vec!["Fiction"]);
    assert_eq!(books(&library, 0), vec!["a", "b", "c", "d"]);
    assert_eq!(library.total_books(), Some(4));
}

#[test]
fn removing_the_first_shelf_moves_its_books_to_the_second() {
    let mut library = two_shelves();
    library.create_shelf("Poetry").unwrap();
    library.register_book("a");
    library.register_book("b");
    library.move_book("b", 0, 1, 0).unwrap();
    library.register_book("c");
    assert_eq!(books(&library, 0), vec!["a", "c"]);
    assert_eq!(library.remove_shelf(0), Ok(()));
    assert_eq!(names(&library), vec!["Nonfiction", "Poetry"]);
    assert_eq!(books(&library, 0), vec!["b", "a", "c"]);
    assert!(books(&library, 1).is_empty());
    assert_eq!(library.total_books(), Some(3));
}

#[test]
fn removing_a_shelf_that_is_not_there_fails() {
    let mut library = two_shelves();
    assert_eq!(library.remove_shelf(2), Err(ShelfError::NoSuchShelf));
    let mut empty = Library::new();
    assert_eq!(empty.remove_shelf(0), Err(ShelfError::NoSuchShelf));
    assert_eq!(empty.len(), 0);
    assert_eq!(empty.total_books(), Some(0));
}

#[test]
fn rename_checks_the_name() {
    let mut library = two_shelves();
    assert_eq!(library.rename_shelf(0, "Novels"), Ok(()));
    assert_eq!(names(&library), vec!["Novels", "Nonfiction"]);
    assert_eq!(library.rename_shelf(0, "NOVELS"), Ok(()));
    assert_eq!(names(&library), vec!["NOVELS", "Nonfiction"]);
    let long = "a".repeat(33);
    assert_eq!(library.rename_shelf(0, &long), Err(ShelfError::NameTooLong));
    let fits = "é".repeat(32);
    assert_eq!(library.rename_shelf(0, &fits), Ok(()));
    assert_eq!(library.shelves()[0].name, fits);
    assert_eq!(library.rename_shelf(5, "x"), Err(ShelfError::NoSuchShelf));
    assert_eq!(names(&library)[1], "Nonfiction");
}

#[test]
fn names_match_sets_letter_case_aside() {
    assert!(names_match("Fiction", "fICTION"));
    assert!(names_match("ÉTÉ", "été"));
    assert!(!names_match("Fiction", "Fictions"));
    assert!(!names_match("Shelf 1", "Shelf 2"));
}

#[test]
fn registering_a_book_puts_it_on_the_first_shelf_once() {
    let mut library = Library::new();
    assert!(!library.holds_book("a"));
    assert!(library.register_book("a"));
    assert_eq!(names(&library), vec!["Books"]);
    assert!(!library.register_book("a"));
    assert_eq!(books(&library, 0), vec!["a"]);
    library.create_shelf("Other").unwrap();
    library.move_book("a", 0, 1, 0).unwrap();
    assert!(!library.register_book("a"));
    assert!(books(&library, 0).is_empty());
    assert_eq!(books(&library, 1), vec!["a"]);
    assert!(library.register_book("b"));
    assert_eq!(books(&library, 0), vec!["b"]);
    assert!(library.holds_book("a"));
    assert_eq!(library.total_books(), Some(2));
}

#[test]
fn moving_a_book_within_and_between_shelves() {
    let mut library = two_shelves();
    for id in ["a", "b", "c", "d"] {
        library.register_book(id);
    }
    assert_eq!(library.move_book("d", 0, 0, 1), Ok(()));
    assert_eq!(books(&library, 0), vec!["a", "d", "b", "c"]);
    assert_eq!(library.move_book("a", 0, 0, 2), Ok(()));
    assert_eq!(books(&library, 0), vec!["d", "b", "a", "c"]);
    assert_eq!(library.move_book("b", 0, 0, 1), Ok(()));
    assert_eq!(books(&library, 0), vec!["d", "b", "a", "c"]);
    assert_eq!(library.move_book("d", 0, 0, 99), Ok(()));
    assert_eq!(books(&library, 0), vec!["b", "a", "c", "d"]);
    assert_eq!(library.move_book("a", 0, 1, 7), Ok(()));
    assert_eq!(books(&library, 0), vec!["b", "c", "d"]);
    assert_eq!(books(&library, 1), vec!["a"]);
    assert_eq!(library.move_book("c", 0, 1, 0), Ok(()));
    assert_eq!(books(&library, 1), vec!["c", "a"]);
    assert_eq!(library.move_book("c", 0, 1, 0), Err(ShelfError::NoSuchBook));
    assert_eq!(library.move_book("c", 1, 2, 0), Err(ShelfError::NoSuchShelf));
    assert_eq!(library.move_book("c", 2, 1, 0), Err(ShelfError::NoSuchShelf));
    assert_eq!(books(&library, 0), vec!["b", "d"]);
    assert_eq!(books(&library, 1), vec!["c", "a"]);
    assert_eq!(library.total_books(), Some(4));
}

#[test]
fn removing_a_book_from_a_shelf() {
    let mut library = two_shelves();
    library.register_book("a");
    library.register_book("b");
    assert_eq!(library.remove_book(1, "a"), Err(ShelfError::NoSuchBook));
    assert_eq!(library.remove_book(2, "a"), Err(ShelfError::NoSuchShelf));
    assert_eq!(library.remove_book(0, "a"), Ok(()));
    assert_eq!(books(&library, 0), vec!["b"]);
    assert!(!library.holds_book("a"));
}

#[test]
fn a_book_set_apart_gets_a_numbered_shelf() {
    let mut library = Library::new();
    for id in ["a", "b", "c", "d"] {
        library.register_book(id);
    }
    assert_eq!(library.first_free_number(), Some(1));
    assert_eq!(library.move_to_new_shelf("b", 0), Ok(()));
    assert_eq!(names(&library), vec!["Books", "Shelf 1"]);
    assert_eq!(books(&library, 0), vec!["a", "c", "d"]);
    assert_eq!(books(&library, 1), vec!["b"]);
    assert_eq!(library.move_to_new_shelf("c", 0), Ok(()));
    assert_eq!(names(&library), vec!["Books", "Shelf 1", "Shelf 2"]);
    library.rename_shelf(1, "Keep").unwrap();
    library.create_shelf("SHELF 1").unwrap();
    assert_eq!(library.first_free_number(), Some(3));
    library.rename_shelf(3, "Else").unwrap();
    assert_eq!(library.move_to_new_shelf("b", 1), Ok(()));
    assert_eq!(names(&library), vec!["Books", "Keep", "Shelf 2", "Else", "Shelf 1"]);
    assert_eq!(books(&library, 4), vec!["b"]);
    assert!(books(&library, 1).is_empty());
    assert_eq!(library.move_to_new_shelf("zzz", 0), Err(ShelfError::NoSuchBook));
    assert_eq!(library.move_to_new_shelf("a", 9), Err(ShelfError::NoSuchShelf));
    assert_eq!(library.total_books(), Some(4));
}

#[test]
fn numbered_shelf_names() {
    assert_eq!(shelf_name_for(0), "Shelf 0");
    assert_eq!(shelf_name_for(1), "Shelf 1");
    assert_eq!(shelf_name_for(9), "Shelf 9");
    assert_eq!(shelf_name_for(10), "Shelf 10");
    assert_eq!(shelf_name_for(407), "Shelf 407");
    assert_eq!(shelf_name_for(65535), "Shelf 65535");
}

#[test]
fn renaming_by_steps() {
    let mut library = two_shelves();
    assert!(library.begin_rename(0));
    assert!(library.shelves()[0].renaming == RenameState::Active);
    assert_eq!(library.shelves()[0].desired_name, "Fiction");
    assert_eq!(library.confirm_rename(0), Ok(()));
    assert!(library.shelves()[0].renaming == RenameState::Inactive);
    assert_eq!(library.shelves()[0].name, "Fiction");

    assert!(library.begin_rename(0));
    assert!(library.set_desired_name(0, "nonFiction"));
    assert_eq!(library.confirm_rename(0), Err(ShelfError::DuplicateName));
    assert!(library.shelves()[0].renaming == RenameState::Active);
    assert_eq!(library.shelves()[0].name, "Fiction");
    assert_eq!(library.shelves()[0].desired_name, "nonFiction");

    assert!(library.set_desired_name(0, &"x".repeat(40)));
    assert_eq!(library.confirm_rename(0), Err(ShelfError::NameTooLong));
    assert!(library.shelves()[0].renaming == RenameState::Active);

    assert!(library.set_desired_name(0, "Novels"));
    assert!(library.begin_rename(0));
    assert_eq!(library.shelves()[0].desired_name, "Novels");
    assert_eq!(library.confirm_rename(0), Ok(()));
    assert_eq!(library.shelves()[0].name, "Novels");
    assert!(library.shelves()[0].renaming == RenameState::Inactive);

    assert!(library.begin_rename(1));
    assert!(library.set_desired_name(1, "Essays"));
    assert!(library.cancel_rename(1));
    assert!(library.shelves()[1].renaming == RenameState::Inactive);
    assert_eq!(library.shelves()[1].name, "Nonfiction");
    assert_eq!(library.shelves()[1].desired_name, "");
    assert_eq!(library.confirm_rename(1), Ok(()));
    assert_eq!(library.shelves()[1].name, "Nonfiction");

    assert!(!library.begin_rename(2));
    assert!(!library.set_desired_name(2, "x"));
    assert!(!library.cancel_rename(2));
    assert_eq!(library.confirm_rename(2), Err(ShelfError::NoSuchShelf));
}

#[test]
fn find_shelf_is_exact() {
    let library = two_shelves();
    assert_eq!(library.find_shelf("Nonfiction"), Some(1));
    assert_eq!(library.find_shelf("nonfiction"), None);
    assert!(library.is_name_taken("nonfiction", None));
    assert!(!library.is_name_taken("nonfiction", Some(1)));
    assert!(library.is_name_taken("nonfiction", Some(0)));
}
