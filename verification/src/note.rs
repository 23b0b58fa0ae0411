//! A reader's note, attached to one line of the clean text.

use std::cmp::Ordering;
use vstd::prelude::*;
use vstd::std_specs::cmp::{PartialEqSpecImpl, PartialOrdSpecImpl};

verus! {

/// A note on line `line` of chapter `chapter`.
///
/// Two notes are the same note when they stand at the same place, whatever
/// they say, and notes are ordered by place alone.
#[derive(Clone, Debug, Eq)]
pub struct Note {
    pub chapter: u16,
    pub line: u16,
    pub content: String,
}

/// Whether `a` and `b` stand at the same place.
pub open spec fn same_place(a: Note, b: Note) -> bool {
    a.chapter == b.chapter && a.line == b.line
}

/// Whether `a` stands before `b`: in an earlier chapter, or in the same
/// chapter on an earlier line.
pub open spec fn comes_before(a: Note, b: Note) -> bool {
    a.chapter < b.chapter || (a.chapter == b.chapter && a.line < b.line)
}

/// How `a` stands to `b` in the order of places.
pub open spec fn place_order(a: Note, b: Note) -> Ordering {
    if comes_before(a, b) {
        Ordering::Less
    } else if same_place(a, b) {
        Ordering::Equal
    } else {
        Ordering::Greater
    }
}

impl PartialEq for Note {
    fn eq(&self, other: &Self) -> (r: bool) {
        self.chapter == other.chapter && self.line == other.line
    }
}

impl PartialEqSpecImpl for Note {
    open spec fn obeys_eq_spec() -> bool {
        true
    }

    open spec fn eq_spec(&self, other: &Self) -> bool {
        self.chapter == other.chapter && self.line == other.line
    }
}

impl PartialOrd for Note {
    fn partial_cmp(&self, other: &Self) -> (r: Option<Ordering>) {
        Some(self.cmp(other))
    }
}

impl PartialOrdSpecImpl for Note {
    open spec fn obeys_partial_cmp_spec() -> bool {
        true
    }

    open spec fn partial_cmp_spec(&self, other: &Self) -> Option<Ordering> {
        Some(place_order(*self, *other))
    }
}

impl Note {
    /// An empty note at `(chapter, line)`.
    pub fn new(chapter: u16, line: u16) -> (n: Self)
        ensures
            n.chapter == chapter,
            n.line == line,
            n.content@ == Seq::<char>::empty(),
    {
        Note { chapter, line, content: String::new() }
    }

    /// Compares two notes by place: chapter first, then line.
    pub fn cmp(&self, other: &Self) -> (r: Ordering)
        ensures
            r == place_order(*self, *other),
    {
        if self.chapter < other.chapter {
            Ordering::Less
        } else if self.chapter > other.chapter {
            Ordering::Greater
        } else if self.line < other.line {
            Ordering::Less
        } else if self.line > other.line {
            Ordering::Greater
        } else {
            Ordering::Equal
        }
    }

    /// Whether `self` stands before `other`.
    pub fn precedes(&self, other: &Self) -> (r: bool)
        ensures
            r == comes_before(*self, *other),
    {
        self.chapter < other.chapter || (self.chapter == other.chapter && self.line < other.line)
    }

    /// Whether `self` and `other` stand at the same place.
    pub fn same_place_as(&self, other: &Self) -> (r: bool)
        ensures
            r == same_place(*self, *other),
    {
        self.chapter == other.chapter && self.line == other.line
    }
}

/// Of two notes exactly one holds: the first stands before the second, they
/// stand at the same place, or the second stands before the first.
pub proof fn lemma_place_order_total(a: Note, b: Note)
    ensures
        comes_before(a, b) || same_place(a, b) || comes_before(b, a),
        !(comes_before(a, b) && same_place(a, b)),
        !(comes_before(a, b) && comes_before(b, a)),
        !(same_place(a, b) && comes_before(b, a)),
        place_order(a, b) == Ordering::Less <==> place_order(b, a) == Ordering::Greater,
        place_order(a, b) == Ordering::Equal <==> place_order(b, a) == Ordering::Equal,
{
}

/// The order of places is transitive, and notes at the same place stand
/// alike to every other note.
pub proof fn lemma_place_order_transitive(a: Note, b: Note, c: Note)
    ensures
        comes_before(a, b) && comes_before(b, c) ==> comes_before(a, c),
        same_place(a, b) && same_place(b, c) ==> same_place(a, c),
        same_place(a, b) ==> place_order(a, c) == place_order(b, c),
        same_place(a, b) ==> place_order(c, a) == place_order(c, b),
{
}

/// The order looks at the place only: what a note says does not enter.
pub proof fn lemma_place_order_ignores_content(a: Note, a2: Note, b: Note, b2: Note)
    requires
        a.chapter == a2.chapter,
        a.line == a2.line,
        b.chapter == b2.chapter,
        b.line == b2.line,
    ensures
        place_order(a, b) == place_order(a2, b2),
        same_place(a, b) == same_place(a2, b2),
        comes_before(a, b) == comes_before(a2, b2),
{
}

/// The order of places is that of the pairs `(chapter, line)`, compared
/// first component first.
pub proof fn lemma_place_order_is_lexicographic(a: Note, b: Note)
    ensures
        place_order(a, b) == Ordering::Less <==> (a.chapter < b.chapter || (a.chapter == b.chapter
            && a.line < b.line)),
        place_order(a, b) == Ordering::Equal <==> (a.chapter == b.chapter && a.line == b.line),
        place_order(a, b) == Ordering::Greater <==> (a.chapter > b.chapter || (a.chapter
            == b.chapter && a.line > b.line)),
{
}

} // verus!
