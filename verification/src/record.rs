//! What a reader leaves in one book: notes, highlighted lines, the
//! formatting found in its chapters, and the chapter last read.

use crate::color::Color;
use crate::index::{without_chapter, LineTable};
use crate::markup::FormattingInfo;
use crate::note::Note;
use crate::notes::{at_place, find_note, has_note_at, is_stable_sort_of, sort_notes};
use vstd::prelude::*;

verus! {

/// The highlights after a click with `color` on the line at `at`: a line
/// without highlight gets `color`, a line that has `color` loses it, and a
/// line with another color is recolored.
pub open spec fn toggled(highlights: Map<(int, int), Color>, at: (int, int), color: Color) -> Map<
    (int, int),
    Color,
> {
    if highlights.contains_key(at) && highlights[at] == color {
        highlights.remove(at)
    } else {
        highlights.insert(at, color)
    }
}

/// The notes after an attempt to add `note`: a place holds one note at most,
/// so a note for a place that has one is turned away.
pub open spec fn with_note(notes: Seq<Note>, note: Note) -> Seq<Note> {
    if has_note_at(notes, note.chapter, note.line) {
        notes
    } else {
        notes.push(note)
    }
}

/// The chapter after a step back from `chapter`, when the book shows `page`.
pub open spec fn chapter_back(chapter: int, page: int) -> int {
    if page > 1 && chapter > 0 {
        chapter - 1
    } else {
        chapter
    }
}

/// The chapter after a step forward from `chapter`, when the book shows
/// `page` of `pages`.
pub open spec fn chapter_forward(chapter: int, page: int, pages: int) -> int {
    if page < pages - 1 && chapter < usize::MAX {
        chapter + 1
    } else {
        chapter
    }
}

/// The reader's state for one book.
pub struct LocalBookInfo {
    pub notes: Vec<Note>,
    /// The chapter last read, counted from 1.
    pub chapter: usize,
    /// The highlight color of lines, by `(chapter, line)`.
    pub highlights: LineTable<Color>,
    /// The formatting of lines, by `(chapter, line)`.
    pub formatting_info: LineTable<FormattingInfo>,
}

impl LocalBookInfo {
    /// The state of a book nobody has read yet: no notes, no highlights, no
    /// formatting, and chapter 1.
    #[must_use]
    pub fn default() -> (info: Self)
        ensures
            info.notes@ == Seq::<Note>::empty(),
            info.chapter == 1,
            info.highlights@ == Map::<(int, int), Color>::empty(),
            info.formatting_info@ == Map::<(int, int), FormattingInfo>::empty(),
    {
        LocalBookInfo {
            notes: Vec::new(),
            chapter: 1,
            highlights: LineTable::new(),
            formatting_info: LineTable::new(),
        }
    }

    /// Records `kind` as the formatting of `(chapter, line)`; what was
    /// recorded there before is overwritten.
    pub fn set_formatting(&mut self, chapter: usize, line: usize, kind: FormattingInfo)
        ensures
            final(self).formatting_info@ == old(self).formatting_info@.insert(
                (chapter as int, line as int),
                kind,
            ),
            final(self).highlights == old(self).highlights,
            final(self).notes == old(self).notes,
            final(self).chapter == old(self).chapter,
    {
        self.formatting_info.set(chapter, line, kind);
    }

    /// The formatting recorded for `(chapter, line)`, if any.
    pub fn get_formatting(&self, chapter: usize, line: usize) -> (r: Option<FormattingInfo>)
        ensures
            r == (if self.formatting_info@.contains_key((chapter as int, line as int)) {
                Some(self.formatting_info@[(chapter as int, line as int)])
            } else {
                None
            }),
    {
        self.formatting_info.get(chapter, line)
    }

    /// The highlight color of `(chapter, line)`, if it is highlighted.
    pub fn get_highlight(&self, chapter: usize, line: usize) -> (r: Option<Color>)
        ensures
            r == (if self.highlights@.contains_key((chapter as int, line as int)) {
                Some(self.highlights@[(chapter as int, line as int)])
            } else {
                None
            }),
    {
        self.highlights.get(chapter, line)
    }

    /// A click with `color` on `(chapter, line)`: highlights the line,
    /// clears it if it has this very color, recolors it otherwise.
    pub fn toggle_highlight(&mut self, chapter: usize, line: usize, color: Color)
        ensures
            final(self).highlights@ == toggled(
                old(self).highlights@,
                (chapter as int, line as int),
                color,
            ),
            final(self).formatting_info == old(self).formatting_info,
            final(self).notes == old(self).notes,
            final(self).chapter == old(self).chapter,
    {
        match self.highlights.get(chapter, line) {
            Some(existing) => {
                if existing == color {
                    self.highlights.remove(chapter, line);
                } else {
                    self.highlights.set(chapter, line, color);
                }
            },
            None => {
                self.highlights.set(chapter, line, color);
            },
        }
    }

    /// Removes the highlights of chapter `chapter`.
    pub fn clear_chapter_highlights(&mut self, chapter: usize)
        ensures
            final(self).highlights@ == without_chapter(old(self).highlights@, chapter as int),
            final(self).formatting_info == old(self).formatting_info,
            final(self).notes == old(self).notes,
            final(self).chapter == old(self).chapter,
    {
        self.highlights.clear_chapter(chapter);
    }

    /// Removes every highlight.
    pub fn clear_highlights(&mut self)
        ensures
            final(self).highlights@ == Map::<(int, int), Color>::empty(),
            final(self).formatting_info == old(self).formatting_info,
            final(self).notes == old(self).notes,
            final(self).chapter == old(self).chapter,
    {
        self.highlights.clear();
    }

    /// Whether a note stands at `(chapter, line)`.
    pub fn has_note(&self, chapter: u16, line: u16) -> (r: bool)
        ensures
            r == has_note_at(self.notes@, chapter, line),
    {
        find_note(&self.notes, chapter, line).is_some()
    }

    /// Adds `note` unless its place already has a note. Returns whether the
    /// note was added.
    pub fn add_note(&mut self, note: Note) -> (added: bool)
        ensures
            added == !has_note_at(old(self).notes@, note.chapter, note.line),
            final(self).notes@ == with_note(old(self).notes@, note),
            final(self).highlights == old(self).highlights,
            final(self).formatting_info == old(self).formatting_info,
            final(self).chapter == old(self).chapter,
    {
        if find_note(&self.notes, note.chapter, note.line).is_some() {
            false
        } else {
            self.notes.push(note);
            true
        }
    }

    /// Removes and returns the note at position `index` of the list, if the
    /// list is that long.
    pub fn remove_note(&mut self, index: usize) -> (removed: Option<Note>)
        ensures
            index < old(self).notes.len() ==> removed == Some(old(self).notes@[index as int])
                && final(self).notes@ == old(self).notes@.remove(index as int),
            index >= old(self).notes.len() ==> removed is None && final(self).notes@ == old(
                self,
            ).notes@,
            final(self).highlights == old(self).highlights,
            final(self).formatting_info == old(self).formatting_info,
            final(self).chapter == old(self).chapter,
    {
        if index < self.notes.len() {
            Some(self.notes.remove(index))
        } else {
            None
        }
    }

    /// Puts the notes in order of place; notes at one place keep their order.
    pub fn sort_notes(&mut self)
        ensures
            is_stable_sort_of(final(self).notes@, old(self).notes@),
            final(self).highlights == old(self).highlights,
            final(self).formatting_info == old(self).formatting_info,
            final(self).chapter == old(self).chapter,
    {
        sort_notes(&mut self.notes);
    }

    /// Removes every note.
    pub fn clear_notes(&mut self)
        ensures
            final(self).notes@ == Seq::<Note>::empty(),
            final(self).highlights == old(self).highlights,
            final(self).formatting_info == old(self).formatting_info,
            final(self).chapter == old(self).chapter,
    {
        self.notes.clear();
    }

    /// Makes the chapter of `target` the chapter being read.
    pub fn go_to(&mut self, target: &Note)
        ensures
            final(self).chapter == target.chapter,
            final(self).notes == old(self).notes,
            final(self).highlights == old(self).highlights,
            final(self).formatting_info == old(self).formatting_info,
    {
        self.chapter = target.chapter as usize;
    }

    /// Steps one chapter back, if the book shows a page after the first.
    pub fn previous_chapter(&mut self, page: usize)
        ensures
            final(self).chapter == chapter_back(old(self).chapter as int, page as int),
            final(self).notes == old(self).notes,
            final(self).highlights == old(self).highlights,
            final(self).formatting_info == old(self).formatting_info,
    {
        if page > 1 && self.chapter > 0 {
            self.chapter -= 1;
        }
    }

    /// Steps one chapter forward, if the book shows a page before its last.
    pub fn next_chapter(&mut self, page: usize, pages: usize)
        ensures
            final(self).chapter == chapter_forward(
                old(self).chapter as int,
                page as int,
                pages as int,
            ),
            final(self).notes == old(self).notes,
            final(self).highlights == old(self).highlights,
            final(self).formatting_info == old(self).formatting_info,
    {
        if pages > 0 && page < pages - 1 && self.chapter < usize::MAX {
            self.chapter += 1;
        }
    }
}

/// Clicking a line twice with one color leaves the highlights as they
/// were, where the line had no highlight or had that color.
pub proof fn lemma_toggle_twice_restores(
    highlights: Map<(int, int), Color>,
    at: (int, int),
    color: Color,
)
    requires
        highlights.contains_key(at) ==> highlights[at] == color,
    ensures
        toggled(toggled(highlights, at, color), at, color) == highlights,
{
    assert(toggled(toggled(highlights, at, color), at, color) =~= highlights);
}

/// Clicking twice with one color a line that had another color leaves the
/// line without highlight.
pub proof fn lemma_toggle_twice_clears_other_color(
    highlights: Map<(int, int), Color>,
    at: (int, int),
    color: Color,
)
    requires
        highlights.contains_key(at),
        highlights[at] != color,
    ensures
        toggled(toggled(highlights, at, color), at, color) == highlights.remove(at),
{
    assert(toggled(toggled(highlights, at, color), at, color) =~= highlights.remove(at));
}

/// A click with one color and then a click with another leaves the line in
/// the second color, whatever it had before.
pub proof fn lemma_toggle_two_colors(
    highlights: Map<(int, int), Color>,
    at: (int, int),
    first: Color,
    second: Color,
)
    requires
        first != second,
    ensures
        toggled(toggled(highlights, at, first), at, second) == highlights.insert(at, second),
{
    assert(toggled(toggled(highlights, at, first), at, second) =~= highlights.insert(at, second));
}

/// A second note for a place changes nothing, and where the place had no
/// note, the first one is the only note there afterwards.
pub proof fn lemma_add_note_twice(notes: Seq<Note>, first: Note, second: Note)
    requires
        first.chapter == second.chapter,
        first.line == second.line,
    ensures
        with_note(with_note(notes, first), second) == with_note(notes, first),
        !has_note_at(notes, first.chapter, first.line) ==> with_note(
            with_note(notes, first),
            second,
        ).filter(at_place(first.chapter, first.line)) == seq![first],
{
    let once = with_note(notes, first);
    let pred = at_place(first.chapter, first.line);
    if !has_note_at(notes, first.chapter, first.line) {
        assert(once == notes.push(first));
        assert(once[notes.len() as int] == first);
        assert(has_note_at(once, second.chapter, second.line));
        assert forall|i: int| 0 <= i < notes.len() implies !pred(#[trigger] notes[i]) by {}
        notes.lemma_all_neg_filter_empty(pred);
        reveal(Seq::filter);
        assert(once.drop_last() =~= notes);
        assert(once.filter(pred) =~= seq![first]);
    } else {
        assert(has_note_at(once, second.chapter, second.line));
    }
}

} // verus!
