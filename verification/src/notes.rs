//! Lists of notes: looking a place up, and putting a list in order.

use crate::note::{comes_before, same_place, Note};
use vstd::prelude::*;
use vstd::seq_lib::{to_multiset_insert, to_multiset_remove};

verus! {

broadcast use vstd::multiset::group_multiset_axioms;

/// Whether some note of `notes` stands at `(chapter, line)`.
pub open spec fn has_note_at(notes: Seq<Note>, chapter: u16, line: u16) -> bool {
    exists|i: int| 0 <= i < notes.len() && (#[trigger] notes[i]).chapter == chapter && notes[i].line
        == line
}

/// Whether no note of `notes` stands before one that precedes it in the list.
pub open spec fn in_order(notes: Seq<Note>) -> bool {
    forall|i: int, j: int| 0 <= i < j < notes.len() ==> !comes_before(notes[j], notes[i])
}

/// The test "stands at `(chapter, line)`".
pub open spec fn at_place(chapter: u16, line: u16) -> spec_fn(Note) -> bool {
    |n: Note| n.chapter == chapter && n.line == line
}

/// Whether `sorted` is `notes` put in order of place, notes at the same
/// place staying in the order they had.
pub open spec fn is_stable_sort_of(sorted: Seq<Note>, notes: Seq<Note>) -> bool {
    &&& in_order(sorted)
    &&& sorted.to_multiset() == notes.to_multiset()
    &&& forall|c: u16, l: u16| #[trigger]
        sorted.filter(at_place(c, l)) == notes.filter(at_place(c, l))
}

/// The index of the first note at `(chapter, line)`, if there is one.
pub fn find_note(notes: &Vec<Note>, chapter: u16, line: u16) -> (r: Option<usize>)
    ensures
        r is Some == has_note_at(notes@, chapter, line),
        r is Some ==> r->0 < notes.len() && notes@[r->0 as int].chapter == chapter && notes@[r->0 as int].line
            == line,
        r is Some ==> forall|k: int|
            0 <= k < r->0 ==> !((#[trigger] notes@[k]).chapter == chapter && notes@[k].line
                == line),
{
    let mut i: usize = 0;
    while i < notes.len()
        invariant
            i <= notes.len(),
            forall|k: int|
                0 <= k < i ==> !((#[trigger] notes@[k]).chapter == chapter && notes@[k].line
                    == line),
        decreases notes.len() - i,
    {
        if notes[i].chapter == chapter && notes[i].line == line {
            return Some(i);
        }
        i += 1;
    }
    None
}

/// Putting `x` into `s` leaves a filtered view as it was, or adds `x` at its
/// end when `x` passes and nothing behind it does.
pub proof fn lemma_filter_insert(s: Seq<Note>, p: int, x: Note, pred: spec_fn(Note) -> bool)
    requires
        0 <= p <= s.len(),
        pred(x) ==> forall|k: int| p <= k < s.len() ==> !pred(s[k]),
    ensures
        s.insert(p, x).filter(pred) == (if pred(x) {
            s.filter(pred).push(x)
        } else {
            s.filter(pred)
        }),
    decreases s.len() - p,
{
    reveal(Seq::filter);
    let t = s.insert(p, x);
    if p == s.len() {
        assert(t.drop_last() =~= s);
        assert(t.last() == x);
    } else {
        assert(t.drop_last() =~= s.drop_last().insert(p, x));
        assert(t.last() == s.last());
        lemma_filter_insert(s.drop_last(), p, x, pred);
    }
}

/// Puts `notes` in order of place: chapter first, then line. Notes at the
/// same place keep the order they had.
pub fn sort_notes(notes: &mut Vec<Note>)
    ensures
        is_stable_sort_of(final(notes)@, old(notes)@),
{
    let ghost orig = notes@;
    let mut i: usize = 0;
    proof {
        assert(notes@.skip(0) =~= orig.skip(0));
        assert(notes@.take(0) =~= orig.take(0));
    }
    while i < notes.len()
        invariant
            i <= notes.len(),
            notes.len() == orig.len(),
            in_order(notes@.take(i as int)),
            notes@.skip(i as int) == orig.skip(i as int),
            notes@.to_multiset() == orig.to_multiset(),
            forall|c: u16, l: u16| #[trigger]
                notes@.take(i as int).filter(at_place(c, l)) == orig.take(i as int).filter(
                    at_place(c, l),
                ),
        decreases notes.len() - i,
    {
        let ghost before = notes@;
        let ghost prefix = notes@.take(i as int);
        let x = notes.remove(i);
        let ghost without = notes@;
        proof {
            assert(x == before.skip(i as int)[0]);
            assert(x == orig[i as int]);
            assert(without.take(i as int) =~= prefix);
            assert(without.skip(i as int) =~= before.skip(i + 1));
            assert(before.skip(i + 1) =~= orig.skip(i as int).skip(1));
            assert(orig.skip(i as int).skip(1) =~= orig.skip(i + 1));
            to_multiset_remove(before, i as int);
        }
        let mut p: usize = i;
        while p > 0 && x.precedes(&notes[p - 1])
            invariant
                p <= i <= notes.len(),
                notes@ == without,
                forall|k: int| p <= k < i ==> comes_before(x, #[trigger] notes@[k]),
            decreases p,
        {
            p -= 1;
        }
        notes.insert(p, x);
        proof {
            to_multiset_insert(without, p as int, x);
            assert(before.to_multiset().contains(x)) by {
                vstd::seq_lib::to_multiset_contains(before, x);
                assert(before.contains(x)) by {
                    assert(before[i as int] == x);
                }
            }
            assert(notes@.to_multiset() =~= orig.to_multiset());
            let grown = notes@.take(i + 1);
            assert(grown =~= prefix.insert(p as int, x));
            assert(notes@.skip(i + 1) =~= without.skip(i as int));
            assert forall|a: int, b: int| 0 <= a < b < grown.len() implies !comes_before(
                grown[b],
                grown[a],
            ) by {
                if b < p {
                    assert(grown[a] == prefix[a] && grown[b] == prefix[b]);
                } else if b == p {
                    assert(grown[a] == prefix[a]);
                    assert(!comes_before(x, prefix[p - 1]));
                    if a < p - 1 {
                        assert(!comes_before(prefix[p - 1], prefix[a]));
                    }
                } else if a < p {
                    assert(grown[a] == prefix[a] && grown[b] == prefix[b - 1]);
                } else if a == p {
                    assert(grown[b] == prefix[b - 1]);
                    assert(prefix[b - 1] == without[b - 1]);
                } else {
                    assert(grown[a] == prefix[a - 1] && grown[b] == prefix[b - 1]);
                }
            }
            assert forall|c: u16, l: u16| #[trigger]
                grown.filter(at_place(c, l)) == orig.take(i + 1).filter(at_place(c, l)) by {
                let pred = at_place(c, l);
                if pred(x) {
                    assert forall|k: int| p <= k < prefix.len() implies !pred(prefix[k]) by {
                        assert(prefix[k] == without[k]);
                        assert(comes_before(x, without[k]));
                    }
                }
                lemma_filter_insert(prefix, p as int, x, pred);
                assert(prefix.filter(pred) == orig.take(i as int).filter(pred));
                let upto = orig.take(i + 1);
                assert(upto.drop_last() =~= orig.take(i as int));
                assert(upto.last() == x);
                reveal(Seq::filter);
            }
        }
        i += 1;
    }
    proof {
        assert(notes@.take(i as int) =~= notes@);
        assert(orig.take(i as int) =~= orig);
    }
}

} // verus!
