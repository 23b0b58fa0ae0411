//! The readers' records of all books, each under its book's identifier.

use crate::note::Note;
use crate::notes::has_note_at;
use crate::record::{with_note, LocalBookInfo};
use vstd::pervasive::unreached;
use vstd::prelude::*;

verus! {

broadcast use vstd::string::group_string_axioms;

struct Entry {
    id: String,
    record: LocalBookInfo,
}

/// One record for each book that has been registered.
pub struct AnnotationStore {
    entries: Vec<Entry>,
}

/// The position of the first entry for `id`, or the number of entries.
spec fn position_of(entries: Seq<Entry>, id: Seq<char>) -> int
    decreases entries.len(),
{
    if entries.len() == 0 {
        0
    } else if entries[0].id@ == id {
        0
    } else {
        1 + position_of(entries.drop_first(), id)
    }
}

proof fn lemma_position_of(entries: Seq<Entry>, id: Seq<char>)
    ensures
        0 <= position_of(entries, id) <= entries.len(),
        forall|k: int| 0 <= k < position_of(entries, id) ==> (#[trigger] entries[k]).id@ != id,
        position_of(entries, id) < entries.len() ==> entries[position_of(entries, id)].id@ == id,
    decreases entries.len(),
{
    if entries.len() != 0 && entries[0].id@ != id {
        let rest = entries.drop_first();
        lemma_position_of(rest, id);
        assert forall|k: int| 0 <= k < position_of(entries, id) implies (#[trigger] entries[k]).id@
            != id by {
            if k > 0 {
                assert(entries[k] == rest[k - 1]);
            }
        }
    }
}

proof fn lemma_position_is(entries: Seq<Entry>, id: Seq<char>, at: int)
    requires
        0 <= at <= entries.len(),
        forall|k: int| 0 <= k < at ==> (#[trigger] entries[k]).id@ != id,
        at < entries.len() ==> entries[at].id@ == id,
    ensures
        position_of(entries, id) == at,
{
    lemma_position_of(entries, id);
}

spec fn records_of(entries: Seq<Entry>) -> Map<Seq<char>, LocalBookInfo> {
    Map::new(
        |id: Seq<char>| position_of(entries, id) < entries.len(),
        |id: Seq<char>| entries[position_of(entries, id)].record,
    )
}

impl View for AnnotationStore {
    type V = Map<Seq<char>, LocalBookInfo>;

    closed spec fn view(&self) -> Map<Seq<char>, LocalBookInfo> {
        records_of(self.entries@)
    }
}

/// Whether `record` is the record of a book nobody has read yet.
pub open spec fn is_fresh(record: LocalBookInfo) -> bool {
    &&& record.notes@ == Seq::<crate::note::Note>::empty()
    &&& record.chapter == 1
    &&& record.highlights@ == Map::<(int, int), crate::color::Color>::empty()
    &&& record.formatting_info@ == Map::<(int, int), crate::markup::FormattingInfo>::empty()
}

impl AnnotationStore {
    /// A store without records.
    pub fn new() -> (store: Self)
        ensures
            store@ == Map::<Seq<char>, LocalBookInfo>::empty(),
    {
        let store = AnnotationStore { entries: Vec::new() };
        assert(store@ =~= Map::<Seq<char>, LocalBookInfo>::empty());
        store
    }

    fn find(&self, id: &str) -> (at: usize)
        ensures
            at == position_of(self.entries@, id@),
            at <= self.entries.len(),
    {
        let wanted = id.to_owned();
        let mut i: usize = 0;
        while i < self.entries.len() && self.entries[i].id != wanted
            invariant
                i <= self.entries.len(),
                wanted@ == id@,
                forall|k: int| 0 <= k < i ==> (#[trigger] self.entries@[k]).id@ != id@,
            decreases self.entries.len() - i,
        {
            i += 1;
        }
        proof {
            lemma_position_is(self.entries@, id@, i as int);
        }
        i
    }

    /// The identifiers of the books that have a record.
    pub fn ids(&self) -> (list: Vec<String>)
        ensures
            forall|i: int| 0 <= i < list.len() ==> self@.contains_key((#[trigger] list[i])@),
            forall|id: Seq<char>| #[trigger]
                self@.contains_key(id) ==> exists|i: int|
                    0 <= i < list.len() && (#[trigger] list[i])@ == id,
    {
        let mut list: Vec<String> = Vec::new();
        let mut i: usize = 0;
        while i < self.entries.len()
            invariant
                i <= self.entries.len(),
                list.len() == i,
                forall|k: int| 0 <= k < i ==> (#[trigger] list[k])@ == self.entries@[k].id@,
            decreases self.entries.len() - i,
        {
            list.push(self.entries[i].id.clone());
            i += 1;
        }
        proof {
            assert forall|k: int| 0 <= k < list.len() implies self@.contains_key(
                (#[trigger] list[k])@,
            ) by {
                lemma_position_of(self.entries@, list[k]@);
            }
            assert forall|id: Seq<char>| #[trigger] self@.contains_key(id) implies exists|k: int|
                0 <= k < list.len() && (#[trigger] list[k])@ == id by {
                lemma_position_of(self.entries@, id);
                assert(list[position_of(self.entries@, id)]@ == id);
            }
        }
        list
    }

    /// Whether the book `id` has a record.
    pub fn contains(&self, id: &str) -> (r: bool)
        ensures
            r == self@.contains_key(id@),
    {
        self.find(id) < self.entries.len()
    }

    /// The record of the book `id`, if it has one. No record is made.
    pub fn get(&self, id: &str) -> (r: Option<&LocalBookInfo>)
        ensures
            match r {
                Some(record) => self@.contains_key(id@) && *record == self@[id@],
                None => !self@.contains_key(id@),
            },
    {
        let at = self.find(id);
        if at < self.entries.len() {
            Some(&self.entries[at].record)
        } else {
            None
        }
    }

    /// The record of the book `id`, to be changed in place, if it has one.
    pub fn get_mut(&mut self, id: &str) -> (r: Option<&mut LocalBookInfo>)
        ensures
            match r {
                Some(record) => old(self)@.contains_key(id@) && *record == old(self)@[id@]
                    && final(self)@ == old(self)@.insert(id@, *final(record)),
                None => !old(self)@.contains_key(id@) && final(self)@ == old(self)@,
            },
    {
        let at = self.find(id);
        if at < self.entries.len() {
            let ghost before = self.entries@;
            let entry = &mut self.entries[at];
            proof {
                lemma_position_of(before, id@);
                lemma_slot_change(before, at as int, final(entry).record, id@);
            }
            Some(&mut entry.record)
        } else {
            None
        }
    }

    /// Makes a fresh record for the book `id` unless it has one. Returns
    /// whether a record was made.
    pub fn ensure_record(&mut self, id: &str) -> (made: bool)
        ensures
            made == !old(self)@.contains_key(id@),
            !made ==> final(self)@ == old(self)@,
            made ==> final(self)@.contains_key(id@) && is_fresh(final(self)@[id@]) && final(self)@
                == old(self)@.insert(id@, final(self)@[id@]),
    {
        let at = self.find(id);
        if at < self.entries.len() {
            return false;
        }
        let ghost before = self.entries@;
        let entry = Entry { id: id.to_owned(), record: LocalBookInfo::default() };
        self.entries.push(entry);
        proof {
            lemma_position_of(before, id@);
            assert forall|k: int| 0 <= k < at implies (#[trigger] self.entries@[k]).id@ != id@ by {
                assert(self.entries@[k] == before[k]);
            }
            lemma_position_is(self.entries@, id@, at as int);
            assert forall|other: Seq<char>| other != id@ implies same_answer(
                self.entries@,
                before,
                other,
            ) by {
                lemma_position_of(before, other);
                let p = position_of(before, other);
                if p < before.len() {
                    lemma_position_is(self.entries@, other, p);
                } else {
                    assert forall|k: int| 0 <= k < self.entries@.len() implies (
                    #[trigger] self.entries@[k]).id@ != other by {
                        if k < before.len() {
                            assert(self.entries@[k] == before[k]);
                        }
                    }
                    lemma_position_is(self.entries@, other, self.entries@.len() as int);
                }
            }
            let after = old(self)@.insert(id@, self@[id@]);
            assert forall|k: Seq<char>| #[trigger]
                self@.dom().contains(k) == after.dom().contains(k) by {
                if k != id@ {
                    assert(same_answer(self.entries@, before, k));
                }
            }
            assert(self@.dom() =~= after.dom());
            assert forall|k: Seq<char>| self@.dom().contains(k) implies #[trigger] self@[k]
                == after[k] by {
                if k != id@ {
                    assert(same_answer(self.entries@, before, k));
                }
            }
            assert(self@ =~= after);
        }
        true
    }

    /// The record of the book `id`, to be changed in place; a fresh one is
    /// made first where the book has none.
    pub fn get_or_create(&mut self, id: &str) -> (record: &mut LocalBookInfo)
        ensures
            old(self)@.contains_key(id@) ==> *record == old(self)@[id@],
            !old(self)@.contains_key(id@) ==> is_fresh(*record),
            final(self)@ == old(self)@.insert(id@, *final(record)),
    {
        self.ensure_record(id);
        match self.get_mut(id) {
            Some(record) => record,
            None => unreached(),
        }
    }

    /// Adds `note` to the record of the book `id` unless its place has a
    /// note already. Returns whether the note was added, or `None` where the
    /// book has no record; none is made.
    pub fn add_note(&mut self, id: &str, note: Note) -> (added: Option<bool>)
        ensures
            match added {
                Some(done) => {
                    &&& old(self)@.contains_key(id@)
                    &&& done == !has_note_at(old(self)@[id@].notes@, note.chapter, note.line)
                    &&& final(self)@.contains_key(id@)
                    &&& final(self)@[id@].notes@ == with_note(old(self)@[id@].notes@, note)
                    &&& final(self)@[id@].highlights == old(self)@[id@].highlights
                    &&& final(self)@[id@].formatting_info == old(self)@[id@].formatting_info
                    &&& final(self)@[id@].chapter == old(self)@[id@].chapter
                    &&& final(self)@ == old(self)@.insert(id@, final(self)@[id@])
                },
                None => !old(self)@.contains_key(id@) && final(self)@ == old(self)@,
            },
    {
        match self.get_mut(id) {
            Some(record) => Some(record.add_note(note)),
            None => None,
        }
    }

    /// Removes the record of the book `id`. Returns whether it had one.
    pub fn remove(&mut self, id: &str) -> (removed: bool)
        ensures
            removed == old(self)@.contains_key(id@),
            final(self)@ == old(self)@.remove(id@),
    {
        let ghost orig = self.entries@;
        let mut removed = false;
        loop
            invariant
                orig == old(self).entries@,
                removed ==> records_of(orig).contains_key(id@),
                !removed ==> self.entries@ == orig,
                forall|other: Seq<char>|
                    other != id@ ==> same_answer(self.entries@, orig, other),
            decreases self.entries.len(),
        {
            let at = self.find(id);
            if at >= self.entries.len() {
                proof {
                    let after = old(self)@.remove(id@);
                    assert forall|k: Seq<char>| #[trigger]
                        self@.dom().contains(k) == after.dom().contains(k) by {
                        if k != id@ {
                            assert(same_answer(self.entries@, orig, k));
                        }
                    }
                    assert(self@.dom() =~= after.dom());
                    assert forall|k: Seq<char>| self@.dom().contains(k) implies #[trigger] self@[k]
                        == after[k] by {
                        if k != id@ {
                            assert(same_answer(self.entries@, orig, k));
                        }
                    }
                    assert(self@ =~= after);
                }
                return removed;
            }
            let ghost before = self.entries@;
            proof {
                lemma_position_of(before, id@);
                assert forall|other: Seq<char>| other != id@ implies same_answer(
                    before.remove(at as int),
                    orig,
                    other,
                ) by {
                    lemma_remove_other(before, at as int, other);
                    assert(same_answer(before, orig, other));
                }
            }
            self.entries.remove(at);
            removed = true;
        }
    }
}

/// Changing the record of the first entry for `id` changes the answer for
/// `id` and no other.
proof fn lemma_slot_change(entries: Seq<Entry>, at: int, record: LocalBookInfo, id: Seq<char>)
    requires
        0 <= at < entries.len(),
        position_of(entries, id) == at,
    ensures
        records_of(entries.update(at, Entry { id: entries[at].id, record })) == records_of(
            entries,
        ).insert(id, record),
{
    let changed = entries.update(at, Entry { id: entries[at].id, record });
    let after = records_of(entries).insert(id, record);
    lemma_position_of(entries, id);
    assert forall|k: Seq<char>| position_of(changed, k) == position_of(entries, k) by {
        lemma_position_of(entries, k);
        let q = position_of(entries, k);
        assert forall|j: int| 0 <= j < q implies (#[trigger] changed[j]).id@ != k by {
            assert(changed[j].id@ == entries[j].id@);
        }
        if q < entries.len() {
            assert(changed[q].id@ == entries[q].id@);
        }
        lemma_position_is(changed, k, q);
    }
    assert forall|k: Seq<char>| #[trigger]
        records_of(changed).dom().contains(k) == after.dom().contains(k) by {
        assert(position_of(changed, k) == position_of(entries, k));
    }
    assert(records_of(changed).dom() =~= after.dom());
    assert forall|k: Seq<char>| records_of(changed).dom().contains(k) implies #[trigger] records_of(
        changed,
    )[k] == after[k] by {
        assert(position_of(changed, k) == position_of(entries, k));
        lemma_position_of(entries, k);
    }
    assert(records_of(changed) =~= after);
}

/// Whether two lists of entries answer alike for the book `id`.
spec fn same_answer(a: Seq<Entry>, b: Seq<Entry>, id: Seq<char>) -> bool {
    &&& records_of(a).contains_key(id) == records_of(b).contains_key(id)
    &&& records_of(a).contains_key(id) ==> records_of(a)[id] == records_of(b)[id]
}

/// Removing an entry of one book leaves the answers for every other book.
proof fn lemma_remove_other(entries: Seq<Entry>, at: int, other: Seq<char>)
    requires
        0 <= at < entries.len(),
        entries[at].id@ != other,
    ensures
        same_answer(entries.remove(at), entries, other),
{
    let less = entries.remove(at);
    lemma_position_of(entries, other);
    let q = position_of(entries, other);
    if q < at {
        assert forall|k: int| 0 <= k < q implies (#[trigger] less[k]).id@ != other by {
            assert(less[k] == entries[k]);
        }
        assert(less[q] == entries[q]);
        lemma_position_is(less, other, q);
    } else if q < entries.len() {
        assert forall|k: int| 0 <= k < q - 1 implies (#[trigger] less[k]).id@ != other by {
            if k < at {
                assert(less[k] == entries[k]);
            } else {
                assert(less[k] == entries[k + 1]);
            }
        }
        assert(less[q - 1] == entries[q]);
        lemma_position_is(less, other, q - 1);
    } else {
        assert forall|k: int| 0 <= k < less.len() implies (#[trigger] less[k]).id@ != other by {
            if k < at {
                assert(less[k] == entries[k]);
            } else {
                assert(less[k] == entries[k + 1]);
            }
        }
        lemma_position_is(less, other, less.len() as int);
    }
}

} // verus!
