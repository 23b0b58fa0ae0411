//! Sparse tables keyed by `(chapter, line)` coordinates.

use std::collections::HashMap;
use vstd::prelude::*;
use vstd::std_specs::hash::spec_hash_map_iter;
use vstd::std_specs::iter::IteratorSpec;

verus! {

broadcast use vstd::std_specs::hash::group_hash_axioms;

/// The number of values a 64-bit coordinate component can take.
pub open spec fn component_span() -> int {
    0x1_0000_0000_0000_0000
}

/// Whether `c` is a coordinate the tables can hold.
pub open spec fn valid_coord(c: (int, int)) -> bool {
    0 <= c.0 < component_span() && 0 <= c.1 < component_span()
}

/// The single integer under which a coordinate is stored.
pub open spec fn coord_key(c: (int, int)) -> int {
    c.0 * component_span() + c.1
}

/// Distinct coordinates are stored under distinct keys.
pub proof fn lemma_coord_key_injective(a: (int, int), b: (int, int))
    requires
        valid_coord(a),
        valid_coord(b),
        coord_key(a) == coord_key(b),
    ensures
        a == b,
{
    if a.0 < b.0 {
        assert(a.0 * component_span() + component_span() <= b.0 * component_span()) by (nonlinear_arith)
            requires
                a.0 + 1 <= b.0,
        ;
    } else if b.0 < a.0 {
        assert(b.0 * component_span() + component_span() <= a.0 * component_span()) by (nonlinear_arith)
            requires
                b.0 + 1 <= a.0,
        ;
    }
}

/// `table` without the entries of chapter `chapter`.
pub open spec fn without_chapter<V>(table: Map<(int, int), V>, chapter: int) -> Map<(int, int), V> {
    Map::new(|c: (int, int)| table.contains_key(c) && c.0 != chapter, |c: (int, int)| table[c])
}

/// A sparse table from `(chapter, line)` to a value.
///
/// Coordinates are not held against any chapter or line count: an entry
/// whose line no longer exists is simply never looked up.
pub struct LineTable<V> {
    entries: HashMap<u128, V>,
}

impl<V> View for LineTable<V> {
    type V = Map<(int, int), V>;

    closed spec fn view(&self) -> Map<(int, int), V> {
        Map::new(
            |c: (int, int)| valid_coord(c) && self.entries@.contains_key(coord_key(c) as u128),
            |c: (int, int)| self.entries@[coord_key(c) as u128],
        )
    }
}

fn key_of(chapter: usize, line: usize) -> (k: u128)
    ensures
        k == coord_key((chapter as int, line as int)),
        valid_coord((chapter as int, line as int)),
{
    let c: u128 = chapter as u128;
    let l: u128 = line as u128;
    c * 0x1_0000_0000_0000_0000u128 + l
}

impl<V: Copy> LineTable<V> {
    /// An empty table.
    pub fn new() -> (t: Self)
        ensures
            t@ == Map::<(int, int), V>::empty(),
    {
        let t = LineTable { entries: HashMap::new() };
        assert(t@ =~= Map::<(int, int), V>::empty());
        t
    }

    /// The value stored at `(chapter, line)`, if any.
    pub fn get(&self, chapter: usize, line: usize) -> (r: Option<V>)
        ensures
            r == (if self@.contains_key((chapter as int, line as int)) {
                Some(self@[(chapter as int, line as int)])
            } else {
                None
            }),
    {
        let k = key_of(chapter, line);
        match self.entries.get(&k) {
            Some(v) => Some(*v),
            None => None,
        }
    }

    /// Whether an entry exists at `(chapter, line)`.
    pub fn contains(&self, chapter: usize, line: usize) -> (r: bool)
        ensures
            r == self@.contains_key((chapter as int, line as int)),
    {
        let k = key_of(chapter, line);
        self.entries.contains_key(&k)
    }

    /// Stores `value` at `(chapter, line)`, replacing what was there.
    pub fn set(&mut self, chapter: usize, line: usize, value: V)
        ensures
            final(self)@ == old(self)@.insert((chapter as int, line as int), value),
    {
        let k = key_of(chapter, line);
        self.entries.insert(k, value);
        proof {
            let c = (chapter as int, line as int);
            assert forall|d: (int, int)| valid_coord(d) && d != c implies coord_key(d) as u128
                != k by {
                if coord_key(d) as u128 == k {
                    lemma_coord_key_bounds(d);
                    lemma_coord_key_injective(d, c);
                }
            }
            assert(self@ =~= old(self)@.insert(c, value));
        }
    }

    /// Removes the entry at `(chapter, line)`, if there is one.
    pub fn remove(&mut self, chapter: usize, line: usize)
        ensures
            final(self)@ == old(self)@.remove((chapter as int, line as int)),
    {
        self.remove_at(chapter as u64, line as u64);
    }

    fn remove_at(&mut self, chapter: u64, line: u64)
        ensures
            final(self)@ == old(self)@.remove((chapter as int, line as int)),
    {
        let c: u128 = chapter as u128;
        let l: u128 = line as u128;
        let k: u128 = c * 0x1_0000_0000_0000_0000u128 + l;
        self.entries.remove(&k);
        proof {
            let c = (chapter as int, line as int);
            assert forall|d: (int, int)| valid_coord(d) && d != c implies coord_key(d) as u128
                != k by {
                if coord_key(d) as u128 == k {
                    lemma_coord_key_bounds(d);
                    lemma_coord_key_injective(d, c);
                }
            }
            assert(self@ =~= old(self)@.remove(c));
        }
    }

    /// Removes every entry of chapter `chapter`.
    pub fn clear_chapter(&mut self, chapter: usize)
        ensures
            final(self)@ == without_chapter(old(self)@, chapter as int),
    {
        let list = self.entries();
        let ghost orig = self@;
        let mut i: usize = 0;
        while i < list.len()
            invariant
                i <= list.len(),
                forall|c: (int, int)| #[trigger]
                    orig.contains_key(c) ==> exists|j: int|
                        0 <= j < list.len() && (#[trigger] list[j]).0 == c.0 && list[j].1 == c.1,
                forall|c: (int, int)| #[trigger]
                    self@.contains_key(c) ==> orig.contains_key(c) && self@[c] == orig[c],
                forall|c: (int, int)|
                    orig.contains_key(c) && c.0 != chapter ==> #[trigger] self@.contains_key(c),
                forall|j: int|
                    0 <= j < i && (#[trigger] list[j]).0 == chapter ==> !self@.contains_key(
                        (list[j].0 as int, list[j].1 as int),
                    ),
            decreases list.len() - i,
        {
            let entry = list[i];
            if entry.0 == chapter as u64 {
                self.remove_at(entry.0, entry.1);
            }
            i += 1;
        }
        proof {
            let after = without_chapter(orig, chapter as int);
            assert forall|c: (int, int)| #[trigger]
                self@.dom().contains(c) == after.dom().contains(c) by {
                if orig.contains_key(c) && c.0 == chapter {
                    let j = choose|j: int|
                        0 <= j < list.len() && (#[trigger] list[j]).0 == c.0 && list[j].1 == c.1;
                    assert(!self@.contains_key((list[j].0 as int, list[j].1 as int)));
                }
            }
            assert(self@.dom() =~= after.dom());
            assert(self@ =~= after);
        }
    }

    /// Removes every entry.
    pub fn clear(&mut self)
        ensures
            final(self)@ == Map::<(int, int), V>::empty(),
    {
        self.entries.clear();
        assert(self@ =~= Map::<(int, int), V>::empty());
    }

    /// Every entry of the table, as chapter, line and value, each once. The
    /// order is whatever the table gives.
    pub fn entries(&self) -> (list: Vec<(u64, u64, V)>)
        ensures
            forall|i: int|
                0 <= i < list.len() ==> self@.contains_key(
                    ((#[trigger] list[i]).0 as int, list[i].1 as int),
                ) && self@[(list[i].0 as int, list[i].1 as int)] == list[i].2,
            forall|c: (int, int)| #[trigger]
                self@.contains_key(c) ==> exists|i: int|
                    0 <= i < list.len() && (#[trigger] list[i]).0 == c.0 && list[i].1 == c.1,
            forall|i: int, j: int|
                0 <= i < j < list.len() ==> !((#[trigger] list[i]).0 == (#[trigger] list[j]).0
                    && list[i].1 == list[j].1),
    {
        let mut list: Vec<(u64, u64, V)> = Vec::new();
        let ghost all = spec_hash_map_iter(&self.entries).remaining();
        for pair in it: self.entries.iter()
            invariant
                it.seq() == all,
                all.no_duplicates(),
                list.len() == it.index(),
                forall|i: int|
                    0 <= i < list.len() ==> coord_key(
                        ((#[trigger] list[i]).0 as int, list[i].1 as int),
                    ) == *all[i].0 && list[i].2 == *all[i].1,
        {
            let key: u128 = *pair.0;
            let chapter: u64 = (key / 0x1_0000_0000_0000_0000u128) as u64;
            let line: u64 = (key % 0x1_0000_0000_0000_0000u128) as u64;
            assert(coord_key((chapter as int, line as int)) == key);
            list.push((chapter, line, *pair.1));
        }
        proof {
            assert forall|i: int| 0 <= i < list.len() implies self@.contains_key(
                ((#[trigger] list[i]).0 as int, list[i].1 as int),
            ) && self@[(list[i].0 as int, list[i].1 as int)] == list[i].2 by {
                assert(self.entries@.contains_key(*all[i].0));
            }
            assert forall|c: (int, int)| #[trigger] self@.contains_key(c) implies exists|i: int|
                0 <= i < list.len() && (#[trigger] list[i]).0 == c.0 && list[i].1 == c.1 by {
                let k = coord_key(c) as u128;
                lemma_coord_key_bounds(c);
                assert(all.contains((&k, &self.entries@[k])));
                let i = choose|i: int| 0 <= i < all.len() && all[i] == (&k, &self.entries@[k]);
                lemma_coord_key_injective((list[i].0 as int, list[i].1 as int), c);
            }
            assert forall|i: int, j: int| 0 <= i < j < list.len() implies !((
            #[trigger] list[i]).0 == (#[trigger] list[j]).0 && list[i].1 == list[j].1) by {
                if list[i].0 == list[j].0 && list[i].1 == list[j].1 {
                    assert(*all[i].0 == *all[j].0);
                    assert(self.entries@[*all[i].0] == *all[i].1);
                    assert(self.entries@[*all[j].0] == *all[j].1);
                    assert(all[i] == all[j]);
                }
            }
        }
        list
    }

    /// Whether the table has no entry.
    pub fn is_empty(&self) -> (r: bool)
        ensures
            r == (self@ == Map::<(int, int), V>::empty()),
    {
        let r = self.entries.is_empty();
        proof {
            if r {
                assert(self.entries@.dom().finite());
                assert(self.entries@.len() == 0);
                assert forall|k: u128| !self.entries@.contains_key(k) by {
                    if self.entries@.dom().contains(k) {
                        vstd::set_lib::lemma_set_empty_equivalency_len(self.entries@.dom());
                    }
                }
                assert(self@ =~= Map::<(int, int), V>::empty());
            } else {
                if self@ == Map::<(int, int), V>::empty() {
                    assert forall|k: u128| !self.entries@.contains_key(k) by {
                        let c = ((k as int) / component_span(), (k as int) % component_span());
                        assert(valid_coord(c));
                        assert(coord_key(c) == k as int);
                        assert(!self@.contains_key(c));
                    }
                    assert(self.entries@.dom() =~= Set::<u128>::empty());
                }
            }
        }
        r
    }
}

/// The key of a valid coordinate fits the stored integer type.
pub proof fn lemma_coord_key_bounds(c: (int, int))
    requires
        valid_coord(c),
    ensures
        0 <= coord_key(c) <= u128::MAX,
{
    assert(0 <= c.0 * component_span() <= (component_span() - 1) * component_span())
        by (nonlinear_arith)
        requires
            0 <= c.0 <= component_span() - 1,
            component_span() > 0,
    ;
}

} // verus!
