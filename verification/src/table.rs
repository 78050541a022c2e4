//! A table from names to values that keeps the order of insertion.
//!
//! The model of a table is the sequence of its entries, each a name (as a
//! sequence of characters) with its value. No name occurs twice.

use vstd::prelude::*;

verus! {

/// No two entries carry the same name.
pub open spec fn distinct_names<V>(entries: Seq<(Seq<char>, V)>) -> bool {
    forall|i: int, j: int|
        0 <= i < entries.len() && 0 <= j < entries.len() && i != j ==> (#[trigger] entries[i]).0
            != (#[trigger] entries[j]).0
}

/// Some entry carries the name.
pub open spec fn has_name<V>(entries: Seq<(Seq<char>, V)>, name: Seq<char>) -> bool {
    exists|i: int| 0 <= i < entries.len() && (#[trigger] entries[i]).0 == name
}

/// The position of the first entry with the name, or the length if there is none.
pub open spec fn position_of<V>(entries: Seq<(Seq<char>, V)>, name: Seq<char>) -> int
    decreases entries.len(),
{
    if entries.len() == 0 {
        0
    } else if entries[0].0 == name {
        0
    } else {
        1 + position_of(entries.drop_first(), name)
    }
}

/// The value stored under the name.
pub open spec fn value_of<V>(entries: Seq<(Seq<char>, V)>, name: Seq<char>) -> Option<V> {
    if has_name(entries, name) {
        Some(entries[position_of(entries, name)].1)
    } else {
        None
    }
}

/// The entries with the value under the name replaced, or with a new entry
/// at the end where the name is new.
pub open spec fn with_entry<V>(entries: Seq<(Seq<char>, V)>, name: Seq<char>, value: V) -> Seq<
    (Seq<char>, V),
> {
    if has_name(entries, name) {
        entries.update(position_of(entries, name), (name, value))
    } else {
        entries.push((name, value))
    }
}

/// `position_of` finds the first entry with the name, if there is one.
pub proof fn lemma_position_of<V>(entries: Seq<(Seq<char>, V)>, name: Seq<char>)
    ensures
        0 <= position_of(entries, name) <= entries.len(),
        has_name(entries, name) <==> position_of(entries, name) < entries.len(),
        position_of(entries, name) < entries.len() ==> entries[position_of(entries, name)].0
            == name,
        forall|i: int| 0 <= i < position_of(entries, name) ==> (#[trigger] entries[i]).0 != name,
    decreases entries.len(),
{
    if entries.len() > 0 && entries[0].0 != name {
        let rest = entries.drop_first();
        lemma_position_of(rest, name);
        assert forall|i: int| 0 <= i < position_of(entries, name) implies (#[trigger] entries[i]).0
            != name by {
            if i > 0 {
                assert(entries[i] == rest[i - 1]);
            }
        }
        if has_name(entries, name) {
            let i = choose|i: int| 0 <= i < entries.len() && (#[trigger] entries[i]).0 == name;
            assert(rest[i - 1] == entries[i]);
            assert(has_name(rest, name));
        }
        if position_of(rest, name) < rest.len() {
            assert(entries[position_of(rest, name) + 1] == rest[position_of(rest, name)]);
        }
    } else if entries.len() > 0 {
        assert(entries[0].0 == name);
    }
}

/// An ordered table from names to values.
#[derive(Debug)]
pub struct NameTable<V> {
    entries: Vec<(String, V)>,
}

impl<V> View for NameTable<V> {
    type V = Seq<(Seq<char>, V)>;

    closed spec fn view(&self) -> Seq<(Seq<char>, V)> {
        Seq::new(self.entries@.len(), |i: int| (self.entries@[i].0@, self.entries@[i].1))
    }
}

impl<V> NameTable<V> {
    /// Names in a table are pairwise different.
    pub open spec fn wf(&self) -> bool {
        distinct_names(self@)
    }

    pub fn new() -> (r: NameTable<V>)
        ensures
            r@ == Seq::<(Seq<char>, V)>::empty(),
            r.wf(),
    {
        let r = NameTable { entries: Vec::new() };
        assert(r@ =~= Seq::<(Seq<char>, V)>::empty());
        r
    }

    pub fn len(&self) -> (r: usize)
        ensures
            r == self@.len(),
    {
        self.entries.len()
    }

    /// The position of the first entry with the given name.
    pub fn index_of(&self, name: &String) -> (r: Option<usize>)
        ensures
            match r {
                Some(i) => i < self@.len() && self@[i as int].0 == name@ && position_of(
                    self@,
                    name@,
                ) == i && has_name(self@, name@),
                None => !has_name(self@, name@),
            },
    {
        let mut i: usize = 0;
        while i < self.entries.len()
            invariant
                i <= self.entries@.len(),
                forall|j: int| 0 <= j < i ==> (#[trigger] self@[j]).0 != name@,
            decreases self.entries@.len() - i,
        {
            if self.entries[i].0 == *name {
                proof {
                    let p = position_of(self@, name@);
                    lemma_position_of(self@, name@);
                    assert(self@[i as int].0 == name@);
                    assert(has_name(self@, name@));
                    if p < i {
                        assert(self@[p].0 != name@);
                    }
                }
                return Some(i);
            }
            i += 1;
        }
        None
    }

    pub fn contains_key(&self, name: &String) -> (r: bool)
        ensures
            r == has_name(self@, name@),
    {
        self.index_of(name).is_some()
    }

    /// The value stored under the name.
    pub fn get(&self, name: &String) -> (r: Option<&V>)
        ensures
            match r {
                Some(v) => value_of(self@, name@) == Some(*v),
                None => value_of(self@, name@) is None,
            },
    {
        match self.index_of(name) {
            Some(i) => Some(&self.entries[i].1),
            None => None,
        }
    }

    /// The name of the entry at a position.
    pub fn name_at(&self, i: usize) -> (r: &String)
        requires
            i < self@.len(),
        ensures
            r@ == self@[i as int].0,
    {
        &self.entries[i].0
    }

    /// The value of the entry at a position.
    pub fn value_at(&self, i: usize) -> (r: &V)
        requires
            i < self@.len(),
        ensures
            *r == self@[i as int].1,
    {
        &self.entries[i].1
    }

    /// Stores a value under a name, in place of the value that the name had, if any.
    pub fn insert(&mut self, name: String, value: V)
        requires
            old(self).wf(),
        ensures
            final(self).wf(),
            final(self)@ == with_entry(old(self)@, name@, value),
    {
        let ghost before = self@;
        match self.index_of(&name) {
            Some(i) => {
                self.entries.set(i, (name, value));
                proof {
                    assert(self@ =~= before.update(i as int, (name@, value)));
                    assert forall|a: int, b: int|
                        0 <= a < self@.len() && 0 <= b < self@.len() && a != b implies (
                    #[trigger] self@[a]).0 != (#[trigger] self@[b]).0 by {
                        assert(self@[a].0 == before[a].0);
                        assert(self@[b].0 == before[b].0);
                    }
                }
            },
            None => {
                let added = self.insert_new(name, value);
            },
        }
    }

    /// Adds an entry under a name that the table does not hold yet.
    /// Returns whether the entry was added; a table that holds the name stays as it is.
    pub fn insert_new(&mut self, name: String, value: V) -> (added: bool)
        requires
            old(self).wf(),
        ensures
            final(self).wf(),
            added == !has_name(old(self)@, name@),
            added ==> final(self)@ == old(self)@.push((name@, value)),
            !added ==> final(self)@ == old(self)@,
    {
        if self.index_of(&name).is_some() {
            return false;
        }
        let ghost before = self@;
        self.entries.push((name, value));
        proof {
            assert(self@ =~= before.push((name@, value)));
            assert forall|i: int, j: int|
                0 <= i < self@.len() && 0 <= j < self@.len() && i != j implies (#[trigger] self@[i]).0
                != (#[trigger] self@[j]).0 by {
                if i < before.len() {
                    assert(self@[i] == before[i]);
                }
                if j < before.len() {
                    assert(self@[j] == before[j]);
                }
            }
        }
        true
    }
}

} // verus!
