//! Maps from names.

use vstd::prelude::*;

use crate::text::same_text;

verus! {

/// The map that entries make.
pub open spec fn map_of<T>(entries: Seq<(Seq<char>, T)>) -> Map<Seq<char>, T>
    decreases entries.len(),
{
    if entries.len() == 0 {
        Map::empty()
    } else {
        map_of(entries.drop_last()).insert(entries.last().0, entries.last().1)
    }
}

/// No name occurs twice.
pub open spec fn distinct_names<T>(entries: Seq<(Seq<char>, T)>) -> bool {
    forall|i: int, j: int|
        0 <= i < j < entries.len() ==> (#[trigger] entries[i]).0 != (#[trigger] entries[j]).0
}

/// Entries with their names as texts.
pub open spec fn named<T>(entries: Seq<(String, T)>) -> Seq<(Seq<char>, T)> {
    Seq::new(entries.len(), |i: int| (entries[i].0@, entries[i].1))
}

/// The names of the map are the names of its entries.
pub proof fn lemma_map_of_names<T>(entries: Seq<(Seq<char>, T)>, name: Seq<char>)
    ensures
        map_of(entries).dom().contains(name) <==> exists|i: int|
            0 <= i < entries.len() && (#[trigger] entries[i]).0 == name,
    decreases entries.len(),
{
    if entries.len() > 0 {
        let front = entries.drop_last();
        lemma_map_of_names(front, name);
        if exists|i: int| 0 <= i < front.len() && (#[trigger] front[i]).0 == name {
            let i = choose|i: int| 0 <= i < front.len() && (#[trigger] front[i]).0 == name;
            assert(entries[i].0 == name);
        }
        if entries.last().0 == name {
            assert(entries[entries.len() - 1].0 == name);
        }
        if exists|i: int| 0 <= i < entries.len() && (#[trigger] entries[i]).0 == name {
            let i = choose|i: int| 0 <= i < entries.len() && (#[trigger] entries[i]).0 == name;
            if i < front.len() {
                assert(front[i].0 == name);
            }
        }
    }
}

/// The map holds what its entries say.
pub proof fn lemma_map_of_at<T>(entries: Seq<(Seq<char>, T)>, i: int)
    requires
        distinct_names(entries),
        0 <= i < entries.len(),
    ensures
        map_of(entries).dom().contains(entries[i].0),
        map_of(entries)[entries[i].0] == entries[i].1,
    decreases entries.len(),
{
    let front = entries.drop_last();
    if i < front.len() {
        assert(front[i] == entries[i]);
        assert(entries[i].0 != entries[entries.len() - 1].0);
        assert forall|a: int, b: int| 0 <= a < b < front.len() implies (#[trigger] front[a]).0 != (
        #[trigger] front[b]).0 by {
            assert(entries[a].0 != entries[b].0);
        }
        lemma_map_of_at(front, i);
    }
}

/// Changing what an entry holds changes the map under its name.
proof fn lemma_map_of_update<T>(entries: Seq<(Seq<char>, T)>, i: int, value: T)
    requires
        distinct_names(entries),
        0 <= i < entries.len(),
    ensures
        map_of(entries.update(i, (entries[i].0, value))) == map_of(entries).insert(
            entries[i].0,
            value,
        ),
    decreases entries.len(),
{
    let after = entries.update(i, (entries[i].0, value));
    let front = entries.drop_last();
    if i < front.len() {
        assert(after.drop_last() =~= front.update(i, (front[i].0, value)));
        assert(entries[i].0 != entries[entries.len() - 1].0);
        assert forall|a: int, b: int| 0 <= a < b < front.len() implies (#[trigger] front[a]).0 != (
        #[trigger] front[b]).0 by {
            assert(entries[a].0 != entries[b].0);
        }
        lemma_map_of_update(front, i, value);
        assert(map_of(after) =~= map_of(entries).insert(entries[i].0, value));
    } else {
        assert(after.drop_last() =~= front);
        assert(map_of(after) =~= map_of(entries).insert(entries[i].0, value));
    }
}

/// Leaving an entry out takes its name out of the map.
proof fn lemma_map_of_remove<T>(entries: Seq<(Seq<char>, T)>, i: int)
    requires
        distinct_names(entries),
        0 <= i < entries.len(),
    ensures
        map_of(entries.remove(i)) == map_of(entries).remove(entries[i].0),
        distinct_names(entries.remove(i)),
    decreases entries.len(),
{
    let after = entries.remove(i);
    let front = entries.drop_last();
    assert forall|a: int, b: int| 0 <= a < b < front.len() implies (#[trigger] front[a]).0 != (
    #[trigger] front[b]).0 by {
        assert(entries[a].0 != entries[b].0);
    }
    assert forall|a: int, b: int| 0 <= a < b < after.len() implies (#[trigger] after[a]).0 != (
    #[trigger] after[b]).0 by {
        let x = if a < i {
            a
        } else {
            a + 1
        };
        let y = if b < i {
            b
        } else {
            b + 1
        };
        assert(entries[x].0 != entries[y].0);
    }
    if i < front.len() {
        lemma_map_of_remove(front, i);
        assert(after.drop_last() =~= front.remove(i));
        assert(after.last() == entries.last());
        assert(entries[i].0 != entries[entries.len() - 1].0);
        assert(map_of(after) =~= map_of(entries).remove(entries[i].0));
    } else {
        assert(after =~= front);
        lemma_map_of_names(front, entries[i].0);
        if map_of(front).dom().contains(entries[i].0) {
            let k = choose|k: int|
                0 <= k < front.len() && (#[trigger] front[k]).0 == entries[i].0;
            assert(entries[k].0 != entries[i].0);
        }
        assert(map_of(after) =~= map_of(entries).remove(entries[i].0));
    }
}

/// A map from names.
#[derive(Debug)]
pub struct NameMap<T> {
    entries: Vec<(String, T)>,
}

impl<T> View for NameMap<T> {
    type V = Map<Seq<char>, T>;

    closed spec fn view(&self) -> Map<Seq<char>, T> {
        map_of(named(self.entries@))
    }
}

impl<T> NameMap<T> {
    /// The entries in the order in which their names came in.
    pub closed spec fn entries(&self) -> Seq<(Seq<char>, T)> {
        named(self.entries@)
    }

    /// Each name occurs once.
    #[verifier::type_invariant]
    spec fn names_are_distinct(self) -> bool {
        distinct_names(named(self.entries@))
    }

    /// A map without names.
    pub fn new() -> (map: Self)
        ensures
            map@ == Map::<Seq<char>, T>::empty(),
            map.entries() == Seq::<(Seq<char>, T)>::empty(),
    {
        let map = NameMap { entries: Vec::new() };
        assert(map.entries() =~= Seq::<(Seq<char>, T)>::empty());
        map
    }

    /// The number of names.
    pub fn len(&self) -> (count: usize)
        ensures
            count == self.entries().len(),
            self@ == map_of(self.entries()),
            distinct_names(self.entries()),
    {
        proof {
            use_type_invariant(self);
        }
        self.entries.len()
    }

    /// The name and what is kept under it, by position.
    pub fn entry(&self, i: usize) -> (entry: (&str, &T))
        requires
            i < self.entries().len(),
        ensures
            entry.0@ == self.entries()[i as int].0,
            *entry.1 == self.entries()[i as int].1,
    {
        (self.entries[i].0.as_str(), &self.entries[i].1)
    }

    /// The position of a name.
    fn position(&self, name: &str) -> (at: Option<usize>)
        ensures
            match at {
                Some(i) => i < self.entries@.len() && self.entries@[i as int].0@ == name@
                    && self@.dom().contains(name@) && self@[name@] == self.entries@[i as int].1,
                None => !self@.dom().contains(name@),
            },
    {
        proof {
            use_type_invariant(self);
        }
        let ghost all = named(self.entries@);
        let mut i: usize = 0;
        while i < self.entries.len()
            invariant
                i <= self.entries@.len(),
                all == named(self.entries@),
                distinct_names(all),
                forall|j: int| 0 <= j < i ==> (#[trigger] all[j]).0 != name@,
            decreases self.entries@.len() - i,
        {
            if same_text(self.entries[i].0.as_str(), name) {
                proof {
                    assert(all[i as int].0 == name@);
                    lemma_map_of_at(all, i as int);
                }
                return Some(i);
            }
            assert(all[i as int].0 != name@);
            i = i + 1;
        }
        proof {
            lemma_map_of_names(all, name@);
        }
        None
    }

    /// What is kept under a name.
    pub fn get(&self, name: &str) -> (found: Option<&T>)
        ensures
            match found {
                Some(value) => self@.dom().contains(name@) && self@[name@] == *value,
                None => !self@.dom().contains(name@),
            },
    {
        match self.position(name) {
            Some(i) => Some(&self.entries[i].1),
            None => None,
        }
    }

    /// Whether something is kept under a name.
    pub fn contains(&self, name: &str) -> (found: bool)
        ensures
            found == self@.dom().contains(name@),
    {
        self.position(name).is_some()
    }

    /// Keeps a value under a name, and tells whether there was one.
    pub fn insert(&mut self, name: String, value: T) -> (replaced: bool)
        ensures
            final(self)@ == old(self)@.insert(name@, value),
            replaced == old(self)@.dom().contains(name@),
    {
        proof {
            use_type_invariant(&*self);
        }
        let ghost before = named(self.entries@);
        let ghost wanted = name@;
        match self.position(name.as_str()) {
            Some(i) => {
                let mut entries: Vec<(String, T)> = Vec::new();
                std::mem::swap(&mut entries, &mut self.entries);
                entries.set(i, (name, value));
                proof {
                    let after = named(entries@);
                    assert(after =~= before.update(i as int, (before[i as int].0, value)));
                    lemma_map_of_update(before, i as int, value);
                    assert forall|a: int, b: int| 0 <= a < b < after.len() implies (
                    #[trigger] after[a]).0 != (#[trigger] after[b]).0 by {
                        assert(before[a].0 != before[b].0);
                    }
                }
                self.entries = entries;
                true
            },
            None => {
                let mut entries: Vec<(String, T)> = Vec::new();
                std::mem::swap(&mut entries, &mut self.entries);
                entries.push((name, value));
                proof {
                    let after = named(entries@);
                    assert(after =~= before.push((wanted, value)));
                    assert(after.drop_last() =~= before);
                    assert forall|a: int, b: int| 0 <= a < b < after.len() implies (
                    #[trigger] after[a]).0 != (#[trigger] after[b]).0 by {
                        if b < before.len() {
                            assert(before[a].0 != before[b].0);
                        } else {
                            lemma_map_of_names(before, wanted);
                            assert(before[a].0 != wanted);
                        }
                    }
                }
                self.entries = entries;
                false
            },
        }
    }

    /// Forgets a name, and hands back what was kept under it.
    pub fn remove(&mut self, name: &str) -> (removed: Option<T>)
        ensures
            final(self)@ == old(self)@.remove(name@),
            match removed {
                Some(value) => old(self)@.dom().contains(name@) && old(self)@[name@] == value,
                None => !old(self)@.dom().contains(name@),
            },
    {
        proof {
            use_type_invariant(&*self);
        }
        let ghost before = named(self.entries@);
        match self.position(name) {
            Some(i) => {
                let mut entries: Vec<(String, T)> = Vec::new();
                std::mem::swap(&mut entries, &mut self.entries);
                let removed = entries.remove(i);
                proof {
                    assert(named(entries@) =~= before.remove(i as int));
                    lemma_map_of_remove(before, i as int);
                }
                self.entries = entries;
                Some(removed.1)
            },
            None => {
                assert(self@ =~= self@.remove(name@));
                None
            },
        }
    }

    /// Forgets all names.
    pub fn clear(&mut self)
        ensures
            final(self)@ == Map::<Seq<char>, T>::empty(),
    {
        let entries: Vec<(String, T)> = Vec::new();
        assert(named(entries@) =~= Seq::<(Seq<char>, T)>::empty());
        self.entries = entries;
    }
}

} // verus!
