//! Maps from versions, kept in the order of the versions.

use vstd::prelude::*;

verus! {

/// Entries in strictly ascending order of their versions.
pub open spec fn ascending<T>(entries: Seq<(i64, T)>) -> bool {
    forall|i: int, j: int|
        0 <= i < j < entries.len() ==> (#[trigger] entries[i]).0 < (#[trigger] entries[j]).0
}

/// Some entry has this version.
pub open spec fn has_version<T>(entries: Seq<(i64, T)>, version: i64) -> bool {
    exists|i: int| 0 <= i < entries.len() && (#[trigger] entries[i]).0 == version
}

/// The position of the first entry whose version is not below `version`.
pub open spec fn lower_bound<T>(entries: Seq<(i64, T)>, version: i64) -> nat
    decreases entries.len(),
{
    if entries.len() == 0 {
        0
    } else if entries.last().0 < version {
        entries.len()
    } else {
        lower_bound(entries.drop_last(), version)
    }
}

/// What is kept under a version.
pub open spec fn lookup<T>(entries: Seq<(i64, T)>, version: i64) -> Option<T> {
    let at = lower_bound(entries, version) as int;
    if at < entries.len() && entries[at].0 == version {
        Some(entries[at].1)
    } else {
        None
    }
}

/// The entries with `value` kept under `version`.
pub open spec fn inserted<T>(entries: Seq<(i64, T)>, version: i64, value: T) -> Seq<(i64, T)> {
    let at = lower_bound(entries, version) as int;
    if at < entries.len() && entries[at].0 == version {
        entries.update(at, (version, value))
    } else {
        entries.insert(at, (version, value))
    }
}

/// The entries without `version`.
pub open spec fn without<T>(entries: Seq<(i64, T)>, version: i64) -> Seq<(i64, T)> {
    let at = lower_bound(entries, version) as int;
    if at < entries.len() && entries[at].0 == version {
        entries.remove(at)
    } else {
        entries
    }
}

/// The smallest version above `version`.
pub open spec fn next_after<T>(entries: Seq<(i64, T)>, version: i64) -> Option<i64> {
    let at = lower_bound(entries, version) as int;
    let next = if at < entries.len() && entries[at].0 == version {
        at + 1
    } else {
        at
    };
    if next < entries.len() {
        Some(entries[next].0)
    } else {
        None
    }
}

/// The entry of the largest version that is not above `version`.
pub open spec fn last_up_to<T>(entries: Seq<(i64, T)>, version: i64) -> Option<(i64, T)> {
    let at = lower_bound(entries, version) as int;
    if at < entries.len() && entries[at].0 == version {
        Some(entries[at])
    } else if at > 0 {
        Some(entries[at - 1])
    } else {
        None
    }
}

/// The lower bound separates the smaller versions from the others.
pub proof fn lemma_lower_bound<T>(entries: Seq<(i64, T)>, version: i64)
    requires
        ascending(entries),
    ensures
        lower_bound(entries, version) <= entries.len(),
        forall|i: int|
            0 <= i < lower_bound(entries, version) ==> (#[trigger] entries[i]).0 < version,
        forall|i: int|
            lower_bound(entries, version) <= i < entries.len() ==> (#[trigger] entries[i]).0
                >= version,
    decreases entries.len(),
{
    if entries.len() > 0 {
        let front = entries.drop_last();
        assert forall|i: int, j: int| 0 <= i < j < front.len() implies (#[trigger] front[i]).0 < (
        #[trigger] front[j]).0 by {
            assert(front[i] == entries[i] && front[j] == entries[j]);
        }
        lemma_lower_bound(front, version);
        let at = lower_bound(entries, version) as int;
        assert forall|i: int| 0 <= i < at implies (#[trigger] entries[i]).0 < version by {
            if entries.last().0 < version {
                if i < entries.len() - 1 {
                    assert(entries[i].0 < entries[entries.len() - 1].0);
                }
            } else {
                assert(front[i] == entries[i]);
            }
        }
        assert forall|i: int| at <= i < entries.len() implies (#[trigger] entries[i]).0
            >= version by {
            if i < front.len() {
                assert(front[i] == entries[i]);
            }
        }
    }
}

/// A position that separates the smaller versions from the others is the lower bound.
pub proof fn lemma_lower_bound_unique<T>(entries: Seq<(i64, T)>, version: i64, at: int)
    requires
        ascending(entries),
        0 <= at <= entries.len(),
        forall|i: int| 0 <= i < at ==> (#[trigger] entries[i]).0 < version,
        forall|i: int| at <= i < entries.len() ==> (#[trigger] entries[i]).0 >= version,
    ensures
        lower_bound(entries, version) == at,
{
    lemma_lower_bound(entries, version);
    let b = lower_bound(entries, version) as int;
    if b < at {
        assert(entries[b].0 < version);
    }
    if at < b {
        assert(entries[at].0 >= version);
    }
}

/// A version is found exactly where it is kept.
pub proof fn lemma_lookup<T>(entries: Seq<(i64, T)>, version: i64)
    requires
        ascending(entries),
    ensures
        lookup(entries, version) is Some <==> has_version(entries, version),
{
    lemma_lower_bound(entries, version);
    let at = lower_bound(entries, version) as int;
    if has_version(entries, version) {
        let i = choose|i: int| 0 <= i < entries.len() && (#[trigger] entries[i]).0 == version;
        assert(i >= at);
        if i > at {
            assert(entries[at].0 < entries[i].0);
        }
    }
}

/// Keeping something under a version keeps the order, is read back, and touches no other version.
pub proof fn law_insert<T>(entries: Seq<(i64, T)>, version: i64, value: T)
    requires
        ascending(entries),
    ensures
        ascending(inserted(entries, version, value)),
        lookup(inserted(entries, version, value), version) == Some(value),
        forall|other: i64|
            other != version ==> #[trigger] lookup(inserted(entries, version, value), other)
                == lookup(entries, other),
{
    lemma_lower_bound(entries, version);
    let at = lower_bound(entries, version) as int;
    let after = inserted(entries, version, value);
    let kept = at < entries.len() && entries[at].0 == version;
    assert forall|i: int, j: int| 0 <= i < j < after.len() implies (#[trigger] after[i]).0 < (
    #[trigger] after[j]).0 by {
        if kept {
            assert(entries[i].0 < entries[j].0);
        } else {
            let a = if i < at {
                i
            } else {
                i - 1
            };
            let b = if j < at {
                j
            } else {
                j - 1
            };
            if i != at && j != at {
                assert(entries[a].0 < entries[b].0);
            } else if i == at {
                assert(entries[b].0 >= version);
                assert(entries[at].0 != version);
                if b > at {
                    assert(entries[at].0 < entries[b].0);
                }
            } else {
                assert(entries[a].0 < version);
            }
        }
    }
    assert(after[at] == (version, value));
    lemma_lookup_at(after, at);
    assert forall|other: i64| other != version implies #[trigger] lookup(after, other) == lookup(
        entries,
        other,
    ) by {
        lemma_lookup(after, other);
        lemma_lookup(entries, other);
        if has_version(entries, other) {
            let i = choose|i: int| 0 <= i < entries.len() && (#[trigger] entries[i]).0 == other;
            lemma_lookup_at(entries, i);
            let j = if kept || i < at {
                i
            } else {
                i + 1
            };
            assert(after[j] == entries[i]);
            lemma_lookup_at(after, j);
        } else if has_version(after, other) {
            let j = choose|j: int| 0 <= j < after.len() && (#[trigger] after[j]).0 == other;
            let i = if kept || j < at {
                j
            } else {
                j - 1
            };
            assert(entries[i].0 == other);
        }
    }
}

/// A version is found at its position.
pub proof fn lemma_lookup_at<T>(entries: Seq<(i64, T)>, i: int)
    requires
        ascending(entries),
        0 <= i < entries.len(),
    ensures
        lookup(entries, entries[i].0) == Some(entries[i].1),
{
    let version = entries[i].0;
    assert forall|j: int| 0 <= j < i implies (#[trigger] entries[j]).0 < version by {
        assert(entries[j].0 < entries[i].0);
    }
    assert forall|j: int| i <= j < entries.len() implies (#[trigger] entries[j]).0 >= version by {
        if i < j {
            assert(entries[i].0 < entries[j].0);
        }
    }
    lemma_lower_bound_unique(entries, version, i);
}

/// Forgetting a version keeps the order, and touches no other version.
pub proof fn law_remove<T>(entries: Seq<(i64, T)>, version: i64)
    requires
        ascending(entries),
    ensures
        ascending(without(entries, version)),
        lookup(without(entries, version), version) is None,
        forall|other: i64|
            other != version ==> #[trigger] lookup(without(entries, version), other) == lookup(
                entries,
                other,
            ),
{
    lemma_lower_bound(entries, version);
    let at = lower_bound(entries, version) as int;
    let after = without(entries, version);
    if at < entries.len() && entries[at].0 == version {
        assert forall|i: int, j: int| 0 <= i < j < after.len() implies (#[trigger] after[i]).0 < (
        #[trigger] after[j]).0 by {
            let a = if i < at {
                i
            } else {
                i + 1
            };
            let b = if j < at {
                j
            } else {
                j + 1
            };
            assert(entries[a].0 < entries[b].0);
        }
        lemma_lookup(after, version);
        if has_version(after, version) {
            let j = choose|j: int| 0 <= j < after.len() && (#[trigger] after[j]).0 == version;
            let i = if j < at {
                j
            } else {
                j + 1
            };
            assert(entries[i].0 == version);
            if i < at {
                assert(entries[i].0 < entries[at].0);
            } else {
                assert(entries[at].0 < entries[i].0);
            }
        }
        assert forall|other: i64| other != version implies #[trigger] lookup(after, other)
            == lookup(entries, other) by {
            lemma_lookup(after, other);
            lemma_lookup(entries, other);
            if has_version(entries, other) {
                let i = choose|i: int| 0 <= i < entries.len() && (#[trigger] entries[i]).0 == other;
                lemma_lookup_at(entries, i);
                let j = if i < at {
                    i
                } else {
                    i - 1
                };
                assert(after[j] == entries[i]);
                lemma_lookup_at(after, j);
            } else if has_version(after, other) {
                let j = choose|j: int| 0 <= j < after.len() && (#[trigger] after[j]).0 == other;
                let i = if j < at {
                    j
                } else {
                    j + 1
                };
                assert(entries[i].0 == other);
            }
        }
    } else {
        lemma_lookup(entries, version);
    }
}

/// Versions with something kept under each.
pub struct VersionMap<T> {
    entries: Vec<(i64, T)>,
}

impl<T> VersionMap<T> {
    /// The versions in ascending order and what is kept under each.
    pub closed spec fn view(&self) -> Seq<(i64, T)> {
        self.entries@
    }

    /// The versions ascend.
    #[verifier::type_invariant]
    spec fn versions_ascend(self) -> bool {
        ascending(self.entries@)
    }

    /// A map without versions.
    pub fn new() -> (versions: Self)
        ensures
            versions.view() == Seq::<(i64, T)>::empty(),
    {
        VersionMap { entries: Vec::new() }
    }

    /// The number of versions.
    pub fn len(&self) -> (count: usize)
        ensures
            count == self.view().len(),
    {
        self.entries.len()
    }

    /// The position of the first version that is not below `version`.
    fn position(&self, version: i64) -> (at: usize)
        ensures
            at == lower_bound(self.view(), version),
            at <= self.view().len(),
    {
        proof {
            use_type_invariant(self);
        }
        let mut low: usize = 0;
        let mut high: usize = self.entries.len();
        while low < high
            invariant
                ascending(self.entries@),
                low <= high <= self.entries@.len(),
                forall|i: int| 0 <= i < low ==> (#[trigger] self.entries@[i]).0 < version,
                forall|i: int|
                    high <= i < self.entries@.len() ==> (#[trigger] self.entries@[i]).0 >= version,
            decreases high - low,
        {
            let mid: usize = low + (high - low) / 2;
            if self.entries[mid].0 < version {
                assert forall|i: int| 0 <= i < mid + 1 implies (#[trigger] self.entries@[i]).0
                    < version by {
                    if i < mid {
                        assert(self.entries@[i].0 < self.entries@[mid as int].0);
                    }
                }
                low = mid + 1;
            } else {
                assert forall|i: int| mid <= i < self.entries@.len() implies (
                #[trigger] self.entries@[i]).0 >= version by {
                    if i > mid {
                        assert(self.entries@[mid as int].0 < self.entries@[i].0);
                    }
                }
                high = mid;
            }
        }
        proof {
            lemma_lower_bound_unique(self.entries@, version, low as int);
        }
        low
    }

    /// What is kept under a version.
    pub fn get(&self, version: i64) -> (found: Option<&T>)
        ensures
            match found {
                Some(value) => lookup(self.view(), version) == Some(*value),
                None => lookup(self.view(), version) is None,
            },
    {
        let at: usize = self.position(version);
        if at < self.entries.len() && self.entries[at].0 == version {
            Some(&self.entries[at].1)
        } else {
            None
        }
    }

    /// Keeps something under a version.
    pub fn insert(&mut self, version: i64, value: T)
        ensures
            final(self).view() == inserted(old(self).view(), version, value),
    {
        let at: usize = self.position(version);
        proof {
            use_type_invariant(&*self);
            law_insert(self.entries@, version, value);
        }
        let mut entries: Vec<(i64, T)> = Vec::new();
        std::mem::swap(&mut entries, &mut self.entries);
        if at < entries.len() && entries[at].0 == version {
            entries.set(at, (version, value));
        } else {
            entries.insert(at, (version, value));
        }
        self.entries = entries;
    }

    /// Forgets a version.
    pub fn remove(&mut self, version: i64)
        ensures
            final(self).view() == without(old(self).view(), version),
    {
        let at: usize = self.position(version);
        proof {
            use_type_invariant(&*self);
            law_remove(self.entries@, version);
        }
        let mut entries: Vec<(i64, T)> = Vec::new();
        std::mem::swap(&mut entries, &mut self.entries);
        if at < entries.len() && entries[at].0 == version {
            entries.remove(at);
        }
        self.entries = entries;
    }

    /// The smallest version above `version`.
    pub fn next_after(&self, version: i64) -> (next: Option<i64>)
        ensures
            next == next_after(self.view(), version),
    {
        let at: usize = self.position(version);
        let next: usize = if at < self.entries.len() && self.entries[at].0 == version {
            at + 1
        } else {
            at
        };
        if next < self.entries.len() {
            Some(self.entries[next].0)
        } else {
            None
        }
    }

    /// What is kept under the largest version that is not above `version`.
    pub fn last_up_to(&self, version: i64) -> (found: Option<&(i64, T)>)
        ensures
            match found {
                Some(entry) => last_up_to(self.view(), version) == Some(*entry),
                None => last_up_to(self.view(), version) is None,
            },
    {
        let at: usize = self.position(version);
        if at < self.entries.len() && self.entries[at].0 == version {
            Some(&self.entries[at])
        } else if at > 0 {
            Some(&self.entries[at - 1])
        } else {
            None
        }
    }

    /// What is kept under the largest version.
    pub fn last(&self) -> (found: Option<&(i64, T)>)
        ensures
            match found {
                Some(entry) => self.view().len() > 0 && *entry == self.view().last(),
                None => self.view().len() == 0,
            },
    {
        let count: usize = self.entries.len();
        if count > 0 {
            Some(&self.entries[count - 1])
        } else {
            None
        }
    }

    /// Forgets all but the `keep` largest versions and tells which ones went, smallest first.
    pub fn keep_last(&mut self, keep: usize) -> (removed: Vec<i64>)
        ensures
            ({
                let before = old(self).view();
                let gone = if before.len() > keep {
                    before.len() - keep
                } else {
                    0
                };
                &&& final(self).view() == before.skip(gone)
                &&& removed@ == Seq::new(gone as nat, |i: int| before[i].0)
            }),
    {
        let ghost before = self.entries@;
        proof {
            use_type_invariant(&*self);
        }
        let mut removed: Vec<i64> = Vec::new();
        let count: usize = self.entries.len();
        if count <= keep {
            assert(before.skip(0) =~= before);
            assert(removed@ =~= Seq::new(0, |i: int| before[i].0));
            return removed;
        }
        let gone: usize = count - keep;
        let mut entries: Vec<(i64, T)> = Vec::new();
        std::mem::swap(&mut entries, &mut self.entries);
        let kept = entries.split_off(gone);
        let mut i: usize = 0;
        while i < gone
            invariant
                i <= gone,
                gone == entries@.len(),
                entries@ == before.take(gone as int),
                gone <= before.len(),
                removed@ == Seq::new(i as nat, |j: int| before[j].0),
            decreases gone - i,
        {
            removed.push(entries[i].0);
            assert(removed@ =~= Seq::new((i + 1) as nat, |j: int| before[j].0));
            i = i + 1;
        }
        assert(kept@ =~= before.skip(gone as int));
        assert forall|a: int, b: int| 0 <= a < b < kept@.len() implies (#[trigger] kept@[a]).0 < (
        #[trigger] kept@[b]).0 by {
            assert(before[a + gone].0 < before[b + gone].0);
        }
        self.entries = kept;
        removed
    }
}

/// The next version is the least one above.
pub proof fn law_next_version_is_the_least_above<T>(entries: Seq<(i64, T)>, version: i64)
    requires
        ascending(entries),
    ensures
        match next_after(entries, version) {
            Some(next) => {
                &&& next > version
                &&& has_version(entries, next)
                &&& forall|i: int|
                    0 <= i < entries.len() && (#[trigger] entries[i]).0 > version ==> entries[i].0
                        >= next
            },
            None => forall|i: int|
                0 <= i < entries.len() ==> (#[trigger] entries[i]).0 <= version,
        },
{
    lemma_lower_bound(entries, version);
    let at = lower_bound(entries, version) as int;
    if at < entries.len() && entries[at].0 == version {
        assert forall|i: int| at < i < entries.len() implies (#[trigger] entries[i]).0
            > version by {
            assert(entries[at].0 < entries[i].0);
        }
        if at + 1 < entries.len() {
            assert forall|i: int|
                0 <= i < entries.len() && (#[trigger] entries[i]).0 > version implies entries[i].0
                >= entries[at + 1].0 by {
                if at + 1 < i {
                    assert(entries[at + 1].0 < entries[i].0);
                }
            }
        }
    } else if at < entries.len() {
        assert forall|i: int|
            0 <= i < entries.len() && (#[trigger] entries[i]).0 > version implies entries[i].0
            >= entries[at].0 by {
            if at < i {
                assert(entries[at].0 < entries[i].0);
            }
        }
    }
}

/// The last version up to one is the largest that is not above it.
pub proof fn law_last_version_is_the_largest_up_to<T>(entries: Seq<(i64, T)>, version: i64)
    requires
        ascending(entries),
    ensures
        match last_up_to(entries, version) {
            Some((last, value)) => {
                &&& last <= version
                &&& exists|i: int| 0 <= i < entries.len() && #[trigger] entries[i] == (last, value)
                &&& forall|i: int|
                    0 <= i < entries.len() && (#[trigger] entries[i]).0 <= version
                        ==> entries[i].0 <= last
            },
            None => forall|i: int| 0 <= i < entries.len() ==> (#[trigger] entries[i]).0 > version,
        },
{
    lemma_lower_bound(entries, version);
    let at = lower_bound(entries, version) as int;
    let found = at < entries.len() && entries[at].0 == version;
    if found || at > 0 {
        let k = if found {
            at
        } else {
            at - 1
        };
        assert(last_up_to(entries, version) == Some(entries[k]));
        assert forall|i: int|
            0 <= i < entries.len() && (#[trigger] entries[i]).0 <= version implies entries[i].0
            <= entries[k].0 by {
            if i < k {
                assert(entries[i].0 < entries[k].0);
            }
            if k < i && at < i && at < entries.len() {
                assert(entries[at].0 < entries[i].0);
            }
        }
    } else {
        assert forall|i: int| 0 <= i < entries.len() implies (#[trigger] entries[i]).0
            > version by {
            if 0 < i {
                assert(entries[0].0 < entries[i].0);
            }
        }
    }
}

} // verus!
