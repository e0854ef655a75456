//! Weighted sets of encoded rows and the changes between them.

use vstd::prelude::*;

verus! {

/// The total weight of a key in a list of weighted keys.
pub open spec fn weight(entries: Seq<(Seq<u8>, int)>, key: Seq<u8>) -> int
    decreases entries.len(),
{
    if entries.len() == 0 {
        0
    } else {
        weight(entries.drop_last(), key) + if entries.last().0 == key {
            entries.last().1
        } else {
            0
        }
    }
}

/// Weighted keys as their bytes and numbers.
pub open spec fn weighted(entries: Seq<(Vec<u8>, i64)>) -> Seq<(Seq<u8>, int)> {
    Seq::new(entries.len(), |i: int| (entries[i].0@, entries[i].1 as int))
}

/// No key occurs twice.
pub open spec fn distinct_keys(entries: Seq<(Seq<u8>, int)>) -> bool {
    forall|i: int, j: int|
        0 <= i < j < entries.len() ==> (#[trigger] entries[i]).0 != (#[trigger] entries[j]).0
}

/// Some entry has this key.
pub open spec fn has_key(entries: Seq<(Seq<u8>, int)>, key: Seq<u8>) -> bool {
    exists|i: int| 0 <= i < entries.len() && (#[trigger] entries[i]).0 == key
}

/// The change of every weight from `previous` to `next` fits into sixty-four bits.
pub open spec fn change_fits(
    previous: Seq<(Seq<u8>, int)>,
    next: Seq<(Seq<u8>, int)>,
) -> bool {
    forall|key: Seq<u8>|
        i64::MIN <= #[trigger] weight(next, key) - weight(previous, key) <= i64::MAX
}

/// A set of keys with weights, each key at most once.
pub struct ZSet {
    entries: Vec<(Vec<u8>, i64)>,
}

/// A key without an entry weighs nothing.
pub proof fn lemma_weight_absent(entries: Seq<(Seq<u8>, int)>, key: Seq<u8>)
    requires
        !has_key(entries, key),
    ensures
        weight(entries, key) == 0,
    decreases entries.len(),
{
    if entries.len() > 0 {
        let front = entries.drop_last();
        assert(entries[entries.len() - 1].0 != key);
        assert forall|i: int| 0 <= i < front.len() implies (#[trigger] front[i]).0 != key by {
            assert(front[i] == entries[i]);
        }
        lemma_weight_absent(front, key);
    }
}

/// A key with one entry weighs what that entry says.
pub proof fn lemma_weight_at(entries: Seq<(Seq<u8>, int)>, i: int)
    requires
        distinct_keys(entries),
        0 <= i < entries.len(),
    ensures
        weight(entries, entries[i].0) == entries[i].1,
    decreases entries.len(),
{
    let front = entries.drop_last();
    let key = entries[i].0;
    if i == entries.len() - 1 {
        assert forall|j: int| 0 <= j < front.len() implies (#[trigger] front[j]).0 != key by {
            assert(front[j] == entries[j]);
            assert(entries[j].0 != entries[i].0);
        }
        lemma_weight_absent(front, key);
    } else {
        assert(distinct_keys(front)) by {
            assert forall|a: int, b: int| 0 <= a < b < front.len() implies (#[trigger] front[a]).0
                != (#[trigger] front[b]).0 by {
                assert(front[a] == entries[a] && front[b] == entries[b]);
            }
        }
        lemma_weight_at(front, i);
        assert(front[i] == entries[i]);
        assert(entries[i].0 != entries[entries.len() - 1].0);
    }
}

/// Weights of lists one behind the other add up.
pub proof fn lemma_weight_append(
    a: Seq<(Seq<u8>, int)>,
    b: Seq<(Seq<u8>, int)>,
    key: Seq<u8>,
)
    ensures
        weight(a + b, key) == weight(a, key) + weight(b, key),
    decreases b.len(),
{
    if b.len() == 0 {
        assert(a + b =~= a);
    } else {
        lemma_weight_append(a, b.drop_last(), key);
        assert((a + b).drop_last() =~= a + b.drop_last());
        assert((a + b).last() == b.last());
    }
}

/// Whether two byte strings are the same.
pub fn same_bytes(a: &Vec<u8>, b: &Vec<u8>) -> (same: bool)
    ensures
        same == (a@ == b@),
{
    if a.len() != b.len() {
        return false;
    }
    let mut i: usize = 0;
    while i < a.len()
        invariant
            i <= a@.len(),
            a@.len() == b@.len(),
            forall|j: int| 0 <= j < i ==> a@[j] == b@[j],
        decreases a@.len() - i,
    {
        if a[i] != b[i] {
            return false;
        }
        i = i + 1;
    }
    assert(a@ =~= b@);
    true
}

impl ZSet {
    /// The keys and their weights.
    pub closed spec fn view(&self) -> Seq<(Seq<u8>, int)> {
        weighted(self.entries@)
    }

    /// Each key occurs at most once.
    #[verifier::type_invariant]
    spec fn keys_are_distinct(self) -> bool {
        distinct_keys(weighted(self.entries@))
    }

    /// An empty set.
    pub fn new() -> (set: Self)
        ensures
            set.view() == Seq::<(Seq<u8>, int)>::empty(),
            distinct_keys(set.view()),
    {
        let set = ZSet { entries: Vec::new() };
        assert(set.view() =~= Seq::<(Seq<u8>, int)>::empty());
        set
    }

    /// The position of a key.
    fn position(&self, key: &Vec<u8>) -> (at: Option<usize>)
        ensures
            match at {
                Some(i) => i < self.entries@.len() && self.entries@[i as int].0@ == key@,
                None => !has_key(self.view(), key@),
            },
    {
        let mut i: usize = 0;
        while i < self.entries.len()
            invariant
                i <= self.entries@.len(),
                forall|j: int| 0 <= j < i ==> (#[trigger] self.view()[j]).0 != key@,
            decreases self.entries@.len() - i,
        {
            if same_bytes(&self.entries[i].0, key) {
                return Some(i);
            }
            i = i + 1;
        }
        None
    }

    /// The weight of a key; nothing for a key that does not occur.
    pub fn get(&self, key: &Vec<u8>) -> (found: Option<i64>)
        ensures
            match found {
                Some(w) => has_key(self.view(), key@) && w == weight(self.view(), key@),
                None => !has_key(self.view(), key@) && weight(self.view(), key@) == 0,
            },
            distinct_keys(self.view()),
    {
        proof {
            use_type_invariant(self);
        }
        match self.position(key) {
            Some(i) => {
                proof {
                    lemma_weight_at(self.view(), i as int);
                    assert(self.view()[i as int].0 == key@);
                }
                Some(self.entries[i].1)
            },
            None => {
                proof {
                    lemma_weight_absent(self.view(), key@);
                }
                None
            },
        }
    }

    /// The number of keys.
    pub fn len(&self) -> (count: usize)
        ensures
            count == self.view().len(),
    {
        self.entries.len()
    }

    /// The key and weight at a position.
    pub fn entry(&self, i: usize) -> (entry: (&Vec<u8>, i64))
        requires
            i < self.view().len(),
        ensures
            entry.0@ == self.view()[i as int].0,
            entry.1 == self.view()[i as int].1,
    {
        (&self.entries[i].0, self.entries[i].1)
    }

    /// Adds to the weight of a key, which is kept even at weight zero.
    ///
    /// Nothing changes when the new weight does not fit into sixty-four bits.
    pub fn add(&mut self, key: Vec<u8>, diff: i64) -> (fits: bool)
        ensures
            fits == (i64::MIN <= weight(old(self).view(), key@) + diff <= i64::MAX),
            !fits ==> final(self).view() == old(self).view(),
            fits ==> forall|k: Seq<u8>|
                #[trigger] weight(final(self).view(), k) == weight(old(self).view(), k) + if k
                    == key@ {
                    diff as int
                } else {
                    0
                },
            distinct_keys(final(self).view()),
    {
        proof {
            use_type_invariant(&*self);
        }
        let ghost before = self.view();
        match self.position(&key) {
            Some(i) => {
                proof {
                    lemma_weight_at(before, i as int);
                    assert(before[i as int].0 == key@);
                }
                let sum: i128 = self.entries[i].1 as i128 + diff as i128;
                if sum < i64::MIN as i128 || sum > i64::MAX as i128 {
                    return false;
                }
                let mut entries: Vec<(Vec<u8>, i64)> = Vec::new();
                std::mem::swap(&mut entries, &mut self.entries);
                entries.set(i, (key, sum as i64));
                proof {
                    let after = weighted(entries@);
                    assert forall|a: int, b: int| 0 <= a < b < after.len() implies (
                    #[trigger] after[a]).0 != (#[trigger] after[b]).0 by {
                        assert(before[a].0 != before[b].0);
                    }
                    assert forall|k: Seq<u8>| #[trigger] weight(after, k) == weight(before, k)
                        + if k == key@ {
                        diff as int
                    } else {
                        0
                    } by {
                        lemma_weight_update(before, i as int, sum as int, k);
                        assert(after =~= before.update(i as int, (key@, sum as int)));
                    }
                }
                self.entries = entries;
                true
            },
            None => {
                proof {
                    lemma_weight_absent(before, key@);
                }
                let mut entries: Vec<(Vec<u8>, i64)> = Vec::new();
                std::mem::swap(&mut entries, &mut self.entries);
                entries.push((key, diff));
                proof {
                    let after = weighted(entries@);
                    assert(after =~= before.push((key@, diff as int)));
                    assert forall|a: int, b: int| 0 <= a < b < after.len() implies (
                    #[trigger] after[a]).0 != (#[trigger] after[b]).0 by {
                        assert(after[a] == before[a]);
                        if b < before.len() {
                            assert(after[b] == before[b]);
                        } else {
                            assert(before[a].0 != key@);
                        }
                    }
                    assert(after.drop_last() =~= before);
                }
                self.entries = entries;
                true
            },
        }
    }
}

proof fn lemma_weight_update(entries: Seq<(Seq<u8>, int)>, i: int, w: int, key: Seq<u8>)
    requires
        0 <= i < entries.len(),
    ensures
        weight(entries.update(i, (entries[i].0, w)), key) == weight(entries, key) + if entries[i].0
            == key {
            w - entries[i].1
        } else {
            0
        },
    decreases entries.len(),
{
    let changed = entries.update(i, (entries[i].0, w));
    if i == entries.len() - 1 {
        assert(changed.drop_last() =~= entries.drop_last());
    } else {
        lemma_weight_update(entries.drop_last(), i, w, key);
        assert(changed.drop_last() =~= entries.drop_last().update(i, (entries[i].0, w)));
    }
}


/// A key among the first `n` entries.
spec fn has_key_before(entries: Seq<(Seq<u8>, int)>, n: int, key: Seq<u8>) -> bool {
    exists|i: int| 0 <= i < n && i < entries.len() && (#[trigger] entries[i]).0 == key
}

/// What the changes weigh after the first `i` entries of `next` and the first `j` of `previous`.
spec fn partial_change(
    previous: Seq<(Seq<u8>, int)>,
    next: Seq<(Seq<u8>, int)>,
    i: int,
    j: int,
    key: Seq<u8>,
) -> int {
    if has_key_before(next, i, key) {
        weight(next, key) - weight(previous, key)
    } else if !has_key(next, key) && has_key_before(previous, j, key) {
        -weight(previous, key)
    } else {
        0
    }
}

/// The changes found so far: each key once, no zeros, all from entries already looked at.
spec fn collected(
    out: Seq<(Seq<u8>, int)>,
    previous: Seq<(Seq<u8>, int)>,
    next: Seq<(Seq<u8>, int)>,
    i: int,
    j: int,
) -> bool {
    &&& distinct_keys(out)
    &&& forall|k: int|
        0 <= k < out.len() ==> (#[trigger] out[k]).1 != 0 && (has_key_before(next, i, out[k].0) || (
        !has_key(next, out[k].0) && has_key_before(previous, j, out[k].0)))
    &&& forall|key: Seq<u8>|
        #[trigger] weight(out, key) == partial_change(previous, next, i, j, key)
}

/// Appending a change for a key that was not there yet keeps the other changes.
proof fn lemma_collect(
    out: Seq<(Seq<u8>, int)>,
    previous: Seq<(Seq<u8>, int)>,
    next: Seq<(Seq<u8>, int)>,
    i: int,
    j: int,
    i2: int,
    j2: int,
    key: Seq<u8>,
    change: int,
)
    requires
        collected(out, previous, next, i, j),
        i <= i2,
        j <= j2,
        !has_key(out, key),
        change != 0,
        change == partial_change(previous, next, i2, j2, key),
        has_key_before(next, i2, key) || (!has_key(next, key) && has_key_before(
            previous,
            j2,
            key,
        )),
        forall|k: Seq<u8>|
            k != key ==> #[trigger] partial_change(previous, next, i2, j2, k) == partial_change(
                previous,
                next,
                i,
                j,
                k,
            ),
    ensures
        collected(out.push((key, change)), previous, next, i2, j2),
{
    let more = out.push((key, change));
    assert forall|a: int, b: int| 0 <= a < b < more.len() implies (#[trigger] more[a]).0 != (
    #[trigger] more[b]).0 by {
        assert(more[a] == out[a]);
        if b < out.len() {
            assert(more[b] == out[b]);
        } else {
            assert(out[a].0 != key);
        }
    }
    assert forall|k: int| 0 <= k < more.len() implies (#[trigger] more[k]).1 != 0 && (
    has_key_before(next, i2, more[k].0) || (!has_key(next, more[k].0) && has_key_before(
        previous,
        j2,
        more[k].0,
    ))) by {
        if k < out.len() {
            assert(more[k] == out[k]);
            assert(out[k].1 != 0);
            if has_key_before(next, i, out[k].0) {
                let w = choose|w: int|
                    0 <= w < i && w < next.len() && (#[trigger] next[w]).0 == out[k].0;
                assert(next[w].0 == out[k].0);
            } else {
                let w = choose|w: int|
                    0 <= w < j && w < previous.len() && (#[trigger] previous[w]).0 == out[k].0;
                assert(previous[w].0 == out[k].0);
            }
        }
    }
    lemma_weight_absent(out, key);
    assert forall|k: Seq<u8>| #[trigger] weight(more, k) == partial_change(
        previous,
        next,
        i2,
        j2,
        k,
    ) by {
        assert(more.drop_last() =~= out);
        assert(weight(out, k) == partial_change(previous, next, i, j, k));
        assert(partial_change(previous, next, i2, j2, k) == partial_change(
            previous,
            next,
            i2,
            j2,
            k,
        ));
    }
}

/// The changes that turn `previous` into `next`: one for each key whose weight differs.
///
/// Nothing is handed back when a change does not fit into sixty-four bits.
pub fn compute_delta(previous: &ZSet, next: &ZSet) -> (deltas: Option<Vec<(Vec<u8>, i64)>>)
    ensures
        match deltas {
            Some(changes) => {
                &&& change_fits(previous.view(), next.view())
                &&& distinct_keys(weighted(changes@))
                &&& forall|i: int| 0 <= i < changes@.len() ==> (#[trigger] changes@[i]).1 != 0
                &&& forall|key: Seq<u8>|
                    #[trigger] weight(weighted(changes@), key) == weight(next.view(), key) - weight(
                        previous.view(),
                        key,
                    )
            },
            None => !change_fits(previous.view(), next.view()),
        },
{
    let ghost p = previous.view();
    let ghost n = next.view();
    let mut changes: Vec<(Vec<u8>, i64)> = Vec::new();
    let mut i: usize = 0;
    let total: usize = next.len();
    proof {
        use_type_invariant(previous);
        use_type_invariant(next);
        assert(weighted(changes@) =~= Seq::<(Seq<u8>, int)>::empty());
        assert(collected(weighted(changes@), p, n, 0, 0));
    }
    while i < total
        invariant
            i <= total,
            p == previous.view(),
            n == next.view(),
            total == n.len(),
            distinct_keys(p),
            distinct_keys(n),
            collected(weighted(changes@), p, n, i as int, 0),
        decreases total - i,
    {
        let (key, next_weight) = next.entry(i);
        let previous_weight: i64 = match previous.get(key) {
            Some(w) => w,
            None => 0,
        };
        let ghost out = weighted(changes@);
        proof {
            lemma_weight_at(n, i as int);
            assert(n[i as int].0 == key@);
            assert(weight(n, key@) - weight(p, key@) == next_weight - previous_weight);
            assert forall|k: Seq<u8>| k != key@ implies #[trigger] partial_change(
                p,
                n,
                i + 1,
                0,
                k,
            ) == partial_change(p, n, i as int, 0, k) by {
                if has_key_before(n, i + 1, k) {
                    let w = choose|w: int|
                        0 <= w < i + 1 && w < n.len() && (#[trigger] n[w]).0 == k;
                    assert(n[w].0 == k);
                }
                if has_key_before(n, i as int, k) {
                    let w = choose|w: int|
                        0 <= w < i && w < n.len() && (#[trigger] n[w]).0 == k;
                    assert(n[w].0 == k);
                }
            }
            assert(has_key_before(n, i + 1, key@));
            assert(!has_key_before(n, i as int, key@));
            assert(!has_key(out, key@)) by {
                if has_key(out, key@) {
                    let k = choose|k: int| 0 <= k < out.len() && (#[trigger] out[k]).0 == key@;
                    assert(out[k].0 == key@);
                    assert(has_key(n, key@));
                }
            }
        }
        if next_weight != previous_weight {
            let change: i128 = next_weight as i128 - previous_weight as i128;
            if change < i64::MIN as i128 || change > i64::MAX as i128 {
                proof {
                    assert(!(i64::MIN <= weight(n, key@) - weight(p, key@) <= i64::MAX));
                }
                return None;
            }
            let copy = key.clone();
            assert(copy@ =~= key@);
            changes.push((copy, change as i64));
            proof {
                lemma_collect(out, p, n, i as int, 0, i + 1, 0, key@, change as int);
                assert(weighted(changes@) =~= out.push((key@, change as int)));
            }
        } else {
            proof {
                lemma_weight_absent(out, key@);
                assert(collected(out, p, n, i + 1, 0)) by {
                    assert forall|k: Seq<u8>| #[trigger] weight(out, k) == partial_change(
                        p,
                        n,
                        i + 1,
                        0,
                        k,
                    ) by {
                        assert(weight(out, k) == partial_change(p, n, i as int, 0, k));
                        if k != key@ {
                            assert(partial_change(p, n, i + 1, 0, k) == partial_change(
                                p,
                                n,
                                i as int,
                                0,
                                k,
                            ));
                        }
                    }
                    assert forall|k: int| 0 <= k < out.len() implies (#[trigger] out[k]).1 != 0
                        && (has_key_before(n, i + 1, out[k].0) || (!has_key(n, out[k].0)
                        && has_key_before(p, 0, out[k].0))) by {
                        assert(has_key_before(n, i as int, out[k].0));
                        let w = choose|w: int|
                            0 <= w < i && w < n.len() && (#[trigger] n[w]).0 == out[k].0;
                        assert(n[w].0 == out[k].0);
                    }
                }
            }
        }
        i = i + 1;
    }
    assert forall|k: Seq<u8>| has_key(n, k) == #[trigger] has_key_before(n, total as int, k) by {
        if has_key(n, k) {
            let w = choose|w: int| 0 <= w < n.len() && (#[trigger] n[w]).0 == k;
            assert(n[w].0 == k);
        }
    }
    let mut j: usize = 0;
    let earlier: usize = previous.len();
    while j < earlier
        invariant
            j <= earlier,
            p == previous.view(),
            n == next.view(),
            total == n.len(),
            earlier == p.len(),
            distinct_keys(p),
            distinct_keys(n),
            forall|k: Seq<u8>| has_key(n, k) == #[trigger] has_key_before(n, total as int, k),
            collected(weighted(changes@), p, n, total as int, j as int),
        decreases earlier - j,
    {
        let (key, previous_weight) = previous.entry(j);
        let ghost out = weighted(changes@);
        let missing: bool = next.get(key).is_none();
        proof {
            lemma_weight_at(p, j as int);
            assert(p[j as int].0 == key@);
            assert(has_key(n, key@) == has_key_before(n, total as int, key@));
            if missing {
                lemma_weight_absent(n, key@);
            }
            assert forall|k: Seq<u8>| k != key@ implies #[trigger] partial_change(
                p,
                n,
                total as int,
                j + 1,
                k,
            ) == partial_change(p, n, total as int, j as int, k) by {
                if has_key_before(p, j + 1, k) {
                    let w = choose|w: int|
                        0 <= w < j + 1 && w < p.len() && (#[trigger] p[w]).0 == k;
                    assert(p[w].0 == k);
                }
                if has_key_before(p, j as int, k) {
                    let w = choose|w: int|
                        0 <= w < j && w < p.len() && (#[trigger] p[w]).0 == k;
                    assert(p[w].0 == k);
                }
            }
            assert(has_key_before(p, j + 1, key@));
            assert(!has_key_before(p, j as int, key@));
            if missing {
                assert(!has_key(out, key@)) by {
                    if has_key(out, key@) {
                        let k = choose|k: int| 0 <= k < out.len() && (#[trigger] out[k]).0 == key@;
                        assert(out[k].0 == key@);
                    }
                }
            }
        }
        if missing && previous_weight != 0 {
            if previous_weight == i64::MIN {
                proof {
                    assert(!(i64::MIN <= weight(n, key@) - weight(p, key@) <= i64::MAX));
                }
                return None;
            }
            let copy = key.clone();
            assert(copy@ =~= key@);
            changes.push((copy, -previous_weight));
            proof {
                lemma_collect(
                    out,
                    p,
                    n,
                    total as int,
                    j as int,
                    total as int,
                    j + 1,
                    key@,
                    -previous_weight as int,
                );
                assert(weighted(changes@) =~= out.push((key@, -previous_weight as int)));
            }
        } else {
            proof {
                if missing {
                    lemma_weight_absent(out, key@);
                }
                assert(collected(out, p, n, total as int, j + 1)) by {
                    assert forall|k: Seq<u8>| #[trigger] weight(out, k) == partial_change(
                        p,
                        n,
                        total as int,
                        j + 1,
                        k,
                    ) by {
                        assert(weight(out, k) == partial_change(p, n, total as int, j as int, k));
                        if k != key@ {
                            assert(partial_change(p, n, total as int, j + 1, k) == partial_change(
                                p,
                                n,
                                total as int,
                                j as int,
                                k,
                            ));
                        }
                    }
                    assert forall|k: int| 0 <= k < out.len() implies (#[trigger] out[k]).1 != 0
                        && (has_key_before(n, total as int, out[k].0) || (!has_key(n, out[k].0)
                        && has_key_before(p, j + 1, out[k].0))) by {
                        if !has_key_before(n, total as int, out[k].0) {
                            assert(has_key_before(p, j as int, out[k].0));
                            let w = choose|w: int|
                                0 <= w < j && w < p.len() && (#[trigger] p[w]).0 == out[k].0;
                            assert(p[w].0 == out[k].0);
                        }
                    }
                }
            }
        }
        j = j + 1;
    }
    proof {
        let out = weighted(changes@);
        assert forall|key: Seq<u8>| #[trigger] weight(out, key) == weight(n, key) - weight(
            p,
            key,
        ) by {
            assert(weight(out, key) == partial_change(p, n, total as int, earlier as int, key));
            assert(has_key(n, key) == has_key_before(n, total as int, key));
            if !has_key(n, key) {
                lemma_weight_absent(n, key);
                if has_key(p, key) {
                    let w = choose|w: int| 0 <= w < p.len() && (#[trigger] p[w]).0 == key;
                    assert(p[w].0 == key);
                    assert(has_key_before(p, earlier as int, key));
                } else {
                    lemma_weight_absent(p, key);
                    assert(!has_key_before(p, earlier as int, key));
                }
            }
        }
        assert forall|i: int| 0 <= i < changes@.len() implies (#[trigger] changes@[i]).1 != 0 by {
            assert(out[i].1 != 0);
        }
        assert forall|key: Seq<u8>|
            i64::MIN <= #[trigger] weight(n, key) - weight(p, key) <= i64::MAX by {
            assert(weight(out, key) == weight(n, key) - weight(p, key));
            if has_key(out, key) {
                let w = choose|w: int| 0 <= w < out.len() && (#[trigger] out[w]).0 == key;
                lemma_weight_at(out, w);
                assert(out[w].1 == changes@[w].1);
            } else {
                lemma_weight_absent(out, key);
            }
        }
    }
    Some(changes)
}

/// Adding the changes between two sets to the first gives the second, weight by weight.
pub proof fn law_changes_turn_previous_into_next(
    previous: Seq<(Seq<u8>, int)>,
    next: Seq<(Seq<u8>, int)>,
    changes: Seq<(Seq<u8>, int)>,
    key: Seq<u8>,
)
    requires
        forall|k: Seq<u8>|
            #[trigger] weight(changes, k) == weight(next, k) - weight(previous, k),
    ensures
        weight(previous + changes, key) == weight(next, key),
{
    lemma_weight_append(previous, changes, key);
    assert(weight(changes, key) == weight(next, key) - weight(previous, key));
}

/// While the weights of the first `n` entries are added one by one, every sum fits into
/// sixty-four bits.
pub open spec fn sums_fit(entries: Seq<(Seq<u8>, int)>, n: nat) -> bool
    decreases n,
{
    n == 0 || {
        &&& sums_fit(entries, (n - 1) as nat)
        &&& i64::MIN <= weight(entries.take(n as int), entries[n - 1].0) <= i64::MAX
    }
}

/// Sums that fit so far did so before.
proof fn lemma_sums_fit_before(entries: Seq<(Seq<u8>, int)>, n: nat, m: nat)
    requires
        sums_fit(entries, m),
        n <= m,
    ensures
        sums_fit(entries, n),
    decreases m,
{
    if n < m {
        lemma_sums_fit_before(entries, n, (m - 1) as nat);
    }
}

/// Collects weighted keys into a set.
///
/// Nothing is handed back when a sum does not fit into sixty-four bits.
pub fn collect(entries: Vec<(Vec<u8>, i64)>) -> (set: Option<ZSet>)
    ensures
        match set {
            Some(collected) => {
                &&& sums_fit(weighted(entries@), entries@.len())
                &&& distinct_keys(collected.view())
                &&& forall|key: Seq<u8>|
                    #[trigger] weight(collected.view(), key) == weight(weighted(entries@), key)
            },
            None => !sums_fit(weighted(entries@), entries@.len()),
        },
{
    let ghost all = weighted(entries@);
    let ghost given = entries@;
    let mut set = ZSet::new();
    assert(all.take(0) =~= Seq::<(Seq<u8>, int)>::empty());
    for entry in it: entries
        invariant
            it.seq() == given,
            all == weighted(given),
            sums_fit(all, it.index() as nat),
            distinct_keys(set.view()),
            forall|key: Seq<u8>|
                #[trigger] weight(set.view(), key) == weight(all.take(it.index() as int), key),
    {
        let ghost at = it.index() as int;
        let ghost before = set.view();
        assert(entry == given[at]);
        proof {
            let next = all.take(at + 1);
            assert(next.drop_last() =~= all.take(at));
            assert(next.last() == all[at]);
            assert forall|key: Seq<u8>| #[trigger] weight(next, key) == weight(before, key)
                + if all[at].0 == key {
                all[at].1
            } else {
                0
            } by {
                assert(weight(before, key) == weight(all.take(at), key));
            }
        }
        if !set.add(entry.0, entry.1) {
            proof {
                assert(weight(all.take(at + 1), all[at].0) == weight(before, all[at].0)
                    + all[at].1);
                if sums_fit(all, given.len()) {
                    lemma_sums_fit_before(all, (at + 1) as nat, given.len());
                }
            }
            return None;
        }
    }
    assert(all.take(given.len() as int) =~= all);
    Some(set)
}

/// Changes can be handed on as a set after another one: no weight and no change is too large.
pub open spec fn publishable(
    published: Seq<(Seq<u8>, int)>,
    entries: Seq<(Seq<u8>, int)>,
) -> bool {
    sums_fit(entries, entries.len()) && change_fits(published, entries)
}

/// The weighted keys that were handed on last.
pub struct PublishedSnapshot {
    published: ZSet,
}

impl PublishedSnapshot {
    /// The keys and weights that were handed on last.
    pub closed spec fn view(&self) -> Seq<(Seq<u8>, int)> {
        self.published.view()
    }

    /// Nothing was handed on.
    pub fn new() -> (snapshot: Self)
        ensures
            snapshot.view() == Seq::<(Seq<u8>, int)>::empty(),
    {
        PublishedSnapshot { published: ZSet::new() }
    }

    /// These keys and weights were handed on.
    pub fn restored(published: ZSet) -> (snapshot: Self)
        ensures
            snapshot.view() == published.view(),
    {
        PublishedSnapshot { published }
    }

    /// Hands on a set: the changes since the last one.
    ///
    /// Nothing happens when a change does not fit into sixty-four bits.
    pub fn advance(&mut self, next: ZSet) -> (deltas: Option<Vec<(Vec<u8>, i64)>>)
        ensures
            match deltas {
                Some(changes) => {
                    &&& change_fits(old(self).view(), next.view())
                    &&& final(self).view() == next.view()
                    &&& distinct_keys(weighted(changes@))
                    &&& forall|i: int| 0 <= i < changes@.len() ==> (#[trigger] changes@[i]).1 != 0
                    &&& forall|key: Seq<u8>|
                        #[trigger] weight(weighted(changes@), key) == weight(next.view(), key)
                            - weight(old(self).view(), key)
                },
                None => {
                    &&& !change_fits(old(self).view(), next.view())
                    &&& final(self).view() == old(self).view()
                },
            },
    {
        match compute_delta(&self.published, &next) {
            Some(changes) => {
                self.published = next;
                Some(changes)
            },
            None => None,
        }
    }

    /// Collects changes into a set and hands it on: the changes since the last one.
    ///
    /// Nothing happens when a weight or a change does not fit into sixty-four bits.
    pub fn publish(&mut self, entries: Vec<(Vec<u8>, i64)>) -> (deltas: Option<
        Vec<(Vec<u8>, i64)>,
    >)
        ensures
            match deltas {
                Some(changes) => {
                    &&& publishable(old(self).view(), weighted(entries@))
                    &&& distinct_keys(final(self).view())
                    &&& forall|key: Seq<u8>|
                        #[trigger] weight(final(self).view(), key) == weight(
                            weighted(entries@),
                            key,
                        )
                    &&& distinct_keys(weighted(changes@))
                    &&& forall|i: int| 0 <= i < changes@.len() ==> (#[trigger] changes@[i]).1 != 0
                    &&& forall|key: Seq<u8>|
                        #[trigger] weight(weighted(changes@), key) == weight(
                            weighted(entries@),
                            key,
                        ) - weight(old(self).view(), key)
                },
                None => {
                    &&& !publishable(old(self).view(), weighted(entries@))
                    &&& final(self).view() == old(self).view()
                },
            },
    {
        let ghost given = weighted(entries@);
        let ghost before = self.view();
        match collect(entries) {
            None => None,
            Some(next) => {
                let ghost set = next.view();
                let deltas = self.advance(next);
                proof {
                    if change_fits(before, set) {
                        assert forall|key: Seq<u8>|
                            i64::MIN <= #[trigger] weight(given, key) - weight(before, key)
                                <= i64::MAX by {
                            assert(weight(set, key) == weight(given, key));
                        }
                    }
                    if change_fits(before, given) {
                        assert forall|key: Seq<u8>|
                            i64::MIN <= #[trigger] weight(set, key) - weight(before, key)
                                <= i64::MAX by {
                            assert(weight(set, key) == weight(given, key));
                        }
                    }
                }
                deltas
            },
        }
    }
}

/// Entries can be summed up where after each of them the weight of its key is one of sixty-four
/// bits.
pub proof fn law_sums_fit_one_by_one(entries: Seq<(Seq<u8>, int)>, n: nat)
    requires
        n <= entries.len(),
    ensures
        sums_fit(entries, n) <==> forall|k: int|
            0 < k <= n ==> -0x8000_0000_0000_0000 <= weight(
                #[trigger] entries.take(k),
                entries[k - 1].0,
            ) < 0x8000_0000_0000_0000,
    decreases n,
{
    if n > 0 {
        law_sums_fit_one_by_one(entries, (n - 1) as nat);
        if sums_fit(entries, n) {
            assert forall|k: int| 0 < k <= n implies -0x8000_0000_0000_0000 <= weight(
                #[trigger] entries.take(k),
                entries[k - 1].0,
            ) < 0x8000_0000_0000_0000 by {
                if k == n {
                    assert(entries.take(k) == entries.take(n as int));
                }
            }
        } else if forall|k: int|
            0 < k <= n ==> -0x8000_0000_0000_0000 <= weight(
                #[trigger] entries.take(k),
                entries[k - 1].0,
            ) < 0x8000_0000_0000_0000 {
            assert(entries.take(n as int).len() == n);
        }
    }
}

/// The weight of a key is the sum over its entries: an entry adds its weight to its key and to no
/// other one.
pub proof fn law_entries_add_up(
    entries: Seq<(Seq<u8>, int)>,
    key: Seq<u8>,
    change: int,
    other: Seq<u8>,
)
    ensures
        weight(entries + seq![(key, change)], other) - weight(entries, other) == (if other == key {
            change
        } else {
            0
        }),
        weight(Seq::empty(), other) == 0,
{
    lemma_weight_append(entries, seq![(key, change)], other);
    let one = seq![(key, change)];
    assert(one.drop_last() =~= Seq::empty());
    assert(weight(one.drop_last(), other) == 0);
}

} // verus!
