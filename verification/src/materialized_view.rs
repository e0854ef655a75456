//! Materialized views that hold their rows.

use vstd::prelude::*;

use crate::stream_types::{Diff, Timestamp};
use crate::text::same_text;
use crate::values;
use crate::values::{clone_row, rows_same, Row, ScalarView};

verus! {

/// How often a row occurs among rows with multiplicities.
pub open spec fn multiplicity(entries: Seq<(Seq<ScalarView>, int)>, row: Seq<ScalarView>) -> int
    decreases entries.len(),
{
    if entries.len() == 0 {
        0
    } else {
        multiplicity(entries.drop_last(), row) + if values::same_row(entries.last().0, row) {
            entries.last().1
        } else {
            0
        }
    }
}

/// Rows with multiplicities as what they stand for.
pub open spec fn counted(entries: Seq<(Row, Diff)>) -> Seq<(Seq<ScalarView>, int)> {
    Seq::new(entries.len(), |i: int| (values::row_view(entries[i].0@), entries[i].1 as int))
}

/// No row occurs twice.
pub open spec fn distinct_rows(entries: Seq<(Seq<ScalarView>, int)>) -> bool {
    forall|i: int, j: int|
        0 <= i < j < entries.len() ==> !values::same_row(
            (#[trigger] entries[i]).0,
            (#[trigger] entries[j]).0,
        )
}

/// No row occurs zero times.
pub open spec fn no_zeros(entries: Seq<(Seq<ScalarView>, int)>) -> bool {
    forall|i: int| 0 <= i < entries.len() ==> (#[trigger] entries[i]).1 != 0
}

/// Being the same row is symmetric and transitive.
pub proof fn lemma_same_row(a: Seq<ScalarView>, b: Seq<ScalarView>, c: Seq<ScalarView>)
    ensures
        values::same_row(a, a),
        values::same_row(a, b) ==> values::same_row(b, a),
        values::same_row(a, b) && values::same_row(b, c) ==> values::same_row(a, c),
{
    if values::same_row(a, b) {
        assert forall|i: int| 0 <= i < b.len() implies values::same_value(
            #[trigger] b[i],
            a[i],
        ) by {
            assert(values::same_value(a[i], b[i]));
        }
        if values::same_row(b, c) {
            assert forall|i: int| 0 <= i < a.len() implies values::same_value(
                #[trigger] a[i],
                c[i],
            ) by {
                assert(values::same_value(a[i], b[i]));
                assert(values::same_value(b[i], c[i]));
            }
        }
    }
}

/// A row that is the same as no entry occurs zero times.
proof fn lemma_absent(entries: Seq<(Seq<ScalarView>, int)>, row: Seq<ScalarView>)
    requires
        forall|i: int|
            0 <= i < entries.len() ==> !values::same_row((#[trigger] entries[i]).0, row),
    ensures
        multiplicity(entries, row) == 0,
    decreases entries.len(),
{
    if entries.len() > 0 {
        let front = entries.drop_last();
        assert forall|i: int| 0 <= i < front.len() implies !values::same_row(
            (#[trigger] front[i]).0,
            row,
        ) by {
            assert(front[i] == entries[i]);
        }
        assert(!values::same_row(entries[entries.len() - 1].0, row));
        lemma_absent(front, row);
    }
}

/// A row occurs as often as its entry says.
pub proof fn lemma_multiplicity_at(
    entries: Seq<(Seq<ScalarView>, int)>,
    i: int,
    row: Seq<ScalarView>,
)
    requires
        distinct_rows(entries),
        0 <= i < entries.len(),
        values::same_row(entries[i].0, row),
    ensures
        multiplicity(entries, row) == entries[i].1,
    decreases entries.len(),
{
    let front = entries.drop_last();
    let last = entries.len() - 1;
    if i == last {
        assert forall|j: int| 0 <= j < front.len() implies !values::same_row(
            (#[trigger] front[j]).0,
            row,
        ) by {
            assert(!values::same_row(entries[j].0, entries[last].0));
            lemma_same_row(entries[last].0, row, row);
            lemma_same_row(entries[j].0, row, entries[last].0);
        }
        lemma_absent(front, row);
    } else {
        assert(front[i] == entries[i]);
        assert(!values::same_row(entries[i].0, entries[last].0));
        lemma_same_row(entries[last].0, row, row);
        lemma_same_row(row, entries[i].0, row);
        lemma_same_row(entries[i].0, row, entries[last].0);
        if values::same_row(entries[last].0, row) {
            assert(values::same_row(row, entries[last].0));
        }
        assert(distinct_rows(front)) by {
            assert forall|a: int, b: int| 0 <= a < b < front.len() implies !values::same_row(
                (#[trigger] front[a]).0,
                (#[trigger] front[b]).0,
            ) by {
                assert(!values::same_row(entries[a].0, entries[b].0));
            }
        }
        lemma_multiplicity_at(front, i, row);
    }
}

/// A row occurs among entries and further ones as often as among both.
pub proof fn lemma_multiplicity_append(
    entries: Seq<(Seq<ScalarView>, int)>,
    more: Seq<(Seq<ScalarView>, int)>,
    row: Seq<ScalarView>,
)
    ensures
        multiplicity(entries + more, row) == multiplicity(entries, row) + multiplicity(more, row),
    decreases more.len(),
{
    if more.len() == 0 {
        assert(entries + more =~= entries);
    } else {
        assert((entries + more).drop_last() =~= entries + more.drop_last());
        lemma_multiplicity_append(entries, more.drop_last(), row);
    }
}

/// Changing one entry changes how often its row occurs.
proof fn lemma_multiplicity_update(
    entries: Seq<(Seq<ScalarView>, int)>,
    i: int,
    count: int,
    row: Seq<ScalarView>,
)
    requires
        0 <= i < entries.len(),
    ensures
        multiplicity(entries.update(i, (entries[i].0, count)), row) == multiplicity(entries, row)
            + if values::same_row(entries[i].0, row) {
            count - entries[i].1
        } else {
            0
        },
    decreases entries.len(),
{
    let after = entries.update(i, (entries[i].0, count));
    if i == entries.len() - 1 {
        assert(after.drop_last() =~= entries.drop_last());
    } else {
        assert(after.drop_last() =~= entries.drop_last().update(i, (entries[i].0, count)));
        lemma_multiplicity_update(entries.drop_last(), i, count, row);
    }
}

/// Leaving one entry out.
proof fn lemma_multiplicity_remove(
    entries: Seq<(Seq<ScalarView>, int)>,
    i: int,
    row: Seq<ScalarView>,
)
    requires
        0 <= i < entries.len(),
    ensures
        multiplicity(entries.remove(i), row) == multiplicity(entries, row) - if values::same_row(
            entries[i].0,
            row,
        ) {
            entries[i].1
        } else {
            0
        },
    decreases entries.len(),
{
    let after = entries.remove(i);
    if i == entries.len() - 1 {
        assert(after =~= entries.drop_last());
    } else {
        assert(after.drop_last() =~= entries.drop_last().remove(i));
        assert(after.last() == entries.last());
        lemma_multiplicity_remove(entries.drop_last(), i, row);
    }
}

/// A materialized view: its rows, how often each occurs, and its watermark.
pub struct MaterializedViewHandle {
    name: String,
    state: Vec<(Row, Diff)>,
    watermark: Option<Timestamp>,
}

impl MaterializedViewHandle {
    /// The name of the view.
    pub closed spec fn view_name(&self) -> Seq<char> {
        self.name@
    }

    /// The rows of the view and how often each occurs.
    pub closed spec fn rows(&self) -> Seq<(Seq<ScalarView>, int)> {
        counted(self.state@)
    }

    /// The watermark of the view.
    pub closed spec fn view_watermark(&self) -> Option<Timestamp> {
        self.watermark
    }

    /// Each row occurs in one entry, and not zero times.
    #[verifier::type_invariant]
    spec fn rows_are_distinct(self) -> bool {
        distinct_rows(counted(self.state@)) && no_zeros(counted(self.state@))
    }

    /// A view without rows.
    pub fn new(name: String) -> (view: Self)
        ensures
            view.view_name() == name@,
            view.rows() == Seq::<(Seq<ScalarView>, int)>::empty(),
            view.view_watermark() is None,
    {
        let view = MaterializedViewHandle { name, state: Vec::new(), watermark: None };
        assert(view.rows() =~= Seq::<(Seq<ScalarView>, int)>::empty());
        view
    }

    /// The name of the view.
    pub fn name(&self) -> (name: &str)
        ensures
            name@ == self.view_name(),
    {
        self.name.as_str()
    }

    /// The position of a row.
    fn position(&self, row: &Row) -> (at: Option<usize>)
        ensures
            match at {
                Some(i) => i < self.rows().len() && values::same_row(
                    self.rows()[i as int].0,
                    values::row_view(row@),
                ),
                None => forall|i: int|
                    0 <= i < self.rows().len() ==> !values::same_row(
                        (#[trigger] self.rows()[i]).0,
                        values::row_view(row@),
                    ),
            },
    {
        let mut i: usize = 0;
        while i < self.state.len()
            invariant
                i <= self.state@.len(),
                forall|j: int|
                    0 <= j < i ==> !values::same_row(
                        (#[trigger] self.rows()[j]).0,
                        values::row_view(row@),
                    ),
            decreases self.state@.len() - i,
        {
            if rows_same(&self.state[i].0, row) {
                return Some(i);
            }
            i = i + 1;
        }
        None
    }

    /// Changes how often a row occurs; a row that occurs zero times is dropped.
    ///
    /// Nothing changes when the multiplicity does not fit into sixty-four bits.
    pub fn apply(&mut self, row: Row, diff: Diff) -> (fits: bool)
        ensures
            fits == (i64::MIN <= multiplicity(old(self).rows(), values::row_view(row@)) + diff
                <= i64::MAX),
            !fits ==> final(self).rows() == old(self).rows(),
            fits ==> forall|other: Seq<ScalarView>|
                #[trigger] multiplicity(final(self).rows(), other) == multiplicity(
                    old(self).rows(),
                    other,
                ) + if values::same_row(values::row_view(row@), other) {
                    diff as int
                } else {
                    0
                },
            distinct_rows(final(self).rows()),
            no_zeros(final(self).rows()),
            final(self).view_name() == old(self).view_name(),
            final(self).view_watermark() == old(self).view_watermark(),
    {
        proof {
            use_type_invariant(&*self);
        }
        let ghost before = self.rows();
        let ghost wanted = values::row_view(row@);
        let found = self.position(&row);
        proof {
            match found {
                Some(i) => {
                    lemma_multiplicity_at(before, i as int, wanted);
                },
                None => {
                    lemma_absent(before, wanted);
                },
            }
        }
        if diff == 0 {
            return true;
        }
        match found {
            Some(i) => {
                let sum: i128 = self.state[i].1 as i128 + diff as i128;
                if sum < i64::MIN as i128 || sum > i64::MAX as i128 {
                    return false;
                }
                let mut state: Vec<(Row, Diff)> = Vec::new();
                std::mem::swap(&mut state, &mut self.state);
                if sum == 0 {
                    state.remove(i);
                    proof {
                        let after = counted(state@);
                        assert(after =~= before.remove(i as int));
                        assert forall|a: int, b: int|
                            0 <= a < b < after.len() implies !values::same_row(
                            (#[trigger] after[a]).0,
                            (#[trigger] after[b]).0,
                        ) by {
                            let x = if a < i {
                                a
                            } else {
                                a + 1
                            };
                            let y = if b < i {
                                b
                            } else {
                                b + 1
                            };
                            assert(!values::same_row(before[x].0, before[y].0));
                        }
                        assert forall|other: Seq<ScalarView>|
                            #[trigger] multiplicity(after, other) == multiplicity(before, other)
                                + if values::same_row(wanted, other) {
                                diff as int
                            } else {
                                0
                            } by {
                            lemma_multiplicity_remove(before, i as int, other);
                            lemma_same_row(before[i as int].0, wanted, other);
                            lemma_same_row(wanted, before[i as int].0, other);
                        }
                    }
                } else {
                    let copy = clone_row(&state[i].0);
                    state.set(i, (copy, sum as i64));
                    proof {
                        let after = counted(state@);
                        assert(after =~= before.update(
                            i as int,
                            (before[i as int].0, sum as int),
                        ));
                        assert forall|a: int, b: int|
                            0 <= a < b < after.len() implies !values::same_row(
                            (#[trigger] after[a]).0,
                            (#[trigger] after[b]).0,
                        ) by {
                            assert(!values::same_row(before[a].0, before[b].0));
                        }
                        assert forall|other: Seq<ScalarView>|
                            #[trigger] multiplicity(after, other) == multiplicity(before, other)
                                + if values::same_row(wanted, other) {
                                diff as int
                            } else {
                                0
                            } by {
                            lemma_multiplicity_update(before, i as int, sum as int, other);
                            lemma_same_row(before[i as int].0, wanted, other);
                            lemma_same_row(wanted, before[i as int].0, other);
                        }
                    }
                }
                self.state = state;
                true
            },
            None => {
                let mut state: Vec<(Row, Diff)> = Vec::new();
                std::mem::swap(&mut state, &mut self.state);
                state.push((row, diff));
                proof {
                    let after = counted(state@);
                    assert(after =~= before.push((wanted, diff as int)));
                    assert forall|a: int, b: int|
                        0 <= a < b < after.len() implies !values::same_row(
                        (#[trigger] after[a]).0,
                        (#[trigger] after[b]).0,
                    ) by {
                        if b < before.len() {
                            assert(!values::same_row(before[a].0, before[b].0));
                        } else {
                            assert(!values::same_row(before[a].0, wanted));
                        }
                    }
                    assert(after.drop_last() =~= before);
                }
                self.state = state;
                true
            },
        }
    }

    /// Moves the watermark.
    pub fn update_watermark(&mut self, watermark: Timestamp)
        ensures
            final(self).view_watermark() == Some(watermark),
            final(self).rows() == old(self).rows(),
            final(self).view_name() == old(self).view_name(),
    {
        proof {
            use_type_invariant(&*self);
        }
        self.watermark = Some(watermark);
    }

    /// The watermark.
    pub fn watermark(&self) -> (watermark: Option<Timestamp>)
        ensures
            watermark == self.view_watermark(),
    {
        self.watermark
    }

    /// The rows and how often each occurs.
    pub fn snapshot(&self) -> (rows: &Vec<(Row, Diff)>)
        ensures
            counted(rows@) == self.rows(),
            distinct_rows(self.rows()),
            no_zeros(self.rows()),
    {
        proof {
            use_type_invariant(self);
        }
        &self.state
    }
}

/// The names of some views.
pub open spec fn view_names(views: Seq<MaterializedViewHandle>) -> Seq<Seq<char>> {
    Seq::new(views.len(), |i: int| views[i].view_name())
}

/// The first view of a name among the first `n`.
pub open spec fn first_named(names: Seq<Seq<char>>, name: Seq<char>, n: nat) -> Option<nat>
    decreases n,
{
    if n == 0 {
        None
    } else {
        match first_named(names, name, (n - 1) as nat) {
            Some(i) => Some(i),
            None => if names[n - 1] == name {
                Some((n - 1) as nat)
            } else {
                None
            },
        }
    }
}

/// What is found among fewer names is found among more.
pub proof fn lemma_first_named_stays(names: Seq<Seq<char>>, name: Seq<char>, n: nat, m: nat)
    requires
        n <= m,
        first_named(names, name, n) is Some,
    ensures
        first_named(names, name, m) == first_named(names, name, n),
    decreases m,
{
    if n < m {
        lemma_first_named_stays(names, name, n, (m - 1) as nat);
    }
}

/// A found name is the name.
pub proof fn lemma_first_named_is(names: Seq<Seq<char>>, name: Seq<char>, n: nat)
    ensures
        first_named(names, name, n) matches Some(at) ==> at < n && names[at as int] == name,
    decreases n,
{
    if n > 0 {
        lemma_first_named_is(names, name, (n - 1) as nat);
    }
}

/// Names after the first `n` do not matter.
pub proof fn lemma_first_named_prefix(
    names: Seq<Seq<char>>,
    more: Seq<Seq<char>>,
    name: Seq<char>,
    n: nat,
)
    requires
        n <= names.len(),
        n <= more.len(),
        forall|i: int| 0 <= i < n ==> names[i] == more[i],
    ensures
        first_named(more, name, n) == first_named(names, name, n),
    decreases n,
{
    if n > 0 {
        lemma_first_named_prefix(names, more, name, (n - 1) as nat);
    }
}

/// The materialized views by their names.
pub struct MaterializedViewRegistry {
    views: Vec<MaterializedViewHandle>,
}

impl MaterializedViewRegistry {
    /// The views in the order of their registration.
    pub closed spec fn views(&self) -> Seq<MaterializedViewHandle> {
        self.views@
    }

    /// A registry without views.
    pub fn new() -> (registry: Self)
        ensures
            registry.views() == Seq::<MaterializedViewHandle>::empty(),
    {
        MaterializedViewRegistry { views: Vec::new() }
    }

    /// The position of the view of a name.
    pub fn get(&self, name: &str) -> (found: Option<usize>)
        ensures
            match found {
                Some(at) => at < self.views().len() && first_named(
                    view_names(self.views()),
                    name@,
                    self.views().len(),
                ) == Some(at as nat),
                None => first_named(
                    view_names(self.views()),
                    name@,
                    self.views().len(),
                ) is None,
            },
    {
        let ghost names = view_names(self.views@);
        let mut i: usize = 0;
        while i < self.views.len()
            invariant
                i <= self.views@.len(),
                names == view_names(self.views@),
                first_named(names, name@, i as nat) is None,
            decreases self.views@.len() - i,
        {
            if same_text(self.views[i].name(), name) {
                proof {
                    lemma_first_named_stays(names, name@, (i + 1) as nat, self.views@.len());
                }
                return Some(i);
            }
            i = i + 1;
        }
        None
    }

    /// The position of the view of a name, which is made where there is none.
    pub fn register(&mut self, name: String) -> (at: usize)
        ensures
            match first_named(view_names(old(self).views()), name@, old(self).views().len()) {
                Some(found) => at == found && final(self).views() == old(self).views(),
                None => {
                    &&& at == old(self).views().len()
                    &&& final(self).views().len() == at + 1
                    &&& final(self).views().drop_last() == old(self).views()
                    &&& final(self).views()[at as int].view_name() == name@
                    &&& final(self).views()[at as int].rows() == Seq::<
                        (Seq<ScalarView>, int),
                    >::empty()
                    &&& final(self).views()[at as int].view_watermark() is None
                },
            },
            first_named(
                view_names(final(self).views()),
                name@,
                final(self).views().len(),
            ) == Some(at as nat),
    {
        match self.get(name.as_str()) {
            Some(found) => found,
            None => {
                let at: usize = self.views.len();
                let ghost before = self.views@;
                let ghost wanted = name@;
                self.views.push(MaterializedViewHandle::new(name));
                proof {
                    assert(self.views@.drop_last() =~= before);
                    lemma_first_named_prefix(
                        view_names(before),
                        view_names(self.views@),
                        wanted,
                        at as nat,
                    );
                }
                at
            },
        }
    }

    /// A view by its position.
    pub fn view(&self, at: usize) -> (view: &MaterializedViewHandle)
        requires
            at < self.views().len(),
        ensures
            *view == self.views()[at as int],
    {
        &self.views[at]
    }

    /// A view by its position, to be changed.
    pub fn view_mut(&mut self, at: usize) -> (view: &mut MaterializedViewHandle)
        requires
            at < old(self).views().len(),
        ensures
            *view == old(self).views()[at as int],
            final(self).views() == old(self).views().update(at as int, *final(view)),
    {
        &mut self.views[at]
    }
}

} // verus!
