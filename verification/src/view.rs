//! The aggregation query over the store and the grouping of its rows by
//! target.

use crate::store::{has_id, row_views, HistoryStore, RowView, StatusRow};
use vstd::prelude::*;

verus! {

/// How many outcomes per target the display shows.
pub const DISPLAY_WINDOW: usize = 10;

/// A run of consecutive rows: those at the indices `start..end`.
#[derive(Clone, Copy, Debug, PartialEq, Eq, Structural)]
pub struct RowGroup {
    pub start: usize,
    pub end: usize,
}

/// The bounds of `groups` as pairs of start and end.
pub open spec fn group_bounds(groups: Seq<RowGroup>) -> Seq<(int, int)> {
    groups.map_values(|g: RowGroup| (g.start as int, g.end as int))
}

/// The maximal runs of consecutive rows with one identifier, as pairs of
/// start and end, in order: a row goes into the run of the row before it
/// where the two share their identifier, and opens a run of its own where
/// they do not.
pub open spec fn runs_of(rows: Seq<RowView>) -> Seq<(int, int)>
    decreases rows.len(),
{
    if rows.len() == 0 {
        Seq::empty()
    } else {
        let before = runs_of(rows.drop_last());
        let at = rows.len() - 1;
        if at > 0 && rows[at - 1].id == rows[at].id {
            before.update(before.len() - 1, (before.last().0, at + 1))
        } else {
            before.push((at, at + 1))
        }
    }
}

/// The runs cover the rows without gap or overlap, none is empty, the rows of
/// a run share their identifier, and a run ends where the identifier changes.
pub proof fn lemma_runs_of(rows: Seq<RowView>)
    ensures
        runs_of(rows).len() == 0 <==> rows.len() == 0,
        rows.len() > 0 ==> runs_of(rows)[0].0 == 0 && runs_of(rows).last().1 == rows.len(),
        forall|g: int|
            0 <= g < runs_of(rows).len() ==> 0 <= (#[trigger] runs_of(rows)[g]).0 < runs_of(
                rows,
            )[g].1 <= rows.len(),
        forall|g: int, h: int|
            0 <= g < runs_of(rows).len() && h == g + 1 && h < runs_of(rows).len() ==> (
            #[trigger] runs_of(rows)[g]).1 == (#[trigger] runs_of(rows)[h]).0,
        forall|g: int, r: int|
            0 <= g < runs_of(rows).len() && (#[trigger] runs_of(rows)[g]).0 <= r < runs_of(
                rows,
            )[g].1 ==> (#[trigger] rows[r]).id == rows[runs_of(rows)[g].0].id,
        forall|g: int|
            0 < g < runs_of(rows).len() ==> rows[(#[trigger] runs_of(rows)[g]).0 - 1].id
                != rows[runs_of(rows)[g].0].id,
    decreases rows.len(),
{
    if rows.len() > 0 {
        let init = rows.drop_last();
        let before = runs_of(init);
        let runs = runs_of(rows);
        let at = rows.len() - 1;
        lemma_runs_of(init);
        assert forall|g: int, r: int|
            0 <= g < runs.len() && (#[trigger] runs[g]).0 <= r < runs[g].1 implies (
        #[trigger] rows[r]).id == rows[runs[g].0].id by {
            if g < before.len() {
                assert(before[g].0 <= before[g].1);
                assert(runs[g].0 == before[g].0);
                assert(rows[runs[g].0] == init[before[g].0]);
                if r < at {
                    assert(rows[r] == init[r]);
                    assert(before[g].0 <= r < before[g].1);
                } else {
                    assert(rows[at - 1] == init[at - 1]);
                    assert(before[g].0 <= at - 1 < before[g].1);
                }
            }
        }
        assert forall|g: int| 0 < g < runs.len() implies rows[(#[trigger] runs[g]).0 - 1].id
            != rows[runs[g].0].id by {
            if g < before.len() {
                assert(runs[g].0 == before[g].0);
                assert(before[g].0 < before[g].1 <= init.len());
                assert(before[g - 1].0 < before[g - 1].1 && before[g - 1].1 == before[g].0);
                assert(rows[runs[g].0] == init[before[g].0]);
                assert(rows[runs[g].0 - 1] == init[before[g].0 - 1]);
            }
        }
        assert forall|g: int, h: int|
            0 <= g < runs.len() && h == g + 1 && h < runs.len() implies (#[trigger] runs[g]).1 == (
        #[trigger] runs[h]).0 by {
            if h < before.len() {
                assert(runs[g] == before[g]);
                assert(runs[h].0 == before[h].0);
            } else {
                assert(runs[g] == before[g]);
            }
        }
    }
}

/// Groups rows into the maximal runs of consecutive rows of one target.
pub fn group_by_target(rows: &Vec<StatusRow>) -> (groups: Vec<RowGroup>)
    ensures
        group_bounds(groups@) == runs_of(row_views(rows@)),
        forall|g: int|
            0 <= g < groups@.len() ==> (#[trigger] groups@[g]).start < groups@[g].end
                <= rows@.len(),
{
    let mut groups: Vec<RowGroup> = Vec::new();
    let mut i: usize = 0;
    proof {
        assert(row_views(rows@).take(0) =~= Seq::<RowView>::empty());
        assert(group_bounds(groups@) =~= runs_of(row_views(rows@).take(0)));
    }
    while i < rows.len()
        invariant
            i <= rows@.len(),
            group_bounds(groups@) == runs_of(row_views(rows@).take(i as int)),
            forall|g: int|
                0 <= g < groups@.len() ==> (#[trigger] groups@[g]).start < groups@[g].end <= i,
        decreases rows@.len() - i,
    {
        let ghost views = row_views(rows@);
        let ghost before = groups@;
        proof {
            assert(views.take(i + 1).drop_last() =~= views.take(i as int));
            lemma_runs_of(views.take(i as int));
            assert(views.take(i + 1)[i as int] == rows@[i as int]@);
            if i > 0 {
                assert(views.take(i + 1)[i - 1] == rows@[i - 1]@);
                assert(group_bounds(before).len() > 0);
                assert(group_bounds(before).last() == (
                    before.last().start as int,
                    before.last().end as int,
                ));
            }
        }
        if i > 0 && rows[i - 1].id == rows[i].id {
            let last = groups.len() - 1;
            let start = groups[last].start;
            groups.set(last, RowGroup { start, end: i + 1 });
            proof {
                assert(group_bounds(groups@) =~= group_bounds(before).update(
                    before.len() - 1,
                    (start as int, i + 1),
                ));
            }
        } else {
            groups.push(RowGroup { start: i, end: i + 1 });
            proof {
                assert(group_bounds(groups@) =~= group_bounds(before).push((i as int, i + 1)));
            }
        }
        i = i + 1;
    }
    proof {
        assert(row_views(rows@).take(rows@.len() as int) =~= row_views(rows@));
    }
    groups
}

/// The rows that the display shows: for each registered target, in order of
/// identifier, its `DISPLAY_WINDOW` newest outcomes, newest first.
pub fn list_statuses(store: &HistoryStore) -> (rows: Vec<StatusRow>)
    requires
        store.wf(),
    ensures
        row_views(rows@) == store@.recent_rows(DISPLAY_WINDOW as nat),
        forall|id: int| #[trigger] row_views(rows@).filter(has_id(id)).len() <= DISPLAY_WINDOW,
        forall|a: int, b: int|
            0 <= a < b < rows@.len() && rows@[a].id == rows@[b].id ==> rows@[a].poll_time
                >= rows@[b].poll_time,
{
    store.recent_outcomes(DISPLAY_WINDOW)
}

} // verus!
