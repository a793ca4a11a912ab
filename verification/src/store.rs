//! The history store: a registry of monitored targets and an append-only log
//! of check outcomes, with the query for each target's most recent outcomes.

use crate::history::{
    history_of, is_newest_first, lemma_latest_ranks_first, lemma_recent_bounded_and_ordered,
    of_target, recent_in_log, recent_of, CheckOutcome,
};
use vstd::prelude::*;

verus! {

/// A monitored endpoint as the registry holds it.
#[derive(Clone, Debug)]
pub struct Target {
    pub id: i64,
    pub name: String,
    pub public_url: String,
    pub polling_url: String,
}

/// What a `Target` stands for in contracts.
pub struct TargetView {
    pub id: int,
    pub name: Seq<char>,
    pub public_url: Seq<char>,
    pub polling_url: Seq<char>,
}

impl View for Target {
    type V = TargetView;

    open spec fn view(&self) -> TargetView {
        TargetView {
            id: self.id as int,
            name: self.name@,
            public_url: self.public_url@,
            polling_url: self.polling_url@,
        }
    }
}

/// One row of the recent-history view: an outcome joined with its target.
#[derive(Clone, Debug)]
pub struct StatusRow {
    pub id: i64,
    pub public_url: String,
    pub name: String,
    pub last_status: i64,
    pub poll_time: i64,
}

/// What a `StatusRow` stands for in contracts.
pub struct RowView {
    pub id: int,
    pub public_url: Seq<char>,
    pub name: Seq<char>,
    pub last_status: int,
    pub poll_time: int,
}

impl View for StatusRow {
    type V = RowView;

    open spec fn view(&self) -> RowView {
        RowView {
            id: self.id as int,
            public_url: self.public_url@,
            name: self.name@,
            last_status: self.last_status as int,
            poll_time: self.poll_time as int,
        }
    }
}

/// Why the store refused a write.
#[derive(Clone, Copy, Debug, PartialEq, Eq, Structural)]
pub enum StorageError {
    /// The outcome names a target that is not registered.
    UnknownTarget,
    /// No further identifier can be assigned.
    RegistryFull,
}

/// The views of `targets`, in order.
pub open spec fn target_views(targets: Seq<Target>) -> Seq<TargetView> {
    targets.map_values(|t: Target| t@)
}

/// The views of `rows`, in order.
pub open spec fn row_views(rows: Seq<StatusRow>) -> Seq<RowView> {
    rows.map_values(|r: StatusRow| r@)
}

/// The URL that is checked: the polling URL where one is given, else the
/// public URL.
pub open spec fn resolved_url(public_url: Seq<char>, polling_url: Option<Seq<char>>) -> Seq<char> {
    match polling_url {
        Some(url) => url,
        None => public_url,
    }
}

/// What an optional URL stands for in contracts.
pub open spec fn optional_url(url: Option<String>) -> Option<Seq<char>> {
    match url {
        Some(url) => Some(url@),
        None => None,
    }
}

/// The result of a registration with its identifier as a mathematical integer.
pub open spec fn id_result(result: Result<i64, StorageError>) -> Result<int, StorageError> {
    match result {
        Ok(id) => Ok(id as int),
        Err(e) => Err(e),
    }
}

/// The row that joins outcome `o` with its target `t`.
pub open spec fn row_of(t: TargetView, o: CheckOutcome) -> RowView {
    RowView {
        id: t.id,
        public_url: t.public_url,
        name: t.name,
        last_status: o.status_code as int,
        poll_time: o.observed_at as int,
    }
}

/// Two records stand for the same endpoint: they share public URL and name.
pub open spec fn same_identity(a: TargetView, b: TargetView) -> bool {
    a.public_url == b.public_url && a.name == b.name
}

/// The predicate "is a row of target `id`".
pub open spec fn has_id(id: int) -> spec_fn(RowView) -> bool {
    |r: RowView| r.id == id
}

/// What a `HistoryStore` stands for in contracts: the registry in order of
/// registration and the log in order of appending.
pub struct StoreModel {
    pub targets: Seq<TargetView>,
    pub log: Seq<CheckOutcome>,
}

impl StoreModel {
    /// Identifiers count up from 1 in order of registration, no two targets
    /// share public URL and name, and every outcome names a registered target.
    pub open spec fn wf(self) -> bool {
        &&& self.targets.len() <= i64::MAX
        &&& forall|i: int| 0 <= i < self.targets.len() ==> (#[trigger] self.targets[i]).id == i + 1
        &&& forall|i: int, j: int|
            0 <= i < j < self.targets.len() ==> !same_identity(
                #[trigger] self.targets[i],
                #[trigger] self.targets[j],
            )
        &&& forall|j: int|
            0 <= j < self.log.len() ==> 1 <= (#[trigger] self.log[j]).target_id
                <= self.targets.len()
    }

    /// The target at index `i` is the one with this public URL and name.
    pub open spec fn identifies(self, i: int, public_url: Seq<char>, name: Seq<char>) -> bool {
        0 <= i < self.targets.len() && self.targets[i].public_url == public_url
            && self.targets[i].name == name
    }

    /// Some target has this public URL and name.
    pub open spec fn is_registered(self, public_url: Seq<char>, name: Seq<char>) -> bool {
        exists|i: int| self.identifies(i, public_url, name)
    }

    /// The identifier of the target with this public URL and name.
    pub open spec fn id_of(self, public_url: Seq<char>, name: Seq<char>) -> int
        recommends
            self.is_registered(public_url, name),
    {
        (choose|i: int| self.identifies(i, public_url, name)) + 1
    }

    /// The store and the result after registering a target: the identifier it
    /// already has, or the next one with a new record.
    pub open spec fn register(
        self,
        name: Seq<char>,
        public_url: Seq<char>,
        polling_url: Option<Seq<char>>,
    ) -> (StoreModel, Result<int, StorageError>) {
        if self.is_registered(public_url, name) {
            (self, Ok(self.id_of(public_url, name)))
        } else if self.targets.len() >= i64::MAX {
            (self, Err(StorageError::RegistryFull))
        } else {
            let id = self.targets.len() as int + 1;
            let target = TargetView {
                id,
                name,
                public_url,
                polling_url: resolved_url(public_url, polling_url),
            };
            (StoreModel { targets: self.targets.push(target), log: self.log }, Ok(id))
        }
    }

    /// The store and the result after appending `outcome`.
    pub open spec fn record(self, outcome: CheckOutcome) -> (StoreModel, Result<(), StorageError>) {
        if 1 <= outcome.target_id <= self.targets.len() {
            (StoreModel { targets: self.targets, log: self.log.push(outcome) }, Ok(()))
        } else {
            (self, Err(StorageError::UnknownTarget))
        }
    }

    /// The rows of the target at index `i`: its `k` newest outcomes, newest first.
    pub open spec fn rows_of(self, i: int, k: nat) -> Seq<RowView> {
        recent_of(self.log, self.targets[i].id, k).map_values(
            |o: CheckOutcome| row_of(self.targets[i], o),
        )
    }

    /// The rows of the first `n` targets, target after target.
    pub open spec fn rows_through(self, n: nat, k: nat) -> Seq<RowView>
        decreases n,
    {
        if n == 0 {
            Seq::empty()
        } else {
            self.rows_through((n - 1) as nat, k) + self.rows_of(n - 1, k)
        }
    }

    /// The recent-history view: for each target in order of identifier its
    /// `k` newest outcomes, newest first. A target without outcomes has no row.
    pub open spec fn recent_rows(self, k: nat) -> Seq<RowView> {
        self.rows_through(self.targets.len(), k)
    }
}

/// Filtering by a predicate that holds of every entry keeps the sequence.
proof fn lemma_filter_keeps_all(rows: Seq<RowView>, pred: spec_fn(RowView) -> bool)
    requires
        forall|i: int| 0 <= i < rows.len() ==> pred(#[trigger] rows[i]),
    ensures
        rows.filter(pred) == rows,
    decreases rows.len(),
{
    reveal(Seq::filter);
    if rows.len() > 0 {
        lemma_filter_keeps_all(rows.drop_last(), pred);
        assert(rows.drop_last().push(rows.last()) =~= rows);
    }
}

/// Filtering by a predicate that holds of no entry leaves nothing.
proof fn lemma_filter_drops_all(rows: Seq<RowView>, pred: spec_fn(RowView) -> bool)
    requires
        forall|i: int| 0 <= i < rows.len() ==> !pred(#[trigger] rows[i]),
    ensures
        rows.filter(pred) == Seq::<RowView>::empty(),
    decreases rows.len(),
{
    reveal(Seq::filter);
    if rows.len() > 0 {
        lemma_filter_drops_all(rows.drop_last(), pred);
    } else {
        assert(rows =~= Seq::<RowView>::empty());
    }
}

/// The rows of one target are at most `k`, carry its identifier, and are
/// ordered latest first.
pub proof fn lemma_rows_of(s: StoreModel, i: int, k: nat)
    requires
        s.wf(),
        0 <= i < s.targets.len(),
    ensures
        s.rows_of(i, k).len() <= k,
        s.rows_of(i, k).len() == recent_of(s.log, i + 1, k).len(),
        forall|a: int| 0 <= a < s.rows_of(i, k).len() ==> (#[trigger] s.rows_of(i, k)[a]).id == i + 1,
        forall|a: int, b: int|
            0 <= a < b < s.rows_of(i, k).len() ==> s.rows_of(i, k)[a].poll_time >= s.rows_of(
                i,
                k,
            )[b].poll_time,
{
    assert(s.targets[i].id == i + 1);
    lemma_recent_bounded_and_ordered(history_of(s.log, i + 1), k);
}

/// In the rows of the first `n` targets every identifier is one of theirs,
/// identifiers never decrease, and the rows of one target are ordered latest
/// first.
pub proof fn lemma_rows_through(s: StoreModel, n: nat, k: nat)
    requires
        s.wf(),
        n <= s.targets.len(),
    ensures
        forall|a: int|
            0 <= a < s.rows_through(n, k).len() ==> 1 <= (#[trigger] s.rows_through(n, k)[a]).id
                <= n,
        forall|a: int, b: int|
            0 <= a < b < s.rows_through(n, k).len() ==> s.rows_through(n, k)[a].id
                <= s.rows_through(n, k)[b].id,
        forall|a: int, b: int|
            0 <= a < b < s.rows_through(n, k).len() && s.rows_through(n, k)[a].id
                == s.rows_through(n, k)[b].id ==> s.rows_through(n, k)[a].poll_time
                >= s.rows_through(n, k)[b].poll_time,
    decreases n,
{
    if n > 0 {
        let before = s.rows_through((n - 1) as nat, k);
        let group = s.rows_of(n - 1, k);
        let rows = s.rows_through(n, k);
        lemma_rows_through(s, (n - 1) as nat, k);
        lemma_rows_of(s, n - 1, k);
        assert(rows == before + group);
        assert forall|a: int| 0 <= a < rows.len() implies 1 <= (#[trigger] rows[a]).id <= n by {
            if a < before.len() {
                assert(rows[a] == before[a]);
            } else {
                assert(rows[a] == group[a - before.len()]);
            }
        }
        assert forall|a: int, b: int| 0 <= a < b < rows.len() implies rows[a].id <= rows[b].id
            && (rows[a].id == rows[b].id ==> rows[a].poll_time >= rows[b].poll_time) by {
            if b < before.len() {
                assert(rows[a] == before[a] && rows[b] == before[b]);
            } else if a < before.len() {
                assert(rows[a] == before[a] && rows[b] == group[b - before.len()]);
            } else {
                assert(rows[a] == group[a - before.len()] && rows[b] == group[b - before.len()]);
            }
        }
    }
}

/// Of the rows of the first `n` targets, those of one target are its `k`
/// newest outcomes, newest first, and no others.
pub proof fn lemma_rows_through_of_target(s: StoreModel, n: nat, id: int, k: nat)
    requires
        s.wf(),
        n <= s.targets.len(),
    ensures
        s.rows_through(n, k).filter(has_id(id)) == if 1 <= id <= n {
            s.rows_of(id - 1, k)
        } else {
            Seq::<RowView>::empty()
        },
    decreases n,
{
    if n == 0 {
        lemma_filter_drops_all(s.rows_through(n, k), has_id(id));
    } else {
        let before = s.rows_through((n - 1) as nat, k);
        let group = s.rows_of(n - 1, k);
        lemma_rows_through_of_target(s, (n - 1) as nat, id, k);
        lemma_rows_of(s, n - 1, k);
        Seq::filter_distributes_over_add(before, group, has_id(id));
        if id == n {
            lemma_filter_keeps_all(group, has_id(id));
            assert(Seq::<RowView>::empty() + group =~= group);
        } else {
            lemma_filter_drops_all(group, has_id(id));
            assert(before.filter(has_id(id)) + Seq::<RowView>::empty() =~= before.filter(
                has_id(id),
            ));
        }
    }
}

/// The recent-history view holds at most `k` rows of any one target, and the
/// rows of one target are ordered latest first.
pub proof fn lemma_recent_rows_bounded_and_ordered(s: StoreModel, k: nat)
    requires
        s.wf(),
    ensures
        forall|id: int| #[trigger] s.recent_rows(k).filter(has_id(id)).len() <= k,
        forall|a: int, b: int|
            0 <= a < b < s.recent_rows(k).len() && s.recent_rows(k)[a].id == s.recent_rows(
                k,
            )[b].id ==> s.recent_rows(k)[a].poll_time >= s.recent_rows(k)[b].poll_time,
{
    lemma_rows_through(s, s.targets.len(), k);
    assert forall|id: int| #[trigger] s.recent_rows(k).filter(has_id(id)).len() <= k by {
        lemma_rows_through_of_target(s, s.targets.len(), id, k);
        if 1 <= id <= s.targets.len() {
            lemma_rows_of(s, id - 1, k);
        }
    }
}

/// Registering the same public URL and name twice gives the same result both
/// times, the second registration changes nothing, and the store then holds
/// exactly one record with that public URL and name.
pub proof fn lemma_register_twice(
    s: StoreModel,
    name: Seq<char>,
    public_url: Seq<char>,
    first_polling_url: Option<Seq<char>>,
    second_polling_url: Option<Seq<char>>,
)
    requires
        s.wf(),
    ensures
        ({
            let (once, first) = s.register(name, public_url, first_polling_url);
            let (twice, second) = once.register(name, public_url, second_polling_url);
            &&& once.wf()
            &&& second == first
            &&& twice == once
            &&& first matches Ok(id) ==> once.identifies(id - 1, public_url, name) && forall|i: int|
                once.identifies(i, public_url, name) ==> i == id - 1
        }),
{
    let (once, first) = s.register(name, public_url, first_polling_url);
    if s.is_registered(public_url, name) {
        let c = choose|c: int| s.identifies(c, public_url, name);
        assert forall|i: int| s.identifies(i, public_url, name) implies i == c by {
            assert(same_identity(s.targets[i], s.targets[c]));
        }
    } else if s.targets.len() < i64::MAX {
        let n = s.targets.len() as int;
        assert(once.identifies(n, public_url, name));
        assert forall|i: int| once.identifies(i, public_url, name) implies i == n by {
            if i < n {
                assert(s.identifies(i, public_url, name));
            }
        }
        assert forall|i: int, j: int| 0 <= i < j < once.targets.len() implies !same_identity(
            #[trigger] once.targets[i],
            #[trigger] once.targets[j],
        ) by {
            assert(once.targets[i] == s.targets[i]);
            if j < n {
                assert(once.targets[j] == s.targets[j]);
            } else {
                assert(!s.identifies(i, public_url, name));
            }
        }
        let c = choose|c: int| once.identifies(c, public_url, name);
        assert(c == n);
    }
}

/// An outcome recorded for a registered target, no older than any outcome
/// that the target has, is the target's first row in every recent-history
/// view of one row or more per target.
pub proof fn lemma_recorded_is_newest(s: StoreModel, o: CheckOutcome, k: nat)
    requires
        s.wf(),
        1 <= o.target_id <= s.targets.len(),
        k >= 1,
        forall|j: int|
            0 <= j < s.log.len() && (#[trigger] s.log[j]).target_id == o.target_id
                ==> s.log[j].observed_at <= o.observed_at,
    ensures
        s.record(o).1 is Ok,
        s.record(o).0.wf(),
        s.record(o).0.recent_rows(k).filter(has_id(o.target_id as int)).len() >= 1,
        s.record(o).0.recent_rows(k).filter(has_id(o.target_id as int))[0] == row_of(
            s.targets[o.target_id - 1],
            o,
        ),
{
    let after = s.record(o).0;
    let id = o.target_id as int;
    let before = history_of(s.log, id);
    s.log.lemma_filter_push(o, of_target(id));
    assert(history_of(after.log, id) == before.push(o));
    assert forall|i: int| 0 <= i < before.len() implies before[i].observed_at
        <= o.observed_at by {
        s.log.lemma_filter_contains_rev(of_target(id), before[i]);
        s.log.lemma_filter_pred(of_target(id), i);
        let j = choose|j: int| 0 <= j < s.log.len() && s.log[j] == before[i];
        assert(s.log[j].target_id == o.target_id);
    }
    lemma_latest_ranks_first(before, o);
    lemma_rows_through_of_target(after, after.targets.len(), id, k);
    assert(after.targets[id - 1].id == id);
}

/// The registry and the log, held in memory.
#[derive(Debug)]
pub struct HistoryStore {
    targets: Vec<Target>,
    outcomes: Vec<CheckOutcome>,
}

impl View for HistoryStore {
    type V = StoreModel;

    closed spec fn view(&self) -> StoreModel {
        StoreModel { targets: target_views(self.targets@), log: self.outcomes@ }
    }
}

impl HistoryStore {
    /// The store's invariant.
    pub open spec fn wf(&self) -> bool {
        self@.wf()
    }

    /// An empty store.
    pub fn new() -> (store: HistoryStore)
        ensures
            store.wf(),
            store@.targets.len() == 0,
            store@.log.len() == 0,
    {
        HistoryStore { targets: Vec::new(), outcomes: Vec::new() }
    }

    /// The registered targets, in order of identifier.
    pub fn targets(&self) -> (targets: &Vec<Target>)
        ensures
            target_views(targets@) == self@.targets,
    {
        &self.targets
    }

    /// The log, in the order in which the outcomes were appended.
    pub fn outcomes(&self) -> (outcomes: &Vec<CheckOutcome>)
        ensures
            outcomes@ == self@.log,
    {
        &self.outcomes
    }

    /// The index of the target with this public URL and name.
    fn find(&self, public_url: &String, name: &String) -> (found: Option<usize>)
        ensures
            match found {
                Some(i) => self@.identifies(i as int, public_url@, name@),
                None => !self@.is_registered(public_url@, name@),
            },
    {
        let mut i: usize = 0;
        while i < self.targets.len()
            invariant
                i <= self.targets@.len(),
                forall|j: int| 0 <= j < i ==> !self@.identifies(j, public_url@, name@),
            decreases self.targets@.len() - i,
        {
            if self.targets[i].public_url == *public_url && self.targets[i].name == *name {
                return Some(i);
            }
            i = i + 1;
        }
        None
    }

    /// Registers a target and returns its identifier. A target with the same
    /// public URL and name that is already registered keeps its identifier
    /// and its record; nothing is added.
    pub fn register_target(
        &mut self,
        name: String,
        public_url: String,
        polling_url: Option<String>,
    ) -> (result: Result<i64, StorageError>)
        requires
            old(self).wf(),
        ensures
            final(self).wf(),
            final(self)@ == old(self)@.register(name@, public_url@, optional_url(polling_url)).0,
            id_result(result) == old(self)@.register(
                name@,
                public_url@,
                optional_url(polling_url),
            ).1,
            result is Ok <==> old(self)@.is_registered(public_url@, name@) || old(
                self,
            )@.targets.len() < i64::MAX,
    {
        match self.find(&public_url, &name) {
            Some(i) => {
                proof {
                    let chosen = choose|c: int| self@.identifies(c, public_url@, name@);
                    assert(self@.identifies(i as int, public_url@, name@));
                    assert(same_identity(self@.targets[chosen], self@.targets[i as int]));
                }
                Ok(self.targets[i].id)
            },
            None => {
                if self.targets.len() as u64 >= i64::MAX as u64 {
                    Err(StorageError::RegistryFull)
                } else {
                    let id = self.targets.len() as i64 + 1;
                    let polling = match polling_url {
                        Some(url) => url,
                        None => public_url.clone(),
                    };
                    let target = Target { id, name, public_url, polling_url: polling };
                    let ghost before = self@;
                    self.targets.push(target);
                    proof {
                        assert(self@.targets =~= before.targets.push(target@));
                        assert forall|i: int, j: int|
                            0 <= i < j < self@.targets.len() implies !same_identity(
                            #[trigger] self@.targets[i],
                            #[trigger] self@.targets[j],
                        ) by {
                            assert(self@.targets[i] == before.targets[i]);
                            if j < before.targets.len() {
                                assert(self@.targets[j] == before.targets[j]);
                            } else {
                                assert(!before.identifies(i, public_url@, name@));
                            }
                        }
                    }
                    Ok(id)
                }
            },
        }
    }

    /// Appends one outcome to the log. An outcome of a target that is not
    /// registered is refused and the log stays as it is.
    pub fn record_outcome(&mut self, target_id: i64, status_code: i64, observed_at: i64) -> (result:
        Result<(), StorageError>)
        requires
            old(self).wf(),
        ensures
            final(self).wf(),
            final(self)@ == old(self)@.record(
                CheckOutcome { target_id, status_code, observed_at },
            ).0,
            result == old(self)@.record(CheckOutcome { target_id, status_code, observed_at }).1,
            result is Ok <==> 1 <= target_id <= old(self)@.targets.len(),
    {
        if 1 <= target_id && target_id as u64 <= self.targets.len() as u64 {
            self.outcomes.push(CheckOutcome { target_id, status_code, observed_at });
            Ok(())
        } else {
            Err(StorageError::UnknownTarget)
        }
    }

    /// The `k` newest outcomes of one target, newest first.
    pub fn recent_for_target(&self, target_id: i64, k: usize) -> (kept: Vec<CheckOutcome>)
        ensures
            kept@ == recent_of(self@.log, target_id as int, k as nat),
            kept@.len() <= k,
            is_newest_first(kept@),
    {
        recent_in_log(&self.outcomes, target_id, k)
    }

    /// The recent-history view: for each registered target, in order of
    /// identifier, its `k` newest outcomes, newest first.
    pub fn recent_outcomes(&self, k: usize) -> (rows: Vec<StatusRow>)
        requires
            self.wf(),
        ensures
            row_views(rows@) == self@.recent_rows(k as nat),
            forall|id: int| #[trigger] row_views(rows@).filter(has_id(id)).len() <= k,
            forall|a: int, b: int|
                0 <= a < b < rows@.len() && rows@[a].id == rows@[b].id ==> rows@[a].poll_time
                    >= rows@[b].poll_time,
    {
        let mut rows: Vec<StatusRow> = Vec::new();
        let mut i: usize = 0;
        while i < self.targets.len()
            invariant
                i <= self.targets@.len(),
                row_views(rows@) == self@.rows_through(i as nat, k as nat),
            decreases self.targets@.len() - i,
        {
            let target = &self.targets[i];
            let kept = recent_in_log(&self.outcomes, target.id, k);
            let ghost done = row_views(rows@);
            let mut m: usize = 0;
            while m < kept.len()
                invariant
                    m <= kept@.len(),
                    i < self.targets@.len(),
                    *target == self.targets@[i as int],
                    kept@ == recent_of(self@.log, self@.targets[i as int].id, k as nat),
                    row_views(rows@) == done + self@.rows_of(i as int, k as nat).take(m as int),
                decreases kept@.len() - m,
            {
                let o = kept[m];
                let row = StatusRow {
                    id: target.id,
                    public_url: target.public_url.clone(),
                    name: target.name.clone(),
                    last_status: o.status_code,
                    poll_time: o.observed_at,
                };
                let ghost before = rows@;
                rows.push(row);
                proof {
                    let group = self@.rows_of(i as int, k as nat);
                    assert(row@ == group[m as int]);
                    assert(row_views(rows@) =~= row_views(before).push(row@));
                    assert(group.take(m + 1) =~= group.take(m as int).push(group[m as int]));
                    assert(row_views(rows@) =~= done + group.take(m + 1));
                }
                m = m + 1;
            }
            proof {
                let group = self@.rows_of(i as int, k as nat);
                assert(group.take(m as int) =~= group);
            }
            i = i + 1;
        }
        proof {
            lemma_recent_rows_bounded_and_ordered(self@, k as nat);
            let views = self@.recent_rows(k as nat);
            assert(self@.targets.len() == self.targets@.len());
            assert(row_views(rows@) == views);
            assert forall|a: int, b: int|
                0 <= a < b < rows@.len() && rows@[a].id == rows@[b].id implies rows@[a].poll_time
                >= rows@[b].poll_time by {
                assert(views[a] == rows@[a]@ && views[b] == rows@[b]@);
            }
        }
        rows
    }
}

} // verus!
