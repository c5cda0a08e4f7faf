use vstd::prelude::*;

use crate::git_utils::{has_key, rank_tag, stat_at, tag_rank, unique_keys, ChangeType, DiffStatus, FileDiffMap};
use crate::id_model::{contains_id, distinct_ids, IdModel, IdModelChange};
use crate::strutil::{str_eq, strings_view};

verus! {

/// One file's review state for the current commit range. A negative line
/// count is the sentinel for "not yet computed", used only for rows restored
/// from a saved project before any live diff has run.
pub struct DiffFileItem {
    pub id: usize,
    pub text: String,
    pub is_reviewed: bool,
    pub added_lines: i64,
    pub removed_lines: i64,
    pub change_type: ChangeType,
}

impl DiffFileItem {
    /// A field-for-field copy.
    pub fn duplicate(&self) -> (r: Self)
        ensures
            r == *self,
    {
        DiffFileItem {
            id: self.id,
            text: self.text.clone(),
            is_reviewed: self.is_reviewed,
            added_lines: self.added_lines,
            removed_lines: self.removed_lines,
            change_type: self.change_type,
        }
    }
}

// ---------------------------------------------------------------------------
// Spec-level view of a file-to-statistics mapping (a sequence of entries
// with pairwise distinct keys) and of a row sequence.
// ---------------------------------------------------------------------------

/// True when some row of `rows` carries the path `p`.
pub open spec fn has_path(rows: Seq<DiffFileItem>, p: Seq<char>) -> bool {
    exists|i: int| 0 <= i < rows.len() && rows[i].text@ == p
}

/// True when no two rows share an identity.
pub open spec fn distinct_row_ids(rows: Seq<DiffFileItem>) -> bool {
    forall|i: int, j: int| 0 <= i < j < rows.len() ==> rows[i].id != rows[j].id
}

/// True when no two rows share a path.
pub open spec fn distinct_row_paths(rows: Seq<DiffFileItem>) -> bool {
    forall|i: int, j: int| 0 <= i < j < rows.len() ==> rows[i].text@ != rows[j].text@
}

// ---------------------------------------------------------------------------
// Reconciliation, as a function of the old rows and the new mapping.
// ---------------------------------------------------------------------------

/// True when the fresh statistics differ from what the row already shows:
/// in the line counts or in the classification.
pub open spec fn row_differs(r: DiffFileItem, s: DiffStatus) -> bool {
    r.added_lines != s.added_lines as i64 || r.removed_lines != s.removed_lines as i64
        || r.change_type != s.change_type
}

/// The row refreshed from `s`; rows whose statistics did not change are left
/// exactly as they are, so no spurious change is recorded for them.
pub open spec fn updated_row(r: DiffFileItem, s: DiffStatus) -> DiffFileItem {
    if row_differs(r, s) {
        DiffFileItem {
            added_lines: s.added_lines as i64,
            removed_lines: s.removed_lines as i64,
            change_type: s.change_type,
            ..r
        }
    } else {
        r
    }
}

/// A brand-new, unreviewed row for a path first seen in this diff.
pub open spec fn fresh_row(id: usize, path: String, s: DiffStatus) -> DiffFileItem {
    DiffFileItem {
        id: id,
        text: path,
        is_reviewed: false,
        added_lines: s.added_lines as i64,
        removed_lines: s.removed_lines as i64,
        change_type: s.change_type,
    }
}

/// The rows that survive reconciliation: rows whose path still appears in
/// `m`, in their original order, each refreshed from `m`.
pub open spec fn kept_rows(rows: Seq<DiffFileItem>, m: Seq<(String, DiffStatus)>) -> Seq<
    DiffFileItem,
>
    decreases rows.len(),
{
    if rows.len() == 0 {
        Seq::empty()
    } else {
        let rest = kept_rows(rows.drop_last(), m);
        let r = rows.last();
        if has_key(m, r.text@) {
            rest.push(updated_row(r, stat_at(m, r.text@)))
        } else {
            rest
        }
    }
}

/// The entries of `m` whose path no current row carries, in mapping order.
pub open spec fn new_entries(rows: Seq<DiffFileItem>, m: Seq<(String, DiffStatus)>) -> Seq<
    (String, DiffStatus),
>
    decreases m.len(),
{
    if m.len() == 0 {
        Seq::empty()
    } else {
        let rest = new_entries(rows, m.drop_last());
        let e = m.last();
        if has_path(rows, e.0@) {
            rest
        } else {
            rest.push(e)
        }
    }
}

/// The rows inserted by reconciliation: one fresh, unreviewed row per path
/// of `m` that no current row carries, with consecutive fresh identities
/// starting at `next`.
pub open spec fn added_rows(
    rows: Seq<DiffFileItem>,
    m: Seq<(String, DiffStatus)>,
    next: int,
) -> Seq<DiffFileItem> {
    new_entries(rows, m).map(|i: int, e: (String, DiffStatus)| fresh_row((next + i) as usize, e.0, e.1))
}

/// The row set after reconciling `rows` with the fresh mapping `m`:
/// surviving rows first, in their original order, then the fresh rows in
/// mapping order.
pub open spec fn reconciled_rows(
    rows: Seq<DiffFileItem>,
    m: Seq<(String, DiffStatus)>,
    next: int,
) -> Seq<DiffFileItem> {
    kept_rows(rows, m) + added_rows(rows, m, next)
}

// ---------------------------------------------------------------------------
// Aggregate statistics of a mapping.
// ---------------------------------------------------------------------------

/// Sum of the added-line counts over all entries of `m`.
pub open spec fn total_added(m: Seq<(String, DiffStatus)>) -> int
    decreases m.len(),
{
    if m.len() == 0 {
        0
    } else {
        total_added(m.drop_last()) + m.last().1.added_lines
    }
}

/// Sum of the removed-line counts over all entries of `m`.
pub open spec fn total_removed(m: Seq<(String, DiffStatus)>) -> int
    decreases m.len(),
{
    if m.len() == 0 {
        0
    } else {
        total_removed(m.drop_last()) + m.last().1.removed_lines
    }
}

/// How many entries of `m` carry the classification `ct`.
pub open spec fn count_of(m: Seq<(String, DiffStatus)>, ct: ChangeType) -> int
    decreases m.len(),
{
    if m.len() == 0 {
        0
    } else {
        count_of(m.drop_last(), ct) + if m.last().1.change_type == ct {
            1int
        } else {
            0int
        }
    }
}

/// One line of the statistics breakdown: how many files carry a
/// classification.
#[derive(Debug, PartialEq, Eq, Structural, Clone, Copy)]
pub struct OverallStat {
    pub change_type: ChangeType,
    pub count: usize,
}

/// The breakdown restricted to the first `k` positions of the tag order.
pub open spec fn breakdown_upto(m: Seq<(String, DiffStatus)>, k: int) -> Seq<OverallStat>
    decreases k,
{
    if k <= 0 {
        Seq::empty()
    } else {
        let rest = breakdown_upto(m, k - 1);
        let ct = rank_tag(k - 1);
        if count_of(m, ct) > 0 {
            rest.push(OverallStat { change_type: ct, count: count_of(m, ct) as usize })
        } else {
            rest
        }
    }
}

/// The statistics breakdown of `m`: one line per classification actually
/// present, in ascending tag order.
pub open spec fn breakdown(m: Seq<(String, DiffStatus)>) -> Seq<OverallStat> {
    breakdown_upto(m, 10)
}

// ---------------------------------------------------------------------------
// The change a reconciliation reports.
// ---------------------------------------------------------------------------

/// True when the mapping's key set equals the rows' path set.
pub open spec fn same_key_sets(rows: Seq<DiffFileItem>, m: Seq<(String, DiffStatus)>) -> bool {
    (forall|i: int| 0 <= i < rows.len() ==> has_key(m, rows[i].text@)) && (forall|j: int|
        0 <= j < m.len() ==> has_path(rows, m[j].0@))
}

/// True when no key of the mapping is a current row's path.
pub open spec fn no_shared_path(rows: Seq<DiffFileItem>, m: Seq<(String, DiffStatus)>) -> bool {
    forall|j: int| 0 <= j < m.len() ==> !has_path(rows, m[j].0@)
}

/// True when some surviving row's statistics actually change.
pub open spec fn any_stat_change(rows: Seq<DiffFileItem>, m: Seq<(String, DiffStatus)>) -> bool {
    exists|i: int|
        0 <= i < rows.len() && has_key(m, rows[i].text@) && row_differs(
            rows[i],
            stat_at(m, rows[i].text@),
        )
}

/// What a reconciliation reports to observers: nothing when the key sets
/// match and no row's statistics changed; a bulk reset when the key sets are
/// disjoint; an entity change otherwise.
pub open spec fn reconcile_event(rows: Seq<DiffFileItem>, m: Seq<(String, DiffStatus)>) -> Option<
    IdModelChange,
> {
    if same_key_sets(rows, m) {
        if any_stat_change(rows, m) {
            Some(IdModelChange::EntityChanged)
        } else {
            None
        }
    } else if no_shared_path(rows, m) {
        Some(IdModelChange::ModelCleared)
    } else {
        Some(IdModelChange::EntityChanged)
    }
}

// ---------------------------------------------------------------------------
// Derived aggregate over the current row set.
// ---------------------------------------------------------------------------

/// Totals plus a per-classification breakdown, recomputed wholesale on every
/// reconciliation.
pub struct DiffStatistics {
    pub added_lines: u64,
    pub removed_lines: u64,
    pub statistics_model: Vec<OverallStat>,
}

impl DiffStatistics {
    pub fn new() -> (r: Self)
        ensures
            r.added_lines == 0,
            r.removed_lines == 0,
            r.statistics_model@ == Seq::<OverallStat>::empty(),
    {
        DiffStatistics { added_lines: 0, removed_lines: 0, statistics_model: Vec::new() }
    }

    pub fn clear(&mut self)
        ensures
            final(self).added_lines == 0,
            final(self).removed_lines == 0,
            final(self).statistics_model@ == Seq::<OverallStat>::empty(),
    {
        self.statistics_model.clear();
        self.added_lines = 0;
        self.removed_lines = 0;
        proof {
            assert(self.statistics_model@ =~= Seq::<OverallStat>::empty());
        }
    }
}

/// `count_of` never exceeds the number of entries.
proof fn lemma_count_of_bound(m: Seq<(String, DiffStatus)>, ct: ChangeType)
    ensures
        0 <= count_of(m, ct) <= m.len(),
    decreases m.len(),
{
    if m.len() > 0 {
        lemma_count_of_bound(m.drop_last(), ct);
    }
}

/// Recomputes the aggregate statistics of a fresh mapping wholesale.
pub fn compute_statistics(m: &FileDiffMap) -> (r: DiffStatistics)
    requires
        m@.len() <= 0xffff_ffff,
    ensures
        r.added_lines == total_added(m@),
        r.removed_lines == total_removed(m@),
        r.statistics_model@ == breakdown(m@),
{
    let n = m.len();
    let mut added: u64 = 0;
    let mut removed: u64 = 0;
    let mut counts: Vec<usize> = vec![0usize; 10];
    let mut i: usize = 0;
    while i < n
        invariant
            i <= n,
            n == m@.len(),
            n <= 0xffff_ffff,
            counts@.len() == 10,
            added == total_added(m@.take(i as int)),
            removed == total_removed(m@.take(i as int)),
            added <= (i as u64) * 0xffff_ffffu64,
            removed <= (i as u64) * 0xffff_ffffu64,
            forall|k: int| 0 <= k < 10 ==> counts@[k] == count_of(m@.take(i as int), rank_tag(k)),
        decreases n - i,
    {
        proof {
            assert(m@.take(i + 1).drop_last() =~= m@.take(i as int));
            assert(m@.take(i + 1).last() == m@[i as int]);
            lemma_count_of_bound(m@.take(i as int), m@[i as int].1.change_type);
        }
        let e = &m[i];
        added = added + e.1.added_lines as u64;
        removed = removed + e.1.removed_lines as u64;
        let k = e.1.change_type.rank();
        let c = counts[k];
        proof {
            assert(count_of(m@.take(i as int), rank_tag(k as int)) <= i);
            assert(rank_tag(tag_rank(e.1.change_type)) == e.1.change_type);
            assert forall|k2: int| 0 <= k2 < 10 && k2 != k implies rank_tag(k2)
                != e.1.change_type by {}
        }
        counts.set(k, c + 1);
        i = i + 1;
    }
    proof {
        assert(m@.take(n as int) =~= m@);
    }
    let mut model: Vec<OverallStat> = Vec::new();
    let mut k: usize = 0;
    while k < 10
        invariant
            k <= 10,
            counts@.len() == 10,
            forall|k2: int| 0 <= k2 < 10 ==> counts@[k2] == count_of(m@, rank_tag(k2)),
            model@ == breakdown_upto(m@, k as int),
        decreases 10 - k,
    {
        let ct = rank_of_tag(k);
        if counts[k] > 0 {
            model.push(OverallStat { change_type: ct, count: counts[k] });
        }
        k = k + 1;
    }
    DiffStatistics { added_lines: added, removed_lines: removed, statistics_model: model }
}

// ---------------------------------------------------------------------------
// The repository session state and the reconciler.
// ---------------------------------------------------------------------------

/// The rows of a sequence of keyed entries, in entry order.
pub open spec fn entries_rows(s: Seq<(usize, DiffFileItem)>) -> Seq<DiffFileItem> {
    s.map(|i: int, e: (usize, DiffFileItem)| e.1)
}

/// The current commit range together with the row store and its aggregate.
pub struct Diff {
    pub start_commit: String,
    pub end_commit: String,
    pub file_diff_model: IdModel<DiffFileItem>,
    pub statistics: DiffStatistics,
}

impl Diff {
    pub fn new() -> (r: Diff)
        ensures
            r.start_commit@ == Seq::<char>::empty(),
            r.end_commit@ == Seq::<char>::empty(),
            r.file_diff_model@ == Seq::<(usize, DiffFileItem)>::empty(),
            r.statistics.added_lines == 0,
            r.statistics.removed_lines == 0,
            r.statistics.statistics_model@ == Seq::<OverallStat>::empty(),
    {
        Diff {
            start_commit: String::new(),
            end_commit: String::new(),
            file_diff_model: IdModel::new(),
            statistics: DiffStatistics::new(),
        }
    }
}

/// A repository under review: its path, the current diff rows, the commit
/// range they were computed for, and the aggregate statistics.
pub struct Repository {
    pub path: Option<String>,
    pub current_diff: Diff,
    pub next_id: usize,
}

impl Repository {
    /// The current row set, in insertion order.
    pub open spec fn rows(&self) -> Seq<DiffFileItem> {
        entries_rows(self.current_diff.file_diff_model@)
    }

    /// The next identity the store will hand out.
    pub open spec fn spec_next_id(&self) -> usize {
        self.next_id
    }

    /// Identities are unique, positive and below the allocation counter;
    /// each entry key is its row's identity; paths are unique.
    pub open spec fn wf(&self) -> bool {
        let s = self.current_diff.file_diff_model@;
        &&& distinct_ids(s)
        &&& (forall|i: int| 0 <= i < s.len() ==> (#[trigger] s[i]).0 == s[i].1.id)
        &&& distinct_row_paths(self.rows())
        &&& (forall|i: int| 0 <= i < s.len() ==> (#[trigger] s[i]).1.id < self.spec_next_id())
        &&& self.spec_next_id() >= 1
    }

    /// Allocates a fresh row identity; identities are never reused.
    pub fn diff_file_id(&mut self) -> (id: usize)
        requires
            old(self).spec_next_id() < usize::MAX,
        ensures
            id == old(self).spec_next_id(),
            final(self).spec_next_id() == id + 1,
            final(self).rows() == old(self).rows(),
            final(self).current_diff.file_diff_model@ == old(
                self,
            ).current_diff.file_diff_model@,
            final(self).path == old(self).path,
            final(self).current_diff.start_commit == old(self).current_diff.start_commit,
            final(self).current_diff.end_commit == old(self).current_diff.end_commit,
            final(self).current_diff.statistics == old(self).current_diff.statistics,
    {
        let id = self.next_id;
        self.next_id = self.next_id + 1;
        id
    }

    pub fn set_path(&mut self, path: String)
        ensures
            final(self).path == Some(path),
            final(self).current_diff == old(self).current_diff,
            final(self).spec_next_id() == old(self).spec_next_id(),
    {
        self.path = Some(path);
    }

    pub fn set_diff_range(&mut self, range: (&str, &str))
        ensures
            final(self).current_diff.start_commit@ == range.0@,
            final(self).current_diff.end_commit@ == range.1@,
            final(self).current_diff.file_diff_model == old(self).current_diff.file_diff_model,
            final(self).current_diff.statistics == old(self).current_diff.statistics,
            final(self).path == old(self).path,
            final(self).spec_next_id() == old(self).spec_next_id(),
    {
        let (start, end) = range;
        self.current_diff.start_commit = start.to_owned();
        self.current_diff.end_commit = end.to_owned();
    }

    pub fn diff_range(&self) -> (r: (&str, &str))
        ensures
            r.0@ == self.current_diff.start_commit@,
            r.1@ == self.current_diff.end_commit@,
    {
        (self.current_diff.start_commit.as_str(), self.current_diff.end_commit.as_str())
    }

    pub fn statistics(&self) -> (r: &DiffStatistics)
        ensures
            r == self.current_diff.statistics,
    {
        &self.current_diff.statistics
    }

    /// True when some current row carries the path.
    fn path_in_rows(&self, path: &str) -> (r: bool)
        ensures
            r == has_path(self.rows(), path@),
    {
        let n = self.current_diff.file_diff_model.row_count();
        let mut i: usize = 0;
        while i < n
            invariant
                i <= n,
                n == self.rows().len(),
                forall|j: int| 0 <= j < i ==> self.rows()[j].text@ != path@,
            decreases n - i,
        {
            let item = self.current_diff.file_diff_model.row_data(i).unwrap();
            proof {
                assert(self.rows()[i as int] == self.current_diff.file_diff_model@[i as int].1);
            }
            if str_eq(item.text.as_str(), path) {
                return true;
            }
            i = i + 1;
        }
        false
    }
}

impl Default for Repository {
    fn default() -> (r: Self)
        ensures
            r.wf(),
            r.rows() == Seq::<DiffFileItem>::empty(),
            r.spec_next_id() == 1,
            r.path is None,
            r.current_diff.start_commit@ == Seq::<char>::empty(),
            r.current_diff.end_commit@ == Seq::<char>::empty(),
            r.current_diff.statistics.added_lines == 0,
            r.current_diff.statistics.removed_lines == 0,
            r.current_diff.statistics.statistics_model@ == Seq::<OverallStat>::empty(),
    {
        let r = Repository { path: None, current_diff: Diff::new(), next_id: 1 };
        proof {
            assert(r.rows() =~= Seq::<DiffFileItem>::empty());
        }
        r
    }
}

/// The statistics recorded for `path`, if the mapping holds the path.
pub fn find_stat(m: &FileDiffMap, path: &str) -> (r: Option<DiffStatus>)
    requires
        unique_keys(m@),
    ensures
        match r {
            Some(s) => has_key(m@, path@) && s == stat_at(m@, path@),
            None => !has_key(m@, path@),
        },
{
    let n = m.len();
    let mut i: usize = 0;
    while i < n
        invariant
            i <= n,
            n == m@.len(),
            unique_keys(m@),
            forall|j: int| 0 <= j < i ==> m@[j].0@ != path@,
        decreases n - i,
    {
        let e = &m[i];
        if str_eq(e.0.as_str(), path) {
            proof {
                let w = choose|k: int| 0 <= k < m@.len() && m@[k].0@ == path@;
                assert(m@[i as int].0@ == path@);
                assert(w == i as int);
            }
            return Some(e.1);
        }
        i = i + 1;
    }
    None
}

/// Every surviving row stems from exactly one old row, with identity, path
/// and review flag preserved; distinctness of identities and paths carries
/// over to the surviving rows.
#[verifier::rlimit(25)]
proof fn lemma_kept_rows_props(rows: Seq<DiffFileItem>, m: Seq<(String, DiffStatus)>)
    ensures
        kept_rows(rows, m).len() <= rows.len(),
        forall|p: int|
            0 <= p < kept_rows(rows, m).len() ==> exists|j: int|
                0 <= j < rows.len() && has_key(m, rows[j].text@) && #[trigger] kept_rows(
                    rows,
                    m,
                )[p] == updated_row(rows[j], stat_at(m, rows[j].text@)),
        distinct_row_ids(rows) ==> distinct_row_ids(kept_rows(rows, m)),
        distinct_row_paths(rows) ==> distinct_row_paths(kept_rows(rows, m)),
    decreases rows.len(),
{
    if rows.len() > 0 {
        let t = rows.drop_last();
        lemma_kept_rows_props(t, m);
        let kt = kept_rows(t, m);
        let k = kept_rows(rows, m);
        let last = rows.last();
        assert(last == rows[rows.len() - 1]);
        assert forall|p: int|
            0 <= p < k.len() implies exists|j: int|
            0 <= j < rows.len() && has_key(m, rows[j].text@) && #[trigger] k[p] == updated_row(
                rows[j],
                stat_at(m, rows[j].text@),
            ) by {
            if p < kt.len() {
                let j = choose|j: int|
                    0 <= j < t.len() && has_key(m, t[j].text@) && kt[p] == updated_row(
                        t[j],
                        stat_at(m, t[j].text@),
                    );
                assert(t[j] == rows[j]);
                assert(k[p] == kt[p]);
                assert(k[p] == updated_row(rows[j], stat_at(m, rows[j].text@)));
            } else {
                assert(has_key(m, last.text@));
                assert(k[p] == updated_row(last, stat_at(m, last.text@)));
            }
        }
        if distinct_row_ids(rows) {
            assert(distinct_row_ids(t));
            assert forall|p: int, q: int|
                0 <= p < q < k.len() implies k[p].id != k[q].id by {
                if q < kt.len() {
                    assert(k[p] == kt[p] && k[q] == kt[q]);
                } else {
                    assert(k[q] == updated_row(last, stat_at(m, last.text@)));
                    let j = choose|j: int|
                        0 <= j < t.len() && has_key(m, t[j].text@) && kt[p] == updated_row(
                            t[j],
                            stat_at(m, t[j].text@),
                        );
                    assert(k[p] == kt[p]);
                    assert(k[p].id == rows[j].id);
                    assert(rows[j].id != last.id);
                }
            }
        }
        if distinct_row_paths(rows) {
            assert(distinct_row_paths(t));
            assert forall|p: int, q: int|
                0 <= p < q < k.len() implies k[p].text@ != k[q].text@ by {
                if q < kt.len() {
                    assert(k[p] == kt[p] && k[q] == kt[q]);
                } else {
                    assert(k[q] == updated_row(last, stat_at(m, last.text@)));
                    let j = choose|j: int|
                        0 <= j < t.len() && has_key(m, t[j].text@) && kt[p] == updated_row(
                            t[j],
                            stat_at(m, t[j].text@),
                        );
                    assert(k[p] == kt[p]);
                    assert(k[p].text@ == rows[j].text@);
                    assert(rows[j].text@ != last.text@);
                }
            }
        }
    }
}

/// Every inserted entry stems from exactly one entry of the mapping whose
/// path no current row carries; key uniqueness carries over.
proof fn lemma_new_entries_props(rows: Seq<DiffFileItem>, m: Seq<(String, DiffStatus)>)
    ensures
        new_entries(rows, m).len() <= m.len(),
        forall|p: int|
            0 <= p < new_entries(rows, m).len() ==> exists|j: int|
                0 <= j < m.len() && #[trigger] new_entries(rows, m)[p] == m[j] && !has_path(
                    rows,
                    m[j].0@,
                ),
        unique_keys(m) ==> unique_keys(new_entries(rows, m)),
    decreases m.len(),
{
    if m.len() > 0 {
        let t = m.drop_last();
        lemma_new_entries_props(rows, t);
        let nt = new_entries(rows, t);
        let k = new_entries(rows, m);
        let last = m.last();
        assert(last == m[m.len() - 1]);
        assert forall|p: int|
            0 <= p < k.len() implies exists|j: int|
            0 <= j < m.len() && #[trigger] k[p] == m[j] && !has_path(rows, m[j].0@) by {
            if p < nt.len() {
                let j = choose|j: int| 0 <= j < t.len() && nt[p] == t[j] && !has_path(rows, t[j].0@);
                assert(t[j] == m[j]);
                assert(k[p] == nt[p]);
            } else {
                assert(!has_path(rows, last.0@));
                assert(k[p] == last);
            }
        }
        if unique_keys(m) {
            assert(unique_keys(t));
            assert forall|p: int, q: int|
                0 <= p < q < k.len() implies k[p].0@ != k[q].0@ by {
                if q < nt.len() {
                    assert(k[p] == nt[p] && k[q] == nt[q]);
                } else {
                    assert(k[q] == last);
                    let j = choose|j: int|
                        0 <= j < t.len() && nt[p] == t[j] && !has_path(rows, t[j].0@);
                    assert(k[p] == nt[p]);
                    assert(k[p].0@ == m[j].0@);
                    assert(m[j].0@ != last.0@);
                }
            }
        }
    }
}

/// Every old row whose path still has a key survives, refreshed.
proof fn lemma_kept_rows_complete(rows: Seq<DiffFileItem>, m: Seq<(String, DiffStatus)>)
    ensures
        forall|j: int|
            0 <= j < rows.len() && has_key(m, (#[trigger] rows[j]).text@) ==> exists|p: int|
                0 <= p < kept_rows(rows, m).len() && kept_rows(rows, m)[p] == updated_row(
                    rows[j],
                    stat_at(m, rows[j].text@),
                ),
    decreases rows.len(),
{
    if rows.len() > 0 {
        let t = rows.drop_last();
        lemma_kept_rows_complete(t, m);
        let kt = kept_rows(t, m);
        let k = kept_rows(rows, m);
        let last = rows.last();
        assert(last == rows[rows.len() - 1]);
        assert forall|j: int|
            0 <= j < rows.len() && has_key(m, (#[trigger] rows[j]).text@) implies exists|p: int|
            0 <= p < k.len() && k[p] == updated_row(rows[j], stat_at(m, rows[j].text@)) by {
            if j < rows.len() - 1 {
                assert(t[j] == rows[j]);
                let p = choose|p: int|
                    0 <= p < kt.len() && kt[p] == updated_row(t[j], stat_at(m, t[j].text@));
                assert(k[p] == kt[p]);
            } else {
                assert(has_key(m, last.text@));
                assert(k[k.len() - 1] == updated_row(last, stat_at(m, last.text@)));
            }
        }
    }
}

/// Every entry of the mapping whose path no row carries is inserted.
proof fn lemma_new_entries_complete(rows: Seq<DiffFileItem>, m: Seq<(String, DiffStatus)>)
    ensures
        forall|j: int|
            0 <= j < m.len() && !has_path(rows, (#[trigger] m[j]).0@) ==> exists|p: int|
                0 <= p < new_entries(rows, m).len() && new_entries(rows, m)[p] == m[j],
    decreases m.len(),
{
    if m.len() > 0 {
        let t = m.drop_last();
        lemma_new_entries_complete(rows, t);
        let nt = new_entries(rows, t);
        let k = new_entries(rows, m);
        let last = m.last();
        assert(last == m[m.len() - 1]);
        assert forall|j: int|
            0 <= j < m.len() && !has_path(rows, (#[trigger] m[j]).0@) implies exists|p: int|
            0 <= p < k.len() && k[p] == m[j] by {
            if j < m.len() - 1 {
                assert(t[j] == m[j]);
                let p = choose|p: int| 0 <= p < nt.len() && nt[p] == t[j];
                assert(k[p] == nt[p]);
            } else {
                assert(!has_path(rows, last.0@));
                assert(k[k.len() - 1] == last);
            }
        }
    }
}

/// One step of the change detector: extending the processed prefix by one
/// row adds exactly that row's contribution.
proof fn lemma_any_stat_change_step(rows: Seq<DiffFileItem>, m: Seq<(String, DiffStatus)>, i: int)
    requires
        0 <= i < rows.len(),
    ensures
        any_stat_change(rows.take(i + 1), m) == (any_stat_change(rows.take(i), m) || (has_key(
            m,
            rows[i].text@,
        ) && row_differs(rows[i], stat_at(m, rows[i].text@)))),
{
    let t0 = rows.take(i);
    let t1 = rows.take(i + 1);
    if any_stat_change(t0, m) {
        let w = choose|k: int|
            0 <= k < t0.len() && has_key(m, t0[k].text@) && row_differs(
                t0[k],
                stat_at(m, t0[k].text@),
            );
        assert(t1[w] == t0[w]);
        assert(any_stat_change(t1, m));
    }
    if has_key(m, rows[i].text@) && row_differs(rows[i], stat_at(m, rows[i].text@)) {
        assert(t1[i] == rows[i]);
        assert(any_stat_change(t1, m));
    }
    if any_stat_change(t1, m) {
        let w = choose|k: int|
            0 <= k < t1.len() && has_key(m, t1[k].text@) && row_differs(
                t1[k],
                stat_at(m, t1[k].text@),
            );
        if w < i {
            assert(t0[w] == t1[w]);
            assert(any_stat_change(t0, m));
        } else {
            assert(t1[w] == rows[i]);
        }
    }
}

impl Repository {
    /// True when every current row's path still appears in the mapping.
    fn all_rows_have_key(&self, m: &FileDiffMap) -> (r: bool)
        requires
            unique_keys(m@),
        ensures
            r == (forall|i: int|
                0 <= i < self.rows().len() ==> has_key(m@, (#[trigger] self.rows()[i]).text@)),
    {
        let n = self.current_diff.file_diff_model.row_count();
        let mut i: usize = 0;
        while i < n
            invariant
                i <= n,
                n == self.rows().len(),
                unique_keys(m@),
                forall|j: int| 0 <= j < i ==> has_key(m@, (#[trigger] self.rows()[j]).text@),
            decreases n - i,
        {
            let item = self.current_diff.file_diff_model.row_data(i).unwrap();
            proof {
                assert(self.rows()[i as int] == self.current_diff.file_diff_model@[i as int].1);
            }
            if find_stat(m, item.text.as_str()).is_none() {
                return false;
            }
            i = i + 1;
        }
        true
    }

    /// True when every key of the mapping is some current row's path.
    fn all_keys_have_path(&self, m: &FileDiffMap) -> (r: bool)
        ensures
            r == (forall|j: int| 0 <= j < m@.len() ==> has_path(self.rows(), (#[trigger] m@[j]).0@)),
    {
        let n = m.len();
        let mut j: usize = 0;
        while j < n
            invariant
                j <= n,
                n == m@.len(),
                forall|k: int| 0 <= k < j ==> has_path(self.rows(), (#[trigger] m@[k]).0@),
            decreases n - j,
        {
            if !self.path_in_rows(m[j].0.as_str()) {
                return false;
            }
            j = j + 1;
        }
        true
    }

    /// True when no key of the mapping is a current row's path.
    fn no_key_has_path(&self, m: &FileDiffMap) -> (r: bool)
        ensures
            r == no_shared_path(self.rows(), m@),
    {
        let n = m.len();
        let mut j: usize = 0;
        while j < n
            invariant
                j <= n,
                n == m@.len(),
                forall|k: int| 0 <= k < j ==> !has_path(self.rows(), (#[trigger] m@[k]).0@),
            decreases n - j,
        {
            if self.path_in_rows(m[j].0.as_str()) {
                return false;
            }
            j = j + 1;
        }
        true
    }

    /// Restores the rows saved in a project file: one row per saved entry,
    /// line counts still unknown (the sentinel), classifications unset.
    pub fn from_project_config(config: &crate::config::Config) -> (r: Repository)
        requires
            forall|i: int, j: int|
                0 <= i < j < config.diff_files@.len() ==> (#[trigger] config.diff_files@[i]).file_name@
                    != (#[trigger] config.diff_files@[j]).file_name@,
            config.diff_files@.len() < usize::MAX,
        ensures
            r.wf(),
            r.rows().len() == config.diff_files@.len(),
            forall|i: int|
                0 <= i < config.diff_files@.len() ==> ({
                    let row = #[trigger] r.rows()[i];
                    row.id == i + 1 && row.text == config.diff_files@[i].file_name
                        && row.is_reviewed == config.diff_files@[i].is_reviewed && row.added_lines
                        == -1 && row.removed_lines == -1 && row.change_type == ChangeType::Invalid
                }),
            r.spec_next_id() == config.diff_files@.len() + 1,
            (if config.repo_path@.len() == 0 {
                r.path is None
            } else {
                r.path is Some && r.path.unwrap()@ == config.repo_path@
            }),
            r.current_diff.start_commit@ == config.start_diff@,
            r.current_diff.end_commit@ == config.end_diff@,
    {
        let mut repo = Repository::default();
        if !config.repo_path.as_str().is_empty() {
            repo.set_path(config.repo_path.clone());
        }
        repo.set_diff_range((config.start_diff.as_str(), config.end_diff.as_str()));
        let n = config.diff_files.len();
        let mut i: usize = 0;
        while i < n
            invariant
                i <= n,
                n == config.diff_files@.len(),
                n < usize::MAX,
                forall|p: int, q: int|
                    0 <= p < q < n ==> (#[trigger] config.diff_files@[p]).file_name@ != (
                    #[trigger] config.diff_files@[q]).file_name@,
                repo.wf(),
                repo.rows().len() == i,
                repo.spec_next_id() == i + 1,
                forall|j: int|
                    0 <= j < i ==> ({
                        let row = #[trigger] repo.rows()[j];
                        row.id == j + 1 && row.text == config.diff_files@[j].file_name
                            && row.is_reviewed == config.diff_files@[j].is_reviewed
                            && row.added_lines == -1 && row.removed_lines == -1 && row.change_type
                            == ChangeType::Invalid
                    }),
                (if config.repo_path@.len() == 0 {
                    repo.path is None
                } else {
                    repo.path is Some && repo.path.unwrap()@ == config.repo_path@
                }),
                repo.current_diff.start_commit@ == config.start_diff@,
                repo.current_diff.end_commit@ == config.end_diff@,
            decreases n - i,
        {
            let entry = &config.diff_files[i];
            let id = repo.diff_file_id();
            let item = DiffFileItem {
                id: id,
                text: entry.file_name.clone(),
                is_reviewed: entry.is_reviewed,
                added_lines: -1,
                removed_lines: -1,
                change_type: ChangeType::Invalid,
            };
            let ghost olde = repo.current_diff.file_diff_model@;
            let ghost gitem = item;
            proof {
                assert forall|w: int| 0 <= w < olde.len() implies (#[trigger] olde[w]).0
                    != id by {
                    assert(olde[w].1.id < id);
                }
                assert(!contains_id(olde, id));
            }
            repo.current_diff.file_diff_model.add(id, item);
            proof {
                assert(repo.rows() =~= entries_rows(olde).push(gitem));
                assert forall|p: int, q: int|
                    0 <= p < q < repo.rows().len() implies (#[trigger] repo.rows()[p]).text@ != (
                #[trigger] repo.rows()[q]).text@ by {
                    if q < repo.rows().len() - 1 {
                    } else {
                        assert(repo.rows()[p].text@ == config.diff_files@[p].file_name@);
                        assert(repo.rows()[q].text@ == config.diff_files@[i as int].file_name@);
                    }
                }
            }
            i = i + 1;
        }
        repo
    }

    /// Whether the path is a usable repository, and still the saved one
    /// when a root commit is given to check against; nothing if the backend
    /// could not be asked, which takes a root commit to check.
    pub fn is_repo_valid(path: &str, opt_first_commit: Option<&str>) -> (r: Option<bool>)
        ensures
            (opt_first_commit is None) ==> r is Some,
    {
        if !crate::git_utils::is_git_repo(path) {
            return Some(false);
        }
        match opt_first_commit {
            None => Some(true),
            Some(fc) => crate::git_utils::repo_contains_commit(path, fc),
        }
    }

    /// The command arguments that open the external diff tool on the row
    /// keyed `id`; nothing when no repository path is set or the row is
    /// gone.
    pub fn diff_file_args(&self, id: usize, diff_tool: &str) -> (r: Option<Vec<String>>)
        requires
            self.wf(),
        ensures
            (r is Some) == (self.path is Some && contains_id(
                self.current_diff.file_diff_model@,
                id,
            )),
            (r is Some) ==> forall|i: int|
                0 <= i < self.rows().len() && (#[trigger] self.rows()[i]).id == id ==> strings_view(
                    r.unwrap()@,
                ) == crate::git_utils::difftool_args_view(
                    self.path.unwrap()@,
                    self.current_diff.start_commit@,
                    self.current_diff.end_commit@,
                    self.rows()[i].text@,
                    diff_tool@,
                ),
    {
        let path = match &self.path {
            Some(p) => p,
            None => {
                return None;
            },
        };
        match self.current_diff.file_diff_model.get(id) {
            Some(item) => {
                let args = crate::git_utils::difftool_args(
                    path.as_str(),
                    self.current_diff.start_commit.as_str(),
                    self.current_diff.end_commit.as_str(),
                    item.text.as_str(),
                    diff_tool,
                );
                proof {
                    let s = self.current_diff.file_diff_model@;
                    let w = choose|w: int| 0 <= w < s.len() && s[w].0 == id && *item == s[w].1;
                    assert forall|i: int|
                        0 <= i < self.rows().len() && (#[trigger] self.rows()[i]).id
                            == id implies self.rows()[i].text@ == item.text@ by {
                        assert(self.rows()[i] == s[i].1);
                        assert(s[i].0 == s[i].1.id);
                        assert(i == w);
                    }
                }
                Some(args)
            },
            None => None,
        }
    }

    /// A snapshot of the current rows, in insertion order.
    pub fn rows_vec(&self) -> (r: Vec<DiffFileItem>)
        ensures
            r@ == self.rows(),
    {
        let n = self.current_diff.file_diff_model.row_count();
        let mut out: Vec<DiffFileItem> = Vec::new();
        let mut i: usize = 0;
        while i < n
            invariant
                i <= n,
                n == self.rows().len(),
                out@ == self.rows().take(i as int),
            decreases n - i,
        {
            let item = self.current_diff.file_diff_model.row_data(i).unwrap();
            proof {
                assert(self.rows()[i as int] == self.current_diff.file_diff_model@[i as int].1);
            }
            out.push(item.duplicate());
            proof {
                assert(out@ =~= self.rows().take(i + 1));
            }
            i = i + 1;
        }
        proof {
            assert(self.rows().take(n as int) =~= self.rows());
        }
        out
    }

    /// Flips the review flag of the row keyed `id`; no-op if `id` is gone.
    pub fn toggle_file_is_reviewed(&mut self, id: usize) -> (r: Option<IdModelChange>)
        requires
            old(self).wf(),
        ensures
            final(self).wf(),
            final(self).rows().len() == old(self).rows().len(),
            forall|i: int|
                0 <= i < old(self).rows().len() ==> #[trigger] final(self).rows()[i] == (if old(
                    self,
                ).rows()[i].id == id {
                    DiffFileItem { is_reviewed: !old(self).rows()[i].is_reviewed, ..old(
                        self,
                    ).rows()[i] }
                } else {
                    old(self).rows()[i]
                }),
            final(self).spec_next_id() == old(self).spec_next_id(),
            final(self).path == old(self).path,
            final(self).current_diff.start_commit == old(self).current_diff.start_commit,
            final(self).current_diff.end_commit == old(self).current_diff.end_commit,
            final(self).current_diff.statistics == old(self).current_diff.statistics,
            r == (if contains_id(old(self).current_diff.file_diff_model@, id) {
                Some(IdModelChange::EntityChanged)
            } else {
                None::<IdModelChange>
            }),
    {
        let ghost olde = self.current_diff.file_diff_model@;
        match self.current_diff.file_diff_model.index_of(id) {
            Some(ix) => {
                proof {
                    assert forall|w: int| 0 <= w < olde.len() && olde[w].0 == id implies w
                        == ix as int by {
                        assert(olde[ix as int].0 == id);
                    }
                }
                let item = self.current_diff.file_diff_model.row_data(ix).unwrap();
                let flipped = DiffFileItem {
                    id: item.id,
                    text: item.text.clone(),
                    is_reviewed: !item.is_reviewed,
                    added_lines: item.added_lines,
                    removed_lines: item.removed_lines,
                    change_type: item.change_type,
                };
                let ghost gitem = flipped;
                proof {
                    assert(gitem == DiffFileItem {
                        is_reviewed: !olde[ix as int].1.is_reviewed,
                        ..olde[ix as int].1
                    });
                    assert(gitem.id == id);
                }
                self.current_diff.file_diff_model.update(id, flipped);
                proof {
                    let s = self.current_diff.file_diff_model@;
                    assert forall|i: int|
                        0 <= i < olde.len() implies #[trigger] self.rows()[i] == (if olde[i].1.id
                            == id {
                        DiffFileItem { is_reviewed: !olde[i].1.is_reviewed, ..olde[i].1 }
                    } else {
                        olde[i].1
                    }) by {
                        assert(s[i] == (if olde[i].0 == id {
                            (id, gitem)
                        } else {
                            olde[i]
                        }));
                        assert(self.rows()[i] == s[i].1);
                        if olde[i].0 == id {
                            assert(i == ix as int);
                        }
                    }
                    assert forall|p: int, q: int|
                        0 <= p < q < self.rows().len() implies self.rows()[p].text@
                        != self.rows()[q].text@ by {
                        assert(self.rows()[p].text == olde[p].1.text);
                        assert(self.rows()[q].text == olde[q].1.text);
                        assert(entries_rows(olde)[p] == olde[p].1);
                        assert(entries_rows(olde)[q] == olde[q].1);
                    }
                }
                Some(IdModelChange::EntityChanged)
            },
            None => None,
        }
    }

    /// The surviving rows, paired with their identities, refreshed only
    /// where the statistics actually changed; also reports whether any
    /// row's statistics changed.
    fn build_kept_entries(&self, m: &FileDiffMap) -> (r: (Vec<(usize, DiffFileItem)>, bool))
        requires
            self.wf(),
            unique_keys(m@),
        ensures
            entries_rows(r.0@) == kept_rows(self.rows(), m@),
            forall|p: int| 0 <= p < r.0@.len() ==> (#[trigger] r.0@[p]).0 == r.0@[p].1.id,
            r.1 == any_stat_change(self.rows(), m@),
    {
        let ghost old_rows = self.rows();
        let ghost olde = self.current_diff.file_diff_model@;
        let ghost mv = m@;
        let n = self.current_diff.file_diff_model.row_count();
        let mut kept: Vec<(usize, DiffFileItem)> = Vec::new();
        let mut changed = false;
        let mut i: usize = 0;
        while i < n
            invariant
                i <= n,
                n == olde.len(),
                self.wf(),
                olde == self.current_diff.file_diff_model@,
                old_rows == self.rows(),
                mv == m@,
                unique_keys(mv),
                entries_rows(kept@) == kept_rows(old_rows.take(i as int), mv),
                forall|p: int| 0 <= p < kept@.len() ==> (#[trigger] kept@[p]).0 == kept@[p].1.id,
                changed == any_stat_change(old_rows.take(i as int), mv),
            decreases n - i,
        {
            let item = self.current_diff.file_diff_model.row_data(i).unwrap();
            proof {
                assert(old_rows[i as int] == olde[i as int].1);
                assert(old_rows.take(i + 1).drop_last() =~= old_rows.take(i as int));
                assert(old_rows.take(i + 1).last() == old_rows[i as int]);
                lemma_any_stat_change_step(old_rows, mv, i as int);
            }
            match find_stat(m, item.text.as_str()) {
                Some(s) => {
                    let differs = item.added_lines != s.added_lines as i64 || item.removed_lines
                        != s.removed_lines as i64 || item.change_type != s.change_type;
                    if differs {
                        changed = true;
                    }
                    let new_item = DiffFileItem {
                        id: item.id,
                        text: item.text.clone(),
                        is_reviewed: item.is_reviewed,
                        added_lines: if differs {
                            s.added_lines as i64
                        } else {
                            item.added_lines
                        },
                        removed_lines: if differs {
                            s.removed_lines as i64
                        } else {
                            item.removed_lines
                        },
                        change_type: if differs {
                            s.change_type
                        } else {
                            item.change_type
                        },
                    };
                    proof {
                        assert(new_item == updated_row(
                            old_rows[i as int],
                            stat_at(mv, old_rows[i as int].text@),
                        ));
                        assert(olde[i as int].0 == olde[i as int].1.id);
                    }
                    let key = new_item.id;
                    kept.push((key, new_item));
                    proof {
                        assert(entries_rows(kept@) =~= kept_rows(old_rows.take(i + 1), mv));
                    }
                },
                None => {
                    proof {
                        assert(entries_rows(kept@) =~= kept_rows(old_rows.take(i + 1), mv));
                    }
                },
            }
            i = i + 1;
        }
        proof {
            assert(old_rows.take(n as int) =~= old_rows);
        }
        (kept, changed)
    }

    /// Appends one fresh, unreviewed row per path of the mapping that no
    /// current row carries, with consecutive identities from `next0` on.
    fn push_added_entries(
        &self,
        m: &FileDiffMap,
        kept: &mut Vec<(usize, DiffFileItem)>,
        next0: usize,
    ) -> (added: usize)
        requires
            self.wf(),
            unique_keys(m@),
            next0 + m@.len() < usize::MAX,
            entries_rows(old(kept)@) == kept_rows(self.rows(), m@),
            forall|p: int|
                0 <= p < old(kept)@.len() ==> (#[trigger] old(kept)@[p]).0 == old(kept)@[p].1.id,
        ensures
            added == new_entries(self.rows(), m@).len(),
            added <= m@.len(),
            entries_rows(final(kept)@) == kept_rows(self.rows(), m@) + added_rows(
                self.rows(),
                m@,
                next0 as int,
            ),
            forall|p: int|
                0 <= p < final(kept)@.len() ==> (#[trigger] final(kept)@[p]).0
                    == final(kept)@[p].1.id,
    {
        let ghost old_rows = self.rows();
        let ghost mv = m@;
        let mlen = m.len();
        let mut added: usize = 0;
        let mut j: usize = 0;
        while j < mlen
            invariant
                j <= mlen,
                mlen == mv.len(),
                self.wf(),
                old_rows == self.rows(),
                mv == m@,
                unique_keys(mv),
                next0 + mv.len() < usize::MAX,
                added == new_entries(old_rows, mv.take(j as int)).len(),
                added <= j,
                entries_rows(kept@) == kept_rows(old_rows, mv) + added_rows(
                    old_rows,
                    mv.take(j as int),
                    next0 as int,
                ),
                forall|p: int| 0 <= p < kept@.len() ==> (#[trigger] kept@[p]).0 == kept@[p].1.id,
            decreases mlen - j,
        {
            proof {
                assert(mv.take(j + 1).drop_last() =~= mv.take(j as int));
                assert(mv.take(j + 1).last() == mv[j as int]);
            }
            let e = &m[j];
            if !self.path_in_rows(e.0.as_str()) {
                let id = next0 + added;
                let item = DiffFileItem {
                    id: id,
                    text: e.0.clone(),
                    is_reviewed: false,
                    added_lines: e.1.added_lines as i64,
                    removed_lines: e.1.removed_lines as i64,
                    change_type: e.1.change_type,
                };
                proof {
                    assert(item == fresh_row(id, mv[j as int].0, mv[j as int].1));
                }
                let ghost kept0 = kept@;
                let ghost gitem = item;
                kept.push((id, item));
                proof {
                    let kr = kept_rows(old_rows, mv);
                    let ne0 = new_entries(old_rows, mv.take(j as int));
                    let ne1 = new_entries(old_rows, mv.take(j + 1));
                    assert(ne1 == ne0.push(mv[j as int]));
                    assert(added as int == ne0.len());
                    let ar0 = added_rows(old_rows, mv.take(j as int), next0 as int);
                    let ar1 = added_rows(old_rows, mv.take(j + 1), next0 as int);
                    assert forall|p: int| 0 <= p < ar1.len() implies ar1[p] == ar0.push(
                        gitem,
                    )[p] by {
                        assert(ar1[p] == fresh_row((next0 + p) as usize, ne1[p].0, ne1[p].1));
                        if p < ne0.len() {
                            assert(ne1[p] == ne0[p]);
                            assert(ar0[p] == fresh_row((next0 + p) as usize, ne0[p].0, ne0[p].1));
                        } else {
                            assert(ne1[p] == mv[j as int]);
                        }
                    }
                    assert(ar1 =~= ar0.push(gitem));
                    assert(kept@ == kept0.push((id, gitem)));
                    assert(entries_rows(kept0).len() == kept0.len());
                    assert(kept0.len() == kr.len() + ar0.len());
                    assert forall|p: int|
                        0 <= p < kept@.len() implies entries_rows(kept@)[p] == (kr + ar1)[p] by {
                        assert(entries_rows(kept@)[p] == kept@[p].1);
                        if p < kept0.len() {
                            assert(kept@[p] == kept0[p]);
                            assert(entries_rows(kept0)[p] == kept0[p].1);
                            assert(entries_rows(kept0)[p] == (kr + ar0)[p]);
                            if p >= kr.len() {
                                assert(ar1[p - kr.len()] == ar0[p - kr.len()]);
                            }
                        } else {
                            assert(kept@[p] == (id, gitem));
                            assert((kr + ar1)[p] == ar1[p - kr.len()]);
                            assert(ar1[p - kr.len()] == gitem);
                        }
                    }
                    assert(entries_rows(kept@).len() == (kr + ar1).len());
                    assert(entries_rows(kept@) =~= kr + ar1);
                }
                added = added + 1;
            } else {
                proof {
                    assert(new_entries(old_rows, mv.take(j + 1)) == new_entries(
                        old_rows,
                        mv.take(j as int),
                    ));
                    assert(added_rows(old_rows, mv.take(j + 1), next0 as int) == added_rows(
                        old_rows,
                        mv.take(j as int),
                        next0 as int,
                    ));
                }
            }
            j = j + 1;
        }
        proof {
            assert(mv.take(mlen as int) =~= mv);
            lemma_new_entries_props(old_rows, mv);
        }
        added
    }

    /// Reconciles the row store with a freshly computed file-to-statistics
    /// mapping: rows whose path survives keep their identity and review
    /// flag and are refreshed only if their statistics actually changed;
    /// rows whose path disappeared are removed; paths first seen get fresh,
    /// unreviewed rows. The aggregate statistics are recomputed wholesale.
    pub fn merge_file_diff_map(&mut self, file_diff_map: FileDiffMap) -> (r: Option<
        IdModelChange,
    >)
        requires
            old(self).wf(),
            unique_keys(file_diff_map@),
            file_diff_map@.len() <= 0xffff_ffff,
            old(self).spec_next_id() + file_diff_map@.len() < usize::MAX,
        ensures
            final(self).wf(),
            final(self).rows() == reconciled_rows(
                old(self).rows(),
                file_diff_map@,
                old(self).spec_next_id() as int,
            ),
            final(self).spec_next_id() == old(self).spec_next_id() + new_entries(
                old(self).rows(),
                file_diff_map@,
            ).len(),
            final(self).current_diff.statistics.added_lines == total_added(file_diff_map@),
            final(self).current_diff.statistics.removed_lines == total_removed(file_diff_map@),
            final(self).current_diff.statistics.statistics_model@ == breakdown(file_diff_map@),
            final(self).path == old(self).path,
            final(self).current_diff.start_commit == old(self).current_diff.start_commit,
            final(self).current_diff.end_commit == old(self).current_diff.end_commit,
            r == reconcile_event(old(self).rows(), file_diff_map@),
    {
        let ghost old_rows = self.rows();
        let ghost mv = file_diff_map@;
        let next0 = self.next_id;

        // Classification, which decides only the reported change.
        let all_rows_kept = self.all_rows_have_key(&file_diff_map);
        let all_keys_present = self.all_keys_have_path(&file_diff_map);
        let no_keys_present = self.no_key_has_path(&file_diff_map);

        let (mut kept, changed) = self.build_kept_entries(&file_diff_map);
        let added = self.push_added_entries(&file_diff_map, &mut kept, next0);

        proof {
            lemma_reconciled_entries_wf(old_rows, mv, next0, self.current_diff.file_diff_model@, kept@);
        }
        self.current_diff.file_diff_model.set_entries(kept);
        self.next_id = next0 + added;
        let stats = compute_statistics(&file_diff_map);
        self.current_diff.statistics = stats;

        let r = if all_rows_kept && all_keys_present {
            if changed {
                Some(IdModelChange::EntityChanged)
            } else {
                None
            }
        } else if no_keys_present {
            Some(IdModelChange::ModelCleared)
        } else {
            Some(IdModelChange::EntityChanged)
        };
        proof {
            assert(same_key_sets(old_rows, mv) == (all_rows_kept && all_keys_present));
        }
        r
    }
}

/// The reconciled entries form a well-formed store: identities and paths
/// stay pairwise distinct and every identity stays below the advanced
/// counter.
#[verifier::rlimit(25)]
proof fn lemma_reconciled_entries_wf(
    old_rows: Seq<DiffFileItem>,
    mv: Seq<(String, DiffStatus)>,
    next0: usize,
    olde: Seq<(usize, DiffFileItem)>,
    kept: Seq<(usize, DiffFileItem)>,
)
    requires
        distinct_ids(olde),
        forall|i: int| 0 <= i < olde.len() ==> (#[trigger] olde[i]).0 == olde[i].1.id,
        forall|i: int| 0 <= i < olde.len() ==> (#[trigger] olde[i]).1.id < next0,
        old_rows == entries_rows(olde),
        distinct_row_paths(old_rows),
        unique_keys(mv),
        next0 + mv.len() < usize::MAX,
        entries_rows(kept) == reconciled_rows(old_rows, mv, next0 as int),
        forall|p: int| 0 <= p < kept.len() ==> (#[trigger] kept[p]).0 == kept[p].1.id,
    ensures
        distinct_ids(kept),
        distinct_row_paths(entries_rows(kept)),
        forall|p: int|
            0 <= p < kept.len() ==> (#[trigger] kept[p]).1.id < next0 + new_entries(
                old_rows,
                mv,
            ).len(),
{
    lemma_kept_rows_props(old_rows, mv);
    lemma_new_entries_props(old_rows, mv);
    assert(distinct_row_ids(old_rows)) by {
        assert forall|i: int, j: int|
            0 <= i < j < old_rows.len() implies old_rows[i].id != old_rows[j].id by {
            assert(old_rows[i] == olde[i].1);
            assert(old_rows[j] == olde[j].1);
        }
    }
    let kr = kept_rows(old_rows, mv);
    let ne = new_entries(old_rows, mv);
    let ar = added_rows(old_rows, mv, next0 as int);
    assert(ar.len() == ne.len());
    assert forall|p: int|
        0 <= p < ar.len() implies (#[trigger] ar[p]).id == next0 + p && ar[p].is_reviewed == false
            && ar[p].text == ne[p].0 by {
        assert(ar[p] == fresh_row((next0 + p) as usize, ne[p].0, ne[p].1));
    }
    assert forall|p: int|
        0 <= p < kr.len() implies (#[trigger] kr[p]).id < next0 && has_path(
        old_rows,
        kr[p].text@,
    ) by {
        let j = choose|j: int|
            0 <= j < old_rows.len() && has_key(mv, old_rows[j].text@) && kr[p] == updated_row(
                old_rows[j],
                stat_at(mv, old_rows[j].text@),
            );
        assert(old_rows[j] == olde[j].1);
        assert(olde[j].1.id < next0);
    }
    assert(entries_rows(kept) == kr + ar);
    assert(entries_rows(kept).len() == kept.len());
    assert(kept.len() == kr.len() + ar.len());
    assert forall|p: int, q: int|
        0 <= p < q < kept.len() implies (#[trigger] kept[p]).0 != (#[trigger] kept[q]).0 by {
        assert(entries_rows(kept)[p] == kept[p].1);
        assert(entries_rows(kept)[q] == kept[q].1);
        assert(entries_rows(kept)[p] == (kr + ar)[p]);
        assert(entries_rows(kept)[q] == (kr + ar)[q]);
        if q < kr.len() {
            assert(distinct_row_ids(kr));
        } else if p >= kr.len() {
            assert((kr + ar)[p] == ar[p - kr.len()]);
            assert((kr + ar)[q] == ar[q - kr.len()]);
        } else {
            assert((kr + ar)[p] == kr[p]);
            assert((kr + ar)[q] == ar[q - kr.len()]);
        }
    }
    assert forall|p: int, q: int|
        0 <= p < q < entries_rows(kept).len() implies (#[trigger] entries_rows(kept)[p]).text@
            != (#[trigger] entries_rows(kept)[q]).text@ by {
        assert(entries_rows(kept)[p] == (kr + ar)[p]);
        assert(entries_rows(kept)[q] == (kr + ar)[q]);
        if q < kr.len() {
            assert(distinct_row_paths(kr));
        } else if p >= kr.len() {
            assert((kr + ar)[p] == ar[p - kr.len()]);
            assert((kr + ar)[q] == ar[q - kr.len()]);
            assert(unique_keys(ne));
        } else {
            assert((kr + ar)[p] == kr[p]);
            assert((kr + ar)[q] == ar[q - kr.len()]);
            let t = q - kr.len();
            let j = choose|j2: int|
                0 <= j2 < mv.len() && ne[t] == mv[j2] && !has_path(old_rows, mv[j2].0@);
            assert(ar[t].text == ne[t].0);
            assert(has_path(old_rows, kr[p].text@));
        }
    }
    assert forall|p: int|
        0 <= p < kept.len() implies (#[trigger] kept[p]).1.id < next0 + ne.len() by {
        assert(entries_rows(kept)[p] == kept[p].1);
        assert(entries_rows(kept)[p] == (kr + ar)[p]);
        if p < kr.len() {
            assert((kr + ar)[p] == kr[p]);
        } else {
            assert((kr + ar)[p] == ar[p - kr.len()]);
        }
    }
}

/// The classification at position `k` of the tag order.
fn rank_of_tag(k: usize) -> (r: ChangeType)
    requires
        k < 10,
    ensures
        r == rank_tag(k as int),
{
    if k == 0 {
        ChangeType::Invalid
    } else if k == 1 {
        ChangeType::Added
    } else if k == 2 {
        ChangeType::Copied
    } else if k == 3 {
        ChangeType::Deleted
    } else if k == 4 {
        ChangeType::Modified
    } else if k == 5 {
        ChangeType::Renamed
    } else if k == 6 {
        ChangeType::TypChanged
    } else if k == 7 {
        ChangeType::Unmerged
    } else if k == 8 {
        ChangeType::Unknown
    } else {
        ChangeType::Broken
    }
}


// ---------------------------------------------------------------------------
// Laws of reconciliation.
// ---------------------------------------------------------------------------

/// When every key still has a row, nothing is inserted.
proof fn lemma_new_entries_all_present(rows: Seq<DiffFileItem>, m: Seq<(String, DiffStatus)>)
    requires
        forall|j: int| 0 <= j < m.len() ==> has_path(rows, (#[trigger] m[j]).0@),
    ensures
        new_entries(rows, m) == Seq::<(String, DiffStatus)>::empty(),
    decreases m.len(),
{
    if m.len() > 0 {
        lemma_new_entries_all_present(rows, m.drop_last());
    }
}

/// When every row's path still has a key, every row survives, refreshed.
proof fn lemma_kept_rows_all(rows: Seq<DiffFileItem>, m: Seq<(String, DiffStatus)>)
    requires
        forall|i: int| 0 <= i < rows.len() ==> has_key(m, (#[trigger] rows[i]).text@),
    ensures
        kept_rows(rows, m).len() == rows.len(),
        forall|i: int|
            0 <= i < rows.len() ==> #[trigger] kept_rows(rows, m)[i] == updated_row(
                rows[i],
                stat_at(m, rows[i].text@),
            ),
    decreases rows.len(),
{
    if rows.len() > 0 {
        let t = rows.drop_last();
        lemma_kept_rows_all(t, m);
        assert forall|i: int|
            0 <= i < rows.len() implies #[trigger] kept_rows(rows, m)[i] == updated_row(
            rows[i],
            stat_at(m, rows[i].text@),
        ) by {
            if i < rows.len() - 1 {
                assert(t[i] == rows[i]);
                assert(kept_rows(rows, m)[i] == kept_rows(t, m)[i]);
            } else {
                assert(rows.last() == rows[i]);
            }
        }
    }
}

/// When no row's path has a key, no row survives.
proof fn lemma_kept_rows_none(rows: Seq<DiffFileItem>, m: Seq<(String, DiffStatus)>)
    requires
        forall|i: int| 0 <= i < rows.len() ==> !has_key(m, (#[trigger] rows[i]).text@),
    ensures
        kept_rows(rows, m) == Seq::<DiffFileItem>::empty(),
    decreases rows.len(),
{
    if rows.len() > 0 {
        lemma_kept_rows_none(rows.drop_last(), m);
    }
}

/// When no key has a row, every entry of the mapping is inserted.
proof fn lemma_new_entries_all_absent(rows: Seq<DiffFileItem>, m: Seq<(String, DiffStatus)>)
    requires
        forall|j: int| 0 <= j < m.len() ==> !has_path(rows, (#[trigger] m[j]).0@),
    ensures
        new_entries(rows, m) == m,
    decreases m.len(),
{
    if m.len() > 0 {
        lemma_new_entries_all_absent(rows, m.drop_last());
        assert(m.drop_last().push(m.last()) =~= m);
    }
}

/// Law: reconciling with a mapping whose key set equals the current path
/// set leaves every row's identity, path and review flag unchanged and
/// refreshes only the line counts and the classification, and only for rows
/// whose statistics actually differ; when none differ, the row set is
/// untouched and no change is reported.
pub proof fn lemma_reconcile_identity_preservation(
    rows: Seq<DiffFileItem>,
    m: Seq<(String, DiffStatus)>,
    next: int,
)
    requires
        unique_keys(m),
        same_key_sets(rows, m),
    ensures
        new_entries(rows, m).len() == 0,
        reconciled_rows(rows, m, next).len() == rows.len(),
        forall|i: int|
            0 <= i < rows.len() ==> (#[trigger] reconciled_rows(rows, m, next)[i]) == updated_row(
                rows[i],
                stat_at(m, rows[i].text@),
            ),
        forall|i: int|
            0 <= i < rows.len() ==> {
                let rr = #[trigger] reconciled_rows(rows, m, next)[i];
                rr.id == rows[i].id && rr.is_reviewed == rows[i].is_reviewed && rr.text
                    == rows[i].text
            },
        !any_stat_change(rows, m) ==> reconciled_rows(rows, m, next) == rows,
        reconcile_event(rows, m) == (if any_stat_change(rows, m) {
            Some(IdModelChange::EntityChanged)
        } else {
            None::<IdModelChange>
        }),
{
    lemma_new_entries_all_present(rows, m);
    lemma_kept_rows_all(rows, m);
    assert(added_rows(rows, m, next) =~= Seq::<DiffFileItem>::empty());
    assert(reconciled_rows(rows, m, next) =~= kept_rows(rows, m));
    if !any_stat_change(rows, m) {
        assert forall|i: int|
            0 <= i < rows.len() implies #[trigger] reconciled_rows(rows, m, next)[i]
            == rows[i] by {
            assert(!(has_key(m, rows[i].text@) && row_differs(rows[i], stat_at(m, rows[i].text@))));
            assert(has_key(m, rows[i].text@));
        }
        assert(reconciled_rows(rows, m, next) =~= rows);
    }
}

/// Law: reconciling a non-empty row set with a mapping that shares no path
/// with it replaces everything: the result carries exactly the mapping's
/// paths, every row is fresh and unreviewed, and a bulk reset is reported.
pub proof fn lemma_reconcile_disjoint_replace(
    rows: Seq<DiffFileItem>,
    m: Seq<(String, DiffStatus)>,
    next: int,
)
    requires
        unique_keys(m),
        no_shared_path(rows, m),
        rows.len() > 0,
        forall|i: int| 0 <= i < rows.len() ==> (#[trigger] rows[i]).id < next,
        next >= 0,
        next + m.len() <= usize::MAX,
    ensures
        reconciled_rows(rows, m, next).len() == m.len(),
        forall|i: int|
            0 <= i < m.len() ==> {
                let rr = #[trigger] reconciled_rows(rows, m, next)[i];
                rr.text == m[i].0 && rr.is_reviewed == false && rr.id == next + i
            },
        forall|i: int, j: int|
            0 <= i < reconciled_rows(rows, m, next).len() && 0 <= j < rows.len() ==> (
            #[trigger] reconciled_rows(rows, m, next)[i]).id != (#[trigger] rows[j]).id,
        reconcile_event(rows, m) == Some(IdModelChange::ModelCleared),
{
    assert forall|i: int| 0 <= i < rows.len() implies !has_key(m, (#[trigger] rows[i]).text@) by {
        if has_key(m, rows[i].text@) {
            let j = choose|j: int| 0 <= j < m.len() && m[j].0@ == rows[i].text@;
            assert(has_path(rows, m[j].0@));
        }
    }
    lemma_kept_rows_none(rows, m);
    lemma_new_entries_all_absent(rows, m);
    let rr = reconciled_rows(rows, m, next);
    assert(rr =~= added_rows(rows, m, next));
    assert forall|i: int|
        0 <= i < m.len() implies {
        let r = #[trigger] rr[i];
        r.text == m[i].0 && r.is_reviewed == false && r.id == next + i
    } by {
        assert(rr[i] == fresh_row((next + i) as usize, m[i].0, m[i].1));
    }
    assert(!same_key_sets(rows, m)) by {
        assert(!has_key(m, rows[0].text@));
    }
}

/// Every reconciled row's path is a key of the mapping.
proof fn lemma_rr_paths_are_keys(rows: Seq<DiffFileItem>, m: Seq<(String, DiffStatus)>, next: int)
    requires
        next >= 0,
        next + m.len() <= usize::MAX,
    ensures
        forall|p: int|
            0 <= p < reconciled_rows(rows, m, next).len() ==> has_key(
                m,
                (#[trigger] reconciled_rows(rows, m, next)[p]).text@,
            ),
{
    lemma_kept_rows_props(rows, m);
    lemma_new_entries_props(rows, m);
    let kr = kept_rows(rows, m);
    let ne = new_entries(rows, m);
    let ar = added_rows(rows, m, next);
    let rr = reconciled_rows(rows, m, next);
    assert forall|p: int| 0 <= p < rr.len() implies has_key(m, (#[trigger] rr[p]).text@) by {
        if p < kr.len() {
            assert(rr[p] == kr[p]);
            let j = choose|j: int|
                0 <= j < rows.len() && has_key(m, rows[j].text@) && kr[p] == updated_row(
                    rows[j],
                    stat_at(m, rows[j].text@),
                );
            assert(kr[p].text@ == rows[j].text@);
        } else {
            assert(rr[p] == ar[p - kr.len()]);
            let t = p - kr.len();
            assert(ar[t] == fresh_row((next + t) as usize, ne[t].0, ne[t].1));
            let j = choose|j: int| 0 <= j < m.len() && ne[t] == m[j] && !has_path(rows, m[j].0@);
            assert(ar[t].text@ == m[j].0@);
        }
    }
}

/// Every key of the mapping is some reconciled row's path.
proof fn lemma_keys_are_rr_paths(rows: Seq<DiffFileItem>, m: Seq<(String, DiffStatus)>, next: int)
    requires
        next >= 0,
        next + m.len() <= usize::MAX,
    ensures
        forall|j: int|
            0 <= j < m.len() ==> has_path(reconciled_rows(rows, m, next), (#[trigger] m[j]).0@),
{
    lemma_kept_rows_complete(rows, m);
    lemma_new_entries_complete(rows, m);
    lemma_new_entries_props(rows, m);
    let kr = kept_rows(rows, m);
    let ne = new_entries(rows, m);
    let ar = added_rows(rows, m, next);
    let rr = reconciled_rows(rows, m, next);
    assert forall|j: int| 0 <= j < m.len() implies has_path(rr, (#[trigger] m[j]).0@) by {
        if has_path(rows, m[j].0@) {
            let i = choose|i: int| 0 <= i < rows.len() && rows[i].text@ == m[j].0@;
            assert(has_key(m, rows[i].text@));
            let p = choose|p: int|
                0 <= p < kr.len() && kr[p] == updated_row(rows[i], stat_at(m, rows[i].text@));
            assert(rr[p] == kr[p]);
            assert(rr[p].text@ == m[j].0@);
        } else {
            let p = choose|p: int| 0 <= p < ne.len() && ne[p] == m[j];
            assert(ar[p] == fresh_row((next + p) as usize, ne[p].0, ne[p].1));
            assert(ar[p].text@ == m[j].0@);
            assert(rr[kr.len() + p] == ar[p]);
        }
    }
}

/// Rows whose path survives keep their identity and review flag.
proof fn lemma_rr_keeps_surviving(rows: Seq<DiffFileItem>, m: Seq<(String, DiffStatus)>, next: int)
    ensures
        forall|j: int|
            0 <= j < rows.len() && has_key(m, (#[trigger] rows[j]).text@) ==> exists|p: int|
                0 <= p < reconciled_rows(rows, m, next).len() && (#[trigger] reconciled_rows(
                    rows,
                    m,
                    next,
                )[p]).id == rows[j].id && reconciled_rows(rows, m, next)[p].is_reviewed
                    == rows[j].is_reviewed && reconciled_rows(rows, m, next)[p].text
                    == rows[j].text,
{
    lemma_kept_rows_complete(rows, m);
    let kr = kept_rows(rows, m);
    let rr = reconciled_rows(rows, m, next);
    assert forall|j: int|
        0 <= j < rows.len() && has_key(m, (#[trigger] rows[j]).text@) implies exists|p: int|
        0 <= p < reconciled_rows(rows, m, next).len() && (#[trigger] reconciled_rows(
            rows,
            m,
            next,
        )[p]).id == rows[j].id && reconciled_rows(rows, m, next)[p].is_reviewed
            == rows[j].is_reviewed && reconciled_rows(rows, m, next)[p].text == rows[j].text by {
        let p = choose|p: int|
            0 <= p < kr.len() && kr[p] == updated_row(rows[j], stat_at(m, rows[j].text@));
        assert(rr[p] == kr[p]);
        assert(0 <= p < rr.len() && rr[p].id == rows[j].id && rr[p].is_reviewed
            == rows[j].is_reviewed && rr[p].text == rows[j].text);
    }
}

/// Rows whose path disappeared from the mapping are gone.
proof fn lemma_rr_drops_vanished(rows: Seq<DiffFileItem>, m: Seq<(String, DiffStatus)>, next: int)
    requires
        next >= 0,
        next + m.len() <= usize::MAX,
    ensures
        forall|j: int|
            0 <= j < rows.len() && !has_key(m, (#[trigger] rows[j]).text@) ==> !has_path(
                reconciled_rows(rows, m, next),
                rows[j].text@,
            ),
{
    lemma_rr_paths_are_keys(rows, m, next);
    let rr = reconciled_rows(rows, m, next);
    assert forall|j: int|
        0 <= j < rows.len() && !has_key(m, (#[trigger] rows[j]).text@) implies !has_path(
        rr,
        rows[j].text@,
    ) by {
        if has_path(rr, rows[j].text@) {
            let p = choose|p: int| 0 <= p < rr.len() && rr[p].text@ == rows[j].text@;
            assert(has_key(m, rr[p].text@));
        }
    }
}

/// Rows for first-seen paths are fresh and unreviewed.
proof fn lemma_rr_fresh_unreviewed(rows: Seq<DiffFileItem>, m: Seq<(String, DiffStatus)>, next: int)
    requires
        next >= 0,
        next + m.len() <= usize::MAX,
    ensures
        forall|p: int|
            0 <= p < reconciled_rows(rows, m, next).len() && !has_path(
                rows,
                (#[trigger] reconciled_rows(rows, m, next)[p]).text@,
            ) ==> reconciled_rows(rows, m, next)[p].is_reviewed == false && reconciled_rows(
                rows,
                m,
                next,
            )[p].id >= next,
{
    lemma_kept_rows_props(rows, m);
    lemma_new_entries_props(rows, m);
    let kr = kept_rows(rows, m);
    let ne = new_entries(rows, m);
    let ar = added_rows(rows, m, next);
    let rr = reconciled_rows(rows, m, next);
    assert forall|p: int|
        0 <= p < rr.len() && !has_path(rows, (#[trigger] rr[p]).text@) implies rr[p].is_reviewed
        == false && rr[p].id >= next by {
        if p < kr.len() {
            assert(rr[p] == kr[p]);
            let j = choose|j: int|
                0 <= j < rows.len() && has_key(m, rows[j].text@) && kr[p] == updated_row(
                    rows[j],
                    stat_at(m, rows[j].text@),
                );
            assert(rr[p].text@ == rows[j].text@);
            assert(has_path(rows, rr[p].text@));
        } else {
            assert(rr[p] == ar[p - kr.len()]);
            assert(ar[p - kr.len()] == fresh_row(
                (next + (p - kr.len())) as usize,
                ne[p - kr.len()].0,
                ne[p - kr.len()].1,
            ));
        }
    }
}

/// Law: after reconciling any row set with any mapping, the resulting path
/// set equals the mapping's key set; rows whose path survives keep their
/// identity and review flag; rows whose path disappeared are gone; rows for
/// first-seen paths are fresh and unreviewed.
pub proof fn lemma_reconcile_partial_overlap(
    rows: Seq<DiffFileItem>,
    m: Seq<(String, DiffStatus)>,
    next: int,
)
    requires
        unique_keys(m),
        distinct_row_paths(rows),
        forall|i: int| 0 <= i < rows.len() ==> (#[trigger] rows[i]).id < next,
        next >= 0,
        next + m.len() <= usize::MAX,
    ensures
        forall|p: int|
            0 <= p < reconciled_rows(rows, m, next).len() ==> has_key(
                m,
                (#[trigger] reconciled_rows(rows, m, next)[p]).text@,
            ),
        forall|j: int|
            0 <= j < m.len() ==> has_path(reconciled_rows(rows, m, next), (#[trigger] m[j]).0@),
        forall|j: int|
            0 <= j < rows.len() && has_key(m, (#[trigger] rows[j]).text@) ==> exists|p: int|
                0 <= p < reconciled_rows(rows, m, next).len() && (#[trigger] reconciled_rows(
                    rows,
                    m,
                    next,
                )[p]).id == rows[j].id && reconciled_rows(rows, m, next)[p].is_reviewed
                    == rows[j].is_reviewed && reconciled_rows(rows, m, next)[p].text
                    == rows[j].text,
        forall|j: int|
            0 <= j < rows.len() && !has_key(m, (#[trigger] rows[j]).text@) ==> !has_path(
                reconciled_rows(rows, m, next),
                rows[j].text@,
            ),
        forall|p: int|
            0 <= p < reconciled_rows(rows, m, next).len() && !has_path(
                rows,
                (#[trigger] reconciled_rows(rows, m, next)[p]).text@,
            ) ==> reconciled_rows(rows, m, next)[p].is_reviewed == false && reconciled_rows(
                rows,
                m,
                next,
            )[p].id >= next,
{
    lemma_rr_paths_are_keys(rows, m, next);
    lemma_keys_are_rr_paths(rows, m, next);
    lemma_rr_keeps_surviving(rows, m, next);
    lemma_rr_drops_vanished(rows, m, next);
    lemma_rr_fresh_unreviewed(rows, m, next);
}

// ---------------------------------------------------------------------------
// Law: statistics consistency.
// ---------------------------------------------------------------------------

/// Sum of the added-line counts over a row sequence.
pub open spec fn row_added_sum(rows: Seq<DiffFileItem>) -> int
    decreases rows.len(),
{
    if rows.len() == 0 {
        0
    } else {
        row_added_sum(rows.drop_last()) + rows.last().added_lines
    }
}

/// Sum of the removed-line counts over a row sequence.
pub open spec fn row_removed_sum(rows: Seq<DiffFileItem>) -> int
    decreases rows.len(),
{
    if rows.len() == 0 {
        0
    } else {
        row_removed_sum(rows.drop_last()) + rows.last().removed_lines
    }
}

/// How many rows carry the classification `ct`.
pub open spec fn row_count_of(rows: Seq<DiffFileItem>, ct: ChangeType) -> int
    decreases rows.len(),
{
    if rows.len() == 0 {
        0
    } else {
        row_count_of(rows.drop_last(), ct) + if rows.last().change_type == ct {
            1int
        } else {
            0int
        }
    }
}

/// Sum of the per-classification counts of a breakdown.
pub open spec fn stat_count_sum(b: Seq<OverallStat>) -> int
    decreases b.len(),
{
    if b.len() == 0 {
        0
    } else {
        stat_count_sum(b.drop_last()) + b.last().count
    }
}

/// Sums over a sequence extended by one element.
proof fn lemma_row_sum_push(s: Seq<DiffFileItem>, r: DiffFileItem)
    ensures
        row_added_sum(s.push(r)) == row_added_sum(s) + r.added_lines,
        row_removed_sum(s.push(r)) == row_removed_sum(s) + r.removed_lines,
        forall|ct: ChangeType|
            #[trigger] row_count_of(s.push(r), ct) == row_count_of(s, ct) + (if r.change_type
                == ct {
                1int
            } else {
                0int
            }),
{
    assert(s.push(r).drop_last() =~= s);
    assert(s.push(r).last() == r);
}

/// Totals over a mapping extended by one entry.
proof fn lemma_total_push(m: Seq<(String, DiffStatus)>, e: (String, DiffStatus))
    ensures
        total_added(m.push(e)) == total_added(m) + e.1.added_lines,
        total_removed(m.push(e)) == total_removed(m) + e.1.removed_lines,
        forall|ct: ChangeType|
            #[trigger] count_of(m.push(e), ct) == count_of(m, ct) + (if e.1.change_type == ct {
                1int
            } else {
                0int
            }),
{
    assert(m.push(e).drop_last() =~= m);
    assert(m.push(e).last() == e);
}

/// Count sums over a breakdown extended by one line.
proof fn lemma_stat_sum_push(b: Seq<OverallStat>, o: OverallStat)
    ensures
        stat_count_sum(b.push(o)) == stat_count_sum(b) + o.count,
{
    assert(b.push(o).drop_last() =~= b);
    assert(b.push(o).last() == o);
}

/// Appending one more row to the considered set moves that row's
/// contribution from the inserted entries to the surviving rows.
proof fn lemma_new_entries_push_row(
    rows: Seq<DiffFileItem>,
    r: DiffFileItem,
    m: Seq<(String, DiffStatus)>,
)
    requires
        unique_keys(m),
        !has_path(rows, r.text@),
    ensures
        total_added(new_entries(rows, m)) == total_added(new_entries(rows.push(r), m)) + (if
        has_key(m, r.text@) {
            stat_at(m, r.text@).added_lines as int
        } else {
            0
        }),
        total_removed(new_entries(rows, m)) == total_removed(new_entries(rows.push(r), m)) + (if
        has_key(m, r.text@) {
            stat_at(m, r.text@).removed_lines as int
        } else {
            0
        }),
        new_entries(rows, m).len() == new_entries(rows.push(r), m).len() + (if has_key(
            m,
            r.text@,
        ) {
            1int
        } else {
            0int
        }),
        forall|ct: ChangeType|
            #[trigger] count_of(new_entries(rows, m), ct) == count_of(new_entries(rows.push(r), m), ct)
                + (if has_key(m, r.text@) && stat_at(m, r.text@).change_type == ct {
                1int
            } else {
                0int
            }),
    decreases m.len(),
{
    let rows2 = rows.push(r);
    if m.len() == 0 {
        assert(!has_key(m, r.text@));
    } else {
        let t = m.drop_last();
        let e = m.last();
        assert(e == m[m.len() - 1]);
        assert(unique_keys(t));
        // membership of the last entry's key in the extended row set
        assert(has_path(rows2, e.0@) == (has_path(rows, e.0@) || e.0@ == r.text@)) by {
            if has_path(rows, e.0@) {
                let i = choose|i: int| 0 <= i < rows.len() && rows[i].text@ == e.0@;
                assert(rows2[i] == rows[i]);
                assert(has_path(rows2, e.0@));
            }
            if e.0@ == r.text@ {
                assert(rows2[rows.len() as int] == r);
                assert(has_path(rows2, e.0@));
            }
            if has_path(rows2, e.0@) {
                let i = choose|i: int| 0 <= i < rows2.len() && rows2[i].text@ == e.0@;
                if i < rows.len() {
                    assert(rows2[i] == rows[i]);
                    assert(has_path(rows, e.0@));
                } else {
                    assert(rows2[i] == r);
                }
            }
        }
        // whether the remaining entries hold the pushed row's key
        assert(has_key(m, r.text@) == (has_key(t, r.text@) || e.0@ == r.text@)) by {
            if has_key(t, r.text@) {
                let i = choose|i: int| 0 <= i < t.len() && t[i].0@ == r.text@;
                assert(m[i] == t[i]);
                assert(has_key(m, r.text@));
            }
            if has_key(m, r.text@) {
                let i = choose|i: int| 0 <= i < m.len() && m[i].0@ == r.text@;
                if i < t.len() {
                    assert(t[i] == m[i]);
                } else {
                    assert(m[i] == e);
                }
            }
        }
        if has_key(t, r.text@) {
            // the unique matching entry sits before the last one
            assert(stat_at(m, r.text@) == stat_at(t, r.text@)) by {
                let w = choose|i: int| 0 <= i < m.len() && m[i].0@ == r.text@;
                let w2 = choose|i: int| 0 <= i < t.len() && t[i].0@ == r.text@;
                assert(m[w2] == t[w2]);
                assert(w == w2);
                assert(t[w2] == m[w]);
            }
        }
        if e.0@ == r.text@ {
            assert(!has_key(t, r.text@)) by {
                if has_key(t, r.text@) {
                    let i = choose|i: int| 0 <= i < t.len() && t[i].0@ == r.text@;
                    assert(m[i] == t[i]);
                    assert(m[i].0@ == m[m.len() - 1].0@);
                }
            }
            assert(stat_at(m, r.text@) == e.1) by {
                let w = choose|i: int| 0 <= i < m.len() && m[i].0@ == r.text@;
                if w < m.len() - 1 {
                    assert(t[w] == m[w]);
                    assert(has_key(t, r.text@));
                }
            }
        }
        lemma_new_entries_push_row(rows, r, t);
        let n0t = new_entries(rows, t);
        let n1t = new_entries(rows2, t);
        let n0 = new_entries(rows, m);
        let n1 = new_entries(rows2, m);
        if has_path(rows, e.0@) {
            assert(n0 == n0t);
            assert(n1 == n1t);
        } else if e.0@ == r.text@ {
            assert(n0 == n0t.push(e));
            assert(n1 == n1t);
            lemma_total_push(n0t, e);
        } else {
            assert(n0 == n0t.push(e));
            assert(n1 == n1t.push(e));
            lemma_total_push(n0t, e);
            lemma_total_push(n1t, e);
        }
    }
}

/// The surviving rows and the inserted entries together account for the
/// whole mapping: their added and removed line counts sum to the mapping's
/// totals, and their counts sum to the number of entries.
proof fn lemma_kept_plus_new(rows: Seq<DiffFileItem>, m: Seq<(String, DiffStatus)>)
    requires
        unique_keys(m),
        distinct_row_paths(rows),
    ensures
        row_added_sum(kept_rows(rows, m)) + total_added(new_entries(rows, m)) == total_added(m),
        row_removed_sum(kept_rows(rows, m)) + total_removed(new_entries(rows, m)) == total_removed(
            m,
        ),
        kept_rows(rows, m).len() + new_entries(rows, m).len() == m.len(),
        forall|ct: ChangeType|
            row_count_of(kept_rows(rows, m), ct) + count_of(new_entries(rows, m), ct)
                == #[trigger] count_of(m, ct),
    decreases rows.len(),
{
    if rows.len() == 0 {
        assert forall|j: int| 0 <= j < m.len() implies !has_path(rows, (#[trigger] m[j]).0@) by {}
        lemma_new_entries_all_absent(rows, m);
    } else {
        let t = rows.drop_last();
        let r = rows.last();
        assert(distinct_row_paths(t));
        lemma_kept_plus_new(t, m);
        assert(!has_path(t, r.text@)) by {
            if has_path(t, r.text@) {
                let i = choose|i: int| 0 <= i < t.len() && t[i].text@ == r.text@;
                assert(rows[i].text@ == rows[rows.len() - 1].text@);
            }
        }
        lemma_new_entries_push_row(t, r, m);
        assert(t.push(r) =~= rows);
        if has_key(m, r.text@) {
            let s2 = stat_at(m, r.text@);
            assert(kept_rows(rows, m) == kept_rows(t, m).push(updated_row(r, s2)));
            lemma_row_sum_push(kept_rows(t, m), updated_row(r, s2));
            assert(updated_row(r, s2).added_lines == s2.added_lines as i64);
            assert(updated_row(r, s2).removed_lines == s2.removed_lines as i64);
        } else {
            assert(kept_rows(rows, m) == kept_rows(t, m));
        }
    }
}

/// Row sums split over concatenation.
proof fn lemma_row_sum_concat(a: Seq<DiffFileItem>, b: Seq<DiffFileItem>)
    ensures
        row_added_sum(a + b) == row_added_sum(a) + row_added_sum(b),
        row_removed_sum(a + b) == row_removed_sum(a) + row_removed_sum(b),
        forall|ct: ChangeType|
            #[trigger] row_count_of(a + b, ct) == row_count_of(a, ct) + row_count_of(b, ct),
    decreases b.len(),
{
    if b.len() == 0 {
        assert(a + b =~= a);
        assert forall|ct: ChangeType|
            #[trigger] row_count_of(a + b, ct) == row_count_of(a, ct) + row_count_of(b, ct) by {}
    } else {
        lemma_row_sum_concat(a, b.drop_last());
        assert((a + b).drop_last() =~= a + b.drop_last());
        assert((a + b).last() == b.last());
        assert forall|ct: ChangeType|
            #[trigger] row_count_of(a + b, ct) == row_count_of(a, ct) + row_count_of(b, ct) by {
            assert(row_count_of(a + b.drop_last(), ct) == row_count_of(a, ct) + row_count_of(
                b.drop_last(),
                ct,
            ));
        }
    }
}

/// Two sequences with pointwise equal line counts have equal sums.
proof fn lemma_pointwise_sum(s: Seq<DiffFileItem>, ne: Seq<(String, DiffStatus)>)
    requires
        s.len() == ne.len(),
        forall|i: int|
            0 <= i < s.len() ==> (#[trigger] s[i]).added_lines == ne[i].1.added_lines as i64
                && s[i].removed_lines == ne[i].1.removed_lines as i64 && s[i].change_type
                == ne[i].1.change_type,
    ensures
        row_added_sum(s) == total_added(ne),
        row_removed_sum(s) == total_removed(ne),
        forall|ct: ChangeType| row_count_of(s, ct) == #[trigger] count_of(ne, ct),
    decreases s.len(),
{
    if s.len() > 0 {
        lemma_pointwise_sum(s.drop_last(), ne.drop_last());
        assert forall|ct: ChangeType| row_count_of(s, ct) == #[trigger] count_of(ne, ct) by {
            assert(row_count_of(s.drop_last(), ct) == count_of(ne.drop_last(), ct));
            assert(s.last() == s[s.len() - 1]);
            assert(ne.last() == ne[ne.len() - 1]);
        }
    } else {
        assert forall|ct: ChangeType| row_count_of(s, ct) == #[trigger] count_of(ne, ct) by {}
    }
}

/// Sum of the per-classification counts, over the first `k` positions of
/// the tag order.
spec fn count_sum_upto(m: Seq<(String, DiffStatus)>, k: int) -> int
    decreases k,
{
    if k <= 0 {
        0
    } else {
        count_sum_upto(m, k - 1) + count_of(m, rank_tag(k - 1))
    }
}

/// Dropping the last entry lowers the count sum by one once the entry's own
/// position is within range.
proof fn lemma_count_sum_step(m: Seq<(String, DiffStatus)>, k: int)
    requires
        m.len() > 0,
        k <= 10,
    ensures
        count_sum_upto(m, k) == count_sum_upto(m.drop_last(), k) + (if 0 <= tag_rank(
            m.last().1.change_type,
        ) < k {
            1int
        } else {
            0int
        }),
    decreases k,
{
    if k > 0 {
        lemma_count_sum_step(m, k - 1);
        let ct = m.last().1.change_type;
        assert((m.last().1.change_type == rank_tag(k - 1)) == (tag_rank(ct) == k - 1)) by {
            assert(rank_tag(tag_rank(ct)) == ct);
        }
    }
}

/// With no entries, every count is zero.
proof fn lemma_count_sum_empty(m: Seq<(String, DiffStatus)>, k: int)
    requires
        m.len() == 0,
    ensures
        count_sum_upto(m, k) == 0,
    decreases k,
{
    if k > 0 {
        lemma_count_sum_empty(m, k - 1);
    }
}

/// Every entry carries exactly one classification, so the counts over the
/// whole tag order sum to the number of entries.
proof fn lemma_count_sum_total(m: Seq<(String, DiffStatus)>)
    ensures
        count_sum_upto(m, 10) == m.len(),
    decreases m.len(),
{
    if m.len() == 0 {
        lemma_count_sum_empty(m, 10);
    } else {
        lemma_count_sum_total(m.drop_last());
        lemma_count_sum_step(m, 10);
        assert(0 <= tag_rank(m.last().1.change_type) < 10);
    }
}

/// The breakdown records exactly the non-zero counts.
proof fn lemma_breakdown_sum(m: Seq<(String, DiffStatus)>, k: int)
    requires
        0 <= k,
        m.len() <= usize::MAX,
    ensures
        stat_count_sum(breakdown_upto(m, k)) == count_sum_upto(m, k),
    decreases k,
{
    if k > 0 {
        lemma_breakdown_sum(m, k - 1);
        lemma_count_of_bound(m, rank_tag(k - 1));
        let rest = breakdown_upto(m, k - 1);
        let ct = rank_tag(k - 1);
        if count_of(m, ct) > 0 {
            lemma_stat_sum_push(
                rest,
                OverallStat { change_type: ct, count: count_of(m, ct) as usize },
            );
        }
    }
}

/// Each breakdown line records a classification with a positive count, and
/// that count is exactly the mapping's count for the classification.
proof fn lemma_breakdown_entries(m: Seq<(String, DiffStatus)>, k: int)
    requires
        0 <= k,
        m.len() <= usize::MAX,
    ensures
        forall|t: int|
            0 <= t < breakdown_upto(m, k).len() ==> (#[trigger] breakdown_upto(m, k)[t]).count
                == count_of(m, breakdown_upto(m, k)[t].change_type) && count_of(
                m,
                breakdown_upto(m, k)[t].change_type,
            ) > 0,
    decreases k,
{
    if k > 0 {
        lemma_breakdown_entries(m, k - 1);
        let ct = rank_tag(k - 1);
        lemma_count_of_bound(m, ct);
        let rest = breakdown_upto(m, k - 1);
        let cur = breakdown_upto(m, k);
        assert forall|t: int|
            0 <= t < cur.len() implies (#[trigger] cur[t]).count == count_of(m, cur[t].change_type)
                && count_of(m, cur[t].change_type) > 0 by {
            if t < rest.len() {
                assert(cur[t] == rest[t]);
            } else {
                assert(count_of(m, ct) > 0);
                assert(cur[t] == OverallStat { change_type: ct, count: count_of(m, ct) as usize });
            }
        }
    }
}

/// The breakdown's lines stand in strictly ascending tag order, list only
/// positions below `k`, and list every classification that occurs.
proof fn lemma_breakdown_shape(m: Seq<(String, DiffStatus)>, k: int)
    requires
        0 <= k <= 10,
        m.len() <= usize::MAX,
    ensures
        forall|t: int|
            0 <= t < breakdown_upto(m, k).len() ==> tag_rank(
                (#[trigger] breakdown_upto(m, k)[t]).change_type,
            ) < k,
        forall|t1: int, t2: int|
            0 <= t1 < t2 < breakdown_upto(m, k).len() ==> tag_rank(
                (#[trigger] breakdown_upto(m, k)[t1]).change_type,
            ) < tag_rank((#[trigger] breakdown_upto(m, k)[t2]).change_type),
        forall|ct: ChangeType|
            tag_rank(ct) < k && #[trigger] count_of(m, ct) > 0 ==> exists|t: int|
                0 <= t < breakdown_upto(m, k).len() && (#[trigger] breakdown_upto(
                    m,
                    k,
                )[t]).change_type == ct,
    decreases k,
{
    if k > 0 {
        lemma_breakdown_shape(m, k - 1);
        let ct0 = rank_tag(k - 1);
        let rest = breakdown_upto(m, k - 1);
        let cur = breakdown_upto(m, k);
        if count_of(m, ct0) > 0 {
            assert(cur == rest.push(
                OverallStat { change_type: ct0, count: count_of(m, ct0) as usize },
            ));
            assert forall|t: int|
                0 <= t < cur.len() implies tag_rank((#[trigger] cur[t]).change_type) < k by {
                if t < rest.len() {
                    assert(cur[t] == rest[t]);
                }
            }
            assert forall|t1: int, t2: int|
                0 <= t1 < t2 < cur.len() implies tag_rank((#[trigger] cur[t1]).change_type)
                < tag_rank((#[trigger] cur[t2]).change_type) by {
                if t2 < rest.len() {
                    assert(cur[t1] == rest[t1] && cur[t2] == rest[t2]);
                } else {
                    assert(cur[t1] == rest[t1]);
                    assert(cur[t2].change_type == ct0);
                }
            }
        }
        assert forall|ct: ChangeType|
            tag_rank(ct) < k && #[trigger] count_of(m, ct) > 0 implies exists|t: int|
            0 <= t < cur.len() && (#[trigger] cur[t]).change_type == ct by {
            if tag_rank(ct) < k - 1 {
                let t = choose|t: int| 0 <= t < rest.len() && rest[t].change_type == ct;
                assert(cur[t] == rest[t]);
            } else {
                assert(rank_tag(tag_rank(ct)) == ct);
                assert(ct == ct0);
                assert(cur[cur.len() - 1].change_type == ct);
            }
        }
    }
}

/// Law: after any reconciliation the added and removed line counts over the
/// resulting rows equal the aggregate totals; for every classification the
/// resulting rows carry it exactly as often as the mapping does, so each
/// breakdown line's count equals the number of resulting rows with that
/// classification; and the breakdown counts sum to the number of resulting
/// rows.
pub proof fn lemma_reconcile_statistics(
    rows: Seq<DiffFileItem>,
    m: Seq<(String, DiffStatus)>,
    next: int,
)
    requires
        unique_keys(m),
        distinct_row_paths(rows),
        m.len() <= usize::MAX,
    ensures
        row_added_sum(reconciled_rows(rows, m, next)) == total_added(m),
        row_removed_sum(reconciled_rows(rows, m, next)) == total_removed(m),
        forall|ct: ChangeType|
            row_count_of(reconciled_rows(rows, m, next), ct) == #[trigger] count_of(m, ct),
        forall|t: int|
            0 <= t < breakdown(m).len() ==> (#[trigger] breakdown(m)[t]).count == row_count_of(
                reconciled_rows(rows, m, next),
                breakdown(m)[t].change_type,
            ) && row_count_of(reconciled_rows(rows, m, next), breakdown(m)[t].change_type) > 0,
        forall|t1: int, t2: int|
            0 <= t1 < t2 < breakdown(m).len() ==> tag_rank(
                (#[trigger] breakdown(m)[t1]).change_type,
            ) < tag_rank((#[trigger] breakdown(m)[t2]).change_type),
        forall|ct: ChangeType|
            row_count_of(reconciled_rows(rows, m, next), ct) > 0 ==> exists|t: int|
                0 <= t < breakdown(m).len() && (#[trigger] breakdown(m)[t]).change_type == ct,
        stat_count_sum(breakdown(m)) == reconciled_rows(rows, m, next).len(),
{
    let kr = kept_rows(rows, m);
    let ne = new_entries(rows, m);
    let ar = added_rows(rows, m, next);
    lemma_kept_plus_new(rows, m);
    lemma_row_sum_concat(kr, ar);
    assert(ar.len() == ne.len());
    assert forall|i: int|
        0 <= i < ar.len() implies (#[trigger] ar[i]).added_lines == ne[i].1.added_lines as i64
            && ar[i].removed_lines == ne[i].1.removed_lines as i64 && ar[i].change_type
            == ne[i].1.change_type by {
        assert(ar[i] == fresh_row((next + i) as usize, ne[i].0, ne[i].1));
    }
    lemma_pointwise_sum(ar, ne);
    assert forall|ct: ChangeType|
        row_count_of(reconciled_rows(rows, m, next), ct) == #[trigger] count_of(m, ct) by {
        assert(row_count_of(kr + ar, ct) == row_count_of(kr, ct) + row_count_of(ar, ct));
        assert(row_count_of(ar, ct) == count_of(ne, ct));
        assert(row_count_of(kr, ct) + count_of(ne, ct) == count_of(m, ct));
    }
    lemma_breakdown_entries(m, 10);
    lemma_breakdown_shape(m, 10);
    assert forall|ct: ChangeType|
        row_count_of(reconciled_rows(rows, m, next), ct) > 0 implies exists|t: int|
        0 <= t < breakdown(m).len() && (#[trigger] breakdown(m)[t]).change_type == ct by {
        assert(count_of(m, ct) > 0);
        assert(tag_rank(ct) < 10);
    }
    lemma_count_sum_total(m);
    lemma_breakdown_sum(m, 10);
}

} // verus!
