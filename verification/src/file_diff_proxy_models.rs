use vstd::prelude::*;

use crate::repository::DiffFileItem;
use crate::sorting::{sort_by_leq, sorted_by_leq, SortOrder, TotalLeq};
use crate::strutil::{
    contains_seq, contains_str, lex_le, lemma_lex_le_total, lemma_lex_le_trans, lowercase,
    lower_of, rfind_char, rfind_idx, substring,
};

verus! {

/// The column a diff-row view is sorted by.
#[derive(Debug, PartialEq, Eq, Structural, Clone, Copy)]
pub enum SortCriteria {
    Name,
    Extension,
    IsDone,
}

/// Which review states a diff-row view shows.
#[derive(Debug, PartialEq, Eq, Structural, Clone, Copy)]
pub enum FilterReviewState {
    Unfiltered,
    Done,
    Open,
}

// ---------------------------------------------------------------------------
// File extensions.
// ---------------------------------------------------------------------------

/// The extension of the file named by the path `p`: the part of the final
/// component after its last dot, none when there is no dot or when the only
/// dot leads the component.
pub open spec fn ext_of(p: Seq<char>) -> Option<Seq<char>> {
    let name = p.skip(rfind_idx(p, '/') + 1);
    let d = rfind_idx(name, '.');
    if d <= 0 {
        None
    } else {
        Some(name.skip(d + 1))
    }
}

/// The extension of the file a path names, if it has one.
fn extension_from_filename(filename: &str) -> (r: Option<String>)
    ensures
        match r {
            Some(e) => ext_of(filename@) == Some(e@),
            None => ext_of(filename@) is None,
        },
{
    let n = filename.unicode_len();
    let name_start: usize = match rfind_char(filename, '/') {
        Some(i) => i + 1,
        None => 0,
    };
    let name = substring(filename, name_start, n);
    proof {
        assert(name@ =~= filename@.skip(rfind_idx(filename@, '/') + 1));
    }
    match rfind_char(name.as_str(), '.') {
        Some(d) => {
            if d == 0 {
                None
            } else {
                let name_len = name.unicode_len();
                let e = substring(name.as_str(), d + 1, name_len);
                proof {
                    assert(e@ =~= name@.skip(rfind_idx(name@, '.') + 1));
                }
                Some(e)
            }
        },
        None => None,
    }
}

// ---------------------------------------------------------------------------
// The comparator.
// ---------------------------------------------------------------------------

/// Case-insensitive name order, the fallback whenever a primary key ties.
pub open spec fn name_le(a: DiffFileItem, b: DiffFileItem) -> bool {
    lex_le(lower_of(a.text@), lower_of(b.text@))
}

/// Extension order: paths without an extension sort after paths with one,
/// in both directions; equal extensions fall back to the name order.
pub open spec fn ext_le(a: DiffFileItem, b: DiffFileItem, order: SortOrder) -> bool {
    match (ext_of(a.text@), ext_of(b.text@)) {
        (Option::None, Option::None) => name_le(a, b),
        (Option::None, Option::Some(_)) => false,
        (Option::Some(_), Option::None) => true,
        (Option::Some(x), Option::Some(y)) => if x == y {
            name_le(a, b)
        } else if order is Ascending {
            lex_le(x, y)
        } else {
            lex_le(y, x)
        },
    }
}

/// Review-state order: with `Ascending`, reviewed rows sort first; equal
/// states fall back to the name order.
pub open spec fn done_le(a: DiffFileItem, b: DiffFileItem, order: SortOrder) -> bool {
    if a.is_reviewed == b.is_reviewed {
        name_le(a, b)
    } else if order is Ascending {
        a.is_reviewed
    } else {
        b.is_reviewed
    }
}

/// The comparator of a diff-row view.
pub struct DiffRowCmp {
    pub criteria: SortCriteria,
    pub order: SortOrder,
}

/// Lexicographic order is antisymmetric.
proof fn lemma_lex_le_antisym(a: Seq<char>, b: Seq<char>)
    requires
        lex_le(a, b),
        lex_le(b, a),
    ensures
        a == b,
    decreases a.len(),
{
    if a.len() > 0 && b.len() > 0 {
        if a[0] == b[0] {
            lemma_lex_le_antisym(a.drop_first(), b.drop_first());
            assert(a.len() == b.len());
            assert forall|i: int| 0 <= i < a.len() implies a[i] == b[i] by {
                if i > 0 {
                    assert(a.drop_first()[i - 1] == b.drop_first()[i - 1]);
                }
            }
            assert(a =~= b);
        } else {
            vstd::utf8::char_u32_cast(a[0], a[0] as u32);
            vstd::utf8::char_u32_cast(b[0], b[0] as u32);
        }
    } else {
        assert(a.len() == 0 && b.len() == 0);
        assert(a =~= b);
    }
}

impl TotalLeq<DiffFileItem> for DiffRowCmp {
    open spec fn leq(&self, a: DiffFileItem, b: DiffFileItem) -> bool {
        match self.criteria {
            SortCriteria::Name => if self.order is Ascending {
                name_le(a, b)
            } else {
                name_le(b, a)
            },
            SortCriteria::Extension => ext_le(a, b, self.order),
            SortCriteria::IsDone => done_le(a, b, self.order),
        }
    }

    fn leq_exec(&self, a: &DiffFileItem, b: &DiffFileItem) -> (r: bool) {
        match self.criteria {
            SortCriteria::Name => {
                let la = lowercase(a.text.as_str());
                let lb = lowercase(b.text.as_str());
                match self.order {
                    SortOrder::Ascending => crate::strutil::str_lex_le(la.as_str(), lb.as_str()),
                    SortOrder::Descending => crate::strutil::str_lex_le(lb.as_str(), la.as_str()),
                }
            },
            SortCriteria::Extension => {
                let ea = extension_from_filename(a.text.as_str());
                let eb = extension_from_filename(b.text.as_str());
                match (ea, eb) {
                    (Option::None, Option::None) => name_le_exec(a, b),
                    (Option::None, Option::Some(_)) => false,
                    (Option::Some(_), Option::None) => true,
                    (Option::Some(x), Option::Some(y)) => {
                        if crate::strutil::str_eq(x.as_str(), y.as_str()) {
                            name_le_exec(a, b)
                        } else {
                            match self.order {
                                SortOrder::Ascending => crate::strutil::str_lex_le(
                                    x.as_str(),
                                    y.as_str(),
                                ),
                                SortOrder::Descending => crate::strutil::str_lex_le(
                                    y.as_str(),
                                    x.as_str(),
                                ),
                            }
                        }
                    },
                }
            },
            SortCriteria::IsDone => {
                if a.is_reviewed == b.is_reviewed {
                    name_le_exec(a, b)
                } else {
                    match self.order {
                        SortOrder::Ascending => a.is_reviewed,
                        SortOrder::Descending => b.is_reviewed,
                    }
                }
            },
        }
    }

    proof fn connected(&self, a: DiffFileItem, b: DiffFileItem) {
        lemma_lex_le_total(lower_of(a.text@), lower_of(b.text@));
        match (ext_of(a.text@), ext_of(b.text@)) {
            (Option::Some(x), Option::Some(y)) => {
                lemma_lex_le_total(x, y);
            },
            _ => {},
        }
    }

    proof fn transitive(&self, a: DiffFileItem, b: DiffFileItem, c: DiffFileItem) {
        let la = lower_of(a.text@);
        let lb = lower_of(b.text@);
        let lc = lower_of(c.text@);
        match self.criteria {
            SortCriteria::Name => {
                if self.order is Ascending {
                    lemma_lex_le_trans(la, lb, lc);
                } else {
                    lemma_lex_le_trans(lc, lb, la);
                }
            },
            SortCriteria::IsDone => {
                if a.is_reviewed == b.is_reviewed && b.is_reviewed == c.is_reviewed {
                    lemma_lex_le_trans(la, lb, lc);
                }
            },
            SortCriteria::Extension => {
                match (ext_of(a.text@), ext_of(b.text@), ext_of(c.text@)) {
                    (Option::Some(x), Option::Some(y), Option::Some(z)) => {
                        if x == y && y == z {
                            lemma_lex_le_trans(la, lb, lc);
                        } else if x == y {
                        } else if y == z {
                        } else if x == z {
                            // the two strict steps would be inverses
                            if self.order is Ascending {
                                lemma_lex_le_antisym(x, y);
                            } else {
                                lemma_lex_le_antisym(y, x);
                            }
                        } else {
                            if self.order is Ascending {
                                lemma_lex_le_trans(x, y, z);
                            } else {
                                lemma_lex_le_trans(z, y, x);
                            }
                        }
                    },
                    (Option::None, Option::None, Option::None) => {
                        lemma_lex_le_trans(la, lb, lc);
                    },
                    _ => {},
                }
            },
        }
    }
}

/// Case-insensitive name comparison.
fn name_le_exec(a: &DiffFileItem, b: &DiffFileItem) -> (r: bool)
    ensures
        r == name_le(*a, *b),
{
    let la = lowercase(a.text.as_str());
    let lb = lowercase(b.text.as_str());
    crate::strutil::str_lex_le(la.as_str(), lb.as_str())
}

// ---------------------------------------------------------------------------
// The filter.
// ---------------------------------------------------------------------------

/// Case-insensitive substring match; an empty filter matches everything.
pub open spec fn text_filter_passes(text: Seq<char>, pattern: Seq<char>) -> bool {
    pattern.len() == 0 || contains_seq(lower_of(text), lower_of(pattern))
}

/// Whether a row passes the review-state stage of the filter.
pub open spec fn review_state_passes(item: DiffFileItem, st: FilterReviewState) -> bool {
    match st {
        FilterReviewState::Unfiltered => true,
        FilterReviewState::Done => item.is_reviewed,
        FilterReviewState::Open => !item.is_reviewed,
    }
}

/// Whether a row passes both filter stages.
pub open spec fn row_passes(item: DiffFileItem, pattern: Seq<char>, st: FilterReviewState) -> bool {
    review_state_passes(item, st) && text_filter_passes(item.text@, pattern)
}

/// The rows that pass the filter, in source order.
pub open spec fn filtered_rows(
    rows: Seq<DiffFileItem>,
    pattern: Seq<char>,
    st: FilterReviewState,
) -> Seq<DiffFileItem>
    decreases rows.len(),
{
    if rows.len() == 0 {
        Seq::empty()
    } else {
        let rest = filtered_rows(rows.drop_last(), pattern, st);
        if row_passes(rows.last(), pattern, st) {
            rest.push(rows.last())
        } else {
            rest
        }
    }
}

/// Every filtered row passes the filter.
pub proof fn lemma_filtered_rows_pass(
    rows: Seq<DiffFileItem>,
    pattern: Seq<char>,
    st: FilterReviewState,
)
    ensures
        forall|p: int|
            0 <= p < filtered_rows(rows, pattern, st).len() ==> row_passes(
                #[trigger] filtered_rows(rows, pattern, st)[p],
                pattern,
                st,
            ),
    decreases rows.len(),
{
    if rows.len() > 0 {
        lemma_filtered_rows_pass(rows.drop_last(), pattern, st);
        let f = filtered_rows(rows, pattern, st);
        let ft = filtered_rows(rows.drop_last(), pattern, st);
        assert forall|p: int| 0 <= p < f.len() implies row_passes(#[trigger] f[p], pattern, st) by {
            if p < ft.len() {
                assert(f[p] == ft[p]);
            } else {
                assert(f[p] == rows.last());
            }
        }
    }
}

/// Filtering a sequence whose rows all pass changes nothing.
pub proof fn lemma_filtered_rows_all_pass(
    rows: Seq<DiffFileItem>,
    pattern: Seq<char>,
    st: FilterReviewState,
)
    requires
        forall|p: int| 0 <= p < rows.len() ==> row_passes(#[trigger] rows[p], pattern, st),
    ensures
        filtered_rows(rows, pattern, st) == rows,
    decreases rows.len(),
{
    if rows.len() > 0 {
        lemma_filtered_rows_all_pass(rows.drop_last(), pattern, st);
        assert(rows.drop_last().push(rows.last()) =~= rows);
    }
}

/// Law: applying the same filter twice yields what applying it once yields.
pub proof fn lemma_filter_idempotent(
    rows: Seq<DiffFileItem>,
    pattern: Seq<char>,
    st: FilterReviewState,
)
    ensures
        filtered_rows(filtered_rows(rows, pattern, st), pattern, st) == filtered_rows(
            rows,
            pattern,
            st,
        ),
{
    lemma_filtered_rows_pass(rows, pattern, st);
    lemma_filtered_rows_all_pass(filtered_rows(rows, pattern, st), pattern, st);
}

/// Law: clearing the filter yields the unfiltered source order.
pub proof fn lemma_empty_filter_is_identity(rows: Seq<DiffFileItem>, pattern: Seq<char>)
    requires
        pattern.len() == 0,
    ensures
        filtered_rows(rows, pattern, FilterReviewState::Unfiltered) == rows,
{
    assert forall|p: int|
        0 <= p < rows.len() implies row_passes(
        #[trigger] rows[p],
        pattern,
        FilterReviewState::Unfiltered,
    ) by {}
    lemma_filtered_rows_all_pass(rows, pattern, FilterReviewState::Unfiltered);
}

/// Law: under the extension sort a path without an extension sorts after
/// every path with one, whatever the direction.
pub proof fn lemma_no_extension_sorts_last(a: DiffFileItem, b: DiffFileItem, order: SortOrder)
    requires
        (ext_of(a.text@) is None),
        (ext_of(b.text@) is Some),
    ensures
        ((DiffRowCmp { criteria: SortCriteria::Extension, order }).leq(b, a)),
        (!(DiffRowCmp { criteria: SortCriteria::Extension, order }).leq(a, b)),
{
}

// ---------------------------------------------------------------------------
// The view itself: filter and sort parameters, applied on read.
// ---------------------------------------------------------------------------

/// A read-only, lazily recomputed view over diff rows: a filter stage and a
/// comparator stage. It owns only its parameters; the rows are handed in on
/// each read.
pub struct FileDiffProxyModels {
    pub filter_text: String,
    pub filter_review_state: FilterReviewState,
    pub criteria: SortCriteria,
    pub order: SortOrder,
}

impl FileDiffProxyModels {
    /// A fresh view: unfiltered, sorted by name ascending.
    pub fn new() -> (r: Self)
        ensures
            r.filter_text@ == Seq::<char>::empty(),
            r.filter_review_state == FilterReviewState::Unfiltered,
            r.criteria == SortCriteria::Name,
            r.order == SortOrder::Ascending,
    {
        FileDiffProxyModels {
            filter_text: String::new(),
            filter_review_state: FilterReviewState::Unfiltered,
            criteria: SortCriteria::Name,
            order: SortOrder::Ascending,
        }
    }

    pub fn sort_by(&mut self, criteria: SortCriteria, order: SortOrder)
        ensures
            final(self).criteria == criteria,
            final(self).order == order,
            final(self).filter_text == old(self).filter_text,
            final(self).filter_review_state == old(self).filter_review_state,
    {
        self.criteria = criteria;
        self.order = order;
    }

    pub fn set_filter_text(&mut self, filter_text: String)
        ensures
            final(self).filter_text == filter_text,
            final(self).criteria == old(self).criteria,
            final(self).order == old(self).order,
            final(self).filter_review_state == old(self).filter_review_state,
    {
        self.filter_text = filter_text;
    }

    pub fn set_filter_review_state(&mut self, filter_review_state: FilterReviewState)
        ensures
            final(self).filter_review_state == filter_review_state,
            final(self).criteria == old(self).criteria,
            final(self).order == old(self).order,
            final(self).filter_text == old(self).filter_text,
    {
        self.filter_review_state = filter_review_state;
    }

    /// The filtered rows, in source order.
    fn filter_rows(&self, rows: &Vec<DiffFileItem>) -> (r: Vec<DiffFileItem>)
        ensures
            r@ == filtered_rows(rows@, self.filter_text@, self.filter_review_state),
    {
        let n = rows.len();
        let mut out: Vec<DiffFileItem> = Vec::new();
        let mut i: usize = 0;
        while i < n
            invariant
                i <= n,
                n == rows@.len(),
                out@ == filtered_rows(
                    rows@.take(i as int),
                    self.filter_text@,
                    self.filter_review_state,
                ),
            decreases n - i,
        {
            proof {
                assert(rows@.take(i + 1).drop_last() =~= rows@.take(i as int));
                assert(rows@.take(i + 1).last() == rows@[i as int]);
            }
            let item = &rows[i];
            let state_ok = match self.filter_review_state {
                FilterReviewState::Unfiltered => true,
                FilterReviewState::Done => item.is_reviewed,
                FilterReviewState::Open => !item.is_reviewed,
            };
            let text_ok = if self.filter_text.as_str().is_empty() {
                true
            } else {
                let lt = lowercase(item.text.as_str());
                let lp = lowercase(self.filter_text.as_str());
                contains_str(lt.as_str(), lp.as_str())
            };
            if state_ok && text_ok {
                out.push(item.duplicate());
            }
            i = i + 1;
        }
        proof {
            assert(rows@.take(n as int) =~= rows@);
        }
        out
    }

    /// The view's contents: the rows that pass the filter, under the active
    /// sort.
    pub fn sort_model(&self, rows: &Vec<DiffFileItem>) -> (r: Vec<DiffFileItem>)
        ensures
            sorted_by_leq(&(DiffRowCmp { criteria: self.criteria, order: self.order }), r@),
            r@.to_multiset() == filtered_rows(
                rows@,
                self.filter_text@,
                self.filter_review_state,
            ).to_multiset(),
    {
        let passed = self.filter_rows(rows);
        let cmp = DiffRowCmp { criteria: self.criteria, order: self.order };
        sort_by_leq(passed, &cmp)
    }
}

} // verus!
