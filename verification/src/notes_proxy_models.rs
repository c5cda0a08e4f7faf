use vstd::prelude::*;

use crate::notes::NoteItem;
use crate::sorting::{sort_by_leq, sorted_by_leq, SortOrder, TotalLeq};
use crate::strutil::{
    contains_seq, contains_str, lemma_lex_le_total, lemma_lex_le_trans, lex_le, lowercase,
    lower_of,
};

verus! {

/// The field a notes view is sorted by.
#[derive(Debug, PartialEq, Eq, Structural, Clone, Copy)]
pub enum NoteSortCriteria {
    NoteText,
    Context,
}

/// Case-insensitive substring match; an empty pattern matches everything.
pub open spec fn note_field_passes(field: Seq<char>, pattern: Seq<char>) -> bool {
    pattern.len() == 0 || contains_seq(lower_of(field), lower_of(pattern))
}

/// Both sub-filters must pass; an empty sub-filter is vacuously true.
pub open spec fn note_passes(item: NoteItem, text_pattern: Seq<char>, ctx_pattern: Seq<char>) -> bool {
    note_field_passes(item.text@, text_pattern) && note_field_passes(item.context@, ctx_pattern)
}

/// The notes that pass both filters, in source order.
pub open spec fn filtered_notes(
    rows: Seq<NoteItem>,
    text_pattern: Seq<char>,
    ctx_pattern: Seq<char>,
) -> Seq<NoteItem>
    decreases rows.len(),
{
    if rows.len() == 0 {
        Seq::empty()
    } else {
        let rest = filtered_notes(rows.drop_last(), text_pattern, ctx_pattern);
        if note_passes(rows.last(), text_pattern, ctx_pattern) {
            rest.push(rows.last())
        } else {
            rest
        }
    }
}

/// The comparator of a notes view: the chosen field, case-insensitively.
pub struct NoteCmp {
    pub criteria: NoteSortCriteria,
    pub order: SortOrder,
}

impl NoteCmp {
    /// The sort key of a note under this comparator.
    pub open spec fn key(&self, a: NoteItem) -> Seq<char> {
        match self.criteria {
            NoteSortCriteria::NoteText => lower_of(a.text@),
            NoteSortCriteria::Context => lower_of(a.context@),
        }
    }
}

impl TotalLeq<NoteItem> for NoteCmp {
    open spec fn leq(&self, a: NoteItem, b: NoteItem) -> bool {
        if self.order is Ascending {
            lex_le(self.key(a), self.key(b))
        } else {
            lex_le(self.key(b), self.key(a))
        }
    }

    fn leq_exec(&self, a: &NoteItem, b: &NoteItem) -> (r: bool) {
        let ka = match self.criteria {
            NoteSortCriteria::NoteText => lowercase(a.text.as_str()),
            NoteSortCriteria::Context => lowercase(a.context.as_str()),
        };
        let kb = match self.criteria {
            NoteSortCriteria::NoteText => lowercase(b.text.as_str()),
            NoteSortCriteria::Context => lowercase(b.context.as_str()),
        };
        match self.order {
            SortOrder::Ascending => crate::strutil::str_lex_le(ka.as_str(), kb.as_str()),
            SortOrder::Descending => crate::strutil::str_lex_le(kb.as_str(), ka.as_str()),
        }
    }

    proof fn connected(&self, a: NoteItem, b: NoteItem) {
        lemma_lex_le_total(self.key(a), self.key(b));
    }

    proof fn transitive(&self, a: NoteItem, b: NoteItem, c: NoteItem) {
        if self.order is Ascending {
            lemma_lex_le_trans(self.key(a), self.key(b), self.key(c));
        } else {
            lemma_lex_le_trans(self.key(c), self.key(b), self.key(a));
        }
    }
}

/// A read-only, lazily recomputed view over notes: a text filter and a
/// context filter, both of which must pass, under a sortable field.
pub struct NotesProxyModels {
    pub text_pattern: String,
    pub context_pattern: String,
    pub criteria: NoteSortCriteria,
    pub order: SortOrder,
}

impl NotesProxyModels {
    /// A fresh view: unfiltered, sorted by note text ascending.
    pub fn new() -> (r: Self)
        ensures
            r.text_pattern@ == Seq::<char>::empty(),
            r.context_pattern@ == Seq::<char>::empty(),
            r.criteria == NoteSortCriteria::NoteText,
            r.order == SortOrder::Ascending,
    {
        NotesProxyModels {
            text_pattern: String::new(),
            context_pattern: String::new(),
            criteria: NoteSortCriteria::NoteText,
            order: SortOrder::Ascending,
        }
    }

    pub fn set_text_filter(&mut self, text: String)
        ensures
            final(self).text_pattern == text,
            final(self).context_pattern == old(self).context_pattern,
            final(self).criteria == old(self).criteria,
            final(self).order == old(self).order,
    {
        self.text_pattern = text;
    }

    pub fn set_context_filter(&mut self, text: String)
        ensures
            final(self).context_pattern == text,
            final(self).text_pattern == old(self).text_pattern,
            final(self).criteria == old(self).criteria,
            final(self).order == old(self).order,
    {
        self.context_pattern = text;
    }

    pub fn set_sorting(&mut self, criteria: NoteSortCriteria, order: SortOrder)
        ensures
            final(self).criteria == criteria,
            final(self).order == order,
            final(self).text_pattern == old(self).text_pattern,
            final(self).context_pattern == old(self).context_pattern,
    {
        self.criteria = criteria;
        self.order = order;
    }

    /// Whether a note passes both filters.
    fn passes(&self, item: &NoteItem) -> (r: bool)
        ensures
            r == note_passes(*item, self.text_pattern@, self.context_pattern@),
    {
        let text_ok = if self.text_pattern.as_str().is_empty() {
            true
        } else {
            let lt = lowercase(item.text.as_str());
            let lp = lowercase(self.text_pattern.as_str());
            contains_str(lt.as_str(), lp.as_str())
        };
        let ctx_ok = if self.context_pattern.as_str().is_empty() {
            true
        } else {
            let lc = lowercase(item.context.as_str());
            let lp = lowercase(self.context_pattern.as_str());
            contains_str(lc.as_str(), lp.as_str())
        };
        text_ok && ctx_ok
    }

    /// The view's contents: the notes that pass both filters, under the
    /// active sort.
    pub fn model(&self, rows: &Vec<NoteItem>) -> (r: Vec<NoteItem>)
        ensures
            sorted_by_leq(&(NoteCmp { criteria: self.criteria, order: self.order }), r@),
            r@.to_multiset() == filtered_notes(
                rows@,
                self.text_pattern@,
                self.context_pattern@,
            ).to_multiset(),
    {
        let n = rows.len();
        let mut passed: Vec<NoteItem> = Vec::new();
        let mut i: usize = 0;
        while i < n
            invariant
                i <= n,
                n == rows@.len(),
                passed@ == filtered_notes(
                    rows@.take(i as int),
                    self.text_pattern@,
                    self.context_pattern@,
                ),
            decreases n - i,
        {
            proof {
                assert(rows@.take(i + 1).drop_last() =~= rows@.take(i as int));
                assert(rows@.take(i + 1).last() == rows@[i as int]);
            }
            let item = &rows[i];
            if self.passes(item) {
                passed.push(item.duplicate());
            }
            i = i + 1;
        }
        proof {
            assert(rows@.take(n as int) =~= rows@);
        }
        let cmp = NoteCmp { criteria: self.criteria, order: self.order };
        sort_by_leq(passed, &cmp)
    }
}

} // verus!
