use vstd::prelude::*;

use crate::git_utils::Commit;
use crate::sorting::{sort_by_leq, sorted_by_leq, TotalLeq};
use crate::strutil::{
    contains_seq, contains_str, lemma_lex_le_total, lemma_lex_le_trans, lex_le, lowercase,
    lower_of,
};

verus! {

/// Case-insensitive substring match on the commit message; an empty
/// pattern matches everything.
pub open spec fn commit_passes(c: Commit, pattern: Seq<char>) -> bool {
    pattern.len() == 0 || contains_seq(lower_of(c.message@), lower_of(pattern))
}

/// The commits that pass the filter, in source order.
pub open spec fn filtered_commits(rows: Seq<Commit>, pattern: Seq<char>) -> Seq<Commit>
    decreases rows.len(),
{
    if rows.len() == 0 {
        Seq::empty()
    } else {
        let rest = filtered_commits(rows.drop_last(), pattern);
        if commit_passes(rows.last(), pattern) {
            rest.push(rows.last())
        } else {
            rest
        }
    }
}

/// The comparator of the history view: one of the text columns, or the
/// date column, which orders by instant rather than by its text.
pub struct CommitCmp {
    pub sort_index: usize,
    pub is_sort_ascending: bool,
}

impl CommitCmp {
    /// The text key of a commit for the text columns.
    pub open spec fn text_key(&self, c: Commit) -> Seq<char> {
        if self.sort_index == 0 {
            c.hash@
        } else if self.sort_index == 1 {
            c.message@
        } else {
            c.author@
        }
    }
}

impl TotalLeq<Commit> for CommitCmp {
    open spec fn leq(&self, a: Commit, b: Commit) -> bool {
        if self.sort_index == 3 {
            if self.is_sort_ascending {
                a.date_seconds <= b.date_seconds
            } else {
                b.date_seconds <= a.date_seconds
            }
        } else {
            if self.is_sort_ascending {
                lex_le(self.text_key(a), self.text_key(b))
            } else {
                lex_le(self.text_key(b), self.text_key(a))
            }
        }
    }

    fn leq_exec(&self, a: &Commit, b: &Commit) -> (r: bool) {
        if self.sort_index == 3 {
            if self.is_sort_ascending {
                a.date_seconds <= b.date_seconds
            } else {
                b.date_seconds <= a.date_seconds
            }
        } else {
            let ka = if self.sort_index == 0 {
                a.hash.as_str()
            } else if self.sort_index == 1 {
                a.message.as_str()
            } else {
                a.author.as_str()
            };
            let kb = if self.sort_index == 0 {
                b.hash.as_str()
            } else if self.sort_index == 1 {
                b.message.as_str()
            } else {
                b.author.as_str()
            };
            if self.is_sort_ascending {
                crate::strutil::str_lex_le(ka, kb)
            } else {
                crate::strutil::str_lex_le(kb, ka)
            }
        }
    }

    proof fn connected(&self, a: Commit, b: Commit) {
        if self.sort_index != 3 {
            lemma_lex_le_total(self.text_key(a), self.text_key(b));
        }
    }

    proof fn transitive(&self, a: Commit, b: Commit, c: Commit) {
        if self.sort_index != 3 {
            if self.is_sort_ascending {
                lemma_lex_le_trans(self.text_key(a), self.text_key(b), self.text_key(c));
            } else {
                lemma_lex_le_trans(self.text_key(c), self.text_key(b), self.text_key(a));
            }
        }
    }
}

/// A read-only, lazily recomputed view over the commit history: a message
/// filter and a sortable column; the default order is by date, most recent
/// first.
pub struct CommitProxyModel {
    pub commits: Vec<Commit>,
    pub filter_text: String,
    pub sort_index: usize,
    pub is_sort_ascending: bool,
}

impl CommitProxyModel {
    pub fn new() -> (r: Self)
        ensures
            r.commits@ == Seq::<Commit>::empty(),
            r.filter_text@ == Seq::<char>::empty(),
            r.sort_index == 3,
            r.is_sort_ascending == false,
    {
        CommitProxyModel {
            commits: Vec::new(),
            filter_text: String::new(),
            sort_index: 3,
            is_sort_ascending: false,
        }
    }

    /// Replaces the history wholesale, as a fresh query hands it over.
    pub fn set_commits(&mut self, commits: Vec<Commit>)
        ensures
            final(self).commits == commits,
            final(self).filter_text == old(self).filter_text,
            final(self).sort_index == old(self).sort_index,
            final(self).is_sort_ascending == old(self).is_sort_ascending,
    {
        self.commits = commits;
    }

    pub fn sort_by(&mut self, sort_index: usize, is_sort_ascending: bool)
        ensures
            final(self).sort_index == sort_index,
            final(self).is_sort_ascending == is_sort_ascending,
            final(self).commits == old(self).commits,
            final(self).filter_text == old(self).filter_text,
    {
        self.sort_index = sort_index;
        self.is_sort_ascending = is_sort_ascending;
    }

    pub fn set_filter_text(&mut self, text: String)
        ensures
            final(self).filter_text == text,
            final(self).commits == old(self).commits,
            final(self).sort_index == old(self).sort_index,
            final(self).is_sort_ascending == old(self).is_sort_ascending,
    {
        self.filter_text = text;
    }

    /// The view's contents: the commits whose message passes the filter,
    /// under the active sort.
    pub fn sort_model(&self) -> (r: Vec<Commit>)
        ensures
            sorted_by_leq(
                &(CommitCmp {
                    sort_index: self.sort_index,
                    is_sort_ascending: self.is_sort_ascending,
                }),
                r@,
            ),
            r@.to_multiset() == filtered_commits(self.commits@, self.filter_text@).to_multiset(),
    {
        let n = self.commits.len();
        let mut passed: Vec<Commit> = Vec::new();
        let mut i: usize = 0;
        while i < n
            invariant
                i <= n,
                n == self.commits@.len(),
                passed@ == filtered_commits(self.commits@.take(i as int), self.filter_text@),
            decreases n - i,
        {
            proof {
                assert(self.commits@.take(i + 1).drop_last() =~= self.commits@.take(i as int));
                assert(self.commits@.take(i + 1).last() == self.commits@[i as int]);
            }
            let c = &self.commits[i];
            let keep = if self.filter_text.as_str().is_empty() {
                true
            } else {
                let lm = lowercase(c.message.as_str());
                let lp = lowercase(self.filter_text.as_str());
                contains_str(lm.as_str(), lp.as_str())
            };
            if keep {
                passed.push(c.duplicate());
            }
            i = i + 1;
        }
        proof {
            assert(self.commits@.take(n as int) =~= self.commits@);
        }
        let cmp = CommitCmp { sort_index: self.sort_index, is_sort_ascending: self.is_sort_ascending };
        sort_by_leq(passed, &cmp)
    }
}

} // verus!
