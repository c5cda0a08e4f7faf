use vstd::prelude::*;

use crate::repository::DiffFileItem;
use crate::sorting::{sort_by_leq, sorted_by_leq, TotalLeq};
use crate::strutil::{
    contains_seq, contains_str, lemma_lex_le_total, lemma_lex_le_trans, lex_le, lowercase,
    lower_of, strings_view,
};

verus! {

/// Case-insensitive substring match of the flat file list's filter.
pub open spec fn file_name_passes(name: Seq<char>, pattern: Seq<char>) -> bool {
    contains_seq(lower_of(name), lower_of(pattern))
}

/// The file names of the rows that pass the filter, in source order.
pub open spec fn filtered_file_names(rows: Seq<DiffFileItem>, pattern: Seq<char>) -> Seq<
    Seq<char>,
>
    decreases rows.len(),
{
    if rows.len() == 0 {
        Seq::empty()
    } else {
        let rest = filtered_file_names(rows.drop_last(), pattern);
        if file_name_passes(rows.last().text@, pattern) {
            rest.push(rows.last().text@)
        } else {
            rest
        }
    }
}

/// Case-insensitive name order on plain file names.
pub struct FileNameCmp;

impl TotalLeq<String> for FileNameCmp {
    open spec fn leq(&self, a: String, b: String) -> bool {
        lex_le(lower_of(a@), lower_of(b@))
    }

    fn leq_exec(&self, a: &String, b: &String) -> (r: bool) {
        let la = lowercase(a.as_str());
        let lb = lowercase(b.as_str());
        crate::strutil::str_lex_le(la.as_str(), lb.as_str())
    }

    proof fn connected(&self, a: String, b: String) {
        lemma_lex_le_total(lower_of(a@), lower_of(b@));
    }

    proof fn transitive(&self, a: String, b: String, c: String) {
        lemma_lex_le_trans(lower_of(a@), lower_of(b@), lower_of(c@));
    }
}

/// The flat, filtered list of file names under review, sorted
/// case-insensitively.
pub struct FilesProxyModel {
    pub filter_text: String,
}

impl FilesProxyModel {
    pub fn new() -> (r: Self)
        ensures
            r.filter_text@ == Seq::<char>::empty(),
    {
        FilesProxyModel { filter_text: String::new() }
    }

    pub fn set_filter_text(&mut self, filter_text: String)
        ensures
            final(self).filter_text == filter_text,
    {
        self.filter_text = filter_text;
    }

    /// The view's contents: the names of the rows that pass the filter,
    /// sorted case-insensitively.
    pub fn files_sort_model(&self, rows: &Vec<DiffFileItem>) -> (r: Vec<String>)
        ensures
            sorted_by_leq(&FileNameCmp, r@),
            strings_view(r@).to_multiset() == filtered_file_names(
                rows@,
                self.filter_text@,
            ).to_multiset(),
    {
        let n = rows.len();
        let mut passed: Vec<String> = Vec::new();
        let mut i: usize = 0;
        proof {
            assert(strings_view(passed@) =~= filtered_file_names(rows@.take(0), self.filter_text@));
        }
        while i < n
            invariant
                i <= n,
                n == rows@.len(),
                strings_view(passed@) == filtered_file_names(
                    rows@.take(i as int),
                    self.filter_text@,
                ),
            decreases n - i,
        {
            proof {
                assert(rows@.take(i + 1).drop_last() =~= rows@.take(i as int));
                assert(rows@.take(i + 1).last() == rows@[i as int]);
            }
            let item = &rows[i];
            let lt = lowercase(item.text.as_str());
            let lp = lowercase(self.filter_text.as_str());
            if contains_str(lt.as_str(), lp.as_str()) {
                let ghost before = passed@;
                let name = item.text.clone();
                let ghost gname = name;
                passed.push(name);
                proof {
                    assert(strings_view(passed@) =~= strings_view(before).push(gname@));
                }
            }
            i = i + 1;
        }
        proof {
            assert(rows@.take(n as int) =~= rows@);
        }
        let ghost pre = passed@;
        let sorted = sort_by_leq(passed, &FileNameCmp);
        proof {
            crate::sorting::lemma_permutation_props(sorted@, pre);
            lemma_views_multiset(sorted@, pre);
        }
        sorted
    }
}

/// Sequences of strings with equal multisets have view sequences with
/// equal multisets.
proof fn lemma_views_multiset(a: Seq<String>, b: Seq<String>)
    requires
        a.to_multiset() == b.to_multiset(),
    ensures
        strings_view(a).to_multiset() == strings_view(b).to_multiset(),
    decreases a.len(),
{
    broadcast use vstd::seq_lib::group_to_multiset_ensures;

    if a.len() == 0 {
        assert(b.to_multiset().len() == 0);
        assert(b.len() == 0);
        assert(strings_view(a) =~= strings_view(b));
    } else {
        let x = a.last();
        assert(a.to_multiset().count(x) > 0);
        assert(b.to_multiset().count(x) > 0);
        assert(b.contains(x));
        let w = choose|w: int| 0 <= w < b.len() && b[w] == x;
        let a2 = a.drop_last();
        let b2 = b.remove(w);
        vstd::seq_lib::to_multiset_build(a2, x);
        assert(a2.push(x) =~= a);
        vstd::seq_lib::to_multiset_remove(b, w);
        assert(a2.to_multiset() =~= b2.to_multiset()) by {
            assert(a.to_multiset() == a2.to_multiset().insert(x));
            assert(b2.to_multiset() == b.to_multiset().remove(x));
            assert(a2.to_multiset() =~= a.to_multiset().remove(x));
        }
        lemma_views_multiset(a2, b2);
        assert(strings_view(a) =~= strings_view(a2).push(x@));
        vstd::seq_lib::to_multiset_build(strings_view(a2), x@);
        assert(strings_view(b2) =~= strings_view(b).remove(w));
        vstd::seq_lib::to_multiset_remove(strings_view(b), w);
        assert(strings_view(b)[w] == x@);
        assert(strings_view(b).to_multiset() == strings_view(b2).to_multiset().insert(x@));
    }
}

} // verus!
