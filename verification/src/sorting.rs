use vstd::prelude::*;
use vstd::multiset::Multiset;

verus! {

broadcast use vstd::seq_lib::group_to_multiset_ensures, vstd::multiset::group_multiset_axioms;

/// The direction of a sort.
#[derive(Debug, PartialEq, Eq, Structural, Clone, Copy)]
pub enum SortOrder {
    Ascending,
    Descending,
}

/// A total preorder on `T`, carried by a comparator value: any two elements
/// are ordered one way or the other, and the order is transitive.
pub trait TotalLeq<T>: Sized {
    spec fn leq(&self, a: T, b: T) -> bool;

    fn leq_exec(&self, a: &T, b: &T) -> (r: bool)
        ensures
            r == self.leq(*a, *b),
    ;

    proof fn connected(&self, a: T, b: T)
        ensures
            self.leq(a, b) || self.leq(b, a),
    ;

    proof fn transitive(&self, a: T, b: T, c: T)
        requires
            self.leq(a, b),
            self.leq(b, c),
        ensures
            self.leq(a, c),
    ;
}

/// Every pair of positions is ordered by the comparator.
pub open spec fn sorted_by_leq<T, C: TotalLeq<T>>(c: &C, s: Seq<T>) -> bool {
    forall|i: int, j: int| 0 <= i < j < s.len() ==> c.leq(s[i], s[j])
}

/// Sorts the elements by the comparator: the result is ordered and holds
/// exactly the input elements.
pub fn sort_by_leq<T, C: TotalLeq<T>>(v: Vec<T>, c: &C) -> (r: Vec<T>)
    ensures
        sorted_by_leq(c, r@),
        r@.to_multiset() == v@.to_multiset(),
{
    let ghost orig = v@;
    let mut v = v;
    let mut out: Vec<T> = Vec::new();
    proof {
        assert(out@.to_multiset().add(v@.to_multiset()) =~= orig.to_multiset());
    }
    while v.len() > 0
        invariant
            sorted_by_leq(c, out@),
            out@.to_multiset().add(v@.to_multiset()) == orig.to_multiset(),
        decreases v.len(),
    {
        let ghost v0 = v@;
        let x = v.pop().unwrap();
        let ghost gx = x;
        proof {
            assert(v0 =~= v@.push(gx));
            vstd::seq_lib::to_multiset_build(v@, gx);
        }
        let mut idx: usize = 0;
        while idx < out.len() && c.leq_exec(&out[idx], &x)
            invariant
                idx <= out@.len(),
                forall|k: int| 0 <= k < idx ==> c.leq(#[trigger] out@[k], gx),
                gx == x,
            decreases out@.len() - idx,
        {
            idx = idx + 1;
        }
        proof {
            if idx < out@.len() {
                c.connected(out@[idx as int], gx);
            }
        }
        let ghost out0 = out@;
        out.insert(idx, x);
        proof {
            vstd::seq_lib::to_multiset_insert(out0, idx as int, gx);
            // the new element is ordered against everything it displaced
            assert forall|p: int, q: int|
                0 <= p < q < out@.len() implies c.leq(out@[p], out@[q]) by {
                if q < idx {
                    assert(out@[p] == out0[p] && out@[q] == out0[q]);
                } else if p > idx {
                    assert(out@[p] == out0[p - 1] && out@[q] == out0[q - 1]);
                } else if p < idx && q == idx {
                    assert(out@[p] == out0[p] && out@[q] == gx);
                } else if p < idx && q > idx {
                    assert(out@[p] == out0[p] && out@[q] == out0[q - 1]);
                    if p == q - 1 {
                    } else {
                        assert(c.leq(out0[p], out0[q - 1]));
                    }
                } else {
                    assert(p == idx && q > idx);
                    assert(out@[p] == gx && out@[q] == out0[q - 1]);
                    assert(c.leq(gx, out0[idx as int]));
                    if q - 1 > idx {
                        assert(c.leq(out0[idx as int], out0[q - 1]));
                        c.transitive(gx, out0[idx as int], out0[q - 1]);
                    }
                }
            }
            // the books balance: one element moved from the input to the output
            assert(out@.to_multiset().add(v@.to_multiset()) =~= orig.to_multiset());
        }
    }
    proof {
        assert(v@.to_multiset() =~= Multiset::<T>::empty());
        assert(out@.to_multiset().add(Multiset::<T>::empty()) =~= out@.to_multiset());
    }
    out
}

/// Case-sensitive lexicographic order on owned strings, by code point.
pub struct StrCmp;

impl TotalLeq<String> for StrCmp {
    open spec fn leq(&self, a: String, b: String) -> bool {
        crate::strutil::lex_le(a@, b@)
    }

    fn leq_exec(&self, a: &String, b: &String) -> (r: bool) {
        crate::strutil::str_lex_le(a.as_str(), b.as_str())
    }

    proof fn connected(&self, a: String, b: String) {
        crate::strutil::lemma_lex_le_total(a@, b@);
    }

    proof fn transitive(&self, a: String, b: String, c: String) {
        crate::strutil::lemma_lex_le_trans(a@, b@, c@);
    }
}

/// A sequence with a duplicate has a doubled multiset entry.
pub proof fn lemma_dup_count<T>(s: Seq<T>, i: int, j: int)
    requires
        0 <= i < j < s.len(),
        s[i] == s[j],
    ensures
        s.to_multiset().count(s[j]) >= 2,
{
    broadcast use vstd::seq_lib::group_to_multiset_ensures;

    vstd::seq_lib::to_multiset_remove(s, j);
    assert(s.remove(j)[i] == s[i]);
    assert(s.remove(j).contains(s[i]));
    assert(s.remove(j).to_multiset().count(s[i]) > 0);
    assert(s.to_multiset() == s.remove(j).to_multiset().insert(s[j]));
}

/// Pairwise distinct elements each occur at most once.
pub proof fn lemma_distinct_count<T>(s: Seq<T>, v: T)
    requires
        forall|i: int, j: int| 0 <= i < j < s.len() ==> s[i] != s[j],
    ensures
        s.to_multiset().count(v) <= 1,
    decreases s.len(),
{
    broadcast use vstd::seq_lib::group_to_multiset_ensures;

    if s.len() > 0 {
        let t = s.drop_last();
        lemma_distinct_count(t, v);
        assert(s =~= t.push(s.last()));
        vstd::seq_lib::to_multiset_build(t, s.last());
        if v == s.last() {
            assert(forall|i: int| 0 <= i < t.len() ==> t[i] != s.last());
            if t.contains(v) {
                let w = choose|w: int| 0 <= w < t.len() && t[w] == v;
                assert(false);
            }
            assert(t.to_multiset().count(v) == 0);
        }
    }
}

/// True when `x` is an element of `b`.
pub open spec fn appears_in(x: String, b: Seq<String>) -> bool {
    exists|q: int| 0 <= q < b.len() && b[q] == x
}

/// A permutation holds the same elements, position for position.
#[verifier::spinoff_prover]
pub proof fn lemma_permutation_props(a: Seq<String>, b: Seq<String>)
    requires
        a.to_multiset() == b.to_multiset(),
    ensures
        forall|p: int| 0 <= p < a.len() ==> appears_in(#[trigger] a[p], b),
        forall|q: int| 0 <= q < b.len() ==> appears_in(#[trigger] b[q], a),
{
    broadcast use vstd::seq_lib::group_to_multiset_ensures;

    assert forall|p: int| 0 <= p < a.len() implies appears_in(#[trigger] a[p], b) by {
        assert(a.contains(a[p]));
        assert(a.to_multiset().count(a[p]) > 0);
        assert(b.to_multiset().count(a[p]) > 0);
        assert(b.contains(a[p]));
        let q = choose|q: int| 0 <= q < b.len() && b[q] == a[p];
        assert(0 <= q < b.len() && b[q] == a[p]);
    }
    assert forall|q: int| 0 <= q < b.len() implies appears_in(#[trigger] b[q], a) by {
        assert(b.contains(b[q]));
        assert(b.to_multiset().count(b[q]) > 0);
        assert(a.to_multiset().count(b[q]) > 0);
        assert(a.contains(b[q]));
        let p = choose|p: int| 0 <= p < a.len() && a[p] == b[q];
        assert(0 <= p < a.len() && a[p] == b[q]);
    }
}

} // verus!
