use vstd::prelude::*;

verus! {

/// The kind of change a mutating operation made to an identity-ordered
/// store: one entry changed, or the whole store was reset.
pub enum IdModelChange {
    EntityChanged,
    ModelCleared,
}

/// True when some entry of `s` carries the identity `id`.
pub open spec fn contains_id<T>(s: Seq<(usize, T)>, id: usize) -> bool {
    exists|i: int| 0 <= i < s.len() && s[i].0 == id
}

/// True when no two entries of `s` share an identity.
pub open spec fn distinct_ids<T>(s: Seq<(usize, T)>) -> bool {
    forall|i: int, j: int| 0 <= i < j < s.len() ==> s[i].0 != s[j].0
}

/// `s` with the entry keyed `id` removed, later entries shifted up.
pub open spec fn without_id<T>(s: Seq<(usize, T)>, id: usize) -> Seq<(usize, T)> {
    s.filter(|e: (usize, T)| e.0 != id)
}

/// `s` with the value of the entry keyed `id` replaced by `value`, in place.
pub open spec fn with_updated<T>(s: Seq<(usize, T)>, id: usize, value: T) -> Seq<(usize, T)> {
    s.map(|i: int, e: (usize, T)| if e.0 == id { (id, value) } else { e })
}

/// Removing an identity that no entry carries leaves the sequence as it is.
proof fn lemma_without_id_absent<T>(s: Seq<(usize, T)>, id: usize)
    requires
        forall|j: int| 0 <= j < s.len() ==> s[j].0 != id,
    ensures
        without_id(s, id) == s,
    decreases s.len(),
{
    reveal(Seq::filter);
    if s.len() > 0 {
        lemma_without_id_absent(s.drop_last(), id);
        assert(s.drop_last().push(s.last()) =~= s);
    }
}

/// When exactly one entry carries `id`, removing it by position is the same
/// as filtering it out.
proof fn lemma_remove_unique_is_filter<T>(s: Seq<(usize, T)>, id: usize, i: int)
    requires
        0 <= i < s.len(),
        s[i].0 == id,
        forall|j: int| 0 <= j < s.len() && j != i ==> s[j].0 != id,
    ensures
        s.remove(i) == without_id(s, id),
    decreases s.len(),
{
    reveal(Seq::filter);
    if i == s.len() - 1 {
        lemma_without_id_absent(s.drop_last(), id);
        assert(s.remove(i) =~= s.drop_last());
    } else {
        let t = s.drop_last();
        lemma_remove_unique_is_filter(t, id, i);
        assert(s.last().0 != id);
        assert(without_id(s, id) == without_id(t, id).push(s.last()));
        assert(s.remove(i) =~= t.remove(i).push(s.last()));
    }
}

/// An ordered collection keyed by caller-supplied identities.
///
/// Entries are kept in true insertion order: the position of an entry is
/// determined by the order of insertions, never by a rank derived from the
/// identities themselves. Identities are unique among live entries.
pub struct IdModel<T> {
    entries: Vec<(usize, T)>,
}

impl<T> View for IdModel<T> {
    type V = Seq<(usize, T)>;

    closed spec fn view(&self) -> Seq<(usize, T)> {
        self.entries@
    }
}

impl<T> IdModel<T> {
    /// Identities are unique among live entries.
    pub open spec fn wf(&self) -> bool {
        distinct_ids(self@)
    }

    pub fn new() -> (r: Self)
        ensures
            r@ == Seq::<(usize, T)>::empty(),
            r.wf(),
    {
        IdModel { entries: Vec::new() }
    }

    pub fn row_count(&self) -> (r: usize)
        ensures
            r == self@.len(),
    {
        self.entries.len()
    }

    pub fn row_data(&self, row: usize) -> (r: Option<&T>)
        ensures
            match r {
                Some(v) => row < self@.len() && *v == self@[row as int].1,
                None => row >= self@.len(),
            },
    {
        if row < self.entries.len() {
            Some(&self.entries[row].1)
        } else {
            None
        }
    }

    /// The position of the entry keyed `id`, if it is present.
    pub fn index_of(&self, id: usize) -> (r: Option<usize>)
        ensures
            match r {
                Some(i) => i < self@.len() && self@[i as int].0 == id && (forall|j: int|
                    0 <= j < i ==> self@[j].0 != id),
                None => !contains_id(self@, id),
            },
    {
        let mut i: usize = 0;
        while i < self.entries.len()
            invariant
                i <= self@.len(),
                forall|j: int| 0 <= j < i ==> self@[j].0 != id,
            decreases self@.len() - i,
        {
            if self.entries[i].0 == id {
                return Some(i);
            }
            i = i + 1;
        }
        None
    }

    pub fn get(&self, id: usize) -> (r: Option<&T>)
        ensures
            match r {
                Some(v) => exists|i: int|
                    0 <= i < self@.len() && self@[i].0 == id && *v == self@[i].1,
                None => !contains_id(self@, id),
            },
    {
        match self.index_of(id) {
            Some(i) => Some(&self.entries[i].1),
            None => None,
        }
    }

    /// Appends an entry at the end of the iteration order. The caller
    /// guarantees freshness of `id`.
    pub fn add(&mut self, id: usize, value: T)
        requires
            old(self).wf(),
            !contains_id(old(self)@, id),
        ensures
            final(self)@ == old(self)@.push((id, value)),
            final(self).wf(),
    {
        self.entries.push((id, value));
        proof {
            assert forall|i: int, j: int| 0 <= i < j < self@.len() implies self@[i].0
                != self@[j].0 by {
                if j == self@.len() - 1 {
                    assert(self@[i] == old(self)@[i]);
                }
            }
        }
    }

    /// Deletes the entry keyed `id` and shifts iteration order; no-op if
    /// `id` is absent.
    pub fn remove(&mut self, id: usize)
        requires
            old(self).wf(),
        ensures
            final(self)@ == without_id(old(self)@, id),
            final(self).wf(),
    {
        let ghost s = self@;
        match self.index_of(id) {
            Some(i) => {
                self.entries.remove(i);
                proof {
                    assert forall|j: int| 0 <= j < s.len() && j != i implies s[j].0 != id by {
                        assert(s[i as int].0 == id);
                    }
                    lemma_remove_unique_is_filter(s, id, i as int);
                    assert(distinct_ids(self@));
                }
            },
            None => {
                proof {
                    lemma_without_id_absent(s, id);
                }
            },
        }
    }

    /// Replaces the value at the existing position of `id`; no-op if `id`
    /// is absent.
    pub fn update(&mut self, id: usize, value: T)
        requires
            old(self).wf(),
        ensures
            final(self)@ == with_updated(old(self)@, id, value),
            final(self).wf(),
    {
        let ghost s = self@;
        match self.index_of(id) {
            Some(i) => {
                self.entries.set(i, (id, value));
                proof {
                    assert(self@ =~= with_updated(s, id, value));
                }
            },
            None => {
                proof {
                    assert(self@ =~= with_updated(s, id, value));
                }
            },
        }
    }

    /// Replaces the whole contents in one step, as a bulk reset.
    pub fn set_entries(&mut self, entries: Vec<(usize, T)>)
        requires
            distinct_ids(entries@),
        ensures
            final(self)@ == entries@,
            final(self).wf(),
    {
        self.entries = entries;
    }

    /// Removes all entries and resets to empty.
    pub fn clear(&mut self)
        ensures
            final(self)@ == Seq::<(usize, T)>::empty(),
            final(self).wf(),
    {
        self.entries.clear();
        proof {
            assert(self@ =~= Seq::<(usize, T)>::empty());
        }
    }
}

} // verus!
