use vstd::prelude::*;
use vstd::string::StrSliceExecFns;
use vstd::string::StringExecFns;

use crate::id_model::{contains_id, distinct_ids, IdModel, IdModelChange};
use crate::sorting::{appears_in, lemma_distinct_count, lemma_dup_count, lemma_permutation_props, sort_by_leq, StrCmp, TotalLeq};
use crate::strutil::{
    find_char, find_idx, lex_le, rfind_char, rfind_idx, split_on, split_str, str_eq,
    strings_view, substring, trim, trimmed,
};

verus! {

/// A free-text annotation anchored to a file, or general when the context
/// is empty.
pub struct NoteItem {
    pub id: usize,
    pub text: String,
    pub context: String,
    pub is_fixed: bool,
}

impl NoteItem {
    /// A field-for-field copy.
    pub fn duplicate(&self) -> (r: Self)
        ensures
            r == *self,
    {
        NoteItem {
            id: self.id,
            text: self.text.clone(),
            context: self.context.clone(),
            is_fixed: self.is_fixed,
        }
    }
}

/// What a note says, where it is anchored, and whether it is fixed: the
/// persistent part of a note.
pub open spec fn note_triples(rows: Seq<NoteItem>) -> Seq<(Seq<char>, Seq<char>, bool)> {
    rows.map(|i: int, r: NoteItem| (r.text@, r.context@, r.is_fixed))
}

// ---------------------------------------------------------------------------
// The notes file format: one checklist item per line, grouped under one
// heading per distinct context, general notes first. This crate commits to
// a single encoding, read and written alike: an item is "* [x] text" when
// fixed and "* [] text" when not (the unfixed box is written empty, and a
// box holding anything but an immediate "]" reads as fixed), and a context
// is carried by a preceding "# Notes of '<context>'" heading, never by a
// trailing marker on the item line.
// ---------------------------------------------------------------------------

/// True when the trimmed line is a context heading.
pub open spec fn is_heading_line(l: Seq<char>) -> bool {
    l.len() > 0 && l[0] == '#'
}

/// True when the trimmed line is a checklist item.
pub open spec fn is_item_line(l: Seq<char>) -> bool {
    l.len() > 0 && l[0] == '*'
}

/// A heading is readable when it quotes a context.
pub open spec fn heading_ok(l: Seq<char>) -> bool {
    0 <= find_idx(l, '\'') && find_idx(l, '\'') < rfind_idx(l, '\'')
}

/// The context a heading names: what stands between its first and its last
/// quote.
pub open spec fn heading_ctx(l: Seq<char>) -> Seq<char> {
    l.subrange(find_idx(l, '\'') + 1, rfind_idx(l, '\''))
}

/// Whether an item line marks its note fixed: the bracket is not empty.
pub open spec fn item_fixed(l: Seq<char>) -> bool {
    let p = find_idx(l, '[');
    !(p + 1 < l.len() && l[p + 1] == ']')
}

/// An item is readable when it has its bracket, and a closing bracket when
/// it is marked fixed.
pub open spec fn item_ok(l: Seq<char>) -> bool {
    0 <= find_idx(l, '[') && (item_fixed(l) ==> 0 <= find_idx(l, ']'))
}

/// The note text of an item line, trimmed.
pub open spec fn item_text(l: Seq<char>) -> Seq<char> {
    if item_fixed(l) {
        trimmed(l.skip(find_idx(l, ']') + 1))
    } else {
        trimmed(l.skip(find_idx(l, '[') + 2))
    }
}

/// Law: a rendered checklist line reads back as the note it encodes: it
/// is a readable item line carrying the same fixed mark and the same text,
/// for every text that trimming leaves alone. This is the line-level core
/// of the write-then-read round trip.
pub proof fn lemma_note_line_reads_back(fixed: bool, text: Seq<char>)
    requires
        trimmed(text) == text,
    ensures
        is_item_line(note_line(fixed, text)),
        item_ok(note_line(fixed, text)),
        item_fixed(note_line(fixed, text)) == fixed,
        item_text(note_line(fixed, text)) == text,
{
    let l = note_line(fixed, text);
    crate::strutil::lemma_trimmed_fix(text);
    if fixed {
        assert(l =~= seq!['*', ' ', '[', 'x', ']', ' '] + text);
        assert(l[0] == '*' && l[1] == ' ' && l[2] == '[' && l[3] == 'x' && l[4] == ']' && l[5]
            == ' ');
        crate::strutil::lemma_find_idx_at(l, 2);
        assert(find_idx(l, '[') == 2);
        crate::strutil::lemma_find_idx_at(l, 4);
        assert(find_idx(l, ']') == 4);
        assert(item_fixed(l));
        assert(item_ok(l));
        assert(l.skip(5) =~= seq![' '] + text);
        assert((seq![' '] + text)[0] == ' ');
        assert((seq![' '] + text).drop_first() =~= text);
        assert(crate::strutil::trim_left(seq![' '] + text) == crate::strutil::trim_left(text));
        assert(item_text(l) == text);
    } else {
        assert(l =~= seq!['*', ' ', '[', ']', ' '] + text);
        assert(l[0] == '*' && l[1] == ' ' && l[2] == '[' && l[3] == ']' && l[4] == ' ');
        crate::strutil::lemma_find_idx_at(l, 2);
        assert(find_idx(l, '[') == 2);
        assert(!item_fixed(l));
        assert(item_ok(l));
        assert(l.skip(4) =~= seq![' '] + text);
        assert((seq![' '] + text)[0] == ' ');
        assert((seq![' '] + text).drop_first() =~= text);
        assert(crate::strutil::trim_left(seq![' '] + text) == crate::strutil::trim_left(text));
        assert(item_text(l) == text);
    }
}

/// The context in force after the given lines: what the last heading named.
pub open spec fn ctx_after(lines: Seq<Seq<char>>) -> Seq<char>
    decreases lines.len(),
{
    if lines.len() == 0 {
        Seq::empty()
    } else {
        let l = trimmed(lines.last());
        if is_heading_line(l) {
            heading_ctx(l)
        } else {
            ctx_after(lines.drop_last())
        }
    }
}

/// The notes the lines describe, as (text, context, fixed) triples in line
/// order.
pub open spec fn parsed_items(lines: Seq<Seq<char>>) -> Seq<(Seq<char>, Seq<char>, bool)>
    decreases lines.len(),
{
    if lines.len() == 0 {
        Seq::empty()
    } else {
        let rest = parsed_items(lines.drop_last());
        let l = trimmed(lines.last());
        if is_item_line(l) {
            rest.push((item_text(l), ctx_after(lines.drop_last()), item_fixed(l)))
        } else {
            rest
        }
    }
}

/// Every heading and every item of the lines is readable.
pub open spec fn lines_ok(lines: Seq<Seq<char>>) -> bool {
    forall|i: int|
        0 <= i < lines.len() ==> {
            let l = trimmed(#[trigger] lines[i]);
            (is_heading_line(l) ==> heading_ok(l)) && (is_item_line(l) ==> item_ok(l))
        }
}

/// One rendered checklist line, without its newline.
pub open spec fn note_line(fixed: bool, text: Seq<char>) -> Seq<char> {
    seq!['*', ' ', '['] + (if fixed {
        seq!['x']
    } else {
        Seq::<char>::empty()
    }) + seq![']', ' '] + text
}

/// The rendered general notes, one line each, in row order.
pub open spec fn general_lines(rows: Seq<NoteItem>) -> Seq<char>
    decreases rows.len(),
{
    if rows.len() == 0 {
        Seq::empty()
    } else {
        let rest = general_lines(rows.drop_last());
        let r = rows.last();
        if r.context@.len() == 0 {
            rest + note_line(r.is_fixed, r.text@) + seq!['\n']
        } else {
            rest
        }
    }
}

/// The rendered heading of one context section.
pub open spec fn heading_line(ctx: Seq<char>) -> Seq<char> {
    seq!['#', ' ', 'N', 'o', 't', 'e', 's', ' ', 'o', 'f', ' ', '\''] + ctx + seq!['\'', '\n']
}

/// The rendered lines of the notes anchored to `ctx`, in row order.
pub open spec fn context_lines(rows: Seq<NoteItem>, ctx: Seq<char>) -> Seq<char>
    decreases rows.len(),
{
    if rows.len() == 0 {
        Seq::empty()
    } else {
        let rest = context_lines(rows.drop_last(), ctx);
        let r = rows.last();
        if r.context@ == ctx {
            rest + note_line(r.is_fixed, r.text@) + seq!['\n']
        } else {
            rest
        }
    }
}

/// The rendered sections for the given contexts, in their order.
pub open spec fn sections(rows: Seq<NoteItem>, ctxs: Seq<Seq<char>>) -> Seq<char>
    decreases ctxs.len(),
{
    if ctxs.len() == 0 {
        Seq::empty()
    } else {
        sections(rows, ctxs.drop_last()) + heading_line(ctxs.last()) + context_lines(
            rows,
            ctxs.last(),
        ) + seq!['\n']
    }
}

/// The whole notes file: general notes, a blank line, then one section per
/// context.
pub open spec fn rendered_notes(rows: Seq<NoteItem>, ctxs: Seq<Seq<char>>) -> Seq<char> {
    general_lines(rows) + seq!['\n'] + sections(rows, ctxs)
}

/// `ctxs` is exactly the set of non-empty contexts of the rows, sorted and
/// without repetition.
pub open spec fn sorted_distinct_contexts(rows: Seq<NoteItem>, ctxs: Seq<Seq<char>>) -> bool {
    &&& (forall|i: int, j: int|
        0 <= i < j < ctxs.len() ==> lex_le(#[trigger] ctxs[i], #[trigger] ctxs[j]) && ctxs[i]
            != ctxs[j])
    &&& (forall|i: int|
        0 <= i < ctxs.len() ==> (#[trigger] ctxs[i]).len() > 0 && exists|r: int|
            0 <= r < rows.len() && rows[r].context@ == ctxs[i])
    &&& (forall|r: int|
        0 <= r < rows.len() && (#[trigger] rows[r]).context@.len() > 0 ==> exists|i: int|
            0 <= i < ctxs.len() && ctxs[i] == rows[r].context@)
}

// ---------------------------------------------------------------------------
// The store.
// ---------------------------------------------------------------------------

/// The notes of a sequence of keyed entries, in entry order.
pub open spec fn notes_rows(s: Seq<(usize, NoteItem)>) -> Seq<NoteItem> {
    s.map(|i: int, e: (usize, NoteItem)| e.1)
}

/// The note collection: an identity-ordered store plus its identity
/// allocator.
pub struct Notes {
    pub notes_model: IdModel<NoteItem>,
    pub next_id: usize,
}

impl Notes {
    /// The current notes, in insertion order.
    pub open spec fn rows(&self) -> Seq<NoteItem> {
        notes_rows(self.notes_model@)
    }

    /// The next identity the store will hand out.
    pub open spec fn spec_next_id(&self) -> usize {
        self.next_id
    }

    /// Identities are unique and below the allocation counter; each entry
    /// key is its note's identity.
    pub open spec fn wf(&self) -> bool {
        let s = self.notes_model@;
        &&& distinct_ids(s)
        &&& (forall|i: int| 0 <= i < s.len() ==> (#[trigger] s[i]).0 == s[i].1.id)
        &&& (forall|i: int| 0 <= i < s.len() ==> (#[trigger] s[i]).1.id < self.spec_next_id())
        &&& self.spec_next_id() >= 1
    }

    /// Allocates a fresh note identity; identities are never reused.
    pub fn note_id(&mut self) -> (id: usize)
        requires
            old(self).spec_next_id() < usize::MAX,
        ensures
            id == old(self).spec_next_id(),
            final(self).spec_next_id() == id + 1,
            final(self).notes_model@ == old(self).notes_model@,
    {
        let id = self.next_id;
        self.next_id = self.next_id + 1;
        id
    }

    /// A snapshot of the current notes, in insertion order.
    pub fn notes_model(&self) -> (r: Vec<NoteItem>)
        ensures
            r@ == self.rows(),
    {
        let n = self.notes_model.row_count();
        let mut out: Vec<NoteItem> = Vec::new();
        let mut i: usize = 0;
        while i < n
            invariant
                i <= n,
                n == self.rows().len(),
                out@ == self.rows().take(i as int),
            decreases n - i,
        {
            let item = self.notes_model.row_data(i).unwrap();
            proof {
                assert(self.rows()[i as int] == self.notes_model@[i as int].1);
            }
            out.push(item.duplicate());
            proof {
                assert(out@ =~= self.rows().take(i + 1));
            }
            i = i + 1;
        }
        proof {
            assert(self.rows().take(n as int) =~= self.rows());
        }
        out
    }

    /// Appends a fresh, unfixed note.
    pub fn add_note(&mut self, text: String, context: String)
        requires
            old(self).wf(),
            old(self).spec_next_id() < usize::MAX,
        ensures
            final(self).wf(),
            final(self).rows() == old(self).rows().push(
                NoteItem {
                    id: old(self).spec_next_id(),
                    text: text,
                    context: context,
                    is_fixed: false,
                },
            ),
            final(self).spec_next_id() == old(self).spec_next_id() + 1,
    {
        let id = self.note_id();
        let item = NoteItem { id: id, text: text, context: context, is_fixed: false };
        let ghost gitem = item;
        proof {
            assert(!contains_id(self.notes_model@, id));
        }
        self.notes_model.add(id, item);
        proof {
            assert(self.rows() =~= old(self).rows().push(gitem));
        }
    }

    /// Flips the fixed flag of the note keyed `id`; no-op if `id` is gone.
    pub fn toggle_is_fixed(&mut self, id: usize) -> (r: Option<IdModelChange>)
        requires
            old(self).wf(),
        ensures
            final(self).wf(),
            final(self).rows().len() == old(self).rows().len(),
            forall|i: int|
                0 <= i < old(self).rows().len() ==> #[trigger] final(self).rows()[i] == (if old(
                    self,
                ).rows()[i].id == id {
                    NoteItem { is_fixed: !old(self).rows()[i].is_fixed, ..old(self).rows()[i] }
                } else {
                    old(self).rows()[i]
                }),
            final(self).spec_next_id() == old(self).spec_next_id(),
            r == (if contains_id(old(self).notes_model@, id) {
                Some(IdModelChange::EntityChanged)
            } else {
                None::<IdModelChange>
            }),
    {
        let ghost olde = self.notes_model@;
        match self.notes_model.index_of(id) {
            Some(ix) => {
                proof {
                    assert forall|w: int| 0 <= w < olde.len() && olde[w].0 == id implies w
                        == ix as int by {
                        assert(olde[ix as int].0 == id);
                    }
                }
                let item = self.notes_model.row_data(ix).unwrap();
                let flipped = NoteItem {
                    id: item.id,
                    text: item.text.clone(),
                    context: item.context.clone(),
                    is_fixed: !item.is_fixed,
                };
                let ghost gitem = flipped;
                self.notes_model.update(id, flipped);
                proof {
                    let s = self.notes_model@;
                    assert forall|i: int|
                        0 <= i < olde.len() implies #[trigger] self.rows()[i] == (if olde[i].1.id
                            == id {
                        NoteItem { is_fixed: !olde[i].1.is_fixed, ..olde[i].1 }
                    } else {
                        olde[i].1
                    }) by {
                        assert(s[i] == (if olde[i].0 == id {
                            (id, gitem)
                        } else {
                            olde[i]
                        }));
                        assert(self.rows()[i] == s[i].1);
                        if olde[i].0 == id {
                            assert(i == ix as int);
                        }
                    }
                }
                Some(IdModelChange::EntityChanged)
            },
            None => None,
        }
    }

    /// Replaces the text of the note keyed `id`; no-op when the text is
    /// unchanged or the note is gone, so no spurious change is reported.
    pub fn set_note_text(&mut self, id: usize, text: String) -> (r: Option<IdModelChange>)
        requires
            old(self).wf(),
        ensures
            final(self).wf(),
            final(self).rows().len() == old(self).rows().len(),
            forall|i: int|
                0 <= i < old(self).rows().len() ==> #[trigger] final(self).rows()[i] == (if old(
                    self,
                ).rows()[i].id == id && old(self).rows()[i].text@ != text@ {
                    NoteItem { text: text, ..old(self).rows()[i] }
                } else {
                    old(self).rows()[i]
                }),
            final(self).spec_next_id() == old(self).spec_next_id(),
            r == (if exists|i: int|
                0 <= i < old(self).rows().len() && (#[trigger] old(self).rows()[i]).id == id
                    && old(self).rows()[i].text@ != text@ {
                Some(IdModelChange::EntityChanged)
            } else {
                None::<IdModelChange>
            }),
    {
        let ghost olde = self.notes_model@;
        match self.notes_model.index_of(id) {
            Some(ix) => {
                proof {
                    assert forall|w: int| 0 <= w < olde.len() && olde[w].0 == id implies w
                        == ix as int by {
                        assert(olde[ix as int].0 == id);
                    }
                    assert(self.rows()[ix as int] == olde[ix as int].1);
                }
                let item = self.notes_model.row_data(ix).unwrap();
                if str_eq(item.text.as_str(), text.as_str()) {
                    proof {
                        assert forall|i: int|
                            0 <= i < olde.len() implies #[trigger] self.rows()[i] == (if olde[i].1.id
                                == id && olde[i].1.text@ != text@ {
                            NoteItem { text: text, ..olde[i].1 }
                        } else {
                            olde[i].1
                        }) by {
                            assert(self.rows()[i] == olde[i].1);
                            if olde[i].1.id == id {
                                assert(olde[i].0 == olde[i].1.id);
                                assert(i == ix as int);
                                assert(olde[i].1.text@ == text@);
                            }
                        }
                        assert forall|i: int|
                            0 <= i < olde.len() && (#[trigger] self.rows()[i]).id == id implies
                            self.rows()[i].text@ == text@ by {
                            assert(self.rows()[i] == olde[i].1);
                            assert(olde[i].0 == olde[i].1.id);
                            assert(i == ix as int);
                        }
                    }
                    return None;
                }
                proof {
                    assert(olde[ix as int].1.text@ != text@);
                }
                let updated = NoteItem {
                    id: item.id,
                    text: text,
                    context: item.context.clone(),
                    is_fixed: item.is_fixed,
                };
                let ghost gitem = updated;
                self.notes_model.update(id, updated);
                proof {
                    let s = self.notes_model@;
                    assert forall|i: int|
                        0 <= i < olde.len() implies #[trigger] self.rows()[i] == (if olde[i].1.id
                            == id && olde[i].1.text@ != text@ {
                        NoteItem { text: gitem.text, ..olde[i].1 }
                    } else {
                        olde[i].1
                    }) by {
                        assert(s[i] == (if olde[i].0 == id {
                            (id, gitem)
                        } else {
                            olde[i]
                        }));
                        assert(self.rows()[i] == s[i].1);
                        if olde[i].0 == id {
                            assert(i == ix as int);
                        }
                    }
                    assert(exists|i: int|
                        0 <= i < olde.len() && (#[trigger] notes_rows(olde)[i]).id == id
                            && notes_rows(olde)[i].text@ != text@) by {
                        assert(notes_rows(olde)[ix as int] == olde[ix as int].1);
                    }
                }
                Some(IdModelChange::EntityChanged)
            },
            None => None,
        }
    }

    /// Re-anchors the note keyed `id` to another context; no-op if gone.
    pub fn change_context(&mut self, id: usize, context: String) -> (r: Option<IdModelChange>)
        requires
            old(self).wf(),
        ensures
            final(self).wf(),
            final(self).rows().len() == old(self).rows().len(),
            forall|i: int|
                0 <= i < old(self).rows().len() ==> #[trigger] final(self).rows()[i] == (if old(
                    self,
                ).rows()[i].id == id {
                    NoteItem { context: context, ..old(self).rows()[i] }
                } else {
                    old(self).rows()[i]
                }),
            final(self).spec_next_id() == old(self).spec_next_id(),
            r == (if contains_id(old(self).notes_model@, id) {
                Some(IdModelChange::EntityChanged)
            } else {
                None::<IdModelChange>
            }),
    {
        let ghost olde = self.notes_model@;
        match self.notes_model.index_of(id) {
            Some(ix) => {
                proof {
                    assert forall|w: int| 0 <= w < olde.len() && olde[w].0 == id implies w
                        == ix as int by {
                        assert(olde[ix as int].0 == id);
                    }
                }
                let item = self.notes_model.row_data(ix).unwrap();
                let updated = NoteItem {
                    id: item.id,
                    text: item.text.clone(),
                    context: context,
                    is_fixed: item.is_fixed,
                };
                let ghost gitem = updated;
                self.notes_model.update(id, updated);
                proof {
                    let s = self.notes_model@;
                    assert forall|i: int|
                        0 <= i < olde.len() implies #[trigger] self.rows()[i] == (if olde[i].1.id
                            == id {
                        NoteItem { context: gitem.context, ..olde[i].1 }
                    } else {
                        olde[i].1
                    }) by {
                        assert(s[i] == (if olde[i].0 == id {
                            (id, gitem)
                        } else {
                            olde[i]
                        }));
                        assert(self.rows()[i] == s[i].1);
                        if olde[i].0 == id {
                            assert(i == ix as int);
                        }
                    }
                }
                Some(IdModelChange::EntityChanged)
            },
            None => None,
        }
    }

    /// Removes the note keyed `id`; no-op if it is gone.
    pub fn delete_note(&mut self, id: usize)
        requires
            old(self).wf(),
        ensures
            final(self).wf(),
            final(self).rows() == notes_rows(
                crate::id_model::without_id(old(self).notes_model@, id),
            ),
            final(self).spec_next_id() == old(self).spec_next_id(),
    {
        proof {
            lemma_without_id_keeps_bounds(self.notes_model@, id, self.next_id);
        }
        self.notes_model.remove(id);
    }
}

/// Filtering out one identity keeps entry coherence and identity bounds.
proof fn lemma_without_id_keeps_bounds(s: Seq<(usize, NoteItem)>, id: usize, bound: usize)
    requires
        forall|i: int| 0 <= i < s.len() ==> (#[trigger] s[i]).0 == s[i].1.id,
        forall|i: int| 0 <= i < s.len() ==> (#[trigger] s[i]).1.id < bound,
    ensures
        forall|i: int|
            0 <= i < crate::id_model::without_id(s, id).len() ==> (
            #[trigger] crate::id_model::without_id(s, id)[i]).0 == crate::id_model::without_id(
                s,
                id,
            )[i].1.id && crate::id_model::without_id(s, id)[i].1.id < bound,
    decreases s.len(),
{
    reveal(Seq::filter);
    if s.len() > 0 {
        lemma_without_id_keeps_bounds(s.drop_last(), id, bound);
        let k = crate::id_model::without_id(s, id);
        let kt = crate::id_model::without_id(s.drop_last(), id);
        assert forall|i: int|
            0 <= i < k.len() implies (#[trigger] k[i]).0 == k[i].1.id && k[i].1.id < bound by {
            if i < kt.len() {
                assert(k[i] == kt[i]);
            } else {
                assert(k[i] == s.last());
                assert(s.last() == s[s.len() - 1]);
            }
        }
    }
}

impl Default for Notes {
    /// An empty note collection.
    fn default() -> (r: Self)
        ensures
            r.wf(),
            r.rows() == Seq::<NoteItem>::empty(),
            r.spec_next_id() == 1,
    {
        let r = Notes { notes_model: IdModel::new(), next_id: 1 };
        proof {
            assert(r.rows() =~= Seq::<NoteItem>::empty());
        }
        r
    }
}


// ---------------------------------------------------------------------------
// Serialization to and from the notes text.
// ---------------------------------------------------------------------------

/// True when some element of `v` reads `c`.
fn contains_string(v: &Vec<String>, c: &str) -> (r: bool)
    ensures
        r == (exists|p: int| 0 <= p < v@.len() && (#[trigger] v@[p])@ == c@),
{
    let n = v.len();
    let mut i: usize = 0;
    while i < n
        invariant
            i <= n,
            n == v@.len(),
            forall|p: int| 0 <= p < i ==> (#[trigger] v@[p])@ != c@,
        decreases n - i,
    {
        if str_eq(v[i].as_str(), c) {
            return true;
        }
        i = i + 1;
    }
    false
}

/// Sorting the collected contexts yields the sorted, distinct context list
/// the rendering needs.
#[verifier::rlimit(40)]
#[verifier::spinoff_prover]
proof fn lemma_contexts_assembly(rows: Seq<NoteItem>, unsorted: Seq<String>, sorted: Seq<String>)
    requires
        forall|p: int, q: int| 0 <= p < q < unsorted.len() ==> (#[trigger] unsorted[p])@ != (
        #[trigger] unsorted[q])@,
        forall|p: int|
            0 <= p < unsorted.len() ==> (#[trigger] unsorted[p])@.len() > 0 && exists|r2: int|
                0 <= r2 < rows.len() && rows[r2].context@ == unsorted[p]@,
        forall|r2: int|
            0 <= r2 < rows.len() && (#[trigger] rows[r2]).context@.len() > 0 ==> exists|p: int|
                0 <= p < unsorted.len() && (#[trigger] unsorted[p])@ == rows[r2].context@,
        sorted.to_multiset() == unsorted.to_multiset(),
        forall|i: int, j: int|
            0 <= i < j < sorted.len() ==> lex_le((#[trigger] sorted[i])@, (#[trigger] sorted[j])@),
    ensures
        sorted_distinct_contexts(rows, strings_view(sorted)),
{
    lemma_permutation_props(sorted, unsorted);
    assert forall|p: int, q: int|
        0 <= p < q < strings_view(sorted).len() implies lex_le(
        #[trigger] strings_view(sorted)[p],
        #[trigger] strings_view(sorted)[q],
    ) && strings_view(sorted)[p] != strings_view(sorted)[q] by {
        assert(strings_view(sorted)[p] == sorted[p]@);
        assert(strings_view(sorted)[q] == sorted[q]@);
        if sorted[p]@ == sorted[q]@ {
            assert(appears_in(sorted[p], unsorted));
            assert(appears_in(sorted[q], unsorted));
            let wp = choose|w: int| 0 <= w < unsorted.len() && unsorted[w] == sorted[p];
            let wq = choose|w: int| 0 <= w < unsorted.len() && unsorted[w] == sorted[q];
            assert(unsorted[wp]@ == unsorted[wq]@);
            assert(wp == wq);
            lemma_dup_count(sorted, p, q);
            lemma_distinct_count(unsorted, sorted[q]);
        }
    }
    assert forall|p: int|
        0 <= p < strings_view(sorted).len() implies (#[trigger] strings_view(sorted)[p]).len() > 0
            && exists|r2: int|
            0 <= r2 < rows.len() && rows[r2].context@ == strings_view(sorted)[p] by {
        assert(appears_in(sorted[p], unsorted));
        let w = choose|w: int| 0 <= w < unsorted.len() && unsorted[w] == sorted[p];
        assert(strings_view(sorted)[p] == unsorted[w]@);
    }
    assert forall|r2: int|
        0 <= r2 < rows.len() && (#[trigger] rows[r2]).context@.len() > 0 implies exists|p: int|
        0 <= p < strings_view(sorted).len() && strings_view(sorted)[p] == rows[r2].context@ by {
        let q = choose|q: int| 0 <= q < unsorted.len() && (#[trigger] unsorted[q])@ == rows[r2].context@;
        assert(appears_in(unsorted[q], sorted));
        let p = choose|p: int| 0 <= p < sorted.len() && sorted[p] == unsorted[q];
        assert(strings_view(sorted)[p] == rows[r2].context@);
    }
}

/// The distinct non-empty contexts of the notes, sorted.
#[verifier::rlimit(40)]
#[verifier::spinoff_prover]
fn sorted_contexts(rows: &Vec<NoteItem>) -> (r: Vec<String>)
    ensures
        sorted_distinct_contexts(rows@, strings_view(r@)),
{
    let n = rows.len();
    let mut ctxs: Vec<String> = Vec::new();
    let mut i: usize = 0;
    while i < n
        invariant
            i <= n,
            n == rows@.len(),
            forall|p: int, q: int| 0 <= p < q < ctxs@.len() ==> (#[trigger] ctxs@[p])@ != (
            #[trigger] ctxs@[q])@,
            forall|p: int|
                0 <= p < ctxs@.len() ==> (#[trigger] ctxs@[p])@.len() > 0 && exists|r2: int|
                    0 <= r2 < i && rows@[r2].context@ == ctxs@[p]@,
            forall|r2: int|
                0 <= r2 < i && (#[trigger] rows@[r2]).context@.len() > 0 ==> exists|p: int|
                    0 <= p < ctxs@.len() && (#[trigger] ctxs@[p])@ == rows@[r2].context@,
        decreases n - i,
    {
        let ghost before = ctxs@;
        let ghost had = exists|p: int|
            0 <= p < before.len() && (#[trigger] before[p])@ == rows@[i as int].context@;
        let c = &rows[i].context;
        if !c.as_str().is_empty() && !contains_string(&ctxs, c.as_str()) {
            ctxs.push(c.clone());
            proof {
                assert(ctxs@[before.len() as int]@ == rows@[i as int].context@);
            }
        }
        proof {
            assert forall|p: int|
                0 <= p < ctxs@.len() implies (#[trigger] ctxs@[p])@.len() > 0 && exists|r2: int|
                0 <= r2 < i + 1 && rows@[r2].context@ == ctxs@[p]@ by {
                if p < before.len() {
                    assert(ctxs@[p] == before[p]);
                    let w = choose|r2: int| 0 <= r2 < i && rows@[r2].context@ == before[p]@;
                    assert(0 <= w < i + 1 && rows@[w].context@ == ctxs@[p]@);
                } else {
                    assert(ctxs@[p]@ == rows@[i as int].context@);
                }
            }
            assert forall|r2: int|
                0 <= r2 < i + 1 && (#[trigger] rows@[r2]).context@.len() > 0 implies exists|p: int|
                0 <= p < ctxs@.len() && (#[trigger] ctxs@[p])@ == rows@[r2].context@ by {
                if r2 < i {
                    let w = choose|p: int|
                        0 <= p < before.len() && (#[trigger] before[p])@ == rows@[r2].context@;
                    assert(ctxs@[w] == before[w]);
                } else {
                    if had {
                        let w = choose|p: int|
                            0 <= p < before.len() && (#[trigger] before[p])@
                                == rows@[i as int].context@;
                        assert(ctxs@[w] == before[w]);
                    } else {
                        assert(ctxs@[before.len() as int]@ == rows@[i as int].context@);
                    }
                }
            }
        }
        i = i + 1;
    }
    let ghost unsorted = ctxs@;
    let sorted = sort_by_leq(ctxs, &StrCmp);
    proof {
        assert forall|p: int, q: int|
            0 <= p < q < sorted@.len() implies lex_le(
            (#[trigger] sorted@[p])@,
            (#[trigger] sorted@[q])@,
        ) by {
            assert(StrCmp.leq(sorted@[p], sorted@[q]));
        }
        lemma_contexts_assembly(rows@, unsorted, sorted@);
    }
    sorted
}

/// Appends one rendered checklist line for the note.
fn append_note_line(s: &mut String, item: &NoteItem)
    ensures
        final(s)@ == old(s)@ + note_line(item.is_fixed, item.text@) + seq!['\n'],
{
    s.append("* [");
    if item.is_fixed {
        s.append("x");
    }
    s.append("] ");
    s.append(item.text.as_str());
    s.append("\n");
    proof {
        reveal_strlit("* [");
        reveal_strlit("x");
        reveal_strlit("] ");
        reveal_strlit("\n");
        assert(("* ["@) =~= seq!['*', ' ', '[']);
        assert(("x"@) =~= seq!['x']);
        assert(("] "@) =~= seq![']', ' ']);
        assert(("\n"@) =~= seq!['\n']);
        assert(final(s)@ =~= old(s)@ + note_line(item.is_fixed, item.text@) + seq!['\n']);
    }
}

/// Renders the whole notes file: general notes first, then one section per
/// distinct context in sorted order, each note as a checklist line.
#[verifier::spinoff_prover]
pub fn notes_to_text(rows: &Vec<NoteItem>) -> (r: String)
    ensures
        exists|cs: Seq<Seq<char>>|
            #[trigger] sorted_distinct_contexts(rows@, cs) && r@ == rendered_notes(rows@, cs),
{
    let n = rows.len();
    let mut s = String::new();
    let mut i: usize = 0;
    proof {
        assert(general_lines(rows@.take(0)) =~= Seq::<char>::empty());
        assert(s@ =~= general_lines(rows@.take(0)));
    }
    while i < n
        invariant
            i <= n,
            n == rows@.len(),
            s@ == general_lines(rows@.take(i as int)),
        decreases n - i,
    {
        proof {
            assert(rows@.take(i + 1).drop_last() =~= rows@.take(i as int));
            assert(rows@.take(i + 1).last() == rows@[i as int]);
        }
        let item = &rows[i];
        if item.context.as_str().is_empty() {
            append_note_line(&mut s, item);
        }
        i = i + 1;
    }
    proof {
        assert(rows@.take(n as int) =~= rows@);
    }
    s.append("\n");
    proof {
        reveal_strlit("\n");
        assert(("\n"@) =~= seq!['\n']);
    }
    let ctxs = sorted_contexts(rows);
    let ghost cs = strings_view(ctxs@);
    proof {
        assert(sections(rows@, cs.take(0)) =~= Seq::<char>::empty());
        assert(s@ =~= general_lines(rows@) + seq!['\n'] + sections(rows@, cs.take(0)));
    }
    let m = ctxs.len();
    let mut k: usize = 0;
    while k < m
        invariant
            k <= m,
            m == ctxs@.len(),
            cs == strings_view(ctxs@),
            n == rows@.len(),
            s@ == general_lines(rows@) + seq!['\n'] + sections(rows@, cs.take(k as int)),
        decreases m - k,
    {
        proof {
            assert(cs.take(k + 1).drop_last() =~= cs.take(k as int));
            assert(cs.take(k + 1).last() == cs[k as int]);
            assert(cs[k as int] == ctxs@[k as int]@);
        }
        let ctx = &ctxs[k];
        s.append("# Notes of '");
        s.append(ctx.as_str());
        s.append("'\n");
        proof {
            reveal_strlit("# Notes of '");
            reveal_strlit("'\n");
            assert(("# Notes of '"@) =~= seq![
                '#',
                ' ',
                'N',
                'o',
                't',
                'e',
                's',
                ' ',
                'o',
                'f',
                ' ',
                '\'',
            ]);
            assert(("'\n"@) =~= seq!['\'', '\n']);
        }
        let ghost base = s@;
        proof {
            assert(base =~= general_lines(rows@) + seq!['\n'] + sections(rows@, cs.take(k as int))
                + heading_line(cs[k as int]));
            assert(context_lines(rows@.take(0), cs[k as int]) =~= Seq::<char>::empty());
            assert(s@ =~= base + context_lines(rows@.take(0), cs[k as int]));
        }
        let mut j: usize = 0;
        while j < n
            invariant
                j <= n,
                n == rows@.len(),
                k < m,
                m == ctxs@.len(),
                cs == strings_view(ctxs@),
                cs[k as int] == ctxs@[k as int]@,
                s@ == base + context_lines(rows@.take(j as int), cs[k as int]),
            decreases n - j,
        {
            proof {
                assert(rows@.take(j + 1).drop_last() =~= rows@.take(j as int));
                assert(rows@.take(j + 1).last() == rows@[j as int]);
            }
            let item = &rows[j];
            if str_eq(item.context.as_str(), ctxs[k].as_str()) {
                append_note_line(&mut s, item);
            }
            j = j + 1;
        }
        proof {
            assert(rows@.take(n as int) =~= rows@);
        }
        s.append("\n");
        proof {
            reveal_strlit("\n");
            assert(("\n"@) =~= seq!['\n']);
            assert(s@ =~= general_lines(rows@) + seq!['\n'] + sections(rows@, cs.take(k + 1)));
        }
        k = k + 1;
    }
    proof {
        assert(cs.take(m as int) =~= cs);
        assert(s@ == rendered_notes(rows@, cs));
    }
    s
}

impl Notes {
    /// The text to persist, or nothing when the collection is empty.
    pub fn save(&self) -> (r: Option<String>)
        ensures
            match r {
                Some(text) => self.rows().len() > 0 && exists|cs: Seq<Seq<char>>|
                    #[trigger] sorted_distinct_contexts(self.rows(), cs) && text@
                        == rendered_notes(self.rows(), cs),
                None => self.rows().len() == 0,
            },
    {
        if self.notes_model.row_count() == 0 {
            return None;
        }
        let rows = self.notes_model();
        Some(notes_to_text(&rows))
    }
}

/// Splitting yields at most one piece per character plus one.
proof fn lemma_split_on_count(s: Seq<char>, sep: char)
    ensures
        split_on(s, sep).len() <= s.len() + 1,
    decreases s.len(),
{
    if s.len() > 0 {
        lemma_split_on_count(s.drop_last(), sep);
        crate::strutil::lemma_split_on_len(s.drop_last(), sep);
        let rest = split_on(s.drop_last(), sep);
        assert(split_on(s, sep).len() <= rest.len() + 1);
    }
}

/// What one trimmed line of the notes file means.
enum NoteLine {
    Heading(String),
    Item(String, bool),
    Blank,
    Bad,
}

/// Reads one trimmed line: a heading names a context, an item carries a
/// note, anything else is skipped; a malformed heading or item is rejected.
#[verifier::spinoff_prover]
fn classify_line(l: &str) -> (r: NoteLine)
    ensures
        match r {
            NoteLine::Heading(ctx) => is_heading_line(l@) && heading_ok(l@) && ctx@
                == heading_ctx(l@),
            NoteLine::Item(text, fixed) => is_item_line(l@) && item_ok(l@) && text@ == item_text(
                l@,
            ) && fixed == item_fixed(l@),
            NoteLine::Blank => !is_heading_line(l@) && !is_item_line(l@),
            NoteLine::Bad => (is_heading_line(l@) && !heading_ok(l@)) || (is_item_line(l@)
                && !item_ok(l@)),
        },
{
    if l.is_empty() {
        return NoteLine::Blank;
    }
    let c0 = l.get_char(0);
    if c0 == '#' {
        let f = find_char(l, '\'');
        let rr = rfind_char(l, '\'');
        match (f, rr) {
            (Some(fi), Some(ri)) => {
                if fi < ri {
                    NoteLine::Heading(substring(l, fi + 1, ri))
                } else {
                    NoteLine::Bad
                }
            },
            _ => NoteLine::Bad,
        }
    } else if c0 == '*' {
        match find_char(l, '[') {
            None => NoteLine::Bad,
            Some(p) => {
                let llen = l.unicode_len();
                let fixed = !(p + 1 < llen && l.get_char(p + 1) == ']');
                if fixed {
                    match find_char(l, ']') {
                        None => NoteLine::Bad,
                        Some(q) => {
                            let tail = substring(l, q + 1, llen);
                            proof {
                                assert(tail@ =~= l@.skip(find_idx(l@, ']') + 1));
                            }
                            NoteLine::Item(trim(tail.as_str()).to_owned(), true)
                        },
                    }
                } else {
                    let tail = substring(l, p + 2, llen);
                    proof {
                        assert(tail@ =~= l@.skip(find_idx(l@, '[') + 2));
                    }
                    NoteLine::Item(trim(tail.as_str()).to_owned(), false)
                }
            },
        }
    } else {
        NoteLine::Blank
    }
}

/// Reads a notes file back: headings set the context in force, checklist
/// items become notes with fresh identities. Fails exactly when some
/// heading or item line is malformed.
#[verifier::spinoff_prover]
pub fn notes_from_text(text: &str) -> (r: Option<Notes>)
    requires
        text@.len() < usize::MAX - 1,
    ensures
        match r {
            Some(notes) => lines_ok(split_on(text@, '\n')) && notes.wf() && note_triples(
                notes.rows(),
            ) == parsed_items(split_on(text@, '\n')) && notes.spec_next_id() == notes.rows().len()
                + 1,
            None => !lines_ok(split_on(text@, '\n')),
        },
{
    let lines = split_str(text, '\n');
    let ghost lv = strings_view(lines@);
    proof {
        lemma_split_on_count(text@, '\n');
    }
    let mut notes = Notes::default();
    let mut ctx: String = String::new();
    let nl = lines.len();
    let mut i: usize = 0;
    proof {
        assert(note_triples(notes.rows()) =~= parsed_items(lv.take(0)));
        assert(ctx@ =~= ctx_after(lv.take(0)));
    }
    while i < nl
        invariant
            i <= nl,
            nl == lines@.len(),
            lv == strings_view(lines@),
            lv == split_on(text@, '\n'),
            nl <= text@.len() + 1,
            text@.len() < usize::MAX - 1,
            notes.wf(),
            notes.rows().len() <= i,
            notes.spec_next_id() == notes.rows().len() + 1,
            note_triples(notes.rows()) == parsed_items(lv.take(i as int)),
            ctx@ == ctx_after(lv.take(i as int)),
            forall|j: int|
                0 <= j < i ==> {
                    let l = trimmed(#[trigger] lv[j]);
                    (is_heading_line(l) ==> heading_ok(l)) && (is_item_line(l) ==> item_ok(l))
                },
        decreases nl - i,
    {
        proof {
            assert(lv.take(i + 1).drop_last() =~= lv.take(i as int));
            assert(lv.take(i + 1).last() == lv[i as int]);
            assert(lv[i as int] == lines@[i as int]@);
        }
        let l = trim(lines[i].as_str());
        let ghost lt = trimmed(lv[i as int]);
        match classify_line(l) {
            NoteLine::Heading(new_ctx) => {
                ctx = new_ctx;
                proof {
                    assert(ctx_after(lv.take(i + 1)) == heading_ctx(lt));
                    assert(note_triples(notes.rows()) == parsed_items(lv.take(i + 1)));
                }
            },
            NoteLine::Item(text_s, fixed) => {
                let ghost rows0 = notes.rows();
                let ghost gtext = text_s;
                let ghost gctx = ctx;
                notes.add_note(text_s, ctx.clone());
                proof {
                    assert(note_triples(notes.rows()) =~= note_triples(rows0).push(
                        (gtext@, gctx@, false),
                    ));
                }
                if fixed {
                    let last_id = notes.next_id - 1;
                    let ghost rows1 = notes.rows();
                    notes.toggle_is_fixed(last_id);
                    proof {
                        assert(rows1[rows1.len() - 1].id == last_id);
                        assert(note_triples(notes.rows()) =~= note_triples(rows0).push(
                            (gtext@, gctx@, true),
                        ));
                    }
                }
                proof {
                    assert(parsed_items(lv.take(i + 1)) == parsed_items(lv.take(i as int)).push(
                        (item_text(lt), ctx_after(lv.take(i as int)), item_fixed(lt)),
                    ));
                    assert(note_triples(notes.rows()) == parsed_items(lv.take(i + 1)));
                    assert(ctx_after(lv.take(i + 1)) == ctx_after(lv.take(i as int)));
                }
            },
            NoteLine::Blank => {
                proof {
                    assert(parsed_items(lv.take(i + 1)) == parsed_items(lv.take(i as int)));
                    assert(ctx_after(lv.take(i + 1)) == ctx_after(lv.take(i as int)));
                }
            },
            NoteLine::Bad => {
                proof {
                    assert(!lines_ok(lv));
                }
                return None;
            },
        }
        i = i + 1;
    }
    proof {
        assert(lv.take(nl as int) =~= lv);
    }
    Some(notes)
}

} // verus!
