use vstd::prelude::*;
use vstd::string::StrSliceExecFns;
use vstd::string::StringExecFns;

use crate::strutil::{
    contains_seq, contains_str, find_char, find_idx, find_ws, find_ws_idx, lemma_split_ws_nonempty,
    split_on, split_str, split_whitespace_str, split_ws_spec, str_eq, strings_view, substring,
    trim, trim_char, trimmed, trimmed_c,
};
use crate::sorting::TotalLeq;
use crate::sys;

verus! {

/// The version-control classification of how a file changed.
#[derive(Debug, PartialEq, Eq, Structural, Clone, Copy)]
pub enum ChangeType {
    Invalid,
    Added,
    Copied,
    Deleted,
    Modified,
    Renamed,
    TypChanged,
    Unmerged,
    Unknown,
    Broken,
}

/// The classification that a status letter denotes; every letter outside
/// the known set denotes `Invalid`.
pub open spec fn change_type_of_char(c: char) -> ChangeType {
    if c == 'A' {
        ChangeType::Added
    } else if c == 'C' {
        ChangeType::Copied
    } else if c == 'D' {
        ChangeType::Deleted
    } else if c == 'M' {
        ChangeType::Modified
    } else if c == 'R' {
        ChangeType::Renamed
    } else if c == 'T' {
        ChangeType::TypChanged
    } else if c == 'U' {
        ChangeType::Unmerged
    } else if c == 'X' {
        ChangeType::Unknown
    } else if c == 'B' {
        ChangeType::Broken
    } else {
        ChangeType::Invalid
    }
}

/// The position of a classification in the tag order used for the
/// deterministic statistics breakdown.
pub open spec fn tag_rank(ct: ChangeType) -> int {
    match ct {
        ChangeType::Invalid => 0,
        ChangeType::Added => 1,
        ChangeType::Copied => 2,
        ChangeType::Deleted => 3,
        ChangeType::Modified => 4,
        ChangeType::Renamed => 5,
        ChangeType::TypChanged => 6,
        ChangeType::Unmerged => 7,
        ChangeType::Unknown => 8,
        ChangeType::Broken => 9,
    }
}

/// The classification at a position of the tag order; inverse of `tag_rank`.
pub open spec fn rank_tag(k: int) -> ChangeType {
    if k == 0 {
        ChangeType::Invalid
    } else if k == 1 {
        ChangeType::Added
    } else if k == 2 {
        ChangeType::Copied
    } else if k == 3 {
        ChangeType::Deleted
    } else if k == 4 {
        ChangeType::Modified
    } else if k == 5 {
        ChangeType::Renamed
    } else if k == 6 {
        ChangeType::TypChanged
    } else if k == 7 {
        ChangeType::Unmerged
    } else if k == 8 {
        ChangeType::Unknown
    } else {
        ChangeType::Broken
    }
}

impl ChangeType {
    /// Reads the classification from the first letter of a status field.
    pub fn from_str(change_type: &str) -> (r: ChangeType)
        requires
            change_type@.len() > 0,
        ensures
            r == change_type_of_char(change_type@[0]),
    {
        let c = change_type.get_char(0);
        if c == 'A' {
            ChangeType::Added
        } else if c == 'C' {
            ChangeType::Copied
        } else if c == 'D' {
            ChangeType::Deleted
        } else if c == 'M' {
            ChangeType::Modified
        } else if c == 'R' {
            ChangeType::Renamed
        } else if c == 'T' {
            ChangeType::TypChanged
        } else if c == 'U' {
            ChangeType::Unmerged
        } else if c == 'X' {
            ChangeType::Unknown
        } else if c == 'B' {
            ChangeType::Broken
        } else {
            ChangeType::Invalid
        }
    }

    /// The position of this classification in the tag order.
    pub fn rank(&self) -> (r: usize)
        ensures
            r == tag_rank(*self),
    {
        match self {
            ChangeType::Invalid => 0,
            ChangeType::Added => 1,
            ChangeType::Copied => 2,
            ChangeType::Deleted => 3,
            ChangeType::Modified => 4,
            ChangeType::Renamed => 5,
            ChangeType::TypChanged => 6,
            ChangeType::Unmerged => 7,
            ChangeType::Unknown => 8,
            ChangeType::Broken => 9,
        }
    }
}

/// Per-file diff statistics as the version-control backend reports them.
#[derive(Debug, PartialEq, Eq, Structural, Clone, Copy)]
pub struct DiffStatus {
    pub added_lines: u32,
    pub removed_lines: u32,
    pub change_type: ChangeType,
}

/// A fresh mapping from file path to diff statistics, with pairwise
/// distinct paths.
pub type FileDiffMap = Vec<(String, DiffStatus)>;

/// True when some entry of `m` is keyed by the path `p`.
pub open spec fn has_key(m: Seq<(String, DiffStatus)>, p: Seq<char>) -> bool {
    exists|i: int| 0 <= i < m.len() && m[i].0@ == p
}

/// True when no two entries of `m` share a key.
pub open spec fn unique_keys(m: Seq<(String, DiffStatus)>) -> bool {
    forall|i: int, j: int| 0 <= i < j < m.len() ==> m[i].0@ != m[j].0@
}

/// The statistics that `m` records for the path `p`.
pub open spec fn stat_at(m: Seq<(String, DiffStatus)>, p: Seq<char>) -> DiffStatus {
    m[choose|i: int| 0 <= i < m.len() && m[i].0@ == p].1
}


// ---------------------------------------------------------------------------
// Plain queries against the repository on disk.
// ---------------------------------------------------------------------------

/// Whether the path holds version-control metadata. The answer depends on
/// the machine's state.
pub fn is_git_repo(path: &str) -> (r: bool) {
    let mut p = path.to_owned();
    p.append("/.git");
    sys::path_is_dir(p.as_str())
}

/// True when the backend's answer names a commit.
pub fn output_names_commit(msg: &str) -> (r: bool)
    ensures
        r == contains_seq(msg@, "commit"@),
{
    contains_str(msg, "commit")
}

/// Asks the backend whether the repository holds the commit; nothing if the
/// backend could not be asked.
pub fn repo_contains_commit(path: &str, commit: &str) -> (r: Option<bool>) {
    let mut args: Vec<String> = Vec::new();
    args.push("-C".to_owned());
    args.push(path.to_owned());
    args.push("cat-file".to_owned());
    args.push("-t".to_owned());
    args.push(commit.to_owned());
    match sys::command_output("git", &args) {
        Some(msg) => Some(output_names_commit(msg.as_str())),
        None => None,
    }
}

/// The root commit of the repository, trimmed of surrounding whitespace;
/// nothing if the backend could not be asked.
pub fn first_commit(repo_path: &str) -> (r: Option<String>)
    ensures
        (r is Some) ==> trimmed(r.unwrap()@) == r.unwrap()@,
{
    let mut args: Vec<String> = Vec::new();
    args.push("-C".to_owned());
    args.push(repo_path.to_owned());
    args.push("rev-list".to_owned());
    args.push("--max-parents=0".to_owned());
    args.push("HEAD".to_owned());
    match sys::command_output("git", &args) {
        Some(out) => {
            let t = trim(out.as_str()).to_owned();
            proof {
                crate::strutil::lemma_trimmed_idempotent(out@);
            }
            Some(t)
        },
        None => None,
    }
}

// ---------------------------------------------------------------------------
// The name-status listing: one line per file, a status letter and a path.
// ---------------------------------------------------------------------------

/// What one name-status line records: the file and its classification; the
/// renamed form carries the new name in its third field.
pub open spec fn ns_entry(l: Seq<char>) -> Option<(Seq<char>, ChangeType)> {
    let infos = split_ws_spec(l);
    if infos.len() < 2 {
        None
    } else {
        let ct = change_type_of_char(infos[0][0]);
        if ct == ChangeType::Renamed {
            if infos.len() == 3 {
                Some((infos[2], ct))
            } else {
                None
            }
        } else {
            Some((infos[1], ct))
        }
    }
}

/// Reads the name-status listing into (file, classification) entries, line
/// by line; empty output is an empty listing; a malformed line fails.
pub fn parse_name_status(out: &str) -> (r: Option<Vec<(String, ChangeType)>>)
    ensures
        ({
            let t = trimmed(out@);
            let lines = split_on(t, '\n');
            if t.len() == 0 {
                r is Some && r.unwrap()@.len() == 0
            } else {
                ((r is Some) == (forall|i: int|
                    0 <= i < lines.len() ==> ns_entry(#[trigger] lines[i]) is Some)) && ((
                r is Some) ==> r.unwrap()@.len() == lines.len() && (forall|i: int|
                    0 <= i < lines.len() ==> (#[trigger] r.unwrap()@[i]).0@ == ns_entry(
                        lines[i],
                    ).unwrap().0 && r.unwrap()@[i].1 == ns_entry(lines[i]).unwrap().1))
            }
        }),
{
    let t = trim(out);
    if t.is_empty() {
        let empty: Vec<(String, ChangeType)> = Vec::new();
        return Some(empty);
    }
    let lines = split_str(t, '\n');
    let ghost lv = strings_view(lines@);
    let nl = lines.len();
    let mut entries: Vec<(String, ChangeType)> = Vec::new();
    let mut i: usize = 0;
    while i < nl
        invariant
            i <= nl,
            nl == lines@.len(),
            lv == strings_view(lines@),
            lv == split_on(trimmed(out@), '\n'),
            trimmed(out@).len() != 0,
            entries@.len() == i,
            forall|j: int| 0 <= j < i ==> ns_entry(#[trigger] lv[j]) is Some,
            forall|j: int|
                0 <= j < i ==> (#[trigger] entries@[j]).0@ == ns_entry(lv[j]).unwrap().0
                    && entries@[j].1 == ns_entry(lv[j]).unwrap().1,
        decreases nl - i,
    {
        proof {
            assert(lv[i as int] == lines@[i as int]@);
            lemma_split_ws_nonempty(lv[i as int]);
        }
        let infos = split_whitespace_str(lines[i].as_str());
        if infos.len() < 2 {
            proof {
                assert(ns_entry(lv[i as int]) is None);
            }
            return None;
        }
        proof {
            assert(strings_view(infos@)[0] == infos@[0]@);
        }
        let ct = ChangeType::from_str(infos[0].as_str());
        let entry: (String, ChangeType) = if ct == ChangeType::Renamed {
            if infos.len() == 3 {
                proof {
                    assert(strings_view(infos@)[2] == infos@[2]@);
                }
                (infos[2].clone(), ct)
            } else {
                proof {
                    assert(ns_entry(lv[i as int]) is None);
                }
                return None;
            }
        } else {
            proof {
                assert(strings_view(infos@)[1] == infos@[1]@);
            }
            (infos[1].clone(), ct)
        };
        entries.push(entry);
        i = i + 1;
    }
    Some(entries)
}

/// The classification the listing gives a file, the later entry winning;
/// a file outside the listing is `Invalid`.
pub open spec fn ct_of_entries(es: Seq<(String, ChangeType)>, f: Seq<char>) -> ChangeType
    decreases es.len(),
{
    if es.len() == 0 {
        ChangeType::Invalid
    } else if es.last().0@ == f {
        es.last().1
    } else {
        ct_of_entries(es.drop_last(), f)
    }
}

/// Looks a file up in the name-status entries.
pub fn lookup_change_type(es: &Vec<(String, ChangeType)>, f: &str) -> (r: ChangeType)
    ensures
        r == ct_of_entries(es@, f@),
{
    let n = es.len();
    let mut i: usize = n;
    proof {
        assert(es@.take(n as int) =~= es@);
    }
    while i > 0
        invariant
            i <= n,
            n == es@.len(),
            ct_of_entries(es@, f@) == ct_of_entries(es@.take(i as int), f@),
        decreases i,
    {
        proof {
            assert(es@.take(i as int).drop_last() =~= es@.take(i - 1));
            assert(es@.take(i as int).last() == es@[i - 1]);
        }
        i = i - 1;
        if str_eq(es[i].0.as_str(), f) {
            return es[i].1;
        }
    }
    proof {
        assert(es@.take(0) =~= Seq::<(String, ChangeType)>::empty());
    }
    ChangeType::Invalid
}

// ---------------------------------------------------------------------------
// Decimal line counts.
// ---------------------------------------------------------------------------

/// True when `c` is a decimal digit.
pub open spec fn is_digit(c: char) -> bool {
    ('0' as u32) <= (c as u32) && (c as u32) <= ('9' as u32)
}

/// The value of a digit string.
pub open spec fn dec_val(s: Seq<char>) -> int
    decreases s.len(),
{
    if s.len() == 0 {
        0
    } else {
        dec_val(s.drop_last()) * 10 + ((s.last() as u32) - ('0' as u32))
    }
}

/// What a numstat count field denotes: a dash means a binary file and
/// counts as zero; otherwise the decimal value, when it is one and fits.
pub open spec fn count_spec(s: Seq<char>) -> Option<u32> {
    if s.contains('-') {
        Some(0u32)
    } else if s.len() > 0 && (forall|i: int| 0 <= i < s.len() ==> is_digit(#[trigger] s[i]))
        && dec_val(s) <= u32::MAX {
        Some(dec_val(s) as u32)
    } else {
        None
    }
}

/// Digit strings only grow in value as they extend.
proof fn lemma_dec_val_grows(s: Seq<char>, i: int)
    requires
        0 <= i <= s.len(),
        forall|j: int| 0 <= j < s.len() ==> is_digit(#[trigger] s[j]),
    ensures
        dec_val(s.take(i)) <= dec_val(s),
        dec_val(s) >= 0,
    decreases s.len() - i,
{
    if i == s.len() {
        assert(s.take(i) =~= s);
        lemma_dec_val_nonneg(s);
    } else {
        lemma_dec_val_grows(s, i + 1);
        assert(s.take(i + 1).drop_last() =~= s.take(i));
        assert(s.take(i + 1).last() == s[i]);
        lemma_dec_val_nonneg(s.take(i));
    }
}

proof fn lemma_dec_val_nonneg(s: Seq<char>)
    requires
        forall|j: int| 0 <= j < s.len() ==> is_digit(#[trigger] s[j]),
    ensures
        dec_val(s) >= 0,
    decreases s.len(),
{
    if s.len() > 0 {
        lemma_dec_val_nonneg(s.drop_last());
    }
}

/// Reads one count field.
pub fn parse_count(s: &str) -> (r: Option<u32>)
    ensures
        r == count_spec(s@),
{
    let n = s.unicode_len();
    let mut i: usize = 0;
    while i < n
        invariant
            i <= n,
            n == s@.len(),
            forall|j: int| 0 <= j < i ==> s@[j] != '-',
        decreases n - i,
    {
        if s.get_char(i) == '-' {
            return Some(0);
        }
        i = i + 1;
    }
    proof {
        assert(!s@.contains('-'));
    }
    if n == 0 {
        return None;
    }
    let mut acc: u32 = 0;
    let mut k: usize = 0;
    while k < n
        invariant
            k <= n,
            n == s@.len(),
            !s@.contains('-'),
            n > 0,
            forall|j: int| 0 <= j < k ==> is_digit(#[trigger] s@[j]),
            acc == dec_val(s@.take(k as int)),
        decreases n - k,
    {
        proof {
            assert(s@.take(k + 1).drop_last() =~= s@.take(k as int));
            assert(s@.take(k + 1).last() == s@[k as int]);
        }
        let c = s.get_char(k);
        let cu = c as u32;
        if cu < 48 || cu > 57 {
            proof {
                assert(!is_digit(s@[k as int]));
                assert(count_spec(s@) is None);
            }
            return None;
        }
        let d = cu - 48;
        if acc > (u32::MAX - d) / 10 {
            proof {
                assert(dec_val(s@.take(k + 1)) > u32::MAX as int);
                if forall|j: int| 0 <= j < s@.len() ==> is_digit(#[trigger] s@[j]) {
                    lemma_dec_val_grows(s@, k + 1);
                    assert(dec_val(s@) > u32::MAX as int);
                }
                assert(count_spec(s@) is None);
            }
            return None;
        }
        acc = acc * 10 + d;
        k = k + 1;
    }
    proof {
        assert(s@.take(n as int) =~= s@);
    }
    Some(acc)
}


// ---------------------------------------------------------------------------
// The numstat listing: NUL-separated records of added and removed counts;
// a renamed file carries its old and new names as two further fields.
// ---------------------------------------------------------------------------

/// The (file, statistics) records the numstat fields describe, from
/// position `i` on; the classification of each file comes from the
/// name-status entries. A malformed record fails.
pub open spec fn numstat_records(
    pieces: Seq<Seq<char>>,
    i: int,
    cts: Seq<(String, ChangeType)>,
) -> Option<Seq<(Seq<char>, DiffStatus)>>
    decreases pieces.len() - i when i <= pieces.len()
{
    if i >= pieces.len() {
        Some(Seq::empty())
    } else if pieces[i].len() == 0 {
        numstat_records(pieces, i + 1, cts)
    } else {
        let infos = split_ws_spec(pieces[i]);
        if infos.len() < 2 {
            None
        } else if count_spec(infos[0]) is None || count_spec(infos[1]) is None {
            None
        } else if infos.len() == 3 {
            let st = DiffStatus {
                added_lines: count_spec(infos[0]).unwrap(),
                removed_lines: count_spec(infos[1]).unwrap(),
                change_type: ct_of_entries(cts, infos[2]),
            };
            match numstat_records(pieces, i + 1, cts) {
                Some(rest) => Some(seq![(infos[2], st)] + rest),
                None => None,
            }
        } else {
            if i + 2 >= pieces.len() {
                None
            } else {
                let f = pieces[i + 2];
                let st = DiffStatus {
                    added_lines: count_spec(infos[0]).unwrap(),
                    removed_lines: count_spec(infos[1]).unwrap(),
                    change_type: ct_of_entries(cts, f),
                };
                match numstat_records(pieces, i + 3, cts) {
                    Some(rest) => Some(seq![(f, st)] + rest),
                    None => None,
                }
            }
        }
    }
}

/// The files and statistics of a sequence of owned records.
pub open spec fn entry_views(es: Seq<(String, DiffStatus)>) -> Seq<(Seq<char>, DiffStatus)> {
    es.map(|i: int, e: (String, DiffStatus)| (e.0@, e.1))
}

/// Collects the records from position `i` on.
fn collect_records(pieces: &Vec<String>, i: usize, cts: &Vec<(String, ChangeType)>) -> (r: Option<
    Vec<(String, DiffStatus)>,
>)
    requires
        i <= pieces@.len(),
    ensures
        ((r is Some) == (numstat_records(strings_view(pieces@), i as int, cts@) is Some)),
        (r is Some) ==> entry_views(r.unwrap()@) == numstat_records(
            strings_view(pieces@),
            i as int,
            cts@,
        ).unwrap(),
    decreases pieces@.len() - i,
{
    let ghost pv = strings_view(pieces@);
    if i >= pieces.len() {
        let empty: Vec<(String, DiffStatus)> = Vec::new();
        proof {
            assert(entry_views(empty@) =~= Seq::<(Seq<char>, DiffStatus)>::empty());
        }
        return Some(empty);
    }
    proof {
        assert(pv[i as int] == pieces@[i as int]@);
    }
    if pieces[i].as_str().is_empty() {
        return collect_records(pieces, i + 1, cts);
    }
    let infos = split_whitespace_str(pieces[i].as_str());
    if infos.len() < 2 {
        return None;
    }
    proof {
        assert(strings_view(infos@)[0] == infos@[0]@);
        assert(strings_view(infos@)[1] == infos@[1]@);
    }
    let added = match parse_count(infos[0].as_str()) {
        Some(a) => a,
        None => {
            return None;
        },
    };
    let removed = match parse_count(infos[1].as_str()) {
        Some(b) => b,
        None => {
            return None;
        },
    };
    if infos.len() == 3 {
        proof {
            assert(strings_view(infos@)[2] == infos@[2]@);
        }
        let file = infos[2].clone();
        let ct = lookup_change_type(cts, file.as_str());
        let st = DiffStatus { added_lines: added, removed_lines: removed, change_type: ct };
        match collect_records(pieces, i + 1, cts) {
            Some(rest) => {
                let mut out: Vec<(String, DiffStatus)> = Vec::new();
                let ghost gfile = file;
                out.push((file, st));
                let mut rest = rest;
                let ghost grest = rest@;
                out.append(&mut rest);
                proof {
                    assert(out@ =~= seq![(gfile, st)] + grest);
                    assert(entry_views(out@) =~= seq![(gfile@, st)] + entry_views(grest));
                }
                Some(out)
            },
            None => None,
        }
    } else {
        if pieces.len() - i < 3 {
            return None;
        }
        proof {
            assert(pv[i + 2] == pieces@[i + 2]@);
        }
        let file = pieces[i + 2].clone();
        let ct = lookup_change_type(cts, file.as_str());
        let st = DiffStatus { added_lines: added, removed_lines: removed, change_type: ct };
        match collect_records(pieces, i + 3, cts) {
            Some(rest) => {
                let mut out: Vec<(String, DiffStatus)> = Vec::new();
                let ghost gfile = file;
                out.push((file, st));
                let mut rest = rest;
                let ghost grest = rest@;
                out.append(&mut rest);
                proof {
                    assert(out@ =~= seq![(gfile, st)] + grest);
                    assert(entry_views(out@) =~= seq![(gfile@, st)] + entry_views(grest));
                }
                Some(out)
            },
            None => None,
        }
    }
}

/// One record folded into the mapping: a known file's statistics are
/// replaced, a new file is appended.
pub open spec fn upsert_one(
    m: Seq<(Seq<char>, DiffStatus)>,
    e: (Seq<char>, DiffStatus),
) -> Seq<(Seq<char>, DiffStatus)> {
    if exists|k: int| 0 <= k < m.len() && (#[trigger] m[k]).0 == e.0 {
        m.map(|i: int, me: (Seq<char>, DiffStatus)| if me.0 == e.0 {
            (me.0, e.1)
        } else {
            me
        })
    } else {
        m.push(e)
    }
}

/// The records folded into a mapping, later records winning.
pub open spec fn upserted(recs: Seq<(Seq<char>, DiffStatus)>) -> Seq<(Seq<char>, DiffStatus)>
    decreases recs.len(),
{
    if recs.len() == 0 {
        Seq::empty()
    } else {
        upsert_one(upserted(recs.drop_last()), recs.last())
    }
}

/// Folds owned records into an owned mapping with unique keys.
fn upsert_records(recs: Vec<(String, DiffStatus)>) -> (r: FileDiffMap)
    ensures
        entry_views(r@) == upserted(entry_views(recs@)),
        unique_keys(r@),
{
    let ghost rv = entry_views(recs@);
    let n = recs.len();
    let mut out: FileDiffMap = Vec::new();
    let mut i: usize = 0;
    proof {
        assert(entry_views(out@) =~= upserted(rv.take(0)));
        assert(rv.take(0) =~= Seq::<(Seq<char>, DiffStatus)>::empty());
    }
    while i < n
        invariant
            i <= n,
            n == recs@.len(),
            rv == entry_views(recs@),
            entry_views(out@) == upserted(rv.take(i as int)),
            unique_keys(out@),
        decreases n - i,
    {
        proof {
            assert(rv.take(i + 1).drop_last() =~= rv.take(i as int));
            assert(rv.take(i + 1).last() == rv[i as int]);
            assert(rv[i as int] == (recs@[i as int].0@, recs@[i as int].1));
        }
        let e = &recs[i];
        let mut j: usize = 0;
        let m = out.len();
        let mut found = false;
        while j < m && !found
            invariant
                j <= m,
                m == out@.len(),
                found ==> j < m && out@[j as int].0@ == e.0@,
                !found ==> forall|k: int| 0 <= k < j ==> (#[trigger] out@[k]).0@ != e.0@,
            decreases m - j + (if found { 0int } else { 1int }),
        {
            if str_eq(out[j].0.as_str(), e.0.as_str()) {
                found = true;
            } else {
                j = j + 1;
            }
        }
        let ghost out0 = out@;
        if found {
            let old_key = out[j].0.clone();
            out.set(j, (old_key, e.1));
            proof {
                assert(entry_views(out0)[j as int].0 == rv[i as int].0);
                assert(exists|k: int|
                    0 <= k < entry_views(out0).len() && (#[trigger] entry_views(out0)[k]).0
                        == rv[i as int].0);
                assert forall|k: int|
                    0 <= k < out@.len() implies entry_views(out@)[k] == upsert_one(
                    entry_views(out0),
                    rv[i as int],
                )[k] by {
                    assert(entry_views(out0)[k] == (out0[k].0@, out0[k].1));
                    assert(entry_views(out@)[k] == (out@[k].0@, out@[k].1));
                    if k != j {
                        assert(out@[k] == out0[k]);
                        if k < j {
                            assert(out0[k].0@ != out0[j as int].0@);
                        } else {
                            assert(out0[j as int].0@ != out0[k].0@);
                        }
                    }
                }
                assert(entry_views(out@) =~= upsert_one(entry_views(out0), rv[i as int]));
                assert(unique_keys(out@)) by {
                    assert forall|p: int, q: int|
                        0 <= p < q < out@.len() implies (#[trigger] out@[p]).0@ != (
                    #[trigger] out@[q]).0@ by {
                        assert(out@[p].0@ == out0[p].0@);
                        assert(out@[q].0@ == out0[q].0@);
                    }
                }
            }
        } else {
            out.push((e.0.clone(), e.1));
            proof {
                assert(!(exists|k: int|
                    0 <= k < entry_views(out0).len() && (#[trigger] entry_views(out0)[k]).0
                        == rv[i as int].0)) by {
                    if exists|k: int|
                        0 <= k < entry_views(out0).len() && (#[trigger] entry_views(out0)[k]).0
                            == rv[i as int].0 {
                        let k = choose|k: int|
                            0 <= k < entry_views(out0).len() && (#[trigger] entry_views(
                                out0,
                            )[k]).0 == rv[i as int].0;
                        assert(out0[k].0@ == e.0@);
                    }
                }
                assert(entry_views(out@) =~= upsert_one(entry_views(out0), rv[i as int]));
                assert forall|p: int, q: int|
                    0 <= p < q < out@.len() implies (#[trigger] out@[p]).0@ != (
                #[trigger] out@[q]).0@ by {
                    if q < out0.len() {
                        assert(out@[p] == out0[p] && out@[q] == out0[q]);
                    } else {
                        assert(out@[p] == out0[p]);
                        assert(out@[q].0@ == e.0@);
                        assert(entry_views(out0)[p].0 == out0[p].0@);
                    }
                }
            }
        }
        i = i + 1;
    }
    proof {
        assert(rv.take(n as int) =~= rv);
    }
    out
}

/// Reads the numstat listing into a mapping with unique file paths, the
/// later record for a file winning, classifications taken from the
/// name-status entries.
pub fn parse_numstat(out: &str, cts: &Vec<(String, ChangeType)>) -> (r: Option<FileDiffMap>)
    ensures
        ({
            let pieces = split_on(trimmed(out@), '\0');
            ((r is Some) == (numstat_records(pieces, 0, cts@) is Some)) && ((r is Some)
                ==> entry_views(r.unwrap()@) == upserted(numstat_records(pieces, 0, cts@).unwrap())
                    && unique_keys(r.unwrap()@))
        }),
{
    let t = trim(out);
    let pieces = split_str(t, '\0');
    match collect_records(&pieces, 0, cts) {
        Some(recs) => Some(upsert_records(recs)),
        None => None,
    }
}

/// Computes the per-file diff mapping for the commit range: the
/// name-status listing gives each file its classification, the numstat
/// listing its line counts. Nothing if the backend could not be asked or
/// an answer was malformed. The mapping's paths are unique.
pub fn diff_git_repo(repo_path: &str, start_commit: &str, end_commit: &str) -> (r: Option<
    FileDiffMap,
>)
    ensures
        (r is Some) ==> unique_keys(r.unwrap()@),
{
    let mut ns_args: Vec<String> = Vec::new();
    ns_args.push("-C".to_owned());
    ns_args.push(repo_path.to_owned());
    ns_args.push("diff".to_owned());
    ns_args.push("--name-status".to_owned());
    if !start_commit.is_empty() {
        ns_args.push(start_commit.to_owned());
    }
    if !end_commit.is_empty() {
        ns_args.push(end_commit.to_owned());
    }
    let ns_out = match sys::command_output("git", &ns_args) {
        Some(o) => o,
        None => {
            return None;
        },
    };
    let cts = match parse_name_status(ns_out.as_str()) {
        Some(c) => c,
        None => {
            return None;
        },
    };
    let mut num_args: Vec<String> = Vec::new();
    num_args.push("-C".to_owned());
    num_args.push(repo_path.to_owned());
    num_args.push("diff".to_owned());
    num_args.push("-z".to_owned());
    num_args.push("--numstat".to_owned());
    if !start_commit.is_empty() {
        num_args.push(start_commit.to_owned());
    }
    if !end_commit.is_empty() {
        num_args.push(end_commit.to_owned());
    }
    let num_out = match sys::command_output("git", &num_args) {
        Some(o) => o,
        None => {
            return None;
        },
    };
    parse_numstat(num_out.as_str(), &cts)
}


// ---------------------------------------------------------------------------
// Commit history.
// ---------------------------------------------------------------------------

/// One commit of the history, with its date both as display text and as
/// the instant in seconds that ordering uses.
pub struct Commit {
    pub hash: String,
    pub message: String,
    pub author: String,
    pub date: String,
    pub date_seconds: i64,
}

impl Commit {
    /// A field-for-field copy.
    pub fn duplicate(&self) -> (r: Self)
        ensures
            r == *self,
    {
        Commit {
            hash: self.hash.clone(),
            message: self.message.clone(),
            author: self.author.clone(),
            date: self.date.clone(),
            date_seconds: self.date_seconds,
        }
    }
}

/// The four fields of a history line, quotes trimmed: hash, author, date
/// and message, cut at the first three field marks.
pub open spec fn commit_fields(l: Seq<char>) -> Option<
    (Seq<char>, Seq<char>, Seq<char>, Seq<char>),
> {
    let t = trimmed_c(l, '"');
    let p1 = find_idx(t, '\u{a6}');
    if p1 < 0 {
        None
    } else {
        let r1 = t.skip(p1 + 1);
        let p2 = find_idx(r1, '\u{a6}');
        if p2 < 0 {
            None
        } else {
            let r2 = r1.skip(p2 + 1);
            let p3 = find_idx(r2, '\u{a6}');
            if p3 < 0 {
                None
            } else {
                Some((t.take(p1), r1.take(p2), r2.take(p3), r2.skip(p3 + 1)))
            }
        }
    }
}

/// Reads one history line into a commit; the date must be a readable
/// RFC 3339 timestamp.
pub fn parse_commit_line(line: &str) -> (r: Option<Commit>)
    ensures
        ((r is Some) == (commit_fields(line@) is Some && sys::rfc3339_date(
            commit_fields(line@).unwrap().2,
        ) is Some)),
        (r is Some) ==> ({
            let f = commit_fields(line@).unwrap();
            let d = sys::rfc3339_date(f.2).unwrap();
            r.unwrap().hash@ == f.0 && r.unwrap().author@ == f.1 && r.unwrap().message@ == f.3
                && r.unwrap().date_seconds as int == d.0 && r.unwrap().date@ == d.1
        }),
{
    let t = trim_char(line, '"');
    let p1 = match find_char(t, '\u{a6}') {
        Some(p) => p,
        None => {
            return None;
        },
    };
    let tn = t.unicode_len();
    let hash = substring(t, 0, p1);
    let r1 = substring(t, p1 + 1, tn);
    proof {
        assert(r1@ =~= trimmed_c(line@, '"').skip(p1 + 1));
        assert(hash@ =~= trimmed_c(line@, '"').take(p1 as int));
    }
    let p2 = match find_char(r1.as_str(), '\u{a6}') {
        Some(p) => p,
        None => {
            return None;
        },
    };
    let r1n = r1.as_str().unicode_len();
    let author = substring(r1.as_str(), 0, p2);
    let r2 = substring(r1.as_str(), p2 + 1, r1n);
    proof {
        assert(r2@ =~= r1@.skip(p2 + 1));
        assert(author@ =~= r1@.take(p2 as int));
    }
    let p3 = match find_char(r2.as_str(), '\u{a6}') {
        Some(p) => p,
        None => {
            return None;
        },
    };
    let r2n = r2.as_str().unicode_len();
    let date_text = substring(r2.as_str(), 0, p3);
    let message = substring(r2.as_str(), p3 + 1, r2n);
    proof {
        assert(date_text@ =~= r2@.take(p3 as int));
        assert(message@ =~= r2@.skip(p3 + 1));
    }
    match sys::parse_rfc3339(date_text.as_str()) {
        Some((seconds, display)) => Some(
            Commit {
                hash: hash,
                message: message,
                author: author,
                date: display,
                date_seconds: seconds,
            },
        ),
        None => None,
    }
}

/// Queries the first-parent commit history, most recent first as the
/// backend lists it; nothing if the backend could not be asked or a line
/// was malformed.
pub fn query_commits(repo_path: &str) -> (r: Option<Vec<Commit>>) {
    let mut args: Vec<String> = Vec::new();
    args.push("-C".to_owned());
    args.push(repo_path.to_owned());
    args.push("--no-pager".to_owned());
    args.push("log".to_owned());
    args.push("--first-parent".to_owned());
    args.push("--pretty=format:\"%h\u{a6}%an\u{a6}%aI\u{a6}%s\"".to_owned());
    let out = match sys::command_output("git", &args) {
        Some(o) => o,
        None => {
            return None;
        },
    };
    let trimmed_out = trim(out.as_str());
    let lines = split_str(trimmed_out, '\n');
    let nl = lines.len();
    let mut commits: Vec<Commit> = Vec::new();
    let mut i: usize = 0;
    while i < nl
        invariant
            i <= nl,
            nl == lines@.len(),
        decreases nl - i,
    {
        match parse_commit_line(lines[i].as_str()) {
            Some(c) => {
                commits.push(c);
            },
            None => {
                return None;
            },
        }
        i = i + 1;
    }
    Some(commits)
}

// ---------------------------------------------------------------------------
// Installed diff tools.
// ---------------------------------------------------------------------------

/// The tool a configuration line names: the middle piece of the dotted key
/// before the first whitespace, when the key has exactly three pieces.
#[verifier::opaque]
pub open spec fn difftool_of_line(l: Seq<char>) -> Option<Seq<char>> {
    let w = find_ws_idx(l);
    if w < 0 {
        None
    } else {
        let pieces = split_on(l.take(w), '.');
        if pieces.len() == 3 {
            Some(pieces[1])
        } else {
            None
        }
    }
}

/// The tool one configuration line names, if it names one.
fn difftool_from_line(line: &str) -> (r: Option<String>)
    ensures
        match r {
            Some(tool) => difftool_of_line(line@) == Some(tool@),
            None => difftool_of_line(line@) is None,
        },
{
    proof {
        reveal(difftool_of_line);
    }
    match find_ws(line) {
        Some(w) => {
            let desc = substring(line, 0, w);
            proof {
                assert(desc@ =~= line@.take(find_ws_idx(line@)));
            }
            let pieces = split_str(desc.as_str(), '.');
            if pieces.len() == 3 {
                proof {
                    assert(strings_view(pieces@)[1] == pieces@[1]@);
                }
                Some(pieces[1].clone())
            } else {
                None
            }
        },
        None => None,
    }
}

/// No two collected tools read the same.
pub open spec fn tools_distinct(ts: Seq<String>) -> bool {
    forall|p: int, q: int| 0 <= p < q < ts.len() ==> (#[trigger] ts[p])@ != (#[trigger] ts[q])@
}

/// Every collected tool is named by one of the first `i` lines.
pub open spec fn tools_sound(lv: Seq<Seq<char>>, i: int, ts: Seq<String>) -> bool {
    forall|p: int|
        0 <= p < ts.len() ==> exists|j: int|
            0 <= j < i && difftool_of_line(#[trigger] lv[j]) == Some((#[trigger] ts[p])@)
}

/// Every tool named by one of the first `i` lines is collected.
pub open spec fn tools_complete(lv: Seq<Seq<char>>, i: int, ts: Seq<String>) -> bool {
    forall|j: int|
        0 <= j < i && difftool_of_line(#[trigger] lv[j]) is Some ==> exists|p: int|
            0 <= p < ts.len() && (#[trigger] ts[p])@ == difftool_of_line(lv[j]).unwrap()
}

/// One collecting step: after looking at line `i`, the collected tools are
/// still distinct, each still stems from a line already looked at, and
/// every tool named by a line already looked at is still collected.
#[verifier::spinoff_prover]
proof fn lemma_collect_tools_step(
    lv: Seq<Seq<char>>,
    i: int,
    before: Seq<String>,
    after: Seq<String>,
)
    requires
        0 <= i < lv.len(),
        tools_distinct(before),
        tools_sound(lv, i, before),
        tools_complete(lv, i, before),
        (match difftool_of_line(lv[i]) {
            Some(t) => if exists|p: int| 0 <= p < before.len() && (#[trigger] before[p])@ == t {
                after == before
            } else {
                after.len() == before.len() + 1 && after.drop_last() == before && after.last()@
                    == t
            },
            None => after == before,
        }),
    ensures
        tools_distinct(after),
        tools_sound(lv, i + 1, after),
        tools_complete(lv, i + 1, after),
{
    let pushed = difftool_of_line(lv[i]) is Some && !(exists|p: int|
        0 <= p < before.len() && (#[trigger] before[p])@ == difftool_of_line(lv[i]).unwrap());
    if pushed {
        assert forall|p: int| 0 <= p < before.len() implies after[p] == before[p] by {
            assert(after.drop_last()[p] == before[p]);
        }
        assert(after[after.len() - 1]@ == difftool_of_line(lv[i]).unwrap());
    }
    assert forall|p: int|
        0 <= p < after.len() implies exists|j: int|
        0 <= j < i + 1 && difftool_of_line(#[trigger] lv[j]) == Some((#[trigger] after[p])@) by {
        if pushed && p == after.len() - 1 {
            assert(difftool_of_line(lv[i]) == Some(after[p]@));
        } else {
            assert(after[p] == before[p]);
            let j = choose|j: int|
                0 <= j < i && difftool_of_line(#[trigger] lv[j]) == Some(before[p]@);
            assert(difftool_of_line(lv[j]) == Some(after[p]@));
        }
    }
    assert forall|j: int|
        0 <= j < i + 1 && difftool_of_line(#[trigger] lv[j]) is Some implies exists|p: int|
        0 <= p < after.len() && (#[trigger] after[p])@ == difftool_of_line(lv[j]).unwrap() by {
        if j < i {
            let p = choose|p: int|
                0 <= p < before.len() && (#[trigger] before[p])@ == difftool_of_line(lv[j]).unwrap();
            if pushed {
                assert(after[p] == before[p]);
            }
            assert(after[p]@ == difftool_of_line(lv[j]).unwrap());
        } else {
            if pushed {
                assert(after[after.len() - 1]@ == difftool_of_line(lv[j]).unwrap());
            } else {
                let p = choose|p: int|
                    0 <= p < before.len() && (#[trigger] before[p])@ == difftool_of_line(
                        lv[i],
                    ).unwrap();
                assert(after[p]@ == difftool_of_line(lv[j]).unwrap());
            }
        }
    }
    if pushed {
        assert forall|p: int, q: int|
            0 <= p < q < after.len() implies (#[trigger] after[p])@ != (#[trigger] after[q])@ by {
            if q < after.len() - 1 {
                assert(after[p] == before[p] && after[q] == before[q]);
            } else {
                assert(after[p] == before[p]);
            }
        }
    }
}

/// The tools the backend's configuration names over the lines of its
/// output: without repetition, each collected tool named by some line, and
/// every named tool collected.
#[verifier::spinoff_prover]
pub fn parse_difftool_config(out: &str) -> (r: Vec<String>)
    ensures
        tools_distinct(r@),
        tools_sound(split_on(trimmed(out@), '\n'), split_on(trimmed(out@), '\n').len() as int, r@),
        tools_complete(
            split_on(trimmed(out@), '\n'),
            split_on(trimmed(out@), '\n').len() as int,
            r@,
        ),
{
    let t = trim(out);
    let lines = split_str(t, '\n');
    let ghost lv = strings_view(lines@);
    let nl = lines.len();
    let mut tools: Vec<String> = Vec::new();
    let mut i: usize = 0;
    while i < nl
        invariant
            i <= nl,
            nl == lines@.len(),
            lv == strings_view(lines@),
            lv == split_on(trimmed(out@), '\n'),
            tools_distinct(tools@),
            tools_sound(lv, i as int, tools@),
            tools_complete(lv, i as int, tools@),
        decreases nl - i,
    {
        proof {
            assert(lv[i as int] == lines@[i as int]@);
        }
        let ghost before = tools@;
        let line = lines[i].as_str();
        match difftool_from_line(line) {
            Some(tool) => {
                if !contains_tool(&tools, tool.as_str()) {
                    tools.push(tool);
                    proof {
                        assert(tools@.drop_last() =~= before);
                        assert(tools@.last()@ == difftool_of_line(lv[i as int]).unwrap());
                    }
                }
            },
            None => {},
        }
        proof {
            lemma_collect_tools_step(lv, i as int, before, tools@);
        }
        i = i + 1;
    }
    tools
}

/// True when some collected tool reads `c`.
fn contains_tool(v: &Vec<String>, c: &str) -> (r: bool)
    ensures
        r == (exists|p: int| 0 <= p < v@.len() && (#[trigger] v@[p])@ == c@),
{
    let n = v.len();
    let mut i: usize = 0;
    while i < n
        invariant
            i <= n,
            n == v@.len(),
            forall|p: int| 0 <= p < i ==> (#[trigger] v@[p])@ != c@,
        decreases n - i,
    {
        if str_eq(v[i].as_str(), c) {
            return true;
        }
        i = i + 1;
    }
    false
}

/// True when some tool of the list reads `t`.
pub open spec fn names_tool(ts: Seq<String>, t: Seq<char>) -> bool {
    exists|p: int| 0 <= p < ts.len() && (#[trigger] ts[p])@ == t
}

/// One union step: folding in one more candidate keeps distinctness and
/// the union membership in both directions.
#[verifier::spinoff_prover]
proof fn lemma_merge_step(
    cfg: Seq<String>,
    pv: Seq<String>,
    i: int,
    before: Seq<String>,
    after: Seq<String>,
)
    requires
        0 <= i < pv.len(),
        tools_distinct(before),
        forall|p: int|
            0 <= p < before.len() ==> names_tool(cfg, (#[trigger] before[p])@) || names_tool(
                pv.take(i),
                before[p]@,
            ),
        forall|q: int| 0 <= q < cfg.len() ==> names_tool(before, (#[trigger] cfg[q])@),
        forall|q: int| 0 <= q < i ==> names_tool(before, (#[trigger] pv[q])@),
        (if names_tool(before, pv[i]@) {
            after == before
        } else {
            after.len() == before.len() + 1 && after.drop_last() == before && after.last()@
                == pv[i]@
        }),
    ensures
        tools_distinct(after),
        forall|p: int|
            0 <= p < after.len() ==> names_tool(cfg, (#[trigger] after[p])@) || names_tool(
                pv.take(i + 1),
                after[p]@,
            ),
        forall|q: int| 0 <= q < cfg.len() ==> names_tool(after, (#[trigger] cfg[q])@),
        forall|q: int| 0 <= q < i + 1 ==> names_tool(after, (#[trigger] pv[q])@),
{
    let pushed = !names_tool(before, pv[i]@);
    if pushed {
        assert forall|p: int| 0 <= p < before.len() implies after[p] == before[p] by {
            assert(after.drop_last()[p] == before[p]);
        }
        assert(after[after.len() - 1]@ == pv[i]@);
        assert forall|p: int, q: int|
            0 <= p < q < after.len() implies (#[trigger] after[p])@ != (#[trigger] after[q])@ by {
            if q < after.len() - 1 {
                assert(after[p] == before[p] && after[q] == before[q]);
            } else {
                assert(after[p] == before[p]);
            }
        }
    }
    assert forall|p: int|
        0 <= p < after.len() implies names_tool(cfg, (#[trigger] after[p])@) || names_tool(
        pv.take(i + 1),
        after[p]@,
    ) by {
        if pushed && p == after.len() - 1 {
            assert(pv.take(i + 1)[i] == pv[i]);
            assert(names_tool(pv.take(i + 1), after[p]@));
        } else {
            assert(after[p] == before[p]);
            if names_tool(pv.take(i), before[p]@) {
                let q = choose|q: int| 0 <= q < i && (#[trigger] pv.take(i)[q])@ == before[p]@;
                assert(pv.take(i + 1)[q] == pv[q]);
                assert(names_tool(pv.take(i + 1), after[p]@));
            }
        }
    }
    assert forall|q: int| 0 <= q < cfg.len() implies names_tool(after, (#[trigger] cfg[q])@) by {
        let p = choose|p: int| 0 <= p < before.len() && (#[trigger] before[p])@ == cfg[q]@;
        if pushed {
            assert(after[p] == before[p]);
        }
        assert(after[p]@ == cfg[q]@);
    }
    assert forall|q: int| 0 <= q < i + 1 implies names_tool(after, (#[trigger] pv[q])@) by {
        if q < i {
            let p = choose|p: int| 0 <= p < before.len() && (#[trigger] before[p])@ == pv[q]@;
            if pushed {
                assert(after[p] == before[p]);
            }
            assert(after[p]@ == pv[q]@);
        } else {
            if pushed {
                assert(after[after.len() - 1]@ == pv[q]@);
            } else {
                let p = choose|p: int| 0 <= p < before.len() && (#[trigger] before[p])@ == pv[i]@;
                assert(after[p]@ == pv[q]@);
            }
        }
    }
}

/// Sorting the merged tools keeps distinctness and the union membership.
#[verifier::spinoff_prover]
proof fn lemma_merge_assembly(cfg: Seq<String>, pv: Seq<String>, pre: Seq<String>, sorted: Seq<String>)
    requires
        tools_distinct(pre),
        forall|p: int|
            0 <= p < pre.len() ==> names_tool(cfg, (#[trigger] pre[p])@) || names_tool(
                pv,
                pre[p]@,
            ),
        forall|q: int| 0 <= q < cfg.len() ==> names_tool(pre, (#[trigger] cfg[q])@),
        forall|q: int| 0 <= q < pv.len() ==> names_tool(pre, (#[trigger] pv[q])@),
        sorted.to_multiset() == pre.to_multiset(),
        forall|p: int, q: int|
            0 <= p < q < sorted.len() ==> crate::strutil::lex_le(
                (#[trigger] sorted[p])@,
                (#[trigger] sorted[q])@,
            ),
    ensures
        tools_distinct(sorted),
        forall|p: int, q: int|
            0 <= p < q < sorted.len() ==> crate::strutil::lex_le(
                (#[trigger] sorted[p])@,
                (#[trigger] sorted[q])@,
            ),
        forall|p: int|
            0 <= p < sorted.len() ==> names_tool(cfg, (#[trigger] sorted[p])@) || names_tool(
                pv,
                sorted[p]@,
            ),
        forall|q: int| 0 <= q < cfg.len() ==> names_tool(sorted, (#[trigger] cfg[q])@),
        forall|q: int| 0 <= q < pv.len() ==> names_tool(sorted, (#[trigger] pv[q])@),
{
    crate::sorting::lemma_permutation_props(sorted, pre);
    assert forall|p: int, q: int|
        0 <= p < q < sorted.len() implies (#[trigger] sorted[p])@ != (#[trigger] sorted[q])@ by {
        if sorted[p]@ == sorted[q]@ {
            assert(crate::sorting::appears_in(sorted[p], pre));
            assert(crate::sorting::appears_in(sorted[q], pre));
            let wp = choose|w: int| 0 <= w < pre.len() && pre[w] == sorted[p];
            let wq = choose|w: int| 0 <= w < pre.len() && pre[w] == sorted[q];
            assert(pre[wp]@ == pre[wq]@);
            assert(wp == wq);
            crate::sorting::lemma_dup_count(sorted, p, q);
            lemma_view_distinct_count(pre, sorted[q]);
        }
    }
    assert forall|p: int|
        0 <= p < sorted.len() implies names_tool(cfg, (#[trigger] sorted[p])@) || names_tool(
        pv,
        sorted[p]@,
    ) by {
        assert(crate::sorting::appears_in(sorted[p], pre));
        let w = choose|w: int| 0 <= w < pre.len() && pre[w] == sorted[p];
        assert(pre[w]@ == sorted[p]@);
    }
    assert forall|q: int| 0 <= q < cfg.len() implies names_tool(sorted, (#[trigger] cfg[q])@) by {
        let p = choose|p: int| 0 <= p < pre.len() && (#[trigger] pre[p])@ == cfg[q]@;
        assert(crate::sorting::appears_in(pre[p], sorted));
        let w = choose|w: int| 0 <= w < sorted.len() && sorted[w] == pre[p];
        assert(sorted[w]@ == cfg[q]@);
    }
    assert forall|q: int| 0 <= q < pv.len() implies names_tool(sorted, (#[trigger] pv[q])@) by {
        let p = choose|p: int| 0 <= p < pre.len() && (#[trigger] pre[p])@ == pv[q]@;
        assert(crate::sorting::appears_in(pre[p], sorted));
        let w = choose|w: int| 0 <= w < sorted.len() && sorted[w] == pre[p];
        assert(sorted[w]@ == pv[q]@);
    }
}

/// The union of the configured tools and the tools found on the search
/// path, without repetition and sorted: exactly the names of the two
/// lists, whatever their repetitions.
pub fn merge_tool_lists(config_tools: Vec<String>, path_tools: Vec<String>) -> (r: Vec<String>)
    requires
        tools_distinct(config_tools@),
    ensures
        tools_distinct(r@),
        forall|p: int, q: int|
            0 <= p < q < r@.len() ==> crate::strutil::lex_le(
                (#[trigger] r@[p])@,
                (#[trigger] r@[q])@,
            ),
        forall|p: int|
            0 <= p < r@.len() ==> names_tool(config_tools@, (#[trigger] r@[p])@) || names_tool(
                path_tools@,
                r@[p]@,
            ),
        forall|q: int|
            0 <= q < config_tools@.len() ==> names_tool(r@, (#[trigger] config_tools@[q])@),
        forall|q: int| 0 <= q < path_tools@.len() ==> names_tool(r@, (#[trigger] path_tools@[q])@),
{
    let ghost cfg = config_tools@;
    let ghost pv = path_tools@;
    let mut out = config_tools;
    let n = path_tools.len();
    let mut i: usize = 0;
    proof {
        assert(pv.take(0) =~= Seq::<String>::empty());
        assert forall|p: int|
            0 <= p < out@.len() implies names_tool(cfg, (#[trigger] out@[p])@) || names_tool(
            pv.take(0),
            out@[p]@,
        ) by {
            assert(cfg[p]@ == out@[p]@);
        }
        assert forall|q: int|
            0 <= q < cfg.len() implies names_tool(out@, (#[trigger] cfg[q])@) by {
            assert(out@[q]@ == cfg[q]@);
        }
    }
    while i < n
        invariant
            i <= n,
            n == pv.len(),
            pv == path_tools@,
            tools_distinct(out@),
            forall|p: int|
                0 <= p < out@.len() ==> names_tool(cfg, (#[trigger] out@[p])@) || names_tool(
                    pv.take(i as int),
                    out@[p]@,
                ),
            forall|q: int| 0 <= q < cfg.len() ==> names_tool(out@, (#[trigger] cfg[q])@),
            forall|q: int| 0 <= q < i ==> names_tool(out@, (#[trigger] pv[q])@),
        decreases n - i,
    {
        let ghost before = out@;
        let cand = &path_tools[i];
        if !contains_tool(&out, cand.as_str()) {
            out.push(cand.clone());
            proof {
                assert(out@.drop_last() =~= before);
                assert(out@.last()@ == pv[i as int]@);
            }
        }
        proof {
            lemma_merge_step(cfg, pv, i as int, before, out@);
        }
        i = i + 1;
    }
    proof {
        assert(pv.take(n as int) =~= pv);
    }
    let ghost pre = out@;
    let sorted = crate::sorting::sort_by_leq(out, &crate::sorting::StrCmp);
    proof {
        assert forall|p: int, q: int|
            0 <= p < q < sorted@.len() implies crate::strutil::lex_le(
            (#[trigger] sorted@[p])@,
            (#[trigger] sorted@[q])@,
        ) by {
            assert(crate::sorting::StrCmp.leq(sorted@[p], sorted@[q]));
        }
        lemma_merge_assembly(cfg, pv, pre, sorted@);
    }
    sorted
}

/// The fixed list of diff tools the backend itself knows to look for.
fn known_tools() -> (r: Vec<String>) {
    let mut v: Vec<String> = Vec::new();
    v.push("araxis".to_owned());
    v.push("kdiff3".to_owned());
    v.push("meld".to_owned());
    v.push("smerge".to_owned());
    v.push("bc".to_owned());
    v.push("bc3".to_owned());
    v.push("bc4".to_owned());
    v.push("codecompare".to_owned());
    v.push("deltawalker".to_owned());
    v.push("diffmerge".to_owned());
    v.push("diffuse".to_owned());
    v.push("ecmerge".to_owned());
    v.push("emerge".to_owned());
    v.push("examdiff".to_owned());
    v.push("guiffy".to_owned());
    v.push("gvimdiff".to_owned());
    v.push("kompare".to_owned());
    v.push("nvimdiff".to_owned());
    v.push("opendiff".to_owned());
    v.push("p4merge".to_owned());
    v.push("tkdiff".to_owned());
    v.push("vimdiff".to_owned());
    v.push("winmerge".to_owned());
    v.push("xxdiff".to_owned());
    v
}

/// The names of installed diff tools: the union of those the backend's
/// configuration names and those of the known list found on the search
/// path, without repetition and sorted. Nothing if the backend could not
/// be asked.
pub fn query_diff_tools() -> (r: Option<Vec<String>>)
    ensures
        (r is Some) ==> tools_distinct(r.unwrap()@) && (forall|p: int, q: int|
            0 <= p < q < r.unwrap()@.len() ==> crate::strutil::lex_le(
                (#[trigger] r.unwrap()@[p])@,
                (#[trigger] r.unwrap()@[q])@,
            )),
{
    let home = match sys::home_dir() {
        Some(h) => h,
        None => String::new(),
    };
    let mut args: Vec<String> = Vec::new();
    args.push("-C".to_owned());
    args.push(home);
    args.push("config".to_owned());
    args.push("get".to_owned());
    args.push("--all".to_owned());
    args.push("--show-names".to_owned());
    args.push("--regexp".to_owned());
    args.push("difftool\\..*\\.(cmd|path)".to_owned());
    let out = match sys::command_output("git", &args) {
        Some(o) => o,
        None => {
            return None;
        },
    };
    let config_tools = parse_difftool_config(out.as_str());
    let candidates = known_tools();
    let n = candidates.len();
    let mut found: Vec<String> = Vec::new();
    let mut i: usize = 0;
    while i < n
        invariant
            i <= n,
            n == candidates@.len(),
        decreases n - i,
    {
        let cand = &candidates[i];
        if sys::tool_on_path(cand.as_str()) {
            found.push(cand.clone());
        }
        i = i + 1;
    }
    Some(merge_tool_lists(config_tools, found))
}

/// Strings with pairwise distinct views each occur at most once.
proof fn lemma_view_distinct_count(s: Seq<String>, v: String)
    requires
        forall|p: int, q: int| 0 <= p < q < s.len() ==> (#[trigger] s[p])@ != (#[trigger] s[q])@,
    ensures
        s.to_multiset().count(v) <= 1,
{
    assert forall|p: int, q: int| 0 <= p < q < s.len() implies s[p] != s[q] by {
        assert(s[p]@ != s[q]@);
    }
    crate::sorting::lemma_distinct_count(s, v);
}

/// The arguments that launch the external diff tool on one file of the
/// commit range: the repository, the difftool subcommand with full context
/// and no prompt, the tool selector, the non-empty commit bounds, and the
/// file after the separator.
pub open spec fn difftool_args_view(
    repo: Seq<char>,
    start: Seq<char>,
    end: Seq<char>,
    file: Seq<char>,
    tool: Seq<char>,
) -> Seq<Seq<char>> {
    seq![
        seq!['-', 'C'],
        repo,
        seq!['d', 'i', 'f', 'f', 't', 'o', 'o', 'l'],
        seq!['-', 'U', '1', '0', '0', '0', '0', '0'],
        seq!['-', '-', 'n', 'o', '-', 'p', 'r', 'o', 'm', 'p', 't'],
        seq!['-', '-', 't', 'o', 'o', 'l', '='] + tool,
    ] + (if start.len() > 0 {
        seq![start]
    } else {
        Seq::<Seq<char>>::empty()
    }) + (if end.len() > 0 {
        seq![end]
    } else {
        Seq::<Seq<char>>::empty()
    }) + seq![seq!['-', '-'], file]
}

/// The argument list that launches the external diff tool on one file of
/// the commit range.
pub fn difftool_args(repo_path: &str, start_commit: &str, end_commit: &str, file: &str, diff_tool: &str) -> (r: Vec<String>)
    ensures
        strings_view(r@) == difftool_args_view(
            repo_path@,
            start_commit@,
            end_commit@,
            file@,
            diff_tool@,
        ),
{
    let mut args: Vec<String> = Vec::new();
    args.push("-C".to_owned());
    args.push(repo_path.to_owned());
    args.push("difftool".to_owned());
    args.push("-U100000".to_owned());
    args.push("--no-prompt".to_owned());
    let mut tool = "--tool=".to_owned();
    tool.append(diff_tool);
    args.push(tool);
    if !start_commit.is_empty() {
        args.push(start_commit.to_owned());
    }
    if !end_commit.is_empty() {
        args.push(end_commit.to_owned());
    }
    args.push("--".to_owned());
    args.push(file.to_owned());
    proof {
        reveal_strlit("-C");
        reveal_strlit("difftool");
        reveal_strlit("-U100000");
        reveal_strlit("--no-prompt");
        reveal_strlit("--tool=");
        reveal_strlit("--");
        assert(("-C"@) =~= seq!['-', 'C']);
        assert(("difftool"@) =~= seq!['d', 'i', 'f', 'f', 't', 'o', 'o', 'l']);
        assert(("-U100000"@) =~= seq!['-', 'U', '1', '0', '0', '0', '0', '0']);
        assert(("--no-prompt"@) =~= seq!['-', '-', 'n', 'o', '-', 'p', 'r', 'o', 'm', 'p', 't']);
        assert(("--tool="@) =~= seq!['-', '-', 't', 'o', 'o', 'l', '=']);
        assert(("--"@) =~= seq!['-', '-']);
        assert(strings_view(args@) =~= difftool_args_view(
            repo_path@,
            start_commit@,
            end_commit@,
            file@,
            diff_tool@,
        ));
    }
    args
}

} // verus!
