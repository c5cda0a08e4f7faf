use vstd::prelude::*;
use vstd::string::StrSliceExecFns;
use vstd::string::StringExecFns;

verus! {

// ---------------------------------------------------------------------------
// Equality and containment.
// ---------------------------------------------------------------------------

/// Character-wise equality of two string slices.
pub fn str_eq(a: &str, b: &str) -> (r: bool)
    ensures
        r == (a@ == b@),
{
    let a_len = a.unicode_len();
    let b_len = b.unicode_len();
    if a_len != b_len {
        assert(a@ != b@);
        return false;
    }
    let mut i: usize = 0;
    while i < a_len
        invariant
            i <= a_len,
            a_len == a@.len(),
            a_len == b@.len(),
            forall|j: int| 0 <= j < i ==> a@[j] == b@[j],
        decreases a_len - i,
    {
        if a.get_char(i) != b.get_char(i) {
            return false;
        }
        i = i + 1;
    }
    proof {
        assert(a@ =~= b@);
    }
    true
}

/// The characters of a string, as a vector.
pub fn chars_of(s: &str) -> (r: Vec<char>)
    ensures
        r@ == s@,
{
    let n = s.unicode_len();
    let mut out: Vec<char> = Vec::new();
    let mut i: usize = 0;
    while i < n
        invariant
            i <= n,
            n == s@.len(),
            out@ == s@.take(i as int),
        decreases n - i,
    {
        out.push(s.get_char(i));
        proof {
            assert(out@ =~= s@.take(i + 1));
        }
        i = i + 1;
    }
    proof {
        assert(s@.take(n as int) =~= s@);
    }
    out
}

/// True when `n` occurs in `h` as a contiguous run.
pub open spec fn contains_seq(h: Seq<char>, n: Seq<char>) -> bool {
    exists|i: int|
        0 <= i && i + n.len() <= h.len() && #[trigger] h.subrange(i, i + n.len() as int) == n
}

/// Substring search; the empty needle matches everywhere.
pub fn contains_str(hay: &str, needle: &str) -> (r: bool)
    ensures
        r == contains_seq(hay@, needle@),
{
    let h = chars_of(hay);
    let n = chars_of(needle);
    let h_len = h.len();
    let n_len = n.len();
    if n_len > h_len {
        assert(!contains_seq(hay@, needle@));
        return false;
    }
    let mut i: usize = 0;
    while i <= h_len - n_len
        invariant
            h@ == hay@,
            n@ == needle@,
            h_len == h@.len(),
            n_len == n@.len(),
            n_len <= h_len,
            i <= h_len,
            forall|k: int|
                0 <= k < i ==> #[trigger] hay@.subrange(k, k + needle@.len() as int) != needle@,
        decreases h_len - i,
    {
        let mut j: usize = 0;
        let mut matches = true;
        while j < n_len
            invariant
                j <= n_len,
                h@ == hay@,
                n@ == needle@,
                h_len == h@.len(),
                n_len == n@.len(),
                i + n_len <= h_len,
                !matches ==> j == n_len,
                matches == (forall|t: int| 0 <= t < j ==> hay@[i + t] == #[trigger] needle@[t]),
            decreases n_len - j,
        {
            let hc = h[i + j];
            let nc = n[j];
            if hc != nc {
                matches = false;
                proof {
                    assert(hay@[i + j as int] != needle@[j as int]);
                }
                j = n_len;
            } else {
                proof {
                    assert(hay@[i + j as int] == needle@[j as int]);
                    assert forall|t: int|
                        0 <= t < j + 1 implies hay@[i + t] == #[trigger] needle@[t] by {
                        if t < j {
                            assert(hay@[i + t] == needle@[t]);
                        }
                    }
                }
                j = j + 1;
            }
        }
        if matches {
            proof {
                assert(hay@.subrange(i as int, i + needle@.len() as int) =~= needle@);
            }
            return true;
        }
        proof {
            if hay@.subrange(i as int, i + needle@.len() as int) == needle@ {
                assert forall|t: int| 0 <= t < n_len implies hay@[i + t] == #[trigger] needle@[t] by {
                    assert(hay@.subrange(i as int, i + needle@.len() as int)[t] == hay@[i + t]);
                }
            }
        }
        i = i + 1;
    }
    proof {
        if contains_seq(hay@, needle@) {
            let k = choose|k: int|
                0 <= k && k + needle@.len() <= hay@.len() && #[trigger] hay@.subrange(
                    k,
                    k + needle@.len() as int,
                ) == needle@;
            assert(k <= h_len - n_len);
            assert(k < i);
        }
    }
    false
}

// ---------------------------------------------------------------------------
// Case-insensitive text, through the standard library's lowercase mapping.
// ---------------------------------------------------------------------------

/// What `str::to_lowercase` returns for a given character sequence; the
/// result depends on the characters alone.
pub uninterp spec fn lower_of(s: Seq<char>) -> Seq<char>;

/// Relies on str::to_lowercase: the lowercase equivalent of the slice,
/// a function of its characters alone; empty input gives empty output.
#[verifier::external_body]
pub fn lowercase(s: &str) -> (r: String)
    ensures
        r@ == lower_of(s@),
        s@.len() == 0 ==> r@.len() == 0,
{
    s.to_lowercase()
}

// ---------------------------------------------------------------------------
// Lexicographic order on character sequences.
// ---------------------------------------------------------------------------

/// Lexicographic order by code point; a proper prefix sorts first.
pub open spec fn lex_le(a: Seq<char>, b: Seq<char>) -> bool
    decreases a.len(),
{
    if a.len() == 0 {
        true
    } else if b.len() == 0 {
        false
    } else if a[0] == b[0] {
        lex_le(a.drop_first(), b.drop_first())
    } else {
        (a[0] as u32) < (b[0] as u32)
    }
}

/// Any two sequences are ordered one way or the other.
pub proof fn lemma_lex_le_total(a: Seq<char>, b: Seq<char>)
    ensures
        lex_le(a, b) || lex_le(b, a),
    decreases a.len(),
{
    if a.len() > 0 && b.len() > 0 {
        if a[0] == b[0] {
            lemma_lex_le_total(a.drop_first(), b.drop_first());
        } else {
            vstd::utf8::char_u32_cast(a[0], a[0] as u32);
            vstd::utf8::char_u32_cast(b[0], b[0] as u32);
            assert(a[0] as u32 != b[0] as u32);
        }
    }
}

/// The order is transitive.
pub proof fn lemma_lex_le_trans(a: Seq<char>, b: Seq<char>, c: Seq<char>)
    requires
        lex_le(a, b),
        lex_le(b, c),
    ensures
        lex_le(a, c),
    decreases a.len(),
{
    if a.len() > 0 && b.len() > 0 && c.len() > 0 {
        if a[0] == b[0] && b[0] == c[0] {
            lemma_lex_le_trans(a.drop_first(), b.drop_first(), c.drop_first());
        }
    }
}

/// Skipping a shared prefix does not change the order.
proof fn lemma_lex_le_skip(a: Seq<char>, b: Seq<char>, i: int)
    requires
        0 <= i <= a.len(),
        i <= b.len(),
        forall|j: int| 0 <= j < i ==> a[j] == b[j],
    ensures
        lex_le(a, b) == lex_le(a.skip(i), b.skip(i)),
    decreases i,
{
    if i > 0 {
        assert(a.len() > 0 && b.len() > 0 && a[0] == b[0]);
        lemma_lex_le_skip(a.drop_first(), b.drop_first(), i - 1);
        assert(a.drop_first().skip(i - 1) =~= a.skip(i));
        assert(b.drop_first().skip(i - 1) =~= b.skip(i));
    } else {
        assert(a.skip(0) =~= a);
        assert(b.skip(0) =~= b);
    }
}

/// Lexicographic comparison of two string slices.
pub fn str_lex_le(a: &str, b: &str) -> (r: bool)
    ensures
        r == lex_le(a@, b@),
{
    let a_len = a.unicode_len();
    let b_len = b.unicode_len();
    let min = if a_len < b_len {
        a_len
    } else {
        b_len
    };
    let mut i: usize = 0;
    while i < min
        invariant
            i <= min,
            a_len == a@.len(),
            b_len == b@.len(),
            min == if a_len < b_len {
                a_len
            } else {
                b_len
            },
            forall|j: int| 0 <= j < i ==> a@[j] == b@[j],
        decreases min - i,
    {
        let ca = a.get_char(i);
        let cb = b.get_char(i);
        if ca != cb {
            proof {
                lemma_lex_le_skip(a@, b@, i as int);
            }
            return (ca as u32) < (cb as u32);
        }
        i = i + 1;
    }
    proof {
        lemma_lex_le_skip(a@, b@, min as int);
    }
    a_len <= b_len
}

// ---------------------------------------------------------------------------
// Whitespace, trimming and splitting.
// ---------------------------------------------------------------------------

/// The characters with the Unicode White_Space property.
pub open spec fn is_ws_char(c: char) -> bool {
    c == ' ' || c == '\t' || c == '\n' || c == '\u{b}' || c == '\u{c}' || c == '\r' || c
        == '\u{85}' || c == '\u{a0}' || c == '\u{1680}' || c == '\u{2000}' || c == '\u{2001}' || c
        == '\u{2002}' || c == '\u{2003}' || c == '\u{2004}' || c == '\u{2005}' || c == '\u{2006}'
        || c == '\u{2007}' || c == '\u{2008}' || c == '\u{2009}' || c == '\u{200a}' || c
        == '\u{2028}' || c == '\u{2029}' || c == '\u{202f}' || c == '\u{205f}' || c == '\u{3000}'
}

/// Whitespace test on a single character.
pub fn is_ws(c: char) -> (r: bool)
    ensures
        r == is_ws_char(c),
{
    c == ' ' || c == '\t' || c == '\n' || c == '\u{b}' || c == '\u{c}' || c == '\r' || c
        == '\u{85}' || c == '\u{a0}' || c == '\u{1680}' || c == '\u{2000}' || c == '\u{2001}' || c
        == '\u{2002}' || c == '\u{2003}' || c == '\u{2004}' || c == '\u{2005}' || c == '\u{2006}'
        || c == '\u{2007}' || c == '\u{2008}' || c == '\u{2009}' || c == '\u{200a}' || c
        == '\u{2028}' || c == '\u{2029}' || c == '\u{202f}' || c == '\u{205f}' || c == '\u{3000}'
}

/// `s` without leading whitespace.
pub open spec fn trim_left(s: Seq<char>) -> Seq<char>
    decreases s.len(),
{
    if s.len() > 0 && is_ws_char(s[0]) {
        trim_left(s.drop_first())
    } else {
        s
    }
}

/// `s` without trailing whitespace.
pub open spec fn trim_right(s: Seq<char>) -> Seq<char>
    decreases s.len(),
{
    if s.len() > 0 && is_ws_char(s.last()) {
        trim_right(s.drop_last())
    } else {
        s
    }
}

/// `s` without leading and trailing whitespace.
pub open spec fn trimmed(s: Seq<char>) -> Seq<char> {
    trim_right(trim_left(s))
}

proof fn lemma_trim_left_skip(s: Seq<char>, i: int)
    requires
        0 <= i <= s.len(),
        forall|j: int| 0 <= j < i ==> is_ws_char(s[j]),
        i < s.len() ==> !is_ws_char(s[i]),
    ensures
        trim_left(s) == s.skip(i),
    decreases i,
{
    if i == 0 {
        assert(s.skip(0) =~= s);
    } else {
        lemma_trim_left_skip(s.drop_first(), i - 1);
        assert(s.drop_first().skip(i - 1) =~= s.skip(i));
    }
}

proof fn lemma_trim_right_take(s: Seq<char>, i: int)
    requires
        0 <= i <= s.len(),
        forall|j: int| i <= j < s.len() ==> is_ws_char(s[j]),
        i > 0 ==> !is_ws_char(s[i - 1]),
    ensures
        trim_right(s) == s.take(i),
    decreases s.len() - i,
{
    if i == s.len() {
        assert(s.take(i) =~= s);
    } else {
        lemma_trim_right_take(s.drop_last(), i);
        assert(s.drop_last().take(i) =~= s.take(i));
    }
}

/// The slice without leading and trailing whitespace.
pub fn trim(s: &str) -> (r: &str)
    ensures
        r@ == trimmed(s@),
{
    let n = s.unicode_len();
    let mut start: usize = 0;
    while start < n && is_ws(s.get_char(start))
        invariant
            start <= n,
            n == s@.len(),
            forall|j: int| 0 <= j < start ==> is_ws_char(s@[j]),
        decreases n - start,
    {
        start = start + 1;
    }
    proof {
        lemma_trim_left_skip(s@, start as int);
    }
    let mut end: usize = n;
    while end > start && is_ws(s.get_char(end - 1))
        invariant
            start <= end <= n,
            n == s@.len(),
            forall|j: int| 0 <= j < start ==> is_ws_char(s@[j]),
            start < n ==> !is_ws_char(s@[start as int]),
            forall|j: int| end <= j < n ==> is_ws_char(s@[j]),
        decreases end,
    {
        end = end - 1;
    }
    let r = s.substring_char(start, end);
    proof {
        let t = s@.skip(start as int);
        assert forall|j: int| end - start <= j < t.len() implies is_ws_char(t[j]) by {
            assert(t[j] == s@[j + start]);
        }
        if end > start {
            assert(t[end - start - 1] == s@[end - 1]);
        }
        lemma_trim_right_take(t, end - start);
        assert(r@ =~= t.take(end - start));
    }
    r
}

/// A trimmed sequence does not begin with whitespace.
proof fn lemma_trim_left_head(s: Seq<char>)
    ensures
        trim_left(s).len() > 0 ==> !is_ws_char(trim_left(s)[0]),
    decreases s.len(),
{
    if s.len() > 0 && is_ws_char(s[0]) {
        lemma_trim_left_head(s.drop_first());
    }
}

/// A right-trimmed sequence does not end with whitespace.
proof fn lemma_trim_right_last(s: Seq<char>)
    ensures
        trim_right(s).len() > 0 ==> !is_ws_char(trim_right(s).last()),
    decreases s.len(),
{
    if s.len() > 0 && is_ws_char(s.last()) {
        lemma_trim_right_last(s.drop_last());
    }
}

/// Right-trimming never grows the sequence.
proof fn lemma_trim_right_len(s: Seq<char>)
    ensures
        trim_right(s).len() <= s.len(),
    decreases s.len(),
{
    if s.len() > 0 && is_ws_char(s.last()) {
        lemma_trim_right_len(s.drop_last());
    }
}

/// Right-trimming keeps a prefix of the sequence.
proof fn lemma_trim_right_prefix(s: Seq<char>)
    ensures
        trim_right(s) == s.take(trim_right(s).len() as int),
    decreases s.len(),
{
    lemma_trim_right_len(s);
    if s.len() > 0 && is_ws_char(s.last()) {
        lemma_trim_right_prefix(s.drop_last());
        lemma_trim_right_len(s.drop_last());
        assert(s.drop_last().take(trim_right(s).len() as int) =~= s.take(
            trim_right(s).len() as int,
        ));
    } else {
        assert(s.take(s.len() as int) =~= s);
    }
}

/// Left-trimming never grows the sequence.
proof fn lemma_trim_left_len(s: Seq<char>)
    ensures
        trim_left(s).len() <= s.len(),
    decreases s.len(),
{
    if s.len() > 0 && is_ws_char(s[0]) {
        lemma_trim_left_len(s.drop_first());
    }
}

/// A sequence that trimming leaves alone is left alone by each half.
pub proof fn lemma_trimmed_fix(s: Seq<char>)
    requires
        trimmed(s) == s,
    ensures
        trim_left(s) == s,
        trim_right(s) == s,
{
    let a = trim_left(s);
    lemma_trim_left_len(s);
    lemma_trim_right_len(a);
    if s.len() > 0 && is_ws_char(s[0]) {
        lemma_trim_left_len(s.drop_first());
        assert(a.len() < s.len());
        assert(trimmed(s).len() < s.len());
    }
    assert(trim_left(s) == s);
}

/// Trimming is idempotent.
pub proof fn lemma_trimmed_idempotent(s: Seq<char>)
    ensures
        trimmed(trimmed(s)) == trimmed(s),
{
    let a = trim_left(s);
    let t = trim_right(a);
    lemma_trim_left_head(s);
    lemma_trim_right_last(a);
    lemma_trim_right_prefix(a);
    lemma_trim_right_len(a);
    if t.len() > 0 {
        assert(t == a.take(t.len() as int));
        assert(a.take(t.len() as int)[0] == a[0]);
        assert(t[0] == a[0]);
        assert(!is_ws_char(t[0]));
        assert(trim_left(t) == t);
        assert(!is_ws_char(t.last()));
        assert(trim_right(t) == t);
    } else {
        assert(trim_left(t) == t);
        assert(trim_right(t) == t);
    }
}

/// The pieces of `s` between occurrences of `sep`: splitting keeps empty
/// pieces, and a sequence with no separator is one piece.
pub open spec fn split_on(s: Seq<char>, sep: char) -> Seq<Seq<char>>
    decreases s.len(),
{
    if s.len() == 0 {
        seq![Seq::<char>::empty()]
    } else {
        let rest = split_on(s.drop_last(), sep);
        if s.last() == sep {
            rest.push(Seq::<char>::empty())
        } else {
            rest.update(rest.len() - 1, rest.last().push(s.last()))
        }
    }
}

/// The views of a sequence of owned strings.
pub open spec fn strings_view(v: Seq<String>) -> Seq<Seq<char>> {
    v.map(|i: int, s: String| s@)
}

/// Pushing an owned string pushes its view.
proof fn lemma_strings_view_push(v: Seq<String>, x: String)
    ensures
        strings_view(v.push(x)) == strings_view(v).push(x@),
{
    assert(strings_view(v.push(x)) =~= strings_view(v).push(x@));
}

/// `split_on` always yields at least one piece.
pub proof fn lemma_split_on_len(s: Seq<char>, sep: char)
    ensures
        split_on(s, sep).len() >= 1,
    decreases s.len(),
{
    if s.len() > 0 {
        lemma_split_on_len(s.drop_last(), sep);
    }
}

/// Splits a string at every occurrence of `sep`.
pub fn split_str(s: &str, sep: char) -> (r: Vec<String>)
    ensures
        strings_view(r@) == split_on(s@, sep),
{
    let n = s.unicode_len();
    let mut out: Vec<String> = Vec::new();
    let mut start: usize = 0;
    let mut i: usize = 0;
    proof {
        assert(s@.take(0) =~= Seq::<char>::empty());
        assert(s@.subrange(0, 0) =~= Seq::<char>::empty());
        assert(strings_view(out@).push(s@.subrange(0, 0)) =~= split_on(s@.take(0), sep));
    }
    while i < n
        invariant
            start <= i <= n,
            n == s@.len(),
            strings_view(out@).push(s@.subrange(start as int, i as int)) == split_on(
                s@.take(i as int),
                sep,
            ),
        decreases n - i,
    {
        proof {
            lemma_split_on_len(s@.take(i as int), sep);
            assert(s@.take(i + 1).drop_last() =~= s@.take(i as int));
            assert(s@.take(i + 1).last() == s@[i as int]);
        }
        if s.get_char(i) == sep {
            let piece = s.substring_char(start, i).to_owned();
            let ghost out0 = out@;
            let ghost gpiece = piece;
            out.push(piece);
            proof {
                lemma_strings_view_push(out0, gpiece);
                assert(strings_view(out@) == strings_view(out0).push(gpiece@));
                assert(gpiece@ == s@.subrange(start as int, i as int));
                assert(s@.subrange(i + 1, i + 1) =~= Seq::<char>::empty());
                assert(strings_view(out@).push(s@.subrange(i + 1, i + 1)) =~= split_on(
                    s@.take(i + 1),
                    sep,
                ));
            }
            start = i + 1;
        } else {
            proof {
                let prev = split_on(s@.take(i as int), sep);
                let cur = split_on(s@.take(i + 1), sep);
                assert(cur == prev.update(prev.len() - 1, prev.last().push(s@[i as int])));
                assert(s@.subrange(start as int, i + 1) =~= s@.subrange(start as int, i as int).push(
                    s@[i as int],
                ));
                assert(strings_view(out@).push(s@.subrange(start as int, i + 1)) =~= cur);
            }
        }
        i = i + 1;
    }
    let piece = s.substring_char(start, n).to_owned();
    let ghost out0 = out@;
    let ghost gpiece = piece;
    out.push(piece);
    proof {
        assert(s@.take(n as int) =~= s@);
        lemma_strings_view_push(out0, gpiece);
        assert(strings_view(out@) == strings_view(out0).push(gpiece@));
    }
    out
}

/// The whitespace-separated words of `s`, in order, without empty pieces.
pub open spec fn split_ws_spec(s: Seq<char>) -> Seq<Seq<char>>
    decreases s.len(),
{
    if s.len() == 0 {
        Seq::empty()
    } else {
        let rest = split_ws_spec(s.drop_last());
        let c = s.last();
        if is_ws_char(c) {
            rest
        } else if s.len() >= 2 && !is_ws_char(s[s.len() - 2]) {
            rest.update(rest.len() - 1, rest.last().push(c))
        } else {
            rest.push(seq![c])
        }
    }
}

/// A word is open exactly while the last seen character was not whitespace,
/// and then the word list is non-empty.
proof fn lemma_split_ws_open(s: Seq<char>)
    ensures
        s.len() > 0 && !is_ws_char(s.last()) ==> split_ws_spec(s).len() >= 1,
    decreases s.len(),
{
    if s.len() > 0 {
        lemma_split_ws_open(s.drop_last());
    }
}

/// Splits a string into its whitespace-separated words.
pub fn split_whitespace_str(s: &str) -> (r: Vec<String>)
    ensures
        strings_view(r@) == split_ws_spec(s@),
{
    let n = s.unicode_len();
    let mut out: Vec<String> = Vec::new();
    let mut start: usize = 0;
    let mut in_word = false;
    let mut i: usize = 0;
    while i < n
        invariant
            start <= i <= n,
            n == s@.len(),
            in_word == (i > 0 && !is_ws_char(s@[i - 1])),
            in_word ==> (start < i && !is_ws_char(s@[start as int]) && (start == 0 || is_ws_char(
                s@[start - 1],
            )) && forall|j: int| start <= j < i ==> !is_ws_char(s@[j])),
            if in_word {
                strings_view(out@).push(s@.subrange(start as int, i as int)) == split_ws_spec(
                    s@.take(i as int),
                )
            } else {
                strings_view(out@) == split_ws_spec(s@.take(i as int))
            },
        decreases n - i,
    {
        proof {
            assert(s@.take(i + 1).drop_last() =~= s@.take(i as int));
            assert(s@.take(i + 1).last() == s@[i as int]);
            if i > 0 {
                assert(s@.take(i + 1)[i - 1] == s@[i - 1]);
            }
        }
        let c = s.get_char(i);
        if is_ws(c) {
            if in_word {
                let piece = s.substring_char(start, i).to_owned();
                let ghost out0 = out@;
                let ghost gpiece = piece;
                out.push(piece);
                proof {
                    lemma_strings_view_push(out0, gpiece);
                }
                in_word = false;
            }
        } else {
            if !in_word {
                start = i;
                in_word = true;
                proof {
                    let cur = split_ws_spec(s@.take(i + 1));
                    assert(cur == split_ws_spec(s@.take(i as int)).push(seq![s@[i as int]]));
                    assert(s@.subrange(i as int, i + 1) =~= seq![s@[i as int]]);
                }
            } else {
                proof {
                    let prev = split_ws_spec(s@.take(i as int));
                    let cur = split_ws_spec(s@.take(i + 1));
                    lemma_split_ws_open(s@.take(i as int));
                    assert(cur == prev.update(prev.len() - 1, prev.last().push(s@[i as int])));
                    assert(s@.subrange(start as int, i + 1) =~= s@.subrange(
                        start as int,
                        i as int,
                    ).push(s@[i as int]));
                    assert(strings_view(out@).push(s@.subrange(start as int, i + 1)) =~= cur);
                }
            }
        }
        i = i + 1;
    }
    proof {
        assert(s@.take(n as int) =~= s@);
    }
    if in_word {
        let piece = s.substring_char(start, n).to_owned();
        let ghost out0 = out@;
        let ghost gpiece = piece;
        out.push(piece);
        proof {
            lemma_strings_view_push(out0, gpiece);
        }
    }
    out
}

/// The index of the first occurrence of `c` in `s`, if any.
pub open spec fn find_idx(s: Seq<char>, c: char) -> int
    decreases s.len(),
{
    if s.len() == 0 {
        -1
    } else if s[0] == c {
        0
    } else {
        let r = find_idx(s.drop_first(), c);
        if r == -1 {
            -1
        } else {
            r + 1
        }
    }
}

pub proof fn lemma_find_idx_at(s: Seq<char>, i: int)
    requires
        0 <= i < s.len(),
        forall|j: int| 0 <= j < i ==> s[j] != s[i],
    ensures
        find_idx(s, s[i]) == i,
    decreases i,
{
    if i > 0 {
        lemma_find_idx_at(s.drop_first(), i - 1);
    }
}

proof fn lemma_find_idx_none(s: Seq<char>, c: char)
    requires
        forall|j: int| 0 <= j < s.len() ==> s[j] != c,
    ensures
        find_idx(s, c) == -1,
    decreases s.len(),
{
    if s.len() > 0 {
        lemma_find_idx_none(s.drop_first(), c);
    }
}

/// The position of the first occurrence of `c`, if `s` holds it.
pub fn find_char(s: &str, c: char) -> (r: Option<usize>)
    ensures
        match r {
            Some(i) => i < s@.len() && find_idx(s@, c) == i as int,
            None => find_idx(s@, c) == -1,
        },
{
    let n = s.unicode_len();
    let mut i: usize = 0;
    while i < n
        invariant
            i <= n,
            n == s@.len(),
            forall|j: int| 0 <= j < i ==> s@[j] != c,
        decreases n - i,
    {
        if s.get_char(i) == c {
            proof {
                lemma_find_idx_at(s@, i as int);
            }
            return Some(i);
        }
        i = i + 1;
    }
    proof {
        lemma_find_idx_none(s@, c);
    }
    None
}

/// The index just after the last occurrence of `c`, or -1 if absent.
pub open spec fn rfind_idx(s: Seq<char>, c: char) -> int
    decreases s.len(),
{
    if s.len() == 0 {
        -1
    } else if s.last() == c {
        s.len() - 1
    } else {
        rfind_idx(s.drop_last(), c)
    }
}

/// The position of the last occurrence of `c`, if `s` holds it.
pub fn rfind_char(s: &str, c: char) -> (r: Option<usize>)
    ensures
        match r {
            Some(i) => i < s@.len() && rfind_idx(s@, c) == i as int,
            None => rfind_idx(s@, c) == -1,
        },
{
    let n = s.unicode_len();
    let mut i: usize = n;
    while i > 0
        invariant
            i <= n,
            n == s@.len(),
            forall|j: int| i <= j < n ==> s@[j] != c,
        decreases i,
    {
        i = i - 1;
        if s.get_char(i) == c {
            proof {
                lemma_rfind_idx_at(s@, i as int);
            }
            return Some(i);
        }
    }
    proof {
        lemma_rfind_idx_none(s@, c);
    }
    None
}

proof fn lemma_rfind_idx_at(s: Seq<char>, i: int)
    requires
        0 <= i < s.len(),
        forall|j: int| i < j < s.len() ==> s[j] != s[i],
    ensures
        rfind_idx(s, s[i]) == i,
    decreases s.len(),
{
    if i < s.len() - 1 {
        lemma_rfind_idx_at(s.drop_last(), i);
    }
}

proof fn lemma_rfind_idx_none(s: Seq<char>, c: char)
    requires
        forall|j: int| 0 <= j < s.len() ==> s[j] != c,
    ensures
        rfind_idx(s, c) == -1,
    decreases s.len(),
{
    if s.len() > 0 {
        lemma_rfind_idx_none(s.drop_last(), c);
    }
}

/// The characters from position `from` (inclusive) to `to` (exclusive), as
/// an owned string.
pub fn substring(s: &str, from: usize, to: usize) -> (r: String)
    requires
        from <= to <= s@.len(),
    ensures
        r@ == s@.subrange(from as int, to as int),
{
    s.substring_char(from, to).to_owned()
}


/// `s` without leading occurrences of `c`.
pub open spec fn trim_left_c(s: Seq<char>, c: char) -> Seq<char>
    decreases s.len(),
{
    if s.len() > 0 && s[0] == c {
        trim_left_c(s.drop_first(), c)
    } else {
        s
    }
}

/// `s` without trailing occurrences of `c`.
pub open spec fn trim_right_c(s: Seq<char>, c: char) -> Seq<char>
    decreases s.len(),
{
    if s.len() > 0 && s.last() == c {
        trim_right_c(s.drop_last(), c)
    } else {
        s
    }
}

/// `s` without leading and trailing occurrences of `c`.
pub open spec fn trimmed_c(s: Seq<char>, c: char) -> Seq<char> {
    trim_right_c(trim_left_c(s, c), c)
}

proof fn lemma_trim_left_c_skip(s: Seq<char>, c: char, i: int)
    requires
        0 <= i <= s.len(),
        forall|j: int| 0 <= j < i ==> s[j] == c,
        i < s.len() ==> s[i] != c,
    ensures
        trim_left_c(s, c) == s.skip(i),
    decreases i,
{
    if i == 0 {
        assert(s.skip(0) =~= s);
    } else {
        lemma_trim_left_c_skip(s.drop_first(), c, i - 1);
        assert(s.drop_first().skip(i - 1) =~= s.skip(i));
    }
}

proof fn lemma_trim_right_c_take(s: Seq<char>, c: char, i: int)
    requires
        0 <= i <= s.len(),
        forall|j: int| i <= j < s.len() ==> s[j] == c,
        i > 0 ==> s[i - 1] != c,
    ensures
        trim_right_c(s, c) == s.take(i),
    decreases s.len() - i,
{
    if i == s.len() {
        assert(s.take(i) =~= s);
    } else {
        lemma_trim_right_c_take(s.drop_last(), c, i);
        assert(s.drop_last().take(i) =~= s.take(i));
    }
}

/// The slice without leading and trailing occurrences of `c`.
pub fn trim_char(s: &str, c: char) -> (r: &str)
    ensures
        r@ == trimmed_c(s@, c),
{
    let n = s.unicode_len();
    let mut start: usize = 0;
    while start < n && s.get_char(start) == c
        invariant
            start <= n,
            n == s@.len(),
            forall|j: int| 0 <= j < start ==> s@[j] == c,
        decreases n - start,
    {
        start = start + 1;
    }
    proof {
        lemma_trim_left_c_skip(s@, c, start as int);
    }
    let mut end: usize = n;
    while end > start && s.get_char(end - 1) == c
        invariant
            start <= end <= n,
            n == s@.len(),
            forall|j: int| 0 <= j < start ==> s@[j] == c,
            start < n ==> s@[start as int] != c,
            forall|j: int| end <= j < n ==> s@[j] == c,
        decreases end,
    {
        end = end - 1;
    }
    let r = s.substring_char(start, end);
    proof {
        let t = s@.skip(start as int);
        assert forall|j: int| end - start <= j < t.len() implies t[j] == c by {
            assert(t[j] == s@[j + start]);
        }
        if end > start {
            assert(t[end - start - 1] == s@[end - 1]);
        }
        lemma_trim_right_c_take(t, c, end - start);
        assert(r@ =~= t.take(end - start));
    }
    r
}

/// The index of the first whitespace character of `s`, or -1.
pub open spec fn find_ws_idx(s: Seq<char>) -> int
    decreases s.len(),
{
    if s.len() == 0 {
        -1
    } else if is_ws_char(s[0]) {
        0
    } else {
        let r = find_ws_idx(s.drop_first());
        if r == -1 {
            -1
        } else {
            r + 1
        }
    }
}

proof fn lemma_find_ws_idx_at(s: Seq<char>, i: int)
    requires
        0 <= i < s.len(),
        is_ws_char(s[i]),
        forall|j: int| 0 <= j < i ==> !is_ws_char(s[j]),
    ensures
        find_ws_idx(s) == i,
    decreases i,
{
    if i > 0 {
        lemma_find_ws_idx_at(s.drop_first(), i - 1);
    }
}

proof fn lemma_find_ws_idx_none(s: Seq<char>)
    requires
        forall|j: int| 0 <= j < s.len() ==> !is_ws_char(s[j]),
    ensures
        find_ws_idx(s) == -1,
    decreases s.len(),
{
    if s.len() > 0 {
        lemma_find_ws_idx_none(s.drop_first());
    }
}

/// The position of the first whitespace character, if there is one.
pub fn find_ws(s: &str) -> (r: Option<usize>)
    ensures
        match r {
            Some(i) => i < s@.len() && find_ws_idx(s@) == i as int,
            None => find_ws_idx(s@) == -1,
        },
{
    let n = s.unicode_len();
    let mut i: usize = 0;
    while i < n
        invariant
            i <= n,
            n == s@.len(),
            forall|j: int| 0 <= j < i ==> !is_ws_char(s@[j]),
        decreases n - i,
    {
        if is_ws(s.get_char(i)) {
            proof {
                lemma_find_ws_idx_at(s@, i as int);
            }
            return Some(i);
        }
        i = i + 1;
    }
    proof {
        lemma_find_ws_idx_none(s@);
    }
    None
}

/// Every whitespace-separated word is non-empty.
pub proof fn lemma_split_ws_nonempty(s: Seq<char>)
    ensures
        forall|p: int| 0 <= p < split_ws_spec(s).len() ==> (#[trigger] split_ws_spec(s)[p]).len() > 0,
    decreases s.len(),
{
    if s.len() > 0 {
        lemma_split_ws_nonempty(s.drop_last());
        let k = split_ws_spec(s);
        let kt = split_ws_spec(s.drop_last());
        assert forall|p: int| 0 <= p < k.len() implies (#[trigger] k[p]).len() > 0 by {
            if !is_ws_char(s.last()) {
                if s.len() >= 2 && !is_ws_char(s[s.len() - 2]) {
                    lemma_split_ws_open(s.drop_last());
                    if p < kt.len() - 1 {
                        assert(k[p] == kt[p]);
                    } else {
                        assert(k[p] == kt[kt.len() - 1].push(s.last()));
                    }
                } else {
                    if p < kt.len() {
                        assert(k[p] == kt[p]);
                    } else {
                        assert(k[p] == seq![s.last()]);
                    }
                }
            } else {
                assert(k[p] == kt[p]);
            }
        }
    }
}

} // verus!
