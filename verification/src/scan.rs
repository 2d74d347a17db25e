//! The character-level scanner for the configuration grammar: whitespace,
//! identifiers, key paths, bare words, and quoted strings (plain `"..."` and
//! the escaped-delimiter form `!delim"..."delim!`).

use vstd::prelude::*;

use crate::text::chars_of;

verus! {

// ---------------------------------------------------------------------------
// Character classes
// ---------------------------------------------------------------------------
pub open spec fn is_ws_char(c: char) -> bool {
    c == ' ' || c == '\t' || c == '\r' || c == '\n'
}

/// Whitespace that does not end a line-bound construct.
pub open spec fn is_inline_ws_char(c: char) -> bool {
    c == ' ' || c == '\t'
}

pub open spec fn is_ident_start_char(c: char) -> bool {
    ('a' <= c && c <= 'z') || ('A' <= c && c <= 'Z') || c == '_'
}

pub open spec fn is_ident_char(c: char) -> bool {
    is_ident_start_char(c) || ('0' <= c && c <= '9')
}

/// Characters that may stand in a key path (anything printable that does not
/// collide with the entry syntax).
pub open spec fn is_key_char(c: char) -> bool {
    !is_ws_char(c) && c != ':' && c != '{' && c != '}' && c != '"' && c != '!'
}

/// Characters of a bare word in a shell definition (program names, flags,
/// paths).
pub open spec fn is_word_char(c: char) -> bool {
    !is_ws_char(c) && c != '"' && c != '{' && c != '}' && c != '!'
}

pub fn ws_char(c: char) -> (b: bool)
    ensures
        b == is_ws_char(c),
{
    c == ' ' || c == '\t' || c == '\r' || c == '\n'
}

pub fn inline_ws_char(c: char) -> (b: bool)
    ensures
        b == is_inline_ws_char(c),
{
    c == ' ' || c == '\t'
}

pub fn ident_start_char(c: char) -> (b: bool)
    ensures
        b == is_ident_start_char(c),
{
    ('a' <= c && c <= 'z') || ('A' <= c && c <= 'Z') || c == '_'
}

pub fn ident_char(c: char) -> (b: bool)
    ensures
        b == is_ident_char(c),
{
    ident_start_char(c) || ('0' <= c && c <= '9')
}

pub fn key_char(c: char) -> (b: bool)
    ensures
        b == is_key_char(c),
{
    !ws_char(c) && c != ':' && c != '{' && c != '}' && c != '"' && c != '!'
}

pub fn word_char(c: char) -> (b: bool)
    ensures
        b == is_word_char(c),
{
    !ws_char(c) && c != '"' && c != '{' && c != '}' && c != '!'
}

// ---------------------------------------------------------------------------
// Whitespace and token scans
// ---------------------------------------------------------------------------
/// The first position at or after `i` whose character is not whitespace.
pub open spec fn spec_skip_ws(s: Seq<char>, i: int) -> int
    decreases s.len() - i,
    when 0 <= i <= s.len()
{
    if i == s.len() || !is_ws_char(s[i]) {
        i
    } else {
        spec_skip_ws(s, i + 1)
    }
}

proof fn lemma_skip_ws_at(s: Seq<char>, from: int, i: int)
    requires
        0 <= from <= i <= s.len(),
        forall|j: int| from <= j < i ==> is_ws_char(s[j]),
        i == s.len() || !is_ws_char(s[i]),
    ensures
        spec_skip_ws(s, from) == i,
    decreases i - from,
{
    if from < i {
        lemma_skip_ws_at(s, from + 1, i);
    }
}

/// The first position at or after `i` whose character is neither a space nor
/// a tab.
pub open spec fn spec_skip_inline_ws(s: Seq<char>, i: int) -> int
    decreases s.len() - i,
    when 0 <= i <= s.len()
{
    if i == s.len() || !is_inline_ws_char(s[i]) {
        i
    } else {
        spec_skip_inline_ws(s, i + 1)
    }
}

proof fn lemma_skip_inline_ws_at(s: Seq<char>, from: int, i: int)
    requires
        0 <= from <= i <= s.len(),
        forall|j: int| from <= j < i ==> is_inline_ws_char(s[j]),
        i == s.len() || !is_inline_ws_char(s[i]),
    ensures
        spec_skip_inline_ws(s, from) == i,
    decreases i - from,
{
    if from < i {
        lemma_skip_inline_ws_at(s, from + 1, i);
    }
}

/// The identifier starting at `p` (maximal munch): its end, or `None` when
/// no identifier starts there.
pub open spec fn spec_scan_ident(s: Seq<char>, p: int) -> Option<int> {
    if 0 <= p < s.len() && is_ident_start_char(s[p]) {
        Option::Some(spec_ident_end(s, p + 1))
    } else {
        Option::None
    }
}

/// The position of the first non-whitespace character at or after `pos`.
pub fn skip_ws(src: &Vec<char>, pos: usize) -> (r: usize)
    requires
        pos <= src@.len(),
    ensures
        pos <= r <= src@.len(),
        forall|i: int| pos <= i < r ==> is_ws_char(src@[i]),
        r < src@.len() ==> !is_ws_char(src@[r as int]),
        r == spec_skip_ws(src@, pos as int),
{
    let mut i: usize = pos;
    while i < src.len() && ws_char(src[i])
        invariant
            pos <= i <= src@.len(),
            forall|j: int| pos <= j < i ==> is_ws_char(src@[j]),
        decreases src@.len() - i,
    {
        i = i + 1;
    }
    proof {
        lemma_skip_ws_at(src@, pos as int, i as int);
    }
    i
}

/// The position of the first character at or after `pos` that is neither a
/// space nor a tab.
pub fn skip_inline_ws(src: &Vec<char>, pos: usize) -> (r: usize)
    requires
        pos <= src@.len(),
    ensures
        pos <= r <= src@.len(),
        forall|i: int| pos <= i < r ==> is_inline_ws_char(src@[i]),
        r < src@.len() ==> !is_inline_ws_char(src@[r as int]),
        r == spec_skip_inline_ws(src@, pos as int),
{
    let mut i: usize = pos;
    while i < src.len() && inline_ws_char(src[i])
        invariant
            pos <= i <= src@.len(),
            forall|j: int| pos <= j < i ==> is_inline_ws_char(src@[j]),
        decreases src@.len() - i,
    {
        i = i + 1;
    }
    proof {
        lemma_skip_inline_ws_at(src@, pos as int, i as int);
    }
    i
}

/// The end of the identifier starting at `pos` (maximal munch), or `None`
/// when no identifier starts there.
pub fn scan_ident(src: &Vec<char>, pos: usize) -> (r: Option<usize>)
    requires
        pos <= src@.len(),
    ensures
        match r {
            Option::Some(end) => pos < end <= src@.len() && (forall|i: int|
                pos <= i < end ==> is_ident_char(src@[i])) && is_ident_start_char(src@[pos as int])
                && (end < src@.len() ==> !is_ident_char(src@[end as int])) && spec_scan_ident(
                src@,
                pos as int,
            ) == Option::Some(end as int),
            Option::None => (pos == src@.len() || !is_ident_start_char(src@[pos as int]))
                && spec_scan_ident(src@, pos as int) is None,
        },
{
    if pos == src.len() || !ident_start_char(src[pos]) {
        return None;
    }
    let mut i: usize = pos + 1;
    while i < src.len() && ident_char(src[i])
        invariant
            pos < i <= src@.len(),
            forall|j: int| pos <= j < i ==> is_ident_char(src@[j]),
        decreases src@.len() - i,
    {
        i = i + 1;
    }
    proof {
        lemma_ident_end_at(src@, (pos + 1) as int, i as int);
    }
    Some(i)
}

/// The end of the maximal run of key-path characters from `i`.
pub open spec fn spec_key_end(s: Seq<char>, i: int) -> int
    decreases s.len() - i,
    when 0 <= i <= s.len()
{
    if i == s.len() || !is_key_char(s[i]) {
        i
    } else {
        spec_key_end(s, i + 1)
    }
}

proof fn lemma_key_end_at(s: Seq<char>, from: int, i: int)
    requires
        0 <= from <= i <= s.len(),
        forall|j: int| from <= j < i ==> is_key_char(s[j]),
        i == s.len() || !is_key_char(s[i]),
    ensures
        spec_key_end(s, from) == i,
    decreases i - from,
{
    if from < i {
        lemma_key_end_at(s, from + 1, i);
    }
}

/// The maximal key-path run stays within the text.
pub proof fn lemma_key_end_range(s: Seq<char>, i: int)
    requires
        0 <= i <= s.len(),
    ensures
        i <= spec_key_end(s, i) <= s.len(),
    decreases s.len() - i,
{
    if i < s.len() && is_key_char(s[i]) {
        lemma_key_end_range(s, i + 1);
    }
}

/// The key path starting at `p` (maximal munch): its end, or `None` when no
/// key-path character stands there.
pub open spec fn spec_scan_keys(s: Seq<char>, p: int) -> Option<int> {
    if 0 <= p < s.len() && is_key_char(s[p]) {
        Option::Some(spec_key_end(s, p + 1))
    } else {
        Option::None
    }
}

/// The end of the key path starting at `pos` (maximal munch), or `None` when
/// no key-path character stands there.
pub fn scan_keys(src: &Vec<char>, pos: usize) -> (r: Option<usize>)
    requires
        pos <= src@.len(),
    ensures
        match r {
            Option::Some(end) => pos < end <= src@.len() && (forall|i: int|
                pos <= i < end ==> is_key_char(src@[i])) && (end < src@.len()
                ==> !is_key_char(src@[end as int])) && spec_scan_keys(src@, pos as int)
                == Option::Some(end as int),
            Option::None => (pos == src@.len() || !is_key_char(src@[pos as int]))
                && spec_scan_keys(src@, pos as int) is None,
        },
{
    if pos == src.len() || !key_char(src[pos]) {
        return None;
    }
    let mut i: usize = pos + 1;
    while i < src.len() && key_char(src[i])
        invariant
            pos < i <= src@.len(),
            forall|j: int| pos <= j < i ==> is_key_char(src@[j]),
        decreases src@.len() - i,
    {
        i = i + 1;
    }
    proof {
        lemma_key_end_at(src@, (pos + 1) as int, i as int);
    }
    Some(i)
}

/// The end of the maximal run of word characters from `i`.
pub open spec fn spec_word_end(s: Seq<char>, i: int) -> int
    decreases s.len() - i,
    when 0 <= i <= s.len()
{
    if i == s.len() || !is_word_char(s[i]) {
        i
    } else {
        spec_word_end(s, i + 1)
    }
}

proof fn lemma_word_end_at(s: Seq<char>, from: int, i: int)
    requires
        0 <= from <= i <= s.len(),
        forall|j: int| from <= j < i ==> is_word_char(s[j]),
        i == s.len() || !is_word_char(s[i]),
    ensures
        spec_word_end(s, from) == i,
    decreases i - from,
{
    if from < i {
        lemma_word_end_at(s, from + 1, i);
    }
}

/// The maximal word run stays within the text.
pub proof fn lemma_word_end_range(s: Seq<char>, i: int)
    requires
        0 <= i <= s.len(),
    ensures
        i <= spec_word_end(s, i) <= s.len(),
    decreases s.len() - i,
{
    if i < s.len() && is_word_char(s[i]) {
        lemma_word_end_range(s, i + 1);
    }
}

/// The maximal identifier run stays within the text.
pub proof fn lemma_ident_end_range(s: Seq<char>, i: int)
    requires
        0 <= i <= s.len(),
    ensures
        i <= spec_ident_end(s, i) <= s.len(),
    decreases s.len() - i,
{
    if i < s.len() && is_ident_char(s[i]) {
        lemma_ident_end_range(s, i + 1);
    }
}

/// The skipped whitespace stays within the text.
pub proof fn lemma_skip_ws_range(s: Seq<char>, i: int)
    requires
        0 <= i <= s.len(),
    ensures
        i <= spec_skip_ws(s, i) <= s.len(),
    decreases s.len() - i,
{
    if i < s.len() && is_ws_char(s[i]) {
        lemma_skip_ws_range(s, i + 1);
    }
}

/// The skipped inline whitespace stays within the text.
pub proof fn lemma_skip_inline_ws_range(s: Seq<char>, i: int)
    requires
        0 <= i <= s.len(),
    ensures
        i <= spec_skip_inline_ws(s, i) <= s.len(),
    decreases s.len() - i,
{
    if i < s.len() && is_inline_ws_char(s[i]) {
        lemma_skip_inline_ws_range(s, i + 1);
    }
}

/// The end of the bare word starting at `pos` (maximal munch), or `None`
/// when no word character stands there.
pub fn scan_word(src: &Vec<char>, pos: usize) -> (r: Option<usize>)
    requires
        pos <= src@.len(),
    ensures
        match r {
            Option::Some(end) => pos < end <= src@.len() && (forall|i: int|
                pos <= i < end ==> is_word_char(src@[i])) && (end < src@.len()
                ==> !is_word_char(src@[end as int])) && end == spec_word_end(src@, pos as int),
            Option::None => pos == src@.len() || !is_word_char(src@[pos as int]),
        },
{
    if pos == src.len() || !word_char(src[pos]) {
        return None;
    }
    let mut i: usize = pos + 1;
    while i < src.len() && word_char(src[i])
        invariant
            pos < i <= src@.len(),
            forall|j: int| pos <= j < i ==> is_word_char(src@[j]),
        decreases src@.len() - i,
    {
        i = i + 1;
    }
    proof {
        lemma_word_end_at(src@, pos as int, i as int);
    }
    Some(i)
}

/// Whether the characters `src[a..b]` spell exactly `lit`.
pub fn range_equals_str(src: &Vec<char>, a: usize, b: usize, lit: &str) -> (r: bool)
    requires
        a <= b <= src@.len(),
    ensures
        r <==> src@.subrange(a as int, b as int) == lit@,
{
    let l = chars_of(lit);
    if b - a != l.len() {
        proof {
            assert(src@.subrange(a as int, b as int).len() == b - a);
        }
        return false;
    }
    let mut i: usize = 0;
    while i < l.len()
        invariant
            i <= l@.len(),
            a + l@.len() == b <= src@.len(),
            l@ == lit@,
            forall|j: int| 0 <= j < i ==> src@[a + j] == l@[j],
        decreases l@.len() - i,
    {
        if src[a + i] != l[i] {
            proof {
                assert(src@.subrange(a as int, b as int)[i as int] != lit@[i as int]);
            }
            return false;
        }
        i = i + 1;
    }
    proof {
        assert(src@.subrange(a as int, b as int) =~= lit@);
    }
    true
}

/// The characters `src[a..b]`, as a fresh vector.
pub fn copy_range(src: &Vec<char>, a: usize, b: usize) -> (r: Vec<char>)
    requires
        a <= b <= src@.len(),
    ensures
        r@ == src@.subrange(a as int, b as int),
{
    let mut r: Vec<char> = Vec::new();
    let mut i: usize = a;
    while i < b
        invariant
            a <= i <= b <= src@.len(),
            r@ == src@.subrange(a as int, i as int),
        decreases b - i,
    {
        r.push(src[i]);
        proof {
            assert(src@.subrange(a as int, (i + 1) as int) =~= src@.subrange(
                a as int,
                i as int,
            ).push(src@[i as int]));
        }
        i = i + 1;
    }
    r
}

// ---------------------------------------------------------------------------
// String literals
// ---------------------------------------------------------------------------
/// The least index at or after `from` holding the character `c`.
pub open spec fn spec_find_char(s: Seq<char>, from: int, c: char) -> Option<int>
    decreases s.len() - from,
    when 0 <= from <= s.len()
{
    if from == s.len() {
        Option::None
    } else if s[from] == c {
        Option::Some(from)
    } else {
        spec_find_char(s, from + 1, c)
    }
}

/// The scan for a character lands exactly on the first occurrence.
pub proof fn lemma_find_char_at(s: Seq<char>, from: int, c: char, i: int)
    requires
        0 <= from <= i <= s.len(),
        forall|j: int| from <= j < i ==> s[j] != c,
        i == s.len() || s[i] == c,
    ensures
        if i == s.len() {
            spec_find_char(s, from, c) is None
        } else {
            spec_find_char(s, from, c) == Option::Some(i)
        },
    decreases i - from,
{
    if from < i {
        lemma_find_char_at(s, from + 1, c, i);
    }
}

/// Where the scan for a character can land: within range, on the character,
/// with none of it earlier.
pub proof fn lemma_find_char_range(s: Seq<char>, from: int, c: char)
    requires
        0 <= from <= s.len(),
    ensures
        spec_find_char(s, from, c) matches Option::Some(i) ==> from <= i < s.len() && s[i] == c
            && (forall|j: int| from <= j < i ==> s[j] != c),
        spec_find_char(s, from, c) is None ==> forall|j: int| from <= j < s.len() ==> s[j] != c,
    decreases s.len() - from,
{
    if from < s.len() && s[from] != c {
        lemma_find_char_range(s, from + 1, c);
    }
}

/// The least index at or after `from` holding `c`.
pub fn find_char(src: &Vec<char>, from: usize, c: char) -> (r: Option<usize>)
    requires
        from <= src@.len(),
    ensures
        match r {
            Option::Some(i) => from <= i < src@.len() && spec_find_char(src@, from as int, c)
                == Option::Some(i as int),
            Option::None => spec_find_char(src@, from as int, c) is None,
        },
{
    let mut i: usize = from;
    while i < src.len()
        invariant
            from <= i <= src@.len(),
            forall|j: int| from <= j < i ==> src@[j] != c,
        decreases src@.len() - i,
    {
        if src[i] == c {
            proof {
                lemma_find_char_at(src@, from as int, c, i as int);
            }
            return Some(i);
        }
        i = i + 1;
    }
    proof {
        lemma_find_char_at(src@, from as int, c, src@.len() as int);
    }
    None
}

/// The pattern `pat` stands in `s` at position `i`.
pub open spec fn matches_at(s: Seq<char>, i: int, pat: Seq<char>) -> bool {
    0 <= i && i + pat.len() <= s.len() && s.subrange(i, i + pat.len()) == pat
}

/// The least index at or after `from` where `pat` stands.
pub open spec fn spec_find_pat(s: Seq<char>, from: int, pat: Seq<char>) -> Option<int>
    decreases s.len() - from,
    when 0 <= from <= s.len()
{
    if from + pat.len() > s.len() {
        Option::None
    } else if matches_at(s, from, pat) {
        Option::Some(from)
    } else {
        proof {
            if pat.len() == 0 {
                assert(s.subrange(from, from) =~= pat);
            }
        }
        spec_find_pat(s, from + 1, pat)
    }
}

proof fn lemma_find_pat_at(s: Seq<char>, from: int, pat: Seq<char>, i: int)
    requires
        0 <= from <= i <= s.len(),
        forall|j: int| from <= j < i ==> !matches_at(s, j, pat),
        i + pat.len() > s.len() || matches_at(s, i, pat),
    ensures
        if i + pat.len() > s.len() {
            spec_find_pat(s, from, pat) is None
        } else {
            spec_find_pat(s, from, pat) == Option::Some(i)
        },
    decreases i - from,
{
    if from < i {
        if from + pat.len() > s.len() {
            assert(i + pat.len() > s.len());
        } else {
            lemma_find_pat_at(s, from + 1, pat, i);
        }
    }
}

/// Whether `pat` stands in `src` at position `i`.
fn pat_matches_at(src: &Vec<char>, i: usize, pat: &Vec<char>) -> (r: bool)
    requires
        i + pat@.len() <= src@.len(),
    ensures
        r == matches_at(src@, i as int, pat@),
{
    let n = src.len();
    let mut j: usize = 0;
    while j < pat.len()
        invariant
            j <= pat@.len(),
            n == src@.len(),
            i + pat@.len() <= n,
            forall|l: int| 0 <= l < j ==> src@[i + l] == pat@[l],
        decreases pat@.len() - j,
    {
        if src[i + j] != pat[j] {
            proof {
                assert(src@.subrange(i as int, i + pat@.len())[j as int] != pat@[j as int]);
            }
            return false;
        }
        j = j + 1;
    }
    proof {
        assert(src@.subrange(i as int, i + pat@.len()) =~= pat@);
    }
    true
}

/// The least index at or after `from` where `pat` stands.
pub fn find_pat(src: &Vec<char>, from: usize, pat: &Vec<char>) -> (r: Option<usize>)
    requires
        from <= src@.len(),
    ensures
        match r {
            Option::Some(i) => from <= i && i + pat@.len() <= src@.len() && spec_find_pat(
                src@,
                from as int,
                pat@,
            ) == Option::Some(i as int),
            Option::None => spec_find_pat(src@, from as int, pat@) is None,
        },
{
    let n = src.len();
    let m = pat.len();
    if m == 0 {
        proof {
            assert(matches_at(src@, from as int, pat@)) by {
                assert(src@.subrange(from as int, from as int) =~= pat@);
            }
            lemma_find_pat_at(src@, from as int, pat@, from as int);
        }
        return Some(from);
    }
    if m > n || from > n - m {
        return None;
    }
    let mut i: usize = from;
    while i <= n - m
        invariant
            from <= i <= n - m + 1,
            1 <= m <= n,
            n == src@.len(),
            m == pat@.len(),
            forall|j: int| from <= j < i ==> !matches_at(src@, j, pat@),
        decreases n - i,
    {
        if pat_matches_at(src, i, pat) {
            proof {
                lemma_find_pat_at(src@, from as int, pat@, i as int);
            }
            return Some(i);
        }
        i = i + 1;
    }
    proof {
        lemma_find_pat_at(src@, from as int, pat@, i as int);
    }
    None
}

/// A scanned string literal: its content and the position after its closing
/// delimiter.
pub open spec fn spec_scan_string(s: Seq<char>, pos: int) -> Option<(Seq<char>, int)>
    decreases 0int,
    when 0 <= pos <= s.len()
{
    if pos < s.len() && s[pos] == '"' {
        match spec_find_char(s, pos + 1, '"') {
            Option::None => Option::None,
            Option::Some(e) => Option::Some((s.subrange(pos + 1, e), e + 1)),
        }
    } else if pos < s.len() && s[pos] == '!' {
        let d_end = spec_ident_end(s, pos + 1);
        if d_end < s.len() && s[d_end] == '"' {
            let term = seq!['"'] + s.subrange(pos + 1, d_end) + seq!['!'];
            match spec_find_pat(s, d_end + 1, term) {
                Option::None => Option::None,
                Option::Some(e) => Option::Some(
                    (s.subrange(d_end + 1, e), e + term.len()),
                ),
            }
        } else {
            Option::None
        }
    } else {
        Option::None
    }
}

/// The end of the maximal run of identifier characters from `i`.
pub open spec fn spec_ident_end(s: Seq<char>, i: int) -> int
    decreases s.len() - i,
    when 0 <= i <= s.len()
{
    if i == s.len() || !is_ident_char(s[i]) {
        i
    } else {
        spec_ident_end(s, i + 1)
    }
}

proof fn lemma_ident_end_at(s: Seq<char>, from: int, i: int)
    requires
        0 <= from <= i <= s.len(),
        forall|j: int| from <= j < i ==> is_ident_char(s[j]),
        i == s.len() || !is_ident_char(s[i]),
    ensures
        spec_ident_end(s, from) == i,
    decreases i - from,
{
    if from < i {
        lemma_ident_end_at(s, from + 1, i);
    }
}

/// The end of the maximal run of identifier characters from `pos`.
pub fn ident_end(src: &Vec<char>, pos: usize) -> (r: usize)
    requires
        pos <= src@.len(),
    ensures
        r == spec_ident_end(src@, pos as int),
        pos <= r <= src@.len(),
{
    let mut i: usize = pos;
    while i < src.len() && ident_char(src[i])
        invariant
            pos <= i <= src@.len(),
            forall|j: int| pos <= j < i ==> is_ident_char(src@[j]),
        decreases src@.len() - i,
    {
        i = i + 1;
    }
    proof {
        lemma_ident_end_at(src@, pos as int, i as int);
    }
    i
}

/// Where the scan for a pattern can land.
pub proof fn lemma_find_pat_range(s: Seq<char>, from: int, pat: Seq<char>)
    requires
        0 <= from <= s.len(),
    ensures
        spec_find_pat(s, from, pat) matches Option::Some(i) ==> from <= i && i + pat.len()
            <= s.len() && matches_at(s, i, pat),
    decreases s.len() - from,
{
    if from + pat.len() <= s.len() && !matches_at(s, from, pat) {
        if pat.len() == 0 {
            assert(s.subrange(from, from) =~= pat);
        } else {
            lemma_find_pat_range(s, from + 1, pat);
        }
    }
}

/// A scanned string literal ends strictly after it begins and within the
/// text.
pub proof fn lemma_scan_string_advances(s: Seq<char>, pos: int)
    requires
        0 <= pos <= s.len(),
    ensures
        spec_scan_string(s, pos) matches Option::Some(v) ==> pos < v.1 <= s.len(),
{
    if pos < s.len() && s[pos] == '"' {
        lemma_find_char_range(s, pos + 1, '"');
    } else if pos < s.len() && s[pos] == '!' {
        lemma_ident_end_range(s, pos + 1);
        let d_end = spec_ident_end(s, pos + 1);
        if d_end < s.len() && s[d_end] == '"' {
            let term = seq!['"'] + s.subrange(pos + 1, d_end) + seq!['!'];
            lemma_find_pat_range(s, d_end + 1, term);
        }
    }
}

/// Scans the string literal starting at `pos`: either `"content"` (the
/// content may not hold a quote), or the escaped-delimiter form
/// `!delim"content"delim!`, whose content ends at the first occurrence of
/// `"delim!`. Returns the content and the position after the literal.
pub fn scan_string(src: &Vec<char>, pos: usize) -> (r: Option<(Vec<char>, usize)>)
    requires
        pos <= src@.len(),
    ensures
        match r {
            Option::Some((content, end)) => spec_scan_string(src@, pos as int) == Option::Some(
                (content@, end as int),
            ) && pos < end <= src@.len(),
            Option::None => spec_scan_string(src@, pos as int) is None,
        },
{
    if pos < src.len() && src[pos] == '"' {
        match find_char(src, pos + 1, '"') {
            None => None,
            Some(e) => {
                let mut content: Vec<char> = Vec::new();
                let mut i: usize = pos + 1;
                while i < e
                    invariant
                        pos + 1 <= i <= e < src@.len(),
                        content@ == src@.subrange(pos + 1, i as int),
                    decreases e - i,
                {
                    content.push(src[i]);
                    proof {
                        assert(src@.subrange(pos + 1, (i + 1) as int) =~= src@.subrange(
                            pos + 1,
                            i as int,
                        ).push(src@[i as int]));
                    }
                    i = i + 1;
                }
                Some((content, e + 1))
            },
        }
    } else if pos < src.len() && src[pos] == '!' {
        let d_end = ident_end(src, pos + 1);
        if d_end < src.len() && src[d_end] == '"' {
            let mut term: Vec<char> = Vec::new();
            term.push('"');
            let mut i: usize = pos + 1;
            while i < d_end
                invariant
                    pos + 1 <= i <= d_end <= src@.len(),
                    term@ == seq!['"'] + src@.subrange(pos + 1, i as int),
                decreases d_end - i,
            {
                term.push(src[i]);
                proof {
                    assert(seq!['"'] + src@.subrange(pos + 1, (i + 1) as int) =~= (seq!['"']
                        + src@.subrange(pos + 1, i as int)).push(src@[i as int]));
                }
                i = i + 1;
            }
            term.push('!');
            proof {
                assert(term@ =~= seq!['"'] + src@.subrange(pos + 1, d_end as int) + seq!['!']);
            }
            match find_pat(src, d_end + 1, &term) {
                None => None,
                Some(e) => {
                    let mut content: Vec<char> = Vec::new();
                    let mut i: usize = d_end + 1;
                    while i < e
                        invariant
                            d_end + 1 <= i <= e <= src@.len(),
                            content@ == src@.subrange(d_end + 1, i as int),
                        decreases e - i,
                    {
                        content.push(src[i]);
                        proof {
                            assert(src@.subrange(d_end + 1, (i + 1) as int) =~= src@.subrange(
                                d_end + 1,
                                i as int,
                            ).push(src@[i as int]));
                        }
                        i = i + 1;
                    }
                    Some((content, e + term.len()))
                },
            }
        } else {
            None
        }
    } else {
        None
    }
}

} // verus!
