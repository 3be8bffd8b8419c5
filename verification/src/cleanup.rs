//! Clean-up of decoded transcript text: word normalisation for overlap
//! comparison, filler and repetition hallucination filters, and folding of
//! stuttered repeats.

use vstd::prelude::*;
use crate::text::{
    char_is_whitespace, chars_eq, chars_of, first_not_from, is_white, join_with_spaces, join_words,
    last_not_before, lemma_trim_end_take, lemma_trim_start_skip, slice_chars, split_words,
    string_of, trim_by, trim_chars, trim_ws, views, words,
};

verus! {

/// Punctuation that normalisation strips from word edges and that the
/// repetition filter ignores.
pub open spec fn spec_is_noise_punct(c: char) -> bool {
    c == ',' || c == '.' || c == '，' || c == '。' || c == '、' || c == '!' || c == '?' || c == '！'
        || c == '？' || c == '…' || c == ':' || c == ';' || c == '"' || c == '\'' || c == '('
        || c == ')' || c == '[' || c == ']' || c == '{' || c == '}' || c == '<' || c == '>'
        || c == '·' || c == '-' || c == '_' || c == '~'
}

/// ASCII upper-case letters mapped to lower case; every other character kept.
pub open spec fn ascii_lower(c: char) -> char {
    if 'A' <= c && c <= 'Z' {
        ((c as u8) + 32) as u8 as char
    } else {
        c
    }
}

/// The characters of `s`, ASCII letters lowered.
pub open spec fn ascii_lowercase(s: Seq<char>) -> Seq<char> {
    s.map_values(|c: char| ascii_lower(c))
}

/// A word reduced for comparison: noise punctuation trimmed from both ends,
/// then whitespace trimmed, then ASCII letters lowered.
pub open spec fn spec_word_norm(w: Seq<char>) -> Seq<char> {
    ascii_lowercase(trim_ws(trim_by(w, |c: char| spec_is_noise_punct(c))))
}

/// Whether `ch` is noise punctuation.
pub fn is_noise_punct(ch: char) -> (r: bool)
    ensures
        r == spec_is_noise_punct(ch),
{
    ch == ',' || ch == '.' || ch == '，' || ch == '。' || ch == '、' || ch == '!' || ch == '?'
        || ch == '！' || ch == '？' || ch == '…' || ch == ':' || ch == ';' || ch == '"' || ch
        == '\'' || ch == '(' || ch == ')' || ch == '[' || ch == ']' || ch == '{' || ch == '}' || ch
        == '<' || ch == '>' || ch == '·' || ch == '-' || ch == '_' || ch == '~'
}

/// The ASCII lower-case form of `c`.
pub fn ascii_lower_char(c: char) -> (r: char)
    ensures
        r == ascii_lower(c),
{
    if 'A' <= c && c <= 'Z' {
        ((c as u8) + 32) as char
    } else {
        c
    }
}

/// `v` with ASCII letters lowered.
pub fn ascii_lowercase_chars(v: &Vec<char>) -> (out: Vec<char>)
    ensures
        out@ == ascii_lowercase(v@),
{
    let mut out: Vec<char> = Vec::new();
    let mut i: usize = 0;
    while i < v.len()
        invariant
            i <= v.len(),
            out@ == ascii_lowercase(v@.take(i as int)),
        decreases v.len() - i,
    {
        out.push(ascii_lower_char(v[i]));
        assert(ascii_lowercase(v@.take(i + 1)) =~= ascii_lowercase(v@.take(i as int)).push(
            ascii_lower(v@[i as int]),
        ));
        i += 1;
    }
    assert(v@.take(v.len() as int) =~= v@);
    out
}

/// `v` without leading and trailing noise punctuation.
fn trim_noise_chars(v: &Vec<char>) -> (out: Vec<char>)
    ensures
        out@ == trim_by(v@, |c: char| spec_is_noise_punct(c)),
{
    let ghost p = |c: char| spec_is_noise_punct(c);
    let mut lo: usize = 0;
    while lo < v.len() && is_noise_punct(v[lo])
        invariant
            lo <= v.len(),
            p == (|c: char| spec_is_noise_punct(c)),
            first_not_from(v@, 0, p) == first_not_from(v@, lo as int, p),
        decreases v.len() - lo,
    {
        assert(p(v@[lo as int]));
        lo += 1;
    }
    proof {
        lemma_trim_start_skip(v@, 0, p);
        assert(v@.skip(0) =~= v@);
    }
    let rest = slice_chars(v, lo, v.len());
    assert(rest@ =~= v@.skip(lo as int));
    let mut hi: usize = rest.len();
    while hi > 0 && is_noise_punct(rest[hi - 1])
        invariant
            hi <= rest.len(),
            p == (|c: char| spec_is_noise_punct(c)),
            last_not_before(rest@, rest.len() as int, p) == last_not_before(rest@, hi as int, p),
        decreases hi,
    {
        assert(p(rest@[hi - 1]));
        hi -= 1;
    }
    proof {
        lemma_trim_end_take(rest@, rest.len() as int, p);
        assert(rest@.take(rest.len() as int) =~= rest@);
    }
    let out = slice_chars(&rest, 0, hi);
    assert(out@ =~= rest@.take(hi as int));
    out
}

/// The comparison form of a word given as characters.
pub fn norm_word_chars(w: &Vec<char>) -> (out: Vec<char>)
    ensures
        out@ == spec_word_norm(w@),
{
    let a = trim_noise_chars(w);
    let b = trim_chars(&a);
    ascii_lowercase_chars(&b)
}

/// The comparison form of `word`: edge punctuation and whitespace trimmed,
/// ASCII letters lowered.
pub fn normalize_word_for_overlap(word: &str) -> (r: String)
    ensures
        r@ == spec_word_norm(word@),
{
    string_of(&norm_word_chars(&chars_of(word)))
}


/// The non-empty comparison forms of the words `ws`, in order.
pub open spec fn nonempty_norms(ws: Seq<Seq<char>>) -> Seq<Seq<char>>
    decreases ws.len(),
{
    if ws.len() == 0 {
        seq![]
    } else if spec_word_norm(ws.last()).len() == 0 {
        nonempty_norms(ws.drop_last())
    } else {
        nonempty_norms(ws.drop_last()).push(spec_word_norm(ws.last()))
    }
}

/// The comparison forms of the whitespace-separated words of `text`,
/// empty ones dropped.
pub open spec fn spec_normalized_words(text: Seq<char>) -> Seq<Seq<char>> {
    nonempty_norms(words(text))
}

/// Short fillers that alone make up no real utterance.
pub open spec fn spec_is_filler(w: Seq<char>) -> bool {
    w == seq!['아'] || w == seq!['어'] || w == seq!['음'] || w == seq!['으'] || w == seq!['흠']
        || w == seq!['a', 'h'] || w == seq!['u', 'h'] || w == seq!['u', 'm'] || w == seq![
        'h',
        'm',
        'm',
    ]
}

/// The comparison forms of the words of `v`, empty ones dropped.
pub fn normalized_word_chars(v: &Vec<char>) -> (out: Vec<Vec<char>>)
    ensures
        views(out@) == spec_normalized_words(v@),
{
    let ws = split_words(v);
    let mut out: Vec<Vec<char>> = Vec::new();
    let mut i: usize = 0;
    while i < ws.len()
        invariant
            i <= ws.len(),
            views(ws@) == words(v@),
            views(out@) == nonempty_norms(views(ws@).take(i as int)),
        decreases ws.len() - i,
    {
        assert(views(ws@).take(i + 1).drop_last() =~= views(ws@).take(i as int));
        let n = norm_word_chars(&ws[i]);
        if n.len() > 0 {
            let ghost o = views(out@);
            let ghost nv = n@;
            out.push(n);
            assert(views(out@) =~= o.push(nv));
        }
        i += 1;
    }
    assert(views(ws@).take(ws.len() as int) =~= views(ws@));
    out
}

/// The lower-cased, edge-trimmed words of `text`, empty ones dropped.
pub fn normalized_words(text: &str) -> (r: Vec<String>)
    ensures
        crate::text::string_views(r@) == spec_normalized_words(text@),
{
    crate::text::strings_of(&normalized_word_chars(&chars_of(text)))
}

/// Whether `word` is one of the short fillers.
pub fn is_short_filler_chars(w: &Vec<char>) -> (r: bool)
    ensures
        r == spec_is_filler(w@),
{
    let r = if w.len() == 1 {
        let c = w[0];
        c == '아' || c == '어' || c == '음' || c == '으' || c == '흠'
    } else if w.len() == 2 {
        (w[0] == 'a' && w[1] == 'h') || (w[0] == 'u' && w[1] == 'h') || (w[0] == 'u' && w[1] == 'm')
    } else if w.len() == 3 {
        w[0] == 'h' && w[1] == 'm' && w[2] == 'm'
    } else {
        false
    };
    proof {
        if w.len() == 1 {
            assert(w@ == seq![w@[0]]);
        } else if w.len() == 2 {
            assert(w@ == seq![w@[0], w@[1]]);
        } else if w.len() == 3 {
            assert(w@ == seq![w@[0], w@[1], w@[2]]);
        }
    }
    r
}

/// Whether `word` is one of the short fillers (아, 어, 음, 으, 흠, ah, uh, um, hmm).
pub fn is_short_filler_word(word: &str) -> (r: bool)
    ensures
        r == spec_is_filler(word@),
{
    is_short_filler_chars(&chars_of(word))
}


/// The number of occurrences of `x` in `s`.
pub open spec fn occ<T>(s: Seq<T>, x: T) -> nat
    decreases s.len(),
{
    if s.len() == 0 {
        0
    } else {
        occ(s.drop_last(), x) + if s.last() == x {
            1nat
        } else {
            0nat
        }
    }
}

/// The largest occurrence count in `s` of an item among its first `k`.
pub open spec fn max_occ_upto<T>(s: Seq<T>, k: int) -> nat
    decreases k,
{
    if k <= 0 {
        0
    } else {
        let m = max_occ_upto(s, k - 1);
        let c = occ(s, s[k - 1]);
        if c > m {
            c
        } else {
            m
        }
    }
}

/// The largest number of times any one item occurs in `s` (0 when empty).
pub open spec fn max_occ<T>(s: Seq<T>) -> nat {
    max_occ_upto(s, s.len() as int)
}

/// The number of distinct items of `s`.
pub open spec fn distinct_count<T>(s: Seq<T>) -> nat
    decreases s.len(),
{
    if s.len() == 0 {
        0
    } else {
        distinct_count(s.drop_last()) + if s.drop_last().contains(s.last()) {
            0nat
        } else {
            1nat
        }
    }
}

/// The characters of `s` that are neither whitespace nor noise punctuation.
pub open spec fn content_chars(s: Seq<char>) -> Seq<char>
    decreases s.len(),
{
    if s.len() == 0 {
        seq![]
    } else if is_white(s.last()) || spec_is_noise_punct(s.last()) {
        content_chars(s.drop_last())
    } else {
        content_chars(s.drop_last()).push(s.last())
    }
}

/// Whether every word of `ws` is a short filler.
pub open spec fn spec_all_filler(ws: Seq<Seq<char>>) -> bool {
    forall|i: int| 0 <= i < ws.len() ==> spec_is_filler(#[trigger] ws[i])
}

/// Whether `text` looks like a decoder hallucination: only a few filler
/// words; eight or more words dominated (at least 70%) by one word that
/// occurs at least eight times; sixteen or more words drawn from at most
/// three distinct words; or at least 24 content characters dominated (at
/// least 75%) by a single character.
pub open spec fn spec_hallucination(text: Seq<char>) -> bool {
    let ws = spec_normalized_words(text);
    let cs = content_chars(text);
    ||| (ws.len() > 0 && ws.len() <= 4 && spec_all_filler(ws))
    ||| (ws.len() >= 8 && max_occ(ws) >= 8 && max_occ(ws) * 100 >= ws.len() * 70)
    ||| (ws.len() >= 16 && distinct_count(ws) <= 3)
    ||| (cs.len() >= 24 && max_occ(cs) * 100 >= cs.len() * 75)
}

pub proof fn lemma_occ_le<T>(s: Seq<T>, x: T)
    ensures
        occ(s, x) <= s.len(),
    decreases s.len(),
{
    if s.len() > 0 {
        lemma_occ_le(s.drop_last(), x);
    }
}

pub proof fn lemma_max_occ_le<T>(s: Seq<T>, k: int)
    requires
        0 <= k <= s.len(),
    ensures
        max_occ_upto(s, k) <= s.len(),
    decreases k,
{
    if k > 0 {
        lemma_max_occ_le(s, k - 1);
        lemma_occ_le(s, s[k - 1]);
    }
}

pub proof fn lemma_distinct_le<T>(s: Seq<T>)
    ensures
        distinct_count(s) <= s.len(),
    decreases s.len(),
{
    if s.len() > 0 {
        lemma_distinct_le(s.drop_last());
    }
}

/// Occurrences of `x` among the words `ws`.
fn count_word(ws: &Vec<Vec<char>>, x: &Vec<char>) -> (n: usize)
    ensures
        n == occ(views(ws@), x@),
{
    let mut n: usize = 0;
    let mut i: usize = 0;
    while i < ws.len()
        invariant
            i <= ws.len(),
            n == occ(views(ws@).take(i as int), x@),
            n <= i,
        decreases ws.len() - i,
    {
        assert(views(ws@).take(i + 1).drop_last() =~= views(ws@).take(i as int));
        if chars_eq(&ws[i], x) {
            n += 1;
        }
        i += 1;
    }
    assert(views(ws@).take(ws.len() as int) =~= views(ws@));
    n
}

/// The largest occurrence count of a word of `ws`.
fn max_word_count(ws: &Vec<Vec<char>>) -> (m: usize)
    ensures
        m == max_occ(views(ws@)),
{
    let mut m: usize = 0;
    let mut k: usize = 0;
    while k < ws.len()
        invariant
            k <= ws.len(),
            m == max_occ_upto(views(ws@), k as int),
        decreases ws.len() - k,
    {
        let c = count_word(ws, &ws[k]);
        if c > m {
            m = c;
        }
        k += 1;
    }
    m
}

/// The number of distinct words of `ws`.
fn distinct_words(ws: &Vec<Vec<char>>) -> (d: usize)
    ensures
        d == distinct_count(views(ws@)),
{
    let mut d: usize = 0;
    let mut i: usize = 0;
    while i < ws.len()
        invariant
            i <= ws.len(),
            d == distinct_count(views(ws@).take(i as int)),
            d <= i,
        decreases ws.len() - i,
    {
        let ghost pre = views(ws@).take(i as int);
        assert(views(ws@).take(i + 1).drop_last() =~= pre);
        assert(views(ws@).take(i + 1).last() == ws@[i as int]@);
        let mut seen = false;
        let mut k: usize = 0;
        while k < i
            invariant
                k <= i < ws.len(),
                pre == views(ws@).take(i as int),
                seen <==> exists|q: int| 0 <= q < k && pre[q] == ws@[i as int]@,
            decreases i - k,
        {
            assert(pre[k as int] == ws@[k as int]@);
            if chars_eq(&ws[k], &ws[i]) {
                seen = true;
            }
            k += 1;
        }
        assert(seen <==> pre.contains(ws@[i as int]@));
        if !seen {
            d += 1;
        }
        i += 1;
    }
    assert(views(ws@).take(ws.len() as int) =~= views(ws@));
    d
}

/// Occurrences of `x` in `cs`.
fn count_char(cs: &Vec<char>, x: char) -> (n: usize)
    ensures
        n == occ(cs@, x),
{
    let mut n: usize = 0;
    let mut i: usize = 0;
    while i < cs.len()
        invariant
            i <= cs.len(),
            n == occ(cs@.take(i as int), x),
            n <= i,
        decreases cs.len() - i,
    {
        assert(cs@.take(i + 1).drop_last() =~= cs@.take(i as int));
        if cs[i] == x {
            n += 1;
        }
        i += 1;
    }
    assert(cs@.take(cs.len() as int) =~= cs@);
    n
}

/// The largest occurrence count of a character of `cs`.
fn max_char_count(cs: &Vec<char>) -> (m: usize)
    ensures
        m == max_occ(cs@),
{
    let mut m: usize = 0;
    let mut k: usize = 0;
    while k < cs.len()
        invariant
            k <= cs.len(),
            m == max_occ_upto(cs@, k as int),
        decreases cs.len() - k,
    {
        let c = count_char(cs, cs[k]);
        if c > m {
            m = c;
        }
        k += 1;
    }
    m
}

/// The characters of `v` that are neither whitespace nor noise punctuation.
fn content_char_vec(v: &Vec<char>) -> (out: Vec<char>)
    ensures
        out@ == content_chars(v@),
{
    let mut out: Vec<char> = Vec::new();
    let mut i: usize = 0;
    while i < v.len()
        invariant
            i <= v.len(),
            out@ == content_chars(v@.take(i as int)),
        decreases v.len() - i,
    {
        assert(v@.take(i + 1).drop_last() =~= v@.take(i as int));
        if !(char_is_whitespace(v[i]) || is_noise_punct(v[i])) {
            out.push(v[i]);
        }
        i += 1;
    }
    assert(v@.take(v.len() as int) =~= v@);
    out
}

/// Whether the text held in `v` looks like a decoder hallucination.
fn hallucination_chars(v: &Vec<char>) -> (r: bool)
    ensures
        r == spec_hallucination(v@),
{
    let ws = normalized_word_chars(v);
    let n = ws.len();
    let mut all_filler = true;
    let mut i: usize = 0;
    while i < n
        invariant
            i <= n == ws.len(),
            all_filler <==> forall|q: int| 0 <= q < i ==> spec_is_filler(#[trigger] views(ws@)[q]),
        decreases n - i,
    {
        assert(views(ws@)[i as int] == ws@[i as int]@);
        if !is_short_filler_chars(&ws[i]) {
            all_filler = false;
        }
        i += 1;
    }
    if n > 0 && n <= 4 && all_filler {
        return true;
    }
    if n >= 8 {
        let mx = max_word_count(&ws);
        if mx >= 8 && (mx as u128) * 100 >= (n as u128) * 70 {
            return true;
        }
        if n >= 16 {
            let d = distinct_words(&ws);
            if d <= 3 {
                return true;
            }
        }
    }
    let cs = content_char_vec(v);
    let total = cs.len();
    let mc = max_char_count(&cs);
    total >= 24 && (mc as u128) * 100 >= (total as u128) * 75
}

/// Whether `text` looks like a decoder hallucination (see `spec_hallucination`).
pub fn likely_repetitive_hallucination(text: &str) -> (r: bool)
    ensures
        r == spec_hallucination(text@),
{
    hallucination_chars(&chars_of(text))
}


/// One past the run of words, from `j` on, that share the non-empty
/// comparison form of `ws[i]`.
pub open spec fn run_end(ws: Seq<Seq<char>>, i: int, j: int) -> int
    decreases ws.len() - j,
{
    if 0 <= i < ws.len() && 0 <= j < ws.len() && spec_word_norm(ws[i]).len() > 0 && spec_word_norm(
        ws[j],
    ) == spec_word_norm(ws[i]) {
        run_end(ws, i, j + 1)
    } else {
        j
    }
}

pub proof fn lemma_run_end_range(ws: Seq<Seq<char>>, i: int, j: int)
    requires
        0 <= j <= ws.len(),
    ensures
        j <= run_end(ws, i, j) <= ws.len(),
    decreases ws.len() - j,
{
    if 0 <= i < ws.len() && 0 <= j < ws.len() && spec_word_norm(ws[i]).len() > 0 && spec_word_norm(
        ws[j],
    ) == spec_word_norm(ws[i]) {
        lemma_run_end_range(ws, i, j + 1);
    }
}

/// The words from `i` on with every run of four or more equal words (by
/// comparison form) folded to its first word; shorter runs kept whole.
pub open spec fn collapse_from(ws: Seq<Seq<char>>, i: int) -> Seq<Seq<char>>
    decreases ws.len() - i,
{
    if i < 0 || i >= ws.len() {
        seq![]
    } else {
        let j = run_end(ws, i, i + 1);
        proof {
            lemma_run_end_range(ws, i, i + 1);
        }
        (if j - i >= 4 {
            seq![ws[i]]
        } else {
            ws.subrange(i, j)
        }) + collapse_from(ws, j)
    }
}

/// `text` with stuttered repeats folded: unchanged when it has fewer than
/// four words, otherwise its folded words joined by single spaces.
pub open spec fn spec_collapse(text: Seq<char>) -> Seq<char> {
    if words(text).len() < 4 {
        text
    } else {
        join_words(collapse_from(words(text), 0))
    }
}

/// Cleaned transcript: trimmed, emptied when it looks like a
/// hallucination, otherwise with stuttered repeats folded.
pub open spec fn spec_clean(text: Seq<char>) -> Seq<char> {
    let t = trim_ws(text);
    if spec_hallucination(t) {
        seq![]
    } else {
        spec_collapse(t)
    }
}

/// The folded words of `ws` (see `collapse_from`).
fn collapse_words(ws: &Vec<Vec<char>>) -> (out: Vec<Vec<char>>)
    ensures
        views(out@) == collapse_from(views(ws@), 0),
{
    let ghost w = views(ws@);
    let mut norms: Vec<Vec<char>> = Vec::new();
    let mut k: usize = 0;
    while k < ws.len()
        invariant
            k <= ws.len(),
            w == views(ws@),
            norms.len() == k,
            forall|q: int| 0 <= q < k ==> #[trigger] norms@[q]@ == spec_word_norm(w[q]),
        decreases ws.len() - k,
    {
        norms.push(norm_word_chars(&ws[k]));
        k += 1;
    }
    let mut out: Vec<Vec<char>> = Vec::new();
    let mut i: usize = 0;
    assert(collapse_from(w, 0) =~= views(out@) + collapse_from(w, 0));
    while i < ws.len()
        invariant
            i <= ws.len(),
            w == views(ws@),
            norms.len() == ws.len(),
            forall|q: int| 0 <= q < ws.len() ==> #[trigger] norms@[q]@ == spec_word_norm(w[q]),
            collapse_from(w, 0) == views(out@) + collapse_from(w, i as int),
        decreases ws.len() - i,
    {
        let mut j = i + 1;
        while j < ws.len() && norms[i].len() > 0 && chars_eq(&norms[j], &norms[i])
            invariant
                i < j <= ws.len(),
                w == views(ws@),
                norms.len() == ws.len(),
                forall|q: int| 0 <= q < ws.len() ==> #[trigger] norms@[q]@ == spec_word_norm(w[q]),
                run_end(w, i as int, i + 1) == run_end(w, i as int, j as int),
            decreases ws.len() - j,
        {
            j += 1;
        }
        proof {
            assert(run_end(w, i as int, j as int) == j);
            lemma_run_end_range(w, i as int, i + 1);
        }
        let ghost o = views(out@);
        if j - i >= 4 {
            let first = slice_chars(&ws[i], 0, ws[i].len());
            assert(first@ =~= w[i as int]);
            out.push(first);
            assert(views(out@) =~= o + seq![w[i as int]]);
        } else {
            let mut k = i;
            while k < j
                invariant
                    i <= k <= j <= ws.len(),
                    w == views(ws@),
                    views(out@) == o + w.subrange(i as int, k as int),
                decreases j - k,
            {
                let ghost before = out@;
                let c = slice_chars(&ws[k], 0, ws[k].len());
                assert(c@ =~= w[k as int]);
                out.push(c);
                assert(out@ =~= before.push(c));
                assert(views(out@) =~= views(before).push(w[k as int]));
                assert(w.subrange(i as int, k + 1) =~= w.subrange(i as int, k as int).push(w[k as int]));
                assert(views(out@) =~= o + w.subrange(i as int, k + 1));
                k += 1;
            }
        }
        assert(collapse_from(w, i as int) == (if j - i >= 4 {
            seq![w[i as int]]
        } else {
            w.subrange(i as int, j as int)
        }) + collapse_from(w, j as int));
        assert(views(out@) + collapse_from(w, j as int) =~= o + collapse_from(w, i as int));
        i = j;
    }
    assert(collapse_from(w, ws.len() as int) =~= Seq::<Seq<char>>::empty());
    assert(views(out@) =~= views(out@) + collapse_from(w, ws.len() as int));
    out
}

/// `v` with stuttered repeats folded (see `spec_collapse`).
fn collapse_chars(v: &Vec<char>) -> (out: Vec<char>)
    ensures
        out@ == spec_collapse(v@),
{
    let ws = split_words(v);
    if ws.len() < 4 {
        return slice_chars(v, 0, v.len());
    }
    let folded = collapse_words(&ws);
    join_with_spaces(&folded)
}

/// Folds every run of four or more repeated words (compared after
/// normalisation) into its first word; text with fewer than four words is
/// returned as it is.
pub fn collapse_immediate_repeats(text: &str) -> (r: String)
    ensures
        r@ == spec_collapse(text@),
{
    let v = chars_of(text);
    let out = collapse_chars(&v);
    proof {
        if words(v@).len() < 4 {
            assert(v@.subrange(0, v@.len() as int) =~= v@);
        }
    }
    string_of(&out)
}

/// Trims `text`, empties it when it looks like a hallucination, and
/// otherwise folds stuttered repeats.
pub fn clean_transcript_text(text: &str) -> (r: String)
    ensures
        r@ == spec_clean(text@),
{
    let t = trim_chars(&chars_of(text));
    if hallucination_chars(&t) {
        return String::new();
    }
    string_of(&collapse_chars(&t))
}


/// Whether `b` has the same non-empty comparison form as `a`.
pub open spec fn same_norm(a: Seq<char>, b: Seq<char>) -> bool {
    spec_word_norm(a).len() > 0 && spec_word_norm(b) == spec_word_norm(a)
}

/// Whether four words from position `i` on share one non-empty comparison form.
pub open spec fn run4_at(ws: Seq<Seq<char>>, i: int) -> bool {
    0 <= i && i + 3 < ws.len() && same_norm(ws[i], ws[i + 1]) && same_norm(ws[i], ws[i + 2])
        && same_norm(ws[i], ws[i + 3])
}

/// Whether no four consecutive words share one non-empty comparison form.
pub open spec fn no_run4(ws: Seq<Seq<char>>) -> bool {
    forall|i: int| !#[trigger] run4_at(ws, i)
}

proof fn lemma_run_end_props(ws: Seq<Seq<char>>, i: int, j: int)
    requires
        0 <= i < ws.len(),
        i < j <= ws.len(),
    ensures
        j <= run_end(ws, i, j) <= ws.len(),
        forall|k: int| j <= k < run_end(ws, i, j) ==> same_norm(ws[i], #[trigger] ws[k]),
        run_end(ws, i, j) < ws.len() ==> !same_norm(ws[i], ws[run_end(ws, i, j)]),
    decreases ws.len() - j,
{
    if j < ws.len() && same_norm(ws[i], ws[j]) {
        lemma_run_end_props(ws, i, j + 1);
    }
}

proof fn lemma_collapse_shape(ws: Seq<Seq<char>>, i: int)
    requires
        0 <= i <= ws.len(),
    ensures
        no_run4(collapse_from(ws, i)),
        collapse_from(ws, i).len() > 0 ==> i < ws.len() && collapse_from(ws, i)[0] == ws[i],
    decreases ws.len() - i,
{
    if i < ws.len() {
        let j = run_end(ws, i, i + 1);
        lemma_run_end_props(ws, i, i + 1);
        lemma_collapse_shape(ws, j);
        let g = if j - i >= 4 {
            seq![ws[i]]
        } else {
            ws.subrange(i, j)
        };
        let oj = collapse_from(ws, j);
        let o = collapse_from(ws, i);
        assert(o == g + oj);
        let l = g.len() as int;
        assert(1 <= l <= 3);
        assert forall|p: int| !#[trigger] run4_at(o, p) by {
            if run4_at(o, p) {
                if p >= l {
                    assert(o[p] == oj[p - l]);
                    assert(o[p + 1] == oj[p - l + 1]);
                    assert(o[p + 2] == oj[p - l + 2]);
                    assert(o[p + 3] == oj[p - l + 3]);
                    assert(run4_at(oj, p - l));
                } else {
                    assert(oj.len() > 0);
                    assert(o[l] == oj[0]);
                    assert(oj[0] == ws[j]);
                    let t = if j - i >= 4 { i } else { i + p };
                    assert(o[p] == ws[t]);
                    assert(t == i || same_norm(ws[i], ws[t]));
                    let d = l - p;
                    assert(1 <= d <= 3);
                    assert(same_norm(o[p], o[p + d]));
                    assert(!same_norm(ws[i], ws[j]));
                }
            }
        }
    }
}

proof fn lemma_collapse_fixed(ws: Seq<Seq<char>>, i: int)
    requires
        0 <= i <= ws.len(),
        no_run4(ws),
    ensures
        collapse_from(ws, i) == ws.skip(i),
    decreases ws.len() - i,
{
    if i < ws.len() {
        let j = run_end(ws, i, i + 1);
        lemma_run_end_props(ws, i, i + 1);
        if j - i >= 4 {
            assert(same_norm(ws[i], ws[i + 1]));
            assert(same_norm(ws[i], ws[i + 2]));
            assert(same_norm(ws[i], ws[i + 3]));
            assert(run4_at(ws, i));
        }
        lemma_collapse_fixed(ws, j);
        assert(ws.subrange(i, j) + ws.skip(j) =~= ws.skip(i));
    } else {
        assert(ws.skip(i) =~= Seq::<Seq<char>>::empty());
    }
}

proof fn lemma_collapse_solid(ws: Seq<Seq<char>>, i: int)
    requires
        0 <= i <= ws.len(),
        forall|t: int| 0 <= t < ws.len() ==> crate::text::is_solid(#[trigger] ws[t]),
    ensures
        forall|k: int|
            0 <= k < collapse_from(ws, i).len() ==> crate::text::is_solid(
                #[trigger] collapse_from(ws, i)[k],
            ),
    decreases ws.len() - i,
{
    if i < ws.len() {
        let j = run_end(ws, i, i + 1);
        lemma_run_end_props(ws, i, i + 1);
        lemma_collapse_solid(ws, j);
        let g = if j - i >= 4 {
            seq![ws[i]]
        } else {
            ws.subrange(i, j)
        };
        let oj = collapse_from(ws, j);
        let o = collapse_from(ws, i);
        assert(o == g + oj);
        assert forall|k: int| 0 <= k < o.len() implies crate::text::is_solid(#[trigger] o[k]) by {
            if k >= g.len() {
                assert(o[k] == oj[k - g.len()]);
            } else if j - i >= 4 {
                assert(o[k] == ws[i]);
            } else {
                assert(o[k] == ws[i + k]);
            }
        }
    }
}

/// Folding repeats leaves text with fewer than four words as it is;
/// otherwise the words of the result are the folded words of the input.
/// No four words in a row of the result share a non-empty comparison
/// form, and folding the result again changes nothing.
pub proof fn law_collapse_is_idempotent(text: Seq<char>)
    ensures
        ({
            let r = spec_collapse(text);
            &&& words(text).len() < 4 ==> r == text
            &&& words(text).len() >= 4 ==> words(r) == collapse_from(words(text), 0)
            &&& no_run4(words(r))
            &&& spec_collapse(r) == r
        }),
{
    let ws = words(text);
    let r = spec_collapse(text);
    if ws.len() < 4 {
        assert forall|i: int| !#[trigger] run4_at(ws, i) by {}
    } else {
        crate::text::lemma_words_solid(text, seq![]);
        lemma_collapse_solid(ws, 0);
        let out = collapse_from(ws, 0);
        crate::text::lemma_words_of_join(out);
        lemma_collapse_shape(ws, 0);
        assert(words(r) == out);
        if out.len() >= 4 {
            lemma_collapse_fixed(out, 0);
            assert(out.skip(0) =~= out);
        }
    }
}

/// How many of `a`, `b`, `c` occur in `s` (an item named twice counts twice).
pub open spec fn present_of_three<T>(s: Seq<T>, a: T, b: T, c: T) -> nat {
    (if s.contains(a) { 1nat } else { 0nat }) + (if s.contains(b) { 1nat } else { 0nat }) + (if s.contains(c) {
        1nat
    } else {
        0nat
    })
}

proof fn lemma_distinct_of_three<T>(s: Seq<T>, a: T, b: T, c: T)
    requires
        forall|i: int| 0 <= i < s.len() ==> #[trigger] s[i] == a || s[i] == b || s[i] == c,
    ensures
        distinct_count(s) <= present_of_three(s, a, b, c),
    decreases s.len(),
{
    if s.len() > 0 {
        let init = s.drop_last();
        let x = s.last();
        assert forall|i: int| 0 <= i < init.len() implies #[trigger] init[i] == a || init[i] == b
            || init[i] == c by {
            assert(init[i] == s[i]);
        }
        lemma_distinct_of_three(init, a, b, c);
        assert forall|y: T| init.contains(y) implies s.contains(y) by {
            let i = choose|i: int| 0 <= i < init.len() && init[i] == y;
            assert(s[i] == y);
        }
        assert(s[s.len() - 1] == x);
        assert(s.contains(x));
        assert(x == a || x == b || x == c);
    }
}

/// Sixteen or more normalised words drawn from at most three distinct
/// words make a text a hallucination, and cleaning empties it.
pub proof fn law_few_distinct_words_are_dropped(text: Seq<char>)
    requires
        spec_normalized_words(trim_ws(text)).len() >= 16,
        distinct_count(spec_normalized_words(trim_ws(text))) <= 3,
    ensures
        spec_hallucination(trim_ws(text)),
        spec_clean(text) == Seq::<char>::empty(),
{
}

/// A text of sixteen or more normalised words, each one of `a`, `b` or
/// `c`, is a hallucination, trimmed or not, and cleaning it gives the
/// empty text.
pub proof fn law_three_word_loops_are_dropped(text: Seq<char>, a: Seq<char>, b: Seq<char>, c: Seq<char>)
    requires
        spec_normalized_words(text).len() >= 16,
        forall|i: int|
            0 <= i < spec_normalized_words(text).len() ==> #[trigger] spec_normalized_words(text)[i]
                == a || spec_normalized_words(text)[i] == b || spec_normalized_words(text)[i] == c,
    ensures
        spec_hallucination(text),
        spec_hallucination(trim_ws(text)),
        spec_clean(text) == Seq::<char>::empty(),
{
    let ws = spec_normalized_words(text);
    lemma_distinct_of_three(ws, a, b, c);
    crate::text::lemma_words_trim(text);
    assert(spec_normalized_words(trim_ws(text)) == ws);
}

} // verus!
