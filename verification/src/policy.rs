//! Token-level agreement for timestamped hypotheses (LocalAgreement-2):
//! how many new tokens agree with the previous hypothesis, and how many
//! leading new tokens merely repeat the end of what was committed; plus the
//! character-weighted tokens of a finished utterance.

use vstd::prelude::*;
use crate::streaming::{lcp, lcp_from, lemma_lcp_from, spec_token_text, token_texts};
use crate::text::{chars_eq, char_vecs_of, join_with_spaces, join_words, split_words, chars_of, string_views, strings_of, views, words};
use crate::wordtime::{spec_time_weight, time_weight_units};
use crate::text::push_str;
use vstd::utf8::{encode_scalar, encode_utf8};

verus! {

/// How many leading tokens of the new hypothesis agree, text for text, with
/// the previous one; these are the tokens LocalAgreement-2 commits.
pub fn agreed_prefix_len(new_texts: &Vec<String>, buffer_texts: &Vec<String>) -> (n: usize)
    ensures
        n == lcp(string_views(new_texts@), string_views(buffer_texts@)),
        n <= new_texts.len(),
        n <= buffer_texts.len(),
        forall|k: int| 0 <= k < n ==> #[trigger] new_texts@[k]@ == buffer_texts@[k]@,
{
    let ghost a = string_views(new_texts@);
    let ghost b = string_views(buffer_texts@);
    let mut p: usize = 0;
    while p < new_texts.len() && p < buffer_texts.len() && new_texts[p] == buffer_texts[p]
        invariant
            p <= new_texts.len(),
            p <= buffer_texts.len(),
            a == string_views(new_texts@),
            b == string_views(buffer_texts@),
            lcp(a, b) == lcp_from(a, b, p as int),
            forall|k: int| 0 <= k < p ==> a[k] == b[k],
        decreases new_texts.len() - p,
    {
        assert(a[p as int] == new_texts@[p as int]@);
        assert(b[p as int] == buffer_texts@[p as int]@);
        p += 1;
    }
    proof {
        if p < new_texts.len() && p < buffer_texts.len() {
            assert(a[p as int] == new_texts@[p as int]@);
            assert(b[p as int] == buffer_texts@[p as int]@);
        }
        lemma_lcp_from(a, b, p as int);
        assert forall|k: int| 0 <= k < p implies #[trigger] new_texts@[k]@ == buffer_texts@[k]@ by {
            assert(a[k] == new_texts@[k]@);
            assert(b[k] == buffer_texts@[k]@);
        }
    }
    p
}

/// LocalAgreement-2 over tokens of any kind: takes from the front of
/// `tokens` (whose texts are `texts`) the tokens that agree, text for text,
/// with the previous hypothesis `buffer_texts`, and returns them; the rest
/// stays in `tokens` as the new hypothesis.
pub fn take_agreed<T>(tokens: &mut Vec<T>, texts: &Vec<String>, buffer_texts: &Vec<String>) -> (committed: Vec<T>)
    requires
        old(tokens).len() == texts.len(),
    ensures
        ({
            let n = lcp(string_views(texts@), string_views(buffer_texts@));
            &&& committed@ == old(tokens)@.take(n)
            &&& final(tokens)@ == old(tokens)@.skip(n)
        }),
{
    let n = agreed_prefix_len(texts, buffer_texts);
    let mut rest = tokens.split_off(n);
    std::mem::swap(tokens, &mut rest);
    rest
}

/// Drops from the front of `tokens` (whose texts are `texts`) the tokens
/// that repeat the committed tail (see `spec_ngram_drop`).
pub fn drop_repeated_head<T>(tokens: &mut Vec<T>, committed_texts: &Vec<String>, texts: &Vec<String>)
    requires
        old(tokens).len() == texts.len(),
    ensures
        final(tokens)@ == old(tokens)@.skip(
            spec_ngram_drop(string_views(committed_texts@), string_views(texts@)),
        ),
{
    let k = ngram_drop(committed_texts, texts);
    let rest = tokens.split_off(k);
    *tokens = rest;
}

/// Whether the last `i` committed texts, joined by spaces, read the same
/// as the first `i` new texts joined by spaces.
pub open spec fn ngram_equal(c: Seq<Seq<char>>, n: Seq<Seq<char>>, i: int) -> bool {
    join_words(c.subrange(c.len() - i, c.len() as int)) == join_words(n.take(i))
}

/// The smallest `i` in `lo..=top` with equal n-grams, or 0.
pub open spec fn ngram_up(c: Seq<Seq<char>>, n: Seq<Seq<char>>, lo: int, top: int) -> int
    decreases top + 1 - lo,
{
    if lo > top || lo < 1 {
        0
    } else if ngram_equal(c, n, lo) {
        lo
    } else {
        ngram_up(c, n, lo + 1, top)
    }
}

/// How many leading new texts repeat the end of the committed texts: the
/// shortest `i` from 1 up to `min(committed, new, 5)` whose n-grams read
/// the same, or 0.
pub open spec fn spec_ngram_drop(c: Seq<Seq<char>>, n: Seq<Seq<char>>) -> int {
    let m = if c.len() < n.len() { c.len() } else { n.len() };
    let top = if m < 5 { m } else { 5 };
    ngram_up(c, n, 1, top as int)
}

pub proof fn lemma_ngram_up_range(c: Seq<Seq<char>>, n: Seq<Seq<char>>, lo: int, top: int)
    requires
        lo >= 1,
    ensures
        ngram_up(c, n, lo, top) == 0 || (lo <= ngram_up(c, n, lo, top) <= top),
    decreases top + 1 - lo,
{
    if lo <= top && !ngram_equal(c, n, lo) {
        lemma_ngram_up_range(c, n, lo + 1, top);
    }
}

/// How many leading new token texts to drop because they repeat the
/// committed tail (see `spec_ngram_drop`).
pub fn ngram_drop(committed: &Vec<String>, new_texts: &Vec<String>) -> (k: usize)
    ensures
        k == spec_ngram_drop(string_views(committed@), string_views(new_texts@)),
        k <= new_texts.len(),
{
    let cv = char_vecs_of(committed);
    let nv = char_vecs_of(new_texts);
    let ghost c = views(cv@);
    let ghost n = views(nv@);
    let cl = cv.len();
    let nl = nv.len();
    let m = if cl < nl {
        cl
    } else {
        nl
    };
    let top = if m < 5 {
        m
    } else {
        5
    };
    proof {
        lemma_ngram_up_range(c, n, 1, top as int);
    }
    let mut i: usize = 1;
    while i <= top
        invariant
            1 <= i <= top + 1,
            top <= 5,
            top <= cl == cv.len(),
            top <= nl == nv.len(),
            c == views(cv@),
            n == views(nv@),
            c == string_views(committed@),
            n == string_views(new_texts@),
            nl == new_texts.len(),
            spec_ngram_drop(c, n) == ngram_up(c, n, i as int, top as int),
        decreases top + 1 - i,
    {
        let mut tail: Vec<Vec<char>> = Vec::new();
        let mut k = cl - i;
        while k < cl
            invariant
                cl - i <= k <= cl == cv.len(),
                i <= cl,
                c == views(cv@),
                views(tail@) == c.subrange(cl - i, k as int),
            decreases cl - k,
        {
            let ghost before = tail@;
            let w = crate::text::slice_chars(&cv[k], 0, cv[k].len());
            assert(w@ =~= c[k as int]);
            tail.push(w);
            assert(tail@ =~= before.push(w));
            assert(views(tail@) =~= views(before).push(c[k as int]));
            assert(c.subrange(cl - i, k + 1) =~= c.subrange(cl - i, k as int).push(c[k as int]));
            k += 1;
        }
        let mut head: Vec<Vec<char>> = Vec::new();
        let mut k: usize = 0;
        while k < i
            invariant
                k <= i <= nl == nv.len(),
                n == views(nv@),
                views(head@) == n.take(k as int),
            decreases i - k,
        {
            let ghost before = head@;
            let w = crate::text::slice_chars(&nv[k], 0, nv[k].len());
            assert(w@ =~= n[k as int]);
            head.push(w);
            assert(head@ =~= before.push(w));
            assert(views(head@) =~= views(before).push(n[k as int]));
            assert(n.take(k + 1) =~= n.take(k as int).push(n[k as int]));
            k += 1;
        }
        assert(c.len() == cl);
        if chars_eq(&join_with_spaces(&tail), &join_with_spaces(&head)) {
            assert(ngram_equal(c, n, i as int));
            assert(ngram_up(c, n, i as int, top as int) == i);
            return i;
        }
        i += 1;
    }
    0
}

/// A token of a finished utterance: its text and its share of the span.
#[derive(Clone, Debug)]
pub struct WeightedToken {
    pub text: String,
    pub weight: usize,
}

/// The tokens of utterance text: one per word, spaced like
/// `spec_token_text`, each weighted by its kept-character count.
pub fn weighted_tokens(text: &str) -> (r: Vec<WeightedToken>)
    ensures
        r@.len() == words(text@).len(),
        forall|j: int| 0 <= j < r@.len() ==> (#[trigger] r@[j]).text@ == spec_token_text(words(text@), j)
            && r@[j].weight == spec_time_weight(words(text@)[j]),
{
    let ws = strings_of(&split_words(&chars_of(text)));
    let texts = token_texts(&ws, 0, ws.len());
    let mut r: Vec<WeightedToken> = Vec::new();
    let mut j: usize = 0;
    while j < ws.len()
        invariant
            j <= ws.len() == texts@.len(),
            string_views(ws@) == words(text@),
            forall|k: int| 0 <= k < ws.len() ==> #[trigger] texts@[k]@ == spec_token_text(string_views(ws@), k),
            r@.len() == j,
            forall|k: int| 0 <= k < j ==> (#[trigger] r@[k]).text@ == spec_token_text(words(text@), k)
                && r@[k].weight == spec_time_weight(words(text@)[k]),
        decreases ws.len() - j,
    {
        let w = time_weight_units(ws[j].as_str());
        assert(string_views(ws@)[j as int] == ws@[j as int]@);
        r.push(WeightedToken { text: texts[j].clone(), weight: w });
        j += 1;
    }
    r
}


/// `ws` joined with `sep` between neighbours.
pub open spec fn join_sep(ws: Seq<Seq<char>>, sep: Seq<char>) -> Seq<char>
    decreases ws.len(),
{
    if ws.len() == 0 {
        seq![]
    } else if ws.len() == 1 {
        ws[0]
    } else {
        join_sep(ws.drop_last(), sep) + sep + ws.last()
    }
}

/// The prompt budget used by the last `p` words: their UTF-8 byte lengths,
/// plus one for each word.
pub open spec fn tail_cost(ws: Seq<Seq<char>>, p: int) -> int
    decreases p,
{
    if p <= 0 || p > ws.len() {
        0
    } else {
        tail_cost(ws, p - 1) + encode_utf8(ws[ws.len() - p]).len() + 1
    }
}

/// How many trailing words the prompt takes, counting from `p`: words are
/// taken from the end until their cost reaches 200 or none are left.
pub open spec fn prompt_count(ws: Seq<Seq<char>>, p: int) -> int
    decreases ws.len() - p,
{
    if p >= ws.len() || tail_cost(ws, p) >= 200 {
        p
    } else {
        prompt_count(ws, p + 1)
    }
}

/// The decoder prompt built from already committed words: the shortest
/// run of trailing words whose cost reaches 200 (all of them when it never
/// does), joined with `sep`.
pub open spec fn spec_prompt(ws: Seq<Seq<char>>, sep: Seq<char>) -> Seq<char> {
    join_sep(ws.skip(ws.len() - prompt_count(ws, 0)), sep)
}

/// The number of bytes `c` takes in UTF-8.
fn utf8_width(c: char) -> (w: u128)
    ensures
        w == encode_scalar(c as u32).len(),
{
    proof {
        vstd::utf8::char_is_scalar(c);
    }
    let u = c as u32;
    if u <= 0x7F {
        1
    } else if u <= 0x7FF {
        2
    } else if u <= 0xFFFF {
        3
    } else {
        4
    }
}

/// The number of bytes `s` takes in UTF-8.
fn utf8_len(s: &str) -> (n: u128)
    ensures
        n == encode_utf8(s@).len(),
        n <= 4 * (usize::MAX as int),
{
    let v = chars_of(s);
    let mut n: u128 = 0;
    let mut k: usize = 0;
    assert(v@.skip(0) =~= v@);
    while k < v.len()
        invariant
            k <= v.len(),
            v@ == s@,
            n + encode_utf8(v@.skip(k as int)).len() == encode_utf8(v@).len(),
            n <= 4 * k,
            v.len() <= usize::MAX,
        decreases v.len() - k,
    {
        let ghost rest = v@.skip(k as int);
        assert(rest[0] == v@[k as int]);
        assert(rest.drop_first() =~= v@.skip(k + 1));
        n = n + utf8_width(v[k]);
        k += 1;
    }
    n
}

/// Builds the decoder prompt from the committed words (see `spec_prompt`).
pub fn prompt_text(words: &Vec<String>, sep: &str) -> (r: String)
    ensures
        r@ == spec_prompt(string_views(words@), sep@),
{
    let ghost ws = string_views(words@);
    let n = words.len();
    let mut p: usize = 0;
    let mut cost: u128 = 0;
    while p < n && cost < 200
        invariant
            n == words.len(),
            ws == string_views(words@),
            p <= n,
            cost == tail_cost(ws, p as int),
            prompt_count(ws, 0) == prompt_count(ws, p as int),
        decreases n - p,
    {
        let w = words[n - 1 - p].as_str();
        assert(ws[n - 1 - p] == words@[n - 1 - p]@);
        let b = utf8_len(w);
        cost = cost + b + 1;
        p += 1;
    }
    let start = n - p;
    let mut out = String::new();
    let mut i = start;
    while i < n
        invariant
            n == words.len(),
            ws == string_views(words@),
            start <= i <= n,
            start == n - prompt_count(ws, 0),
            out@ == join_sep(ws.subrange(start as int, i as int), sep@),
        decreases n - i,
    {
        assert(ws.subrange(start as int, i + 1).drop_last() =~= ws.subrange(start as int, i as int));
        assert(ws[i as int] == words@[i as int]@);
        if i > start {
            push_str(&mut out, sep);
        }
        push_str(&mut out, words[i].as_str());
        i += 1;
    }
    assert(ws.subrange(start as int, n as int) =~= ws.skip(start as int));
    out
}

} // verus!
