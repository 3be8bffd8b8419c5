//! Word-level bookkeeping for windowed re-decoding: which words of a fresh
//! window overlap what was already committed, which are repeats of recent
//! output, and which get committed or held back.

use vstd::prelude::*;
use crate::cleanup::{norm_word_chars, spec_word_norm};
use crate::text::{
    chars_eq, chars_of, join_words, split_words, string_of, string_views, trim_chars, trim_ws,
    views, words,
};

verus! {

/// Longest committed suffix that is compared with a window's start.
pub const MAX_OVERLAP_WORDS: usize = 32;
/// How many of the most recent committed words are searched for repeats.
pub const RECENT_WORDS: usize = 160;
/// Repeats at least this long are skipped instead of committed.
pub const DUP_MIN_WORDS: usize = 4;

/// A decoded word with its comparison form.
#[derive(Clone, Debug)]
pub struct WindowWord {
    pub text: String,
    pub norm: String,
}

/// The words of a window as `(text, comparison form)` pairs of views.
pub open spec fn ww_views(v: Seq<WindowWord>) -> Seq<(Seq<char>, Seq<char>)> {
    Seq::new(v.len(), |i: int| (v[i].text@, v[i].norm@))
}

/// The comparison forms of window words.
pub open spec fn ww_norms(v: Seq<WindowWord>) -> Seq<Seq<char>> {
    Seq::new(v.len(), |i: int| v[i].norm@)
}

/// The texts of window words.
pub open spec fn ww_texts(v: Seq<WindowWord>) -> Seq<Seq<char>> {
    Seq::new(v.len(), |i: int| v[i].text@)
}

/// Window words of whitespace-separated words: trimmed text and comparison
/// form, dropping words where either is empty.
pub open spec fn window_words_of(ws: Seq<Seq<char>>) -> Seq<(Seq<char>, Seq<char>)>
    decreases ws.len(),
{
    if ws.len() == 0 {
        seq![]
    } else {
        let t = trim_ws(ws.last());
        let n = spec_word_norm(ws.last());
        if t.len() == 0 || n.len() == 0 {
            window_words_of(ws.drop_last())
        } else {
            window_words_of(ws.drop_last()).push((t, n))
        }
    }
}

/// Splits decoded `text` into window words (see `window_words_of`).
pub fn transcript_words(text: &str) -> (r: Vec<WindowWord>)
    ensures
        ww_views(r@) == window_words_of(words(text@)),
{
    let ws = split_words(&chars_of(text));
    let mut r: Vec<WindowWord> = Vec::new();
    let mut i: usize = 0;
    while i < ws.len()
        invariant
            i <= ws.len(),
            views(ws@) == words(text@),
            ww_views(r@) == window_words_of(views(ws@).take(i as int)),
        decreases ws.len() - i,
    {
        assert(views(ws@).take(i + 1).drop_last() =~= views(ws@).take(i as int));
        assert(views(ws@).take(i + 1).last() == ws@[i as int]@);
        let t = trim_chars(&ws[i]);
        let n = norm_word_chars(&ws[i]);
        if t.len() > 0 && n.len() > 0 {
            let ghost o = ww_views(r@);
            let w = WindowWord { text: string_of(&t), norm: string_of(&n) };
            let ghost wv = (w.text@, w.norm@);
            let ghost before = r@;
            r.push(w);
            assert(r@ =~= before.push(w));
            assert(ww_views(r@) =~= o.push(wv));
        }
        i += 1;
    }
    assert(views(ws@).take(ws.len() as int) =~= views(ws@));
    r
}

/// The texts of `words` joined by single spaces.
pub fn words_to_text(words: &Vec<WindowWord>) -> (r: String)
    ensures
        r@ == join_words(ww_texts(words@)),
{
    let mut out: Vec<Vec<char>> = Vec::new();
    let mut i: usize = 0;
    while i < words.len()
        invariant
            i <= words.len(),
            views(out@) == ww_texts(words@).take(i as int),
        decreases words.len() - i,
    {
        let ghost before = out@;
        let c = chars_of(words[i].text.as_str());
        out.push(c);
        assert(out@ =~= before.push(c));
        assert(views(out@) =~= views(before).push(words@[i as int].text@));
        assert(ww_texts(words@).take(i + 1) =~= ww_texts(words@).take(i as int).push(words@[i as int].text@));
        assert(views(out@) =~= ww_texts(words@).take(i + 1));
        i += 1;
    }
    assert(ww_texts(words@).take(words.len() as int) =~= ww_texts(words@));
    string_of(&crate::text::join_with_spaces(&out))
}

/// Whether the last `k` committed words equal the first `k` window forms.
pub open spec fn suffix_matches(c: Seq<Seq<char>>, n: Seq<Seq<char>>, k: int) -> bool {
    forall|i: int| 0 <= i < k ==> #[trigger] c[c.len() - k + i] == n[i]
}

/// The largest `k <= top`, at least 1, with a matching suffix/prefix; 0 if none.
pub open spec fn overlap_down(c: Seq<Seq<char>>, n: Seq<Seq<char>>, top: int) -> int
    decreases top,
{
    if top <= 0 {
        0
    } else if suffix_matches(c, n, top) {
        top
    } else {
        overlap_down(c, n, top - 1)
    }
}

/// The longest run (at most 32 words) ending the committed words that also
/// starts the window.
pub open spec fn spec_overlap(c: Seq<Seq<char>>, n: Seq<Seq<char>>) -> int {
    let m = if c.len() < n.len() { c.len() } else { n.len() };
    let top = if m < MAX_OVERLAP_WORDS { m } else { MAX_OVERLAP_WORDS as nat };
    overlap_down(c, n, top as int)
}

pub proof fn lemma_overlap_range(c: Seq<Seq<char>>, n: Seq<Seq<char>>, top: int)
    ensures
        0 <= overlap_down(c, n, top),
        top >= 0 ==> overlap_down(c, n, top) <= top,
        overlap_down(c, n, top) > 0 ==> suffix_matches(c, n, overlap_down(c, n, top)),
    decreases top,
{
    if top > 0 && !suffix_matches(c, n, top) {
        lemma_overlap_range(c, n, top - 1);
    }
}

/// Length of the longest suffix of `committed` (at most 32 words) that
/// equals the start of the window's comparison forms.
pub fn suffix_prefix_overlap(committed: &Vec<String>, words: &Vec<WindowWord>) -> (k: usize)
    ensures
        k == spec_overlap(string_views(committed@), ww_norms(words@)),
{
    let ghost c = string_views(committed@);
    let ghost n = ww_norms(words@);
    let mut m = if committed.len() < words.len() {
        committed.len()
    } else {
        words.len()
    };
    if m > MAX_OVERLAP_WORDS {
        m = MAX_OVERLAP_WORDS;
    }
    let mut k = m;
    while k > 0
        invariant
            k <= m <= committed.len(),
            m <= words.len(),
            c == string_views(committed@),
            n == ww_norms(words@),
            spec_overlap(c, n) == overlap_down(c, n, k as int),
        decreases k,
    {
        let base = committed.len() - k;
        let mut i: usize = 0;
        let mut all = true;
        while i < k
            invariant
                i <= k <= committed.len(),
                k <= words.len(),
                base == committed.len() - k,
                c == string_views(committed@),
                n == ww_norms(words@),
                all <==> forall|q: int| 0 <= q < i ==> #[trigger] c[c.len() - k + q] == n[q],
            decreases k - i,
        {
            assert(c[c.len() - k + i] == committed@[base + i]@);
            assert(n[i as int] == words@[i as int].norm@);
            if committed[base + i] != words[i].norm {
                all = false;
            }
            i += 1;
        }
        if all {
            return k;
        }
        k -= 1;
    }
    0
}

/// How many consecutive committed words from `base` equal the window forms
/// from `idx`.
pub open spec fn common_run(c: Seq<Seq<char>>, n: Seq<Seq<char>>, base: int, idx: int) -> nat
    decreases c.len() - base,
{
    if 0 <= base < c.len() && 0 <= idx < n.len() && c[base] == n[idx] {
        1 + common_run(c, n, base + 1, idx + 1)
    } else {
        0
    }
}

/// The longest common run over committed start positions `lo..hi`.
pub open spec fn best_run(c: Seq<Seq<char>>, n: Seq<Seq<char>>, idx: int, lo: int, hi: int) -> nat
    decreases hi - lo,
{
    if lo >= hi {
        0
    } else {
        let here = common_run(c, n, lo, idx);
        let rest = best_run(c, n, idx, lo + 1, hi);
        if here > rest {
            here
        } else {
            rest
        }
    }
}

/// The longest stretch of the window, starting at `idx`, that repeats a
/// stretch starting among the last 160 committed words.
pub open spec fn spec_recent_match(c: Seq<Seq<char>>, n: Seq<Seq<char>>, idx: int) -> nat {
    if idx >= n.len() || c.len() == 0 {
        0
    } else {
        let lo = if c.len() > RECENT_WORDS { c.len() - RECENT_WORDS } else { 0 };
        best_run(c, n, idx, lo, c.len() as int)
    }
}

pub proof fn lemma_common_run_bound(c: Seq<Seq<char>>, n: Seq<Seq<char>>, base: int, idx: int)
    requires
        0 <= base,
    ensures
        common_run(c, n, base, idx) <= if base < c.len() { c.len() - base } else { 0 },
    decreases c.len() - base,
{
    if 0 <= base < c.len() && 0 <= idx < n.len() && c[base] == n[idx] {
        lemma_common_run_bound(c, n, base + 1, idx + 1);
    }
}

/// Length of the common run of committed words from `base` and window
/// forms from `idx`.
fn common_run_len(committed: &Vec<String>, words: &Vec<WindowWord>, base: usize, idx: usize) -> (r: usize)
    requires
        base <= committed.len(),
    ensures
        r == common_run(string_views(committed@), ww_norms(words@), base as int, idx as int),
{
    let ghost c = string_views(committed@);
    let ghost n = ww_norms(words@);
    let mut k: usize = 0;
    proof {
        lemma_common_run_bound(c, n, base as int, idx as int);
    }
    while base + k < committed.len() && idx < words.len() && k < words.len() - idx
        && committed[base + k] == words[idx + k].norm
        invariant
            base + k <= committed.len(),
            c == string_views(committed@),
            n == ww_norms(words@),
            common_run(c, n, base as int, idx as int) == k + common_run(c, n, base + k, idx + k),
        decreases committed.len() - base - k,
    {
        assert(c[base + k] == committed@[base + k]@);
        assert(n[idx + k] == words@[idx + k].norm@);
        k += 1;
    }
    proof {
        if base + k < committed.len() && idx + k < words.len() {
            assert(c[base + k] == committed@[base + k as int]@);
            assert(n[idx + k] == words@[idx + k as int].norm@);
        }
    }
    k
}

/// The longest stretch of `words` from `word_idx` that repeats a stretch
/// starting among the last 160 committed words (0 when out of range or
/// nothing is committed).
pub fn longest_recent_match(committed: &Vec<String>, words: &Vec<WindowWord>, word_idx: usize) -> (r: usize)
    ensures
        r == spec_recent_match(string_views(committed@), ww_norms(words@), word_idx as int),
{
    let ghost c = string_views(committed@);
    let ghost n = ww_norms(words@);
    if word_idx >= words.len() || committed.len() == 0 {
        return 0;
    }
    let lo = if committed.len() > RECENT_WORDS {
        committed.len() - RECENT_WORDS
    } else {
        0
    };
    let mut base = committed.len();
    let mut best: usize = 0;
    while base > lo
        invariant
            lo <= base <= committed.len(),
            c == string_views(committed@),
            n == ww_norms(words@),
            best == best_run(c, n, word_idx as int, base as int, committed.len() as int),
        decreases base - lo,
    {
        base -= 1;
        let here = common_run_len(committed, words, base, word_idx);
        if here > best {
            best = here;
        }
    }
    best
}


/// What happens to the window words from one position on.
#[derive(Clone, Copy, Debug, PartialEq, Eq, Structural)]
pub enum WindowStep {
    /// This many words repeat recent output and are skipped.
    Skip(usize),
    /// The word at this index is committed.
    Commit(usize),
}

/// The steps for window positions `j..hi`, and the committed forms after them:
/// a repeat of at least four words (capped at `hi`) is skipped whole,
/// otherwise the word is committed and its form appended.
pub open spec fn spec_steps(c: Seq<Seq<char>>, n: Seq<Seq<char>>, j: int, hi: int) -> (
    Seq<WindowStep>,
    Seq<Seq<char>>,
)
    decreases hi - j,
{
    if j >= hi || j < 0 {
        (seq![], c)
    } else {
        let m = spec_recent_match(c, n, j);
        let d = if m < hi - j { m as int } else { hi - j };
        if d >= DUP_MIN_WORDS {
            let r = spec_steps(c, n, j + d, hi);
            (seq![WindowStep::Skip(d as usize)] + r.0, r.1)
        } else {
            let r = spec_steps(c.push(n[j]), n, j + 1, hi);
            (seq![WindowStep::Commit(j as usize)] + r.0, r.1)
        }
    }
}

/// How one decoded window is taken in.
#[derive(Clone, Debug)]
pub struct WindowPlan {
    /// Skips and commits, in window order.
    pub steps: Vec<WindowStep>,
    /// The uncommitted tail `words[buffer_start..]` becomes the partial text.
    pub buffer_start: usize,
}

/// The steps, the start of the partial tail, and the committed forms after
/// taking in a window: nothing for an empty window; nothing (all words
/// partial) when a non-final window near the last commit does not overlap
/// committed text; otherwise words after the overlap up to the commit limit
/// (all words on the final window, else all but `holdback`) go through the
/// repeat-skipping steps, and the rest stay partial.
pub open spec fn spec_plan(
    c: Seq<Seq<char>>,
    n: Seq<Seq<char>>,
    near_last_commit: bool,
    is_last: bool,
    holdback: nat,
) -> (Seq<WindowStep>, int, Seq<Seq<char>>) {
    if n.len() == 0 {
        (seq![], 0, c)
    } else {
        let ov = spec_overlap(c, n);
        if ov == 0 && c.len() > 0 && near_last_commit && !is_last {
            (seq![], 0, c)
        } else {
            let hi = if is_last {
                n.len() as int
            } else if n.len() > holdback {
                n.len() - holdback
            } else {
                0
            };
            if hi <= ov {
                (seq![], ov, c)
            } else {
                let r = spec_steps(c, n, ov, hi);
                (r.0, hi, r.1)
            }
        }
    }
}

/// Runs the repeat-skipping steps over `words[from..hi]`, appending the
/// forms of committed words to `committed`.
fn commit_steps(committed: &mut Vec<String>, words: &Vec<WindowWord>, from: usize, hi: usize) -> (steps: Vec<WindowStep>)
    requires
        from <= hi <= words.len(),
    ensures
        steps@ == spec_steps(string_views(old(committed)@), ww_norms(words@), from as int, hi as int).0,
        string_views(final(committed)@) == spec_steps(
            string_views(old(committed)@),
            ww_norms(words@),
            from as int,
            hi as int,
        ).1,
{
    let ghost c0 = string_views(committed@);
    let ghost n = ww_norms(words@);
    let mut steps: Vec<WindowStep> = Vec::new();
    let mut j = from;
    while j < hi
        invariant
            from <= j <= hi <= words.len(),
            n == ww_norms(words@),
            spec_steps(c0, n, from as int, hi as int).0 == steps@ + spec_steps(
                string_views(committed@),
                n,
                j as int,
                hi as int,
            ).0,
            spec_steps(c0, n, from as int, hi as int).1 == spec_steps(
                string_views(committed@),
                n,
                j as int,
                hi as int,
            ).1,
        decreases hi - j,
    {
        let ghost c = string_views(committed@);
        let m = longest_recent_match(committed, words, j);
        let d = if m < hi - j {
            m
        } else {
            hi - j
        };
        let ghost before = steps@;
        if d >= DUP_MIN_WORDS {
            steps.push(WindowStep::Skip(d));
            assert(steps@ =~= before.push(WindowStep::Skip(d)));
            assert(before + (seq![WindowStep::Skip(d)] + spec_steps(c, n, j + d, hi as int).0)
                =~= steps@ + spec_steps(c, n, j + d, hi as int).0);
            j += d;
        } else {
            steps.push(WindowStep::Commit(j));
            let f = words[j].norm.clone();
            let ghost cb = committed@;
            committed.push(f);
            assert(committed@ =~= cb.push(f));
            assert(string_views(committed@) =~= c.push(n[j as int]));
            assert(steps@ =~= before.push(WindowStep::Commit(j)));
            assert(before + (seq![WindowStep::Commit(j)] + spec_steps(
                c.push(n[j as int]),
                n,
                j + 1,
                hi as int,
            ).0) =~= steps@ + spec_steps(c.push(n[j as int]), n, j + 1, hi as int).0);
            j += 1;
        }
    }
    assert(steps@ + spec_steps(string_views(committed@), n, j as int, hi as int).0 =~= steps@);
    steps
}

/// Decides how a decoded window is taken in (see `spec_plan`), appending
/// the forms of newly committed words to `committed`. `near_last_commit`
/// tells whether the window starts within a quarter second after the end
/// of the last committed word.
pub fn plan_window(
    committed: &mut Vec<String>,
    words: &Vec<WindowWord>,
    near_last_commit: bool,
    is_last: bool,
    holdback: usize,
) -> (plan: WindowPlan)
    ensures
        ({
            let p = spec_plan(
                string_views(old(committed)@),
                ww_norms(words@),
                near_last_commit,
                is_last,
                holdback as nat,
            );
            &&& plan.steps@ == p.0
            &&& plan.buffer_start == p.1
            &&& string_views(final(committed)@) == p.2
        }),
{
    if words.len() == 0 {
        return WindowPlan { steps: Vec::new(), buffer_start: 0 };
    }
    let ov = suffix_prefix_overlap(committed, words);
    proof {
        let c = string_views(committed@);
        let n = ww_norms(words@);
        let m = if c.len() < n.len() { c.len() } else { n.len() };
        let top = if m < MAX_OVERLAP_WORDS { m } else { MAX_OVERLAP_WORDS as nat };
        lemma_overlap_range(c, n, top as int);
    }
    if ov == 0 && committed.len() > 0 && near_last_commit && !is_last {
        return WindowPlan { steps: Vec::new(), buffer_start: 0 };
    }
    let hi = if is_last {
        words.len()
    } else if words.len() > holdback {
        words.len() - holdback
    } else {
        0
    };
    if hi <= ov {
        return WindowPlan { steps: Vec::new(), buffer_start: ov };
    }
    let steps = commit_steps(committed, words, ov, hi);
    WindowPlan { steps, buffer_start: hi }
}


/// How many window positions a step covers.
pub open spec fn step_width(s: WindowStep) -> int {
    match s {
        WindowStep::Skip(d) => d as int,
        WindowStep::Commit(_) => 1,
    }
}

/// How many window positions the steps cover.
pub open spec fn steps_width(st: Seq<WindowStep>) -> int
    decreases st.len(),
{
    if st.len() == 0 {
        0
    } else {
        step_width(st[0]) + steps_width(st.drop_first())
    }
}

/// The comparison forms of the words that the steps commit, in order.
pub open spec fn committed_forms(st: Seq<WindowStep>, n: Seq<Seq<char>>) -> Seq<Seq<char>>
    decreases st.len(),
{
    if st.len() == 0 {
        seq![]
    } else {
        match st[0] {
            WindowStep::Commit(j) => seq![n[j as int]] + committed_forms(st.drop_first(), n),
            WindowStep::Skip(_) => committed_forms(st.drop_first(), n),
        }
    }
}

/// The steps over window positions `from..hi` cover exactly those
/// positions, each committed index lies among them, every skipped repeat
/// is at least four words long, and the committed forms afterwards are the
/// old ones followed by the forms of the committed words in window order.
pub proof fn law_steps_cover_window(c: Seq<Seq<char>>, n: Seq<Seq<char>>, from: int, hi: int)
    requires
        0 <= from <= hi,
        hi <= n.len(),
        hi <= usize::MAX,
    ensures
        ({
            let r = spec_steps(c, n, from, hi);
            &&& steps_width(r.0) == hi - from
            &&& r.1 == c + committed_forms(r.0, n)
            &&& forall|k: int| 0 <= k < r.0.len() ==> match #[trigger] r.0[k] {
                WindowStep::Commit(j) => from <= j < hi,
                WindowStep::Skip(d) => d >= DUP_MIN_WORDS,
            }
        }),
    decreases hi - from,
{
    if from < hi {
        let m = spec_recent_match(c, n, from);
        let d = if m < hi - from { m as int } else { hi - from };
        if d >= DUP_MIN_WORDS {
            law_steps_cover_window(c, n, from + d, hi);
            let r = spec_steps(c, n, from + d, hi);
            let st = seq![WindowStep::Skip(d as usize)] + r.0;
            assert(st.drop_first() =~= r.0);
            assert forall|k: int| 0 <= k < st.len() implies match #[trigger] st[k] {
                WindowStep::Commit(j) => from <= j < hi,
                WindowStep::Skip(d) => d >= DUP_MIN_WORDS,
            } by {
                if k > 0 {
                    assert(st[k] == r.0[k - 1]);
                }
            }
        } else {
            law_steps_cover_window(c.push(n[from]), n, from + 1, hi);
            let r = spec_steps(c.push(n[from]), n, from + 1, hi);
            let st = seq![WindowStep::Commit(from as usize)] + r.0;
            assert(st.drop_first() =~= r.0);
            assert(c.push(n[from]) + committed_forms(r.0, n) =~= c + (seq![n[from]] + committed_forms(r.0, n)));
            assert forall|k: int| 0 <= k < st.len() implies match #[trigger] st[k] {
                WindowStep::Commit(j) => from <= j < hi,
                WindowStep::Skip(d) => d >= DUP_MIN_WORDS,
            } by {
                if k > 0 {
                    assert(st[k] == r.0[k - 1]);
                }
            }
        }
    } else {
        assert(c + committed_forms(seq![], n) =~= c);
    }
}

/// With nothing committed yet, a window is taken in whatever
/// `near_last_commit` says: the first `hi` words (all of them on the final
/// window, else all but `holdback`) go through the steps, which cover them
/// exactly, the partial tail starts at `hi`, and the committed forms are
/// those of the words the steps commit.
pub proof fn law_first_window_is_taken_in(
    n: Seq<Seq<char>>,
    near_last_commit: bool,
    is_last: bool,
    holdback: nat,
)
    requires
        n.len() > 0,
        n.len() <= usize::MAX,
    ensures
        ({
            let c = Seq::<Seq<char>>::empty();
            let hi = if is_last {
                n.len() as int
            } else if n.len() > holdback {
                n.len() - holdback
            } else {
                0
            };
            let p = spec_plan(c, n, near_last_commit, is_last, holdback);
            &&& p == spec_plan(c, n, !near_last_commit, is_last, holdback)
            &&& hi > 0 ==> {
                &&& p.1 == hi
                &&& steps_width(p.0) == hi
                &&& p.2 == committed_forms(p.0, n)
                &&& forall|k: int| 0 <= k < p.0.len() ==> match #[trigger] p.0[k] {
                    WindowStep::Commit(j) => 0 <= j < hi,
                    WindowStep::Skip(d) => d >= DUP_MIN_WORDS,
                }
            }
            &&& hi == 0 ==> p == (Seq::<WindowStep>::empty(), 0int, c)
        }),
{
    let c = Seq::<Seq<char>>::empty();
    assert(spec_overlap(c, n) == 0);
    let hi = if is_last {
        n.len() as int
    } else if n.len() > holdback {
        n.len() - holdback
    } else {
        0
    };
    if hi > 0 {
        law_steps_cover_window(c, n, 0, hi);
        let r = spec_steps(c, n, 0, hi);
        assert(c + committed_forms(r.0, n) =~= committed_forms(r.0, n));
    }
}

} // verus!
