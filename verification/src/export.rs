//! Transcript export: plain text, SubRip cue grouping and SubRip rendering.

use vstd::prelude::*;
use crate::text::{chars_of, push_char, push_str, string_of, string_views, trim_chars, trim_ws, trim_end_by, is_white};

verus! {

/// The concatenation of `ts`.
pub open spec fn concat_all(ts: Seq<Seq<char>>) -> Seq<char>
    decreases ts.len(),
{
    if ts.len() == 0 {
        seq![]
    } else {
        concat_all(ts.drop_last()) + ts.last()
    }
}

/// The characters of `texts[lo..hi]` concatenated, appended to `out`.
fn append_texts(out: &mut Vec<char>, texts: &Vec<String>, lo: usize, hi: usize)
    requires
        lo <= hi <= texts.len(),
    ensures
        final(out)@ == old(out)@ + concat_all(string_views(texts@).subrange(lo as int, hi as int)),
{
    let ghost base = out@;
    let mut i = lo;
    assert(string_views(texts@).subrange(lo as int, lo as int) =~= Seq::<Seq<char>>::empty());
    assert(out@ =~= base + concat_all(string_views(texts@).subrange(lo as int, lo as int)));
    while i < hi
        invariant
            lo <= i <= hi <= texts.len(),
            out@ == base + concat_all(string_views(texts@).subrange(lo as int, i as int)),
        decreases hi - i,
    {
        let t = chars_of(texts[i].as_str());
        let mut k: usize = 0;
        let ghost mid = out@;
        while k < t.len()
            invariant
                k <= t.len(),
                out@ == mid + t@.take(k as int),
            decreases t.len() - k,
        {
            out.push(t[k]);
            assert(t@.take(k + 1) =~= t@.take(k as int).push(t@[k as int]));
            k += 1;
        }
        assert(t@.take(t.len() as int) =~= t@);
        assert(string_views(texts@).subrange(lo as int, i + 1).drop_last() =~= string_views(texts@).subrange(
            lo as int,
            i as int,
        ));
        assert(mid + t@ =~= base + concat_all(string_views(texts@).subrange(lo as int, i + 1)));
        i += 1;
    }
}

/// The plain-text export: the token texts concatenated, then trimmed.
pub fn to_txt(texts: &Vec<String>) -> (r: String)
    ensures
        r@ == trim_ws(concat_all(string_views(texts@))),
{
    let mut out: Vec<char> = Vec::new();
    append_texts(&mut out, texts, 0, texts.len());
    assert(string_views(texts@).subrange(0, texts.len() as int) =~= string_views(texts@));
    string_of(&trim_chars(&out))
}

/// Whether a token text ends a sentence: after trailing whitespace it ends
/// in `.`, `?`, `!` or `。`.
pub open spec fn ends_sentence(t: Seq<char>) -> bool {
    let u = trim_end_by(t, |c: char| is_white(c));
    u.len() > 0 && (u.last() == '.' || u.last() == '?' || u.last() == '!' || u.last() == '。')
}

/// A group of consecutive tokens shown as one subtitle.
#[derive(Clone, Debug)]
pub struct CueSpan {
    pub first: usize,
    pub last: usize,
    pub text: String,
}

/// Cue spans from token `i` on, for a cue begun at `start` with text `buf`
/// and `count` tokens: a token closes the cue when it ends a sentence, is
/// the eighth of the cue, is followed by a long pause (`breaks`), or is the
/// last; a closed cue is kept when its trimmed text is not empty.
pub open spec fn cues_from(
    t: Seq<Seq<char>>,
    b: Seq<bool>,
    i: int,
    start: int,
    buf: Seq<char>,
    count: nat,
) -> Seq<(int, int, Seq<char>)>
    decreases t.len() - i,
{
    if i < 0 || i >= t.len() {
        seq![]
    } else {
        let start2 = if count == 0 { i } else { start };
        let buf2 = (if count == 0 { Seq::<char>::empty() } else { buf }) + t[i];
        let c2 = count + 1;
        if ends_sentence(t[i]) || c2 >= 8 || b[i] || i + 1 == t.len() {
            let txt = trim_ws(buf2);
            (if txt.len() > 0 {
                seq![(start2, i, txt)]
            } else {
                Seq::<(int, int, Seq<char>)>::empty()
            }) + cues_from(t, b, i + 1, start2, buf2, 0)
        } else {
            cues_from(t, b, i + 1, start2, buf2, c2)
        }
    }
}

/// The cue spans of a transcript.
pub open spec fn spec_cues(t: Seq<Seq<char>>, b: Seq<bool>) -> Seq<(int, int, Seq<char>)> {
    cues_from(t, b, 0, 0, seq![], 0)
}

/// The views of cue spans.
pub open spec fn cue_views(v: Seq<CueSpan>) -> Seq<(int, int, Seq<char>)> {
    Seq::new(v.len(), |i: int| (v[i].first as int, v[i].last as int, v[i].text@))
}

/// Whether a trimmed token text ends a sentence.
fn ends_sentence_text(t: &String) -> (r: bool)
    ensures
        r == ends_sentence(t@),
{
    let v = chars_of(t.as_str());
    let mut hi = v.len();
    let ghost p = |c: char| is_white(c);
    while hi > 0 && crate::text::char_is_whitespace(v[hi - 1])
        invariant
            hi <= v.len(),
            p == (|c: char| is_white(c)),
            crate::text::last_not_before(v@, v.len() as int, p) == crate::text::last_not_before(v@, hi as int, p),
        decreases hi,
    {
        assert(p(v@[hi - 1]));
        hi -= 1;
    }
    proof {
        crate::text::lemma_trim_end_take(v@, v.len() as int, p);
        assert(v@.take(v.len() as int) =~= v@);
    }
    if hi == 0 {
        return false;
    }
    let c = v[hi - 1];
    assert(v@.take(hi as int).last() == c);
    c == '.' || c == '?' || c == '!' || c == '。'
}

/// Groups token texts into subtitle cues (see `cues_from`); `breaks[i]`
/// tells whether a long pause follows token `i`.
pub fn srt_cues(texts: &Vec<String>, breaks: &Vec<bool>) -> (r: Vec<CueSpan>)
    requires
        breaks.len() == texts.len(),
    ensures
        cue_views(r@) == spec_cues(string_views(texts@), breaks@),
{
    let ghost t = string_views(texts@);
    let mut out: Vec<CueSpan> = Vec::new();
    let mut start: usize = 0;
    let mut buf: Vec<char> = Vec::new();
    let mut count: usize = 0;
    let mut i: usize = 0;
    assert(cue_views(out@) =~= Seq::<(int, int, Seq<char>)>::empty());
    assert(spec_cues(t, breaks@) =~= cue_views(out@) + cues_from(t, breaks@, 0, 0, buf@, 0));
    while i < texts.len()
        invariant
            i <= texts.len() == breaks.len(),
            t == string_views(texts@),
            count <= i,
            start <= i,
            spec_cues(t, breaks@) == cue_views(out@) + cues_from(t, breaks@, i as int, start as int, buf@, count as nat),
        decreases texts.len() - i,
    {
        if count == 0 {
            start = i;
            buf = Vec::new();
        }
        let tc = chars_of(texts[i].as_str());
        let ghost b0 = buf@;
        let mut k: usize = 0;
        while k < tc.len()
            invariant
                k <= tc.len(),
                buf@ == b0 + tc@.take(k as int),
            decreases tc.len() - k,
        {
            buf.push(tc[k]);
            assert(tc@.take(k + 1) =~= tc@.take(k as int).push(tc@[k as int]));
            k += 1;
        }
        assert(tc@.take(tc.len() as int) =~= tc@);
        assert(t[i as int] == tc@);
        count += 1;
        if ends_sentence_text(&texts[i]) || count >= 8 || breaks[i] || i + 1 == texts.len() {
            let txt = trim_chars(&buf);
            let ghost o = cue_views(out@);
            if txt.len() > 0 {
                let ghost before = out@;
                let cue = CueSpan { first: start, last: i, text: string_of(&txt) };
                out.push(cue);
                assert(out@ =~= before.push(cue));
                assert(cue_views(out@) =~= o + seq![(start as int, i as int, txt@)]);
            } else {
                assert(cue_views(out@) =~= o + Seq::<(int, int, Seq<char>)>::empty());
            }
            assert(o + ((if txt@.len() > 0 {
                seq![(start as int, i as int, txt@)]
            } else {
                Seq::<(int, int, Seq<char>)>::empty()
            }) + cues_from(t, breaks@, i + 1, start as int, buf@, 0)) =~= cue_views(out@) + cues_from(
                t,
                breaks@,
                i + 1,
                start as int,
                buf@,
                0,
            ));
            count = 0;
        }
        i += 1;
    }
    assert(cue_views(out@) + cues_from(t, breaks@, i as int, start as int, buf@, count as nat) =~= cue_views(out@));
    out
}

/// The decimal digits of `n`.
pub open spec fn decimal(n: nat) -> Seq<char>
    decreases n,
{
    if n < 10 {
        seq![digit_char(n)]
    } else {
        decimal(n / 10) + seq![digit_char(n % 10)]
    }
}

/// The character of a digit below ten.
pub open spec fn digit_char(d: nat) -> char {
    if d == 0 { '0' } else if d == 1 { '1' } else if d == 2 { '2' } else if d == 3 { '3' } else if d
        == 4 { '4' } else if d == 5 { '5' } else if d == 6 { '6' } else if d == 7 { '7' } else if d
        == 8 { '8' } else { '9' }
}

/// The decimal digits of `n`, padded with leading zeros to `width`.
pub open spec fn padded(n: nat, width: nat) -> Seq<char> {
    let d = decimal(n);
    if d.len() >= width {
        d
    } else {
        Seq::new((width - d.len()) as nat, |i: int| '0') + d
    }
}

/// The character of digit `d`.
fn digit(d: u64) -> (c: char)
    requires
        d < 10,
    ensures
        c == digit_char(d as nat),
{
    if d == 0 { '0' } else if d == 1 { '1' } else if d == 2 { '2' } else if d == 3 { '3' } else if d
        == 4 { '4' } else if d == 5 { '5' } else if d == 6 { '6' } else if d == 7 { '7' } else if d
        == 8 { '8' } else { '9' }
}

/// The decimal digits of `n`.
pub(crate) fn decimal_chars(n: u64) -> (v: Vec<char>)
    ensures
        v@ == decimal(n as nat),
    decreases n,
{
    if n < 10 {
        let mut v: Vec<char> = Vec::new();
        v.push(digit(n));
        v
    } else {
        let mut v = decimal_chars(n / 10);
        v.push(digit(n % 10));
        v
    }
}

/// `n` in decimal padded with zeros to `width`, appended to `s`.
fn push_padded(s: &mut String, n: u64, width: usize)
    ensures
        final(s)@ == old(s)@ + padded(n as nat, width as nat),
{
    let d = decimal_chars(n);
    let ghost base = s@;
    if d.len() < width {
        let zeros = width - d.len();
        let mut k: usize = 0;
        while k < zeros
            invariant
                k <= zeros,
                s@ == base + Seq::new(k as nat, |i: int| '0'),
            decreases zeros - k,
        {
            push_char(s, '0');
            assert(Seq::new((k + 1) as nat, |i: int| '0') =~= Seq::new(k as nat, |i: int| '0').push('0'));
            k += 1;
        }
    }
    let ghost mid = s@;
    let mut k: usize = 0;
    while k < d.len()
        invariant
            k <= d.len(),
            s@ == mid + d@.take(k as int),
        decreases d.len() - k,
    {
        push_char(s, d[k]);
        assert(d@.take(k + 1) =~= d@.take(k as int).push(d@[k as int]));
        k += 1;
    }
    assert(d@.take(d.len() as int) =~= d@);
    assert(s@ =~= base + padded(n as nat, width as nat));
}

/// A SubRip timestamp `HH:MM:SS,mmm` for a time in milliseconds (hours
/// may take more than two digits).
pub open spec fn spec_srt_time(ms: nat) -> Seq<char> {
    padded(ms / 3_600_000, 2) + seq![':'] + padded((ms % 3_600_000) / 60_000, 2) + seq![':']
        + padded((ms % 60_000) / 1000, 2) + seq![','] + padded(ms % 1000, 3)
}

/// Formats a time in milliseconds as a SubRip timestamp.
pub fn format_srt_time(ms: u64) -> (r: String)
    ensures
        r@ == spec_srt_time(ms as nat),
{
    let mut s = String::new();
    push_padded(&mut s, ms / 3_600_000, 2);
    push_char(&mut s, ':');
    push_padded(&mut s, (ms % 3_600_000) / 60_000, 2);
    push_char(&mut s, ':');
    push_padded(&mut s, (ms % 60_000) / 1000, 2);
    push_char(&mut s, ',');
    push_padded(&mut s, ms % 1000, 3);
    s
}

/// A subtitle ready to render: its times in milliseconds and its text.
#[derive(Clone, Debug)]
pub struct TimedCue {
    pub start_ms: u64,
    pub end_ms: u64,
    pub text: String,
}

/// One rendered SubRip block for the cue numbered `idx`.
pub open spec fn srt_block(idx: nat, c: TimedCue) -> Seq<char> {
    decimal(idx) + seq!['\n'] + spec_srt_time(c.start_ms as nat) + " --> "@ + spec_srt_time(
        c.end_ms as nat,
    ) + seq!['\n'] + c.text@ + seq!['\n', '\n']
}

/// The SubRip rendering of the first `k` cues, numbered from one.
pub open spec fn srt_prefix(cues: Seq<TimedCue>, k: int) -> Seq<char>
    decreases k,
{
    if k <= 0 {
        seq![]
    } else {
        srt_prefix(cues, k - 1) + srt_block(k as nat, cues[k - 1])
    }
}

/// Renders cues as a SubRip document, numbered from one.
pub fn render_srt(cues: &Vec<TimedCue>) -> (r: String)
    requires
        cues.len() < u64::MAX,
    ensures
        r@ == srt_prefix(cues@, cues.len() as int),
{
    let mut s = String::new();
    let mut i: usize = 0;
    while i < cues.len()
        invariant
            i <= cues.len() < u64::MAX,
            s@ == srt_prefix(cues@, i as int),
        decreases cues.len() - i,
    {
        let ghost base = s@;
        let idx = (i as u64) + 1;
        push_padded(&mut s, idx, 0);
        assert(padded(idx as nat, 0) == decimal(idx as nat));
        push_char(&mut s, '\n');
        let a = format_srt_time(cues[i].start_ms);
        push_str(&mut s, a.as_str());
        push_str(&mut s, " --> ");
        let b = format_srt_time(cues[i].end_ms);
        push_str(&mut s, b.as_str());
        push_char(&mut s, '\n');
        push_str(&mut s, cues[i].text.as_str());
        push_char(&mut s, '\n');
        push_char(&mut s, '\n');
        assert(s@ =~= base + srt_block((i + 1) as nat, cues@[i as int]));
        i += 1;
    }
    s
}


/// Cues are in order, never overlap, hold at most eight tokens, and carry
/// text, for the part of a transcript from token `i` on.
proof fn lemma_cue_shape(
    t: Seq<Seq<char>>,
    b: Seq<bool>,
    i: int,
    start: int,
    buf: Seq<char>,
    count: nat,
)
    requires
        0 <= i <= t.len(),
        count < 8,
        count > 0 ==> 0 <= start && start + count == i,
    ensures
        ({
            let cs = cues_from(t, b, i, start, buf, count);
            &&& forall|k: int|
                0 <= k < cs.len() ==> {
                    &&& (if count > 0 { start } else { i }) <= (#[trigger] cs[k]).0
                    &&& cs[k].0 <= cs[k].1 < t.len()
                    &&& cs[k].1 - cs[k].0 < 8
                    &&& cs[k].2.len() > 0
                }
            &&& forall|k: int, l: int| 0 <= k < l < cs.len() ==> #[trigger] cs[k].1 < #[trigger] cs[l].0
        }),
    decreases t.len() - i,
{
    if i < t.len() {
        let start2 = if count == 0 { i } else { start };
        let buf2 = (if count == 0 { Seq::<char>::empty() } else { buf }) + t[i];
        let c2 = count + 1;
        if ends_sentence(t[i]) || c2 >= 8 || b[i] || i + 1 == t.len() {
            lemma_cue_shape(t, b, i + 1, start2, buf2, 0);
            let txt = trim_ws(buf2);
            let head = if txt.len() > 0 {
                seq![(start2, i, txt)]
            } else {
                Seq::<(int, int, Seq<char>)>::empty()
            };
            let rest = cues_from(t, b, i + 1, start2, buf2, 0);
            let cs = cues_from(t, b, i, start, buf, count);
            assert(cs == head + rest);
            assert forall|k: int, l: int| 0 <= k < l < cs.len() implies #[trigger] cs[k].1
                < #[trigger] cs[l].0 by {
                if k < head.len() {
                    assert(cs[l] == rest[l - head.len()]);
                } else {
                    assert(cs[k] == rest[k - head.len()]);
                    assert(cs[l] == rest[l - head.len()]);
                }
            }
            assert forall|k: int| 0 <= k < cs.len() implies {
                &&& (if count > 0 { start } else { i }) <= (#[trigger] cs[k]).0
                &&& cs[k].0 <= cs[k].1 < t.len()
                &&& cs[k].1 - cs[k].0 < 8
                &&& cs[k].2.len() > 0
            } by {
                if k >= head.len() {
                    assert(cs[k] == rest[k - head.len()]);
                }
            }
        } else {
            lemma_cue_shape(t, b, i + 1, start2, buf2, c2);
            assert(cues_from(t, b, i, start, buf, count) == cues_from(t, b, i + 1, start2, buf2, c2));
        }
    }
}

/// Subtitle cues come in token order without overlap, each covering at
/// most eight consecutive tokens and carrying non-empty text.
pub proof fn law_cues_are_ordered_and_short(t: Seq<Seq<char>>, b: Seq<bool>)
    ensures
        ({
            let cs = spec_cues(t, b);
            &&& forall|k: int|
                0 <= k < cs.len() ==> {
                    &&& 0 <= (#[trigger] cs[k]).0 <= cs[k].1 < t.len()
                    &&& cs[k].1 - cs[k].0 < 8
                    &&& cs[k].2.len() > 0
                }
            &&& forall|k: int, l: int| 0 <= k < l < cs.len() ==> #[trigger] cs[k].1 < #[trigger] cs[l].0
        }),
{
    lemma_cue_shape(t, b, 0, 0, seq![], 0);
}

} // verus!
