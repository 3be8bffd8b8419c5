//! Character-level building blocks: the standard library's Unicode
//! classifiers, conversion between `str` and character vectors, and the
//! whitespace split / space join that the rest of the crate works with.

use vstd::prelude::*;

verus! {

broadcast use vstd::string::group_string_axioms;

/// Whether `c` has the Unicode `White_Space` property, which is what
/// `char::is_whitespace` tests: the controls U+0009 to U+000D and U+0085,
/// the space U+0020, and the separators U+00A0, U+1680, U+2000 to U+200A,
/// U+2028, U+2029, U+202F, U+205F and U+3000.
pub open spec fn is_white(c: char) -> bool {
    let u = c as u32;
    (0x9 <= u && u <= 0xD) || u == 0x20 || u == 0x85 || u == 0xA0 || u == 0x1680 || (0x2000 <= u
        && u <= 0x200A) || u == 0x2028 || u == 0x2029 || u == 0x202F || u == 0x205F || u == 0x3000
}

/// Whether `char::is_alphanumeric` holds of a character that is not
/// whitespace (the Unicode `Alphabetic` property or a numeric category).
pub uninterp spec fn alphanumeric_class(c: char) -> bool;

/// Whether `char::is_alphanumeric` holds of `c`: whitespace characters
/// (categories Cc, Zs, Zl, Zp) are neither alphabetic nor numeric.
pub open spec fn is_alnum(c: char) -> bool {
    !is_white(c) && alphanumeric_class(c)
}

/// What `str::to_lowercase` returns for a string with characters `s`
/// (Unicode full case mapping; one character may become several).
pub uninterp spec fn lowercase_of(s: Seq<char>) -> Seq<char>;

/// `str::to_lowercase`: the result holds `lowercase_of` of the input.
#[verifier::external_body]
pub(crate) fn str_to_lowercase(s: &str) -> (r: String)
    ensures
        r@ == lowercase_of(s@),
{
    s.to_lowercase()
}

/// Whether `c` is whitespace (see `is_white`).
pub fn char_is_whitespace(c: char) -> (r: bool)
    ensures
        r == is_white(c),
{
    let u = c as u32;
    (0x9 <= u && u <= 0xD) || u == 0x20 || u == 0x85 || u == 0xA0 || u == 0x1680 || (0x2000 <= u
        && u <= 0x200A) || u == 0x2028 || u == 0x2029 || u == 0x202F || u == 0x205F || u == 0x3000
}

/// `char::is_alphanumeric`: the result is `is_alnum(c)`; a whitespace
/// character is never alphanumeric.
#[verifier::external_body]
pub(crate) fn char_is_alphanumeric(c: char) -> (r: bool)
    ensures
        r == (!is_white(c) && alphanumeric_class(c)),
{
    c.is_alphanumeric()
}

/// `String::push`: appends `c` to the string's characters.
#[verifier::external_body]
pub(crate) fn push_char(s: &mut String, c: char)
    ensures
        final(s)@ == old(s)@.push(c),
{
    s.push(c)
}

/// Appends the characters of `t` to `s`.
pub(crate) fn push_str(s: &mut String, t: &str)
    ensures
        final(s)@ == old(s)@ + t@,
{
    s.append(t)
}

/// Whether `pat` occurs in `s` at position `i`.
pub open spec fn occurs_at(s: Seq<char>, pat: Seq<char>, i: int) -> bool {
    0 <= i && i + pat.len() <= s.len() && s.subrange(i, i + pat.len()) == pat
}

/// Whether `pat` occurs anywhere in `s`.
pub open spec fn contains_sub(s: Seq<char>, pat: Seq<char>) -> bool {
    exists|i: int| occurs_at(s, pat, i)
}

/// Whether `pat` occurs in `s`.
pub fn contains_chars(s: &Vec<char>, pat: &Vec<char>) -> (r: bool)
    ensures
        r == contains_sub(s@, pat@),
{
    if pat.len() > s.len() {
        return false;
    }
    if pat.len() == 0 {
        assert(s@.subrange(0, 0) =~= pat@);
        assert(occurs_at(s@, pat@, 0));
        return true;
    }
    let last = s.len() - pat.len();
    let mut i: usize = 0;
    while i <= last
        invariant
            last == s.len() - pat.len(),
            0 < pat.len() <= s.len(),
            i <= last + 1,
            forall|q: int| 0 <= q < i ==> !occurs_at(s@, pat@, q),
        decreases last + 1 - i,
    {
        let mut k: usize = 0;
        let mut same = true;
        while k < pat.len()
            invariant
                i <= last,
                last == s.len() - pat.len(),
                k <= pat.len(),
                same <==> forall|q: int| 0 <= q < k ==> s@[i + q] == pat@[q],
            decreases pat.len() - k,
        {
            if s[i + k] != pat[k] {
                same = false;
            }
            k += 1;
        }
        if same {
            assert(s@.subrange(i as int, i + pat.len()) =~= pat@);
            assert(occurs_at(s@, pat@, i as int));
            return true;
        }
        assert(!(s@.subrange(i as int, i + pat.len()) =~= pat@) ==> !occurs_at(s@, pat@, i as int));
        proof {
            if occurs_at(s@, pat@, i as int) {
                assert forall|q: int| 0 <= q < pat.len() implies s@[i + q] == pat@[q] by {
                    assert(s@.subrange(i as int, i + pat.len())[q] == s@[i + q]);
                }
            }
        }
        i += 1;
    }
    false
}

/// The characters of `s`, in order.
pub fn chars_of(s: &str) -> (v: Vec<char>)
    ensures
        v@ == s@,
{
    let mut v: Vec<char> = Vec::new();
    for c in it: s.chars()
        invariant
            it.seq() == s@,
            v@ == it.seq().take(it.index()),
    {
        v.push(c);
    }
    v
}

/// A `String` holding exactly the characters of `v`.
pub fn string_of(v: &Vec<char>) -> (s: String)
    ensures
        s@ == v@,
{
    let mut s = String::new();
    let mut i: usize = 0;
    while i < v.len()
        invariant
            i <= v.len(),
            s@ == v@.take(i as int),
        decreases v.len() - i,
    {
        push_char(&mut s, v[i]);
        assert(v@.take(i + 1) =~= v@.take(i as int).push(v@[i as int]));
        i += 1;
    }
    assert(v@.take(v.len() as int) =~= v@);
    s
}


/// `String`s holding the character vectors of `v`, in order.
pub fn strings_of(v: &Vec<Vec<char>>) -> (r: Vec<String>)
    ensures
        string_views(r@) == views(v@),
{
    let mut r: Vec<String> = Vec::new();
    let mut j: usize = 0;
    while j < v.len()
        invariant
            j <= v.len(),
            r.len() == j,
            string_views(r@) == views(v@).take(j as int),
        decreases v.len() - j,
    {
        let ghost old_r = r@;
        let sj = string_of(&v[j]);
        r.push(sj);
        assert(r@ =~= old_r.push(sj));
        assert forall|k: int| 0 <= k < j + 1 implies string_views(r@)[k] == views(v@).take(j + 1)[k] by {
            if k < j {
                assert(string_views(old_r)[k] == views(v@).take(j as int)[k]);
            }
        }
        assert(string_views(r@) =~= views(v@).take(j + 1));
        j += 1;
    }
    assert(views(v@).take(v.len() as int) =~= views(v@));
    r
}

/// Character vectors holding the strings of `v`, in order.
pub fn char_vecs_of(v: &Vec<String>) -> (r: Vec<Vec<char>>)
    ensures
        views(r@) == string_views(v@),
{
    let mut r: Vec<Vec<char>> = Vec::new();
    let mut j: usize = 0;
    while j < v.len()
        invariant
            j <= v.len(),
            r.len() == j,
            views(r@) == string_views(v@).take(j as int),
        decreases v.len() - j,
    {
        let ghost old_r = r@;
        let cj = chars_of(v[j].as_str());
        r.push(cj);
        assert(r@ =~= old_r.push(cj));
        assert forall|k: int| 0 <= k < j + 1 implies views(r@)[k] == string_views(v@).take(j + 1)[k] by {
            if k < j {
                assert(views(old_r)[k] == string_views(v@).take(j as int)[k]);
            }
        }
        assert(views(r@) =~= string_views(v@).take(j + 1));
        j += 1;
    }
    assert(string_views(v@).take(v.len() as int) =~= string_views(v@));
    r
}

/// The whitespace-separated words of `text`, in order.
pub fn text_words(text: &str) -> (r: Vec<String>)
    ensures
        string_views(r@) == words(text@),
{
    strings_of(&split_words(&chars_of(text)))
}

/// Whether two character vectors hold the same characters.
pub fn chars_eq(a: &Vec<char>, b: &Vec<char>) -> (r: bool)
    ensures
        r == (a@ == b@),
{
    if a.len() != b.len() {
        return false;
    }
    let mut i: usize = 0;
    while i < a.len()
        invariant
            i <= a.len(),
            a.len() == b.len(),
            forall|k: int| 0 <= k < i ==> a@[k] == b@[k],
        decreases a.len() - i,
    {
        if a[i] != b[i] {
            return false;
        }
        i += 1;
    }
    assert(a@ =~= b@);
    true
}

/// The words of `s` as `str::split_whitespace` yields them, for text whose
/// current unfinished word is `cur`.
pub open spec fn words_from(s: Seq<char>, cur: Seq<char>) -> Seq<Seq<char>>
    decreases s.len(),
{
    if s.len() == 0 {
        if cur.len() == 0 {
            seq![]
        } else {
            seq![cur]
        }
    } else if is_white(s[0]) {
        if cur.len() == 0 {
            words_from(s.drop_first(), seq![])
        } else {
            seq![cur] + words_from(s.drop_first(), seq![])
        }
    } else {
        words_from(s.drop_first(), cur.push(s[0]))
    }
}

/// The maximal runs of non-whitespace characters of `s`, in order.
pub open spec fn words(s: Seq<char>) -> Seq<Seq<char>> {
    words_from(s, seq![])
}

/// The views of a sequence of character vectors.
pub open spec fn views(v: Seq<Vec<char>>) -> Seq<Seq<char>> {
    Seq::new(v.len(), |i: int| v[i]@)
}

/// The views of a sequence of strings.
pub open spec fn string_views(v: Seq<String>) -> Seq<Seq<char>> {
    Seq::new(v.len(), |i: int| v[i]@)
}

/// The words of `ws` joined by single spaces.
pub open spec fn join_words(ws: Seq<Seq<char>>) -> Seq<char>
    decreases ws.len(),
{
    if ws.len() == 0 {
        seq![]
    } else if ws.len() == 1 {
        ws[0]
    } else {
        join_words(ws.drop_last()) + seq![' '] + ws.last()
    }
}

/// Splits `v` into its whitespace-separated words.
pub fn split_words(v: &Vec<char>) -> (out: Vec<Vec<char>>)
    ensures
        views(out@) == words(v@),
{
    let mut out: Vec<Vec<char>> = Vec::new();
    let mut cur: Vec<char> = Vec::new();
    let mut i: usize = 0;
    assert(v@.skip(0) =~= v@);
    while i < v.len()
        invariant
            i <= v.len(),
            words(v@) == views(out@) + words_from(v@.skip(i as int), cur@),
        decreases v.len() - i,
    {
        let c = v[i];
        let ghost rest = v@.skip(i as int);
        assert(rest[0] == c);
        assert(rest.drop_first() =~= v@.skip(i + 1));
        if char_is_whitespace(c) {
            if cur.len() > 0 {
                let ghost o = out@;
                let w = cur;
                let ghost wv = w@;
                out.push(w);
                cur = Vec::new();
                assert(views(out@) =~= views(o) + seq![wv]);
                assert(words_from(rest, wv) == seq![wv] + words_from(v@.skip(i + 1), seq![]));
                assert(views(o) + (seq![wv] + words_from(v@.skip(i + 1), seq![])) =~= views(out@)
                    + words_from(v@.skip(i + 1), cur@));
            } else {
                assert(words_from(rest, cur@) == words_from(v@.skip(i + 1), seq![]));
                assert(cur@ =~= Seq::<char>::empty());
            }
        } else {
            let ghost old_cur = cur@;
            cur.push(c);
            assert(words_from(rest, old_cur) == words_from(v@.skip(i + 1), old_cur.push(c)));
        }
        i += 1;
    }
    if cur.len() > 0 {
        let ghost o = out@;
        out.push(cur);
        assert(views(out@) =~= views(o) + seq![cur@]);
    } else {
        assert(views(out@) =~= views(out@) + Seq::<Seq<char>>::empty());
    }
    out
}

/// Joins the words of `ws` with single spaces.
pub fn join_with_spaces(ws: &Vec<Vec<char>>) -> (out: Vec<char>)
    ensures
        out@ == join_words(views(ws@)),
{
    let mut out: Vec<char> = Vec::new();
    let mut i: usize = 0;
    while i < ws.len()
        invariant
            i <= ws.len(),
            out@ == join_words(views(ws@).take(i as int)),
        decreases ws.len() - i,
    {
        assert(views(ws@).take(i + 1).drop_last() =~= views(ws@).take(i as int));
        if i > 0 {
            out.push(' ');
        }
        let w = &ws[i];
        let mut k: usize = 0;
        let ghost base = out@;
        while k < w.len()
            invariant
                k <= w.len(),
                out@ == base + w@.take(k as int),
            decreases w.len() - k,
        {
            out.push(w[k]);
            assert(w@.take(k + 1) =~= w@.take(k as int).push(w@[k as int]));
            k += 1;
        }
        assert(w@.take(w.len() as int) =~= w@);
        if i == 0 {
            assert(base =~= Seq::<char>::empty());
        }
        i += 1;
    }
    assert(views(ws@).take(ws.len() as int) =~= views(ws@));
    out
}


/// `s` without the leading characters that satisfy `p`.
pub open spec fn trim_start_by(s: Seq<char>, p: spec_fn(char) -> bool) -> Seq<char>
    decreases s.len(),
{
    if s.len() > 0 && p(s[0]) {
        trim_start_by(s.drop_first(), p)
    } else {
        s
    }
}

/// `s` without the trailing characters that satisfy `p`.
pub open spec fn trim_end_by(s: Seq<char>, p: spec_fn(char) -> bool) -> Seq<char>
    decreases s.len(),
{
    if s.len() > 0 && p(s.last()) {
        trim_end_by(s.drop_last(), p)
    } else {
        s
    }
}

/// `s` without the leading and trailing characters that satisfy `p`.
pub open spec fn trim_by(s: Seq<char>, p: spec_fn(char) -> bool) -> Seq<char> {
    trim_end_by(trim_start_by(s, p), p)
}

/// `s` without leading and trailing whitespace, as `str::trim` leaves it.
pub open spec fn trim_ws(s: Seq<char>) -> Seq<char> {
    trim_by(s, |c: char| is_white(c))
}

/// The first index from `i` on whose character does not satisfy `p`.
pub open spec fn first_not_from(s: Seq<char>, i: int, p: spec_fn(char) -> bool) -> int
    decreases s.len() - i,
{
    if i < 0 {
        0
    } else if i >= s.len() {
        s.len() as int
    } else if p(s[i]) {
        first_not_from(s, i + 1, p)
    } else {
        i
    }
}

/// One past the last index before `k` whose character does not satisfy `p`.
pub open spec fn last_not_before(s: Seq<char>, k: int, p: spec_fn(char) -> bool) -> int
    decreases k,
{
    if k <= 0 {
        0
    } else if p(s[k - 1]) {
        last_not_before(s, k - 1, p)
    } else {
        k
    }
}

pub proof fn lemma_trim_start_skip(s: Seq<char>, i: int, p: spec_fn(char) -> bool)
    requires
        0 <= i <= s.len(),
    ensures
        trim_start_by(s.skip(i), p) == s.skip(first_not_from(s, i, p)),
        i <= first_not_from(s, i, p) <= s.len(),
    decreases s.len() - i,
{
    if i < s.len() && p(s[i]) {
        assert(s.skip(i).drop_first() =~= s.skip(i + 1));
        lemma_trim_start_skip(s, i + 1, p);
    }
}

pub proof fn lemma_trim_end_take(s: Seq<char>, k: int, p: spec_fn(char) -> bool)
    requires
        0 <= k <= s.len(),
    ensures
        trim_end_by(s.take(k), p) == s.take(last_not_before(s, k, p)),
        0 <= last_not_before(s, k, p) <= k,
    decreases k,
{
    if k > 0 && p(s[k - 1]) {
        assert(s.take(k).drop_last() =~= s.take(k - 1));
        lemma_trim_end_take(s, k - 1, p);
    }
}

/// The characters of `v` from `lo` up to `hi`.
pub fn slice_chars(v: &Vec<char>, lo: usize, hi: usize) -> (out: Vec<char>)
    requires
        lo <= hi <= v.len(),
    ensures
        out@ == v@.subrange(lo as int, hi as int),
{
    let mut out: Vec<char> = Vec::new();
    let mut i = lo;
    while i < hi
        invariant
            lo <= i <= hi <= v.len(),
            out@ == v@.subrange(lo as int, i as int),
        decreases hi - i,
    {
        out.push(v[i]);
        assert(v@.subrange(lo as int, i + 1) =~= v@.subrange(lo as int, i as int).push(v@[i as int]));
        i += 1;
    }
    out
}

/// `v` without leading and trailing whitespace.
pub fn trim_chars(v: &Vec<char>) -> (out: Vec<char>)
    ensures
        out@ == trim_ws(v@),
{
    let ghost p = |c: char| is_white(c);
    let mut lo: usize = 0;
    while lo < v.len() && char_is_whitespace(v[lo])
        invariant
            lo <= v.len(),
            p == (|c: char| is_white(c)),
            first_not_from(v@, 0, p) == first_not_from(v@, lo as int, p),
        decreases v.len() - lo,
    {
        assert(p(v@[lo as int]));
        lo += 1;
    }
    proof {
        lemma_trim_start_skip(v@, 0, p);
        assert(v@.skip(0) =~= v@);
    }
    let rest = slice_chars(v, lo, v.len());
    assert(rest@ =~= v@.skip(lo as int));
    let mut hi: usize = rest.len();
    while hi > 0 && char_is_whitespace(rest[hi - 1])
        invariant
            hi <= rest.len(),
            p == (|c: char| is_white(c)),
            last_not_before(rest@, rest.len() as int, p) == last_not_before(rest@, hi as int, p),
        decreases hi,
    {
        assert(p(rest@[hi - 1]));
        hi -= 1;
    }
    proof {
        lemma_trim_end_take(rest@, rest.len() as int, p);
        assert(rest@.take(rest.len() as int) =~= rest@);
    }
    let out = slice_chars(&rest, 0, hi);
    assert(out@ =~= rest@.take(hi as int));
    out
}

/// The `str::trim` of `s`.
pub fn trim_str(s: &str) -> (r: String)
    ensures
        r@ == trim_ws(s@),
{
    string_of(&trim_chars(&chars_of(s)))
}


/// Splitting at a space: the words of `a`, a space and `b`, with `cur`
/// pending, are those of `a` with `cur` pending followed by those of `b`.
pub proof fn lemma_words_from_space(a: Seq<char>, b: Seq<char>, cur: Seq<char>)
    ensures
        words_from(a + seq![' '] + b, cur) == words_from(a, cur) + words(b),
    decreases a.len(),
{
    let s = a + seq![' '] + b;
    if a.len() == 0 {
        assert(s.drop_first() =~= b);
        assert(s[0] == ' ');
        if cur.len() == 0 {
            assert(words_from(a, cur) =~= Seq::<Seq<char>>::empty());
            assert(words_from(s, cur) =~= words_from(a, cur) + words(b));
        } else {
            assert(words_from(a, cur) =~= seq![cur]);
        }
    } else {
        assert(s.drop_first() =~= a.drop_first() + seq![' '] + b);
        assert(s[0] == a[0]);
        if is_white(a[0]) {
            lemma_words_from_space(a.drop_first(), b, seq![]);
            if cur.len() > 0 {
                assert(seq![cur] + (words_from(a.drop_first(), seq![]) + words(b)) =~= (seq![cur]
                    + words_from(a.drop_first(), seq![])) + words(b));
            }
        } else {
            lemma_words_from_space(a.drop_first(), b, cur.push(a[0]));
        }
    }
}

/// The words of two texts joined by a space are the words of the first
/// followed by those of the second.
pub proof fn lemma_words_join_space(a: Seq<char>, b: Seq<char>)
    ensures
        words(a + seq![' '] + b) == words(a) + words(b),
{
    lemma_words_from_space(a, b, seq![]);
}

/// A run without whitespace, with `cur` pending, is one word.
proof fn lemma_words_from_solid(w: Seq<char>, cur: Seq<char>)
    requires
        forall|i: int| 0 <= i < w.len() ==> !is_white(#[trigger] w[i]),
        cur.len() + w.len() > 0,
    ensures
        words_from(w, cur) == seq![cur + w],
    decreases w.len(),
{
    if w.len() == 0 {
        assert(cur + w =~= cur);
    } else {
        assert(!is_white(w[0]));
        assert(cur.push(w[0]) + w.drop_first() =~= cur + w);
        lemma_words_from_solid(w.drop_first(), cur.push(w[0]));
    }
}

/// A whitespace character at the end adds no word.
proof fn lemma_words_from_white_end(s: Seq<char>, x: char, cur: Seq<char>)
    requires
        is_white(x),
    ensures
        words_from(s.push(x), cur) == words_from(s, cur),
    decreases s.len(),
{
    let t = s.push(x);
    if s.len() == 0 {
        assert(t.drop_first() =~= Seq::<char>::empty());
        if cur.len() > 0 {
            assert(seq![cur] + words_from(Seq::<char>::empty(), seq![]) =~= seq![cur]);
        }
    } else {
        assert(t[0] == s[0]);
        assert(t.drop_first() =~= s.drop_first().push(x));
        if is_white(s[0]) {
            lemma_words_from_white_end(s.drop_first(), x, seq![]);
        } else {
            lemma_words_from_white_end(s.drop_first(), x, cur.push(s[0]));
        }
    }
}

proof fn lemma_words_trim_start(s: Seq<char>, p: spec_fn(char) -> bool)
    requires
        forall|c: char| #[trigger] p(c) ==> is_white(c),
    ensures
        words(trim_start_by(s, p)) == words(s),
    decreases s.len(),
{
    if s.len() > 0 && p(s[0]) {
        lemma_words_trim_start(s.drop_first(), p);
    }
}

proof fn lemma_words_trim_end(s: Seq<char>, p: spec_fn(char) -> bool)
    requires
        forall|c: char| #[trigger] p(c) ==> is_white(c),
    ensures
        words(trim_end_by(s, p)) == words(s),
    decreases s.len(),
{
    if s.len() > 0 && p(s.last()) {
        lemma_words_trim_end(s.drop_last(), p);
        assert(s =~= s.drop_last().push(s.last()));
        lemma_words_from_white_end(s.drop_last(), s.last(), seq![]);
    }
}

/// Trimming whitespace keeps the words of a text.
pub proof fn lemma_words_trim(s: Seq<char>)
    ensures
        words(trim_ws(s)) == words(s),
{
    let p = |c: char| is_white(c);
    lemma_words_trim_start(s, p);
    lemma_words_trim_end(trim_start_by(s, p), p);
}

/// Whether `w` is a non-empty run of non-whitespace characters.
pub open spec fn is_solid(w: Seq<char>) -> bool {
    w.len() > 0 && forall|i: int| 0 <= i < w.len() ==> !is_white(#[trigger] w[i])
}

/// Splitting space-joined solid words gives the words back.
pub proof fn lemma_words_of_join(ws: Seq<Seq<char>>)
    requires
        forall|k: int| 0 <= k < ws.len() ==> is_solid(#[trigger] ws[k]),
    ensures
        words(join_words(ws)) == ws,
    decreases ws.len(),
{
    if ws.len() == 0 {
        assert(words(join_words(ws)) =~= ws);
    } else if ws.len() == 1 {
        assert(is_solid(ws[0]));
        lemma_words_from_solid(ws[0], seq![]);
        assert(seq![] + ws[0] =~= ws[0]);
        assert(words(join_words(ws)) =~= ws);
    } else {
        let init = ws.drop_last();
        assert forall|k: int| 0 <= k < init.len() implies is_solid(#[trigger] init[k]) by {
            assert(init[k] == ws[k]);
        }
        lemma_words_of_join(init);
        assert(is_solid(ws[ws.len() - 1]));
        lemma_words_join_space(join_words(init), ws.last());
        lemma_words_from_solid(ws.last(), seq![]);
        assert(seq![] + ws.last() =~= ws.last());
        assert(words(join_words(ws)) =~= ws);
    }
}

/// The words of any text are solid.
pub proof fn lemma_words_solid(s: Seq<char>, cur: Seq<char>)
    requires
        forall|i: int| 0 <= i < cur.len() ==> !is_white(#[trigger] cur[i]),
    ensures
        forall|k: int| 0 <= k < words_from(s, cur).len() ==> is_solid(#[trigger] words_from(s, cur)[k]),
    decreases s.len(),
{
    if s.len() == 0 {
        if cur.len() > 0 {
            assert(words_from(s, cur) =~= seq![cur]);
            assert(is_solid(cur));
        }
    } else {
        if is_white(s[0]) {
            lemma_words_solid(s.drop_first(), seq![]);
            if cur.len() > 0 {
                let r = words_from(s.drop_first(), seq![]);
                assert forall|k: int| 0 <= k < (seq![cur] + r).len() implies is_solid(
                    #[trigger] (seq![cur] + r)[k],
                ) by {
                    if k > 0 {
                        assert((seq![cur] + r)[k] == r[k - 1]);
                    } else {
                        assert((seq![cur] + r)[0] == cur);
                        assert(is_solid(cur));
                    }
                }
                assert(words_from(s, cur) == seq![cur] + r);
            } else {
                assert(words_from(s, cur) == words_from(s.drop_first(), seq![]));
            }
        } else {
            let c2 = cur.push(s[0]);
            assert forall|i: int| 0 <= i < c2.len() implies !is_white(#[trigger] c2[i]) by {
                if i < cur.len() {
                    assert(c2[i] == cur[i]);
                }
            }
            lemma_words_solid(s.drop_first(), c2);
            assert(words_from(s, cur) == words_from(s.drop_first(), c2));
        }
    }
}

} // verus!
