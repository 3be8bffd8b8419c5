//! Error-rate counting for transcripts: normalisation, word-level edit
//! decomposition (substitutions / insertions / deletions), character-level
//! edit distance, and greedy word matching for timestamp comparison.

use vstd::prelude::*;
use crate::text::{
    char_is_alphanumeric, char_is_whitespace, chars_eq, chars_of, char_vecs_of, is_alnum, is_white,
    join_with_spaces, join_words, lowercase_of, split_words, str_to_lowercase, string_of,
    string_views, views, words, words_from,
};

verus! {

/// What normalisation keeps of a lowered character: letters, digits, `_`,
/// `-` and `'` stay, everything else becomes a space.
pub open spec fn norm_char(c: char) -> char {
    if is_alnum(c) || c == '_' || c == '-' || c == '\'' {
        c
    } else {
        ' '
    }
}

/// Normalised text: lowered, punctuation blanked, words joined by one space.
pub open spec fn spec_normalize(text: Seq<char>) -> Seq<char> {
    join_words(words(lowercase_of(text).map_values(|c: char| norm_char(c))))
}

/// Lower-cases `text`, turns every character other than a letter, digit,
/// `_`, `-` or `'` into a space, and collapses whitespace to single spaces.
pub fn normalize_text(text: &str) -> (r: String)
    ensures
        r@ == spec_normalize(text@),
{
    let lowered = str_to_lowercase(text);
    let lc = chars_of(lowered.as_str());
    let mut mapped: Vec<char> = Vec::new();
    let mut i: usize = 0;
    while i < lc.len()
        invariant
            i <= lc.len(),
            mapped@ == lc@.take(i as int).map_values(|c: char| norm_char(c)),
        decreases lc.len() - i,
    {
        let c = lc[i];
        let m = if char_is_alphanumeric(c) || c == '_' || c == '-' || c == '\'' {
            c
        } else {
            ' '
        };
        mapped.push(m);
        assert(lc@.take(i + 1).map_values(|c: char| norm_char(c)) =~= lc@.take(i as int).map_values(
            |c: char| norm_char(c),
        ).push(m));
        i += 1;
    }
    assert(lc@.take(lc.len() as int) =~= lc@);
    let ws = split_words(&mapped);
    let joined = join_with_spaces(&ws);
    string_of(&joined)
}

/// One cell of the word-level edit table: `(distance, substitutions,
/// insertions, deletions)` for the first `i` reference and first `j`
/// hypothesis items. Equal items copy the diagonal; otherwise a
/// substitution is preferred, then a deletion, then an insertion, each only
/// when strictly cheaper than the choice before it.
pub open spec fn edit_cell<T>(r: Seq<T>, h: Seq<T>, i: int, j: int) -> (nat, nat, nat, nat)
    decreases i + j,
{
    if i <= 0 {
        let jj = if j <= 0 { 0nat } else { j as nat };
        (jj, 0, jj, 0)
    } else if j <= 0 {
        (i as nat, 0, 0, i as nat)
    } else if r[i - 1] == h[j - 1] {
        edit_cell(r, h, i - 1, j - 1)
    } else {
        let s = edit_cell(r, h, i - 1, j - 1);
        let d = edit_cell(r, h, i - 1, j);
        let n = edit_cell(r, h, i, j - 1);
        let sub = (s.0 + 1, s.1 + 1, s.2, s.3);
        let del = (d.0 + 1, d.1, d.2, d.3 + 1);
        let ins = (n.0 + 1, n.1, n.2 + 1, n.3);
        let b1 = if del.0 < sub.0 { del } else { sub };
        if ins.0 < b1.0 { ins } else { b1 }
    }
}

/// Levenshtein distance between the first `i` items of `r` and the first
/// `j` items of `h`.
pub open spec fn lev<T>(r: Seq<T>, h: Seq<T>, i: int, j: int) -> nat
    decreases i + j,
{
    if i <= 0 {
        if j <= 0 { 0 } else { j as nat }
    } else if j <= 0 {
        i as nat
    } else {
        let cost: nat = if r[i - 1] == h[j - 1] { 0 } else { 1 };
        let a = lev(r, h, i - 1, j) + 1;
        let b = lev(r, h, i, j - 1) + 1;
        let c = lev(r, h, i - 1, j - 1) + cost;
        let m1 = if a < b { a } else { b };
        if c < m1 { c } else { m1 }
    }
}

/// The Levenshtein distance of whole sequences.
pub open spec fn edit_distance<T>(r: Seq<T>, h: Seq<T>) -> nat {
    lev(r, h, r.len() as int, h.len() as int)
}

/// Word-level edit counts of a reference against a hypothesis.
#[derive(Debug, Clone, Copy, PartialEq, Eq, Structural)]
pub struct WerCounts {
    pub distance: usize,
    pub substitutions: usize,
    pub insertions: usize,
    pub deletions: usize,
    pub ref_words: usize,
    pub hyp_words: usize,
}

/// Character-level edit counts of a reference against a hypothesis.
#[derive(Debug, Clone, Copy, PartialEq, Eq, Structural)]
pub struct CerCounts {
    pub edits: usize,
    pub ref_chars: usize,
    pub hyp_chars: usize,
}

/// The components of a cell sum to its distance, and the distance is at
/// most the longer prefix.
pub proof fn lemma_edit_cell_bounds<T>(r: Seq<T>, h: Seq<T>, i: int, j: int)
    requires
        0 <= i,
        0 <= j,
    ensures
        edit_cell(r, h, i, j).0 == edit_cell(r, h, i, j).1 + edit_cell(r, h, i, j).2 + edit_cell(
            r,
            h,
            i,
            j,
        ).3,
        edit_cell(r, h, i, j).0 <= if i < j { j } else { i },
    decreases i + j,
{
    if i > 0 && j > 0 {
        lemma_edit_cell_bounds(r, h, i - 1, j - 1);
        lemma_edit_cell_bounds(r, h, i - 1, j);
        lemma_edit_cell_bounds(r, h, i, j - 1);
    }
}

/// The Levenshtein distance is at most the longer prefix.
pub proof fn lemma_lev_bound<T>(r: Seq<T>, h: Seq<T>, i: int, j: int)
    requires
        0 <= i,
        0 <= j,
    ensures
        lev(r, h, i, j) <= if i < j { j } else { i },
    decreases i + j,
{
    if i > 0 && j > 0 {
        lemma_lev_bound(r, h, i - 1, j - 1);
    }
}


/// Whether an executable cell holds the values of a spec cell.
pub open spec fn cell_is(c: (usize, usize, usize, usize), s: (nat, nat, nat, nat)) -> bool {
    c.0 == s.0 && c.1 == s.1 && c.2 == s.2 && c.3 == s.3
}

/// The `(distance, substitutions, insertions, deletions)` cell for the whole
/// word sequences `rw` and `hw`.
pub fn word_edit_table(rw: &Vec<Vec<char>>, hw: &Vec<Vec<char>>) -> (c: (
    usize,
    usize,
    usize,
    usize,
))
    ensures
        cell_is(c, edit_cell(views(rw@), views(hw@), rw.len() as int, hw.len() as int)),
{
    let n = rw.len();
    let m = hw.len();
    let ghost rs = views(rw@);
    let ghost hs = views(hw@);
    let mut prev: Vec<(usize, usize, usize, usize)> = Vec::new();
    let mut j: usize = 0;
    while j < m
        invariant
            j <= m,
            m == hw.len(),
            prev.len() == j,
            forall|k: int| 0 <= k < j ==> cell_is(#[trigger] prev@[k], edit_cell(rs, hs, 0, k + 1)),
        decreases m - j,
    {
        prev.push((j + 1, 0, j + 1, 0));
        j += 1;
    }
    let mut i: usize = 0;
    while i < n
        invariant
            i <= n,
            n == rw.len(),
            m == hw.len(),
            rs == views(rw@),
            hs == views(hw@),
            prev.len() == m,
            forall|k: int| 0 <= k < m ==> cell_is(#[trigger] prev@[k], edit_cell(rs, hs, i as int, k + 1)),
        decreases n - i,
    {
        let mut cur: Vec<(usize, usize, usize, usize)> = Vec::new();
        let mut j: usize = 0;
        while j < m
            invariant
                i < n,
                j <= m,
                n == rw.len(),
                m == hw.len(),
                rs == views(rw@),
                hs == views(hw@),
                prev.len() == m,
                cur.len() == j,
                forall|k: int| 0 <= k < m ==> cell_is(#[trigger] prev@[k], edit_cell(rs, hs, i as int, k + 1)),
                forall|k: int| 0 <= k < j ==> cell_is(#[trigger] cur@[k], edit_cell(rs, hs, i + 1, k + 1)),
            decreases m - j,
        {
            proof {
                lemma_edit_cell_bounds(rs, hs, i as int, j as int);
                lemma_edit_cell_bounds(rs, hs, i as int, j + 1);
                lemma_edit_cell_bounds(rs, hs, i + 1, j as int);
            }
            let diag = if j == 0 {
                (i, 0, 0, i)
            } else {
                prev[j - 1]
            };
            let up = prev[j];
            let left = if j == 0 {
                (i + 1, 0, 0, i + 1)
            } else {
                cur[j - 1]
            };
            assert(cell_is(diag, edit_cell(rs, hs, i as int, j as int)));
            assert(cell_is(up, edit_cell(rs, hs, i as int, j + 1)));
            assert(cell_is(left, edit_cell(rs, hs, i + 1, j as int)));
            let v = if chars_eq(&rw[i], &hw[j]) {
                diag
            } else {
                // Compare before adding one, so only the chosen cell is incremented.
                if up.0 < diag.0 {
                    if left.0 < up.0 {
                        (left.0 + 1, left.1, left.2 + 1, left.3)
                    } else {
                        (up.0 + 1, up.1, up.2, up.3 + 1)
                    }
                } else if left.0 < diag.0 {
                    (left.0 + 1, left.1, left.2 + 1, left.3)
                } else {
                    (diag.0 + 1, diag.1 + 1, diag.2, diag.3)
                }
            };
            assert(cell_is(v, edit_cell(rs, hs, i + 1, j + 1)));
            cur.push(v);
            j += 1;
        }
        prev = cur;
        i += 1;
    }
    if m == 0 {
        (n, 0, 0, n)
    } else {
        prev[m - 1]
    }
}

/// Word-level edit counts of `reference` against `hypothesis`, both
/// normalised first; the counts are those of the final cell of the edit
/// table over the normalised words.
pub fn compute_wer_counts(reference: &str, hypothesis: &str) -> (c: WerCounts)
    ensures
        ({
            let rw = words(spec_normalize(reference@));
            let hw = words(spec_normalize(hypothesis@));
            let e = edit_cell(rw, hw, rw.len() as int, hw.len() as int);
            &&& c.ref_words == rw.len()
            &&& c.hyp_words == hw.len()
            &&& c.distance == e.0
            &&& c.substitutions == e.1
            &&& c.insertions == e.2
            &&& c.deletions == e.3
        }),
{
    let r = normalize_text(reference);
    let h = normalize_text(hypothesis);
    let rw = split_words(&chars_of(r.as_str()));
    let hw = split_words(&chars_of(h.as_str()));
    let c = word_edit_table(&rw, &hw);
    WerCounts {
        distance: c.0,
        substitutions: c.1,
        insertions: c.2,
        deletions: c.3,
        ref_words: rw.len(),
        hyp_words: hw.len(),
    }
}


/// The characters of `s` that are not whitespace, in order.
pub open spec fn non_white(s: Seq<char>) -> Seq<char>
    decreases s.len(),
{
    if s.len() == 0 {
        seq![]
    } else if is_white(s.last()) {
        non_white(s.drop_last())
    } else {
        non_white(s.drop_last()).push(s.last())
    }
}

/// The non-whitespace characters of the normalised text.
pub open spec fn cer_chars(text: Seq<char>) -> Seq<char> {
    non_white(spec_normalize(text))
}

/// The non-whitespace characters of `v`.
fn drop_whitespace(v: &Vec<char>) -> (out: Vec<char>)
    ensures
        out@ == non_white(v@),
{
    let mut out: Vec<char> = Vec::new();
    let mut i: usize = 0;
    while i < v.len()
        invariant
            i <= v.len(),
            out@ == non_white(v@.take(i as int)),
        decreases v.len() - i,
    {
        assert(v@.take(i + 1).drop_last() =~= v@.take(i as int));
        if !char_is_whitespace(v[i]) {
            out.push(v[i]);
        }
        i += 1;
    }
    assert(v@.take(v.len() as int) =~= v@);
    out
}

/// Levenshtein distance between the character vectors `r` and `h`.
pub fn char_edit_distance(r: &Vec<char>, h: &Vec<char>) -> (d: usize)
    ensures
        d == edit_distance(r@, h@),
{
    let n = r.len();
    let m = h.len();
    let mut prev: Vec<usize> = Vec::new();
    let mut j: usize = 0;
    while j < m
        invariant
            j <= m,
            m == h.len(),
            prev.len() == j,
            forall|k: int| 0 <= k < j ==> #[trigger] prev@[k] == lev(r@, h@, 0, k + 1),
        decreases m - j,
    {
        prev.push(j + 1);
        j += 1;
    }
    let mut i: usize = 0;
    while i < n
        invariant
            i <= n,
            n == r.len(),
            m == h.len(),
            prev.len() == m,
            forall|k: int| 0 <= k < m ==> #[trigger] prev@[k] == lev(r@, h@, i as int, k + 1),
        decreases n - i,
    {
        let mut cur: Vec<usize> = Vec::new();
        let mut j: usize = 0;
        while j < m
            invariant
                i < n,
                j <= m,
                n == r.len(),
                m == h.len(),
                prev.len() == m,
                cur.len() == j,
                forall|k: int| 0 <= k < m ==> #[trigger] prev@[k] == lev(r@, h@, i as int, k + 1),
                forall|k: int| 0 <= k < j ==> #[trigger] cur@[k] == lev(r@, h@, i + 1, k + 1),
            decreases m - j,
        {
            proof {
                lemma_lev_bound(r@, h@, i as int, j as int);
            }
            let diag = if j == 0 {
                i
            } else {
                prev[j - 1]
            };
            let up = prev[j];
            let left = if j == 0 {
                i + 1
            } else {
                cur[j - 1]
            };
            let cost: usize = if r[i] == h[j] {
                0
            } else {
                1
            };
            let ab = if up < left {
                up
            } else {
                left
            };
            assert(diag == lev(r@, h@, i as int, j as int));
            assert(up == lev(r@, h@, i as int, j + 1));
            assert(left == lev(r@, h@, i + 1, j as int));
            let v = if diag + cost <= ab {
                diag + cost
            } else {
                ab + 1
            };
            assert(v == lev(r@, h@, i + 1, j + 1));
            let ghost old_cur = cur@;
            cur.push(v);
            assert(cur@ =~= old_cur.push(v));
            j += 1;
        }
        prev = cur;
        i += 1;
    }
    if m == 0 {
        n
    } else {
        prev[m - 1]
    }
}

/// Character-level edit counts of `reference` against `hypothesis`: both
/// are normalised and stripped of whitespace, then compared character by
/// character.
pub fn compute_cer_counts(reference: &str, hypothesis: &str) -> (c: CerCounts)
    ensures
        c.ref_chars == cer_chars(reference@).len(),
        c.hyp_chars == cer_chars(hypothesis@).len(),
        c.edits == edit_distance(cer_chars(reference@), cer_chars(hypothesis@)),
{
    let r = drop_whitespace(&chars_of(normalize_text(reference).as_str()));
    let h = drop_whitespace(&chars_of(normalize_text(hypothesis).as_str()));
    let d = char_edit_distance(&r, &h);
    CerCounts { edits: d, ref_chars: r.len(), hyp_chars: h.len() }
}

/// The first index in `lo..hi` at which `r` holds `w`, if any.
pub open spec fn first_match(w: Seq<char>, r: Seq<Seq<char>>, lo: int, hi: int) -> Option<int>
    decreases hi - lo,
{
    if lo >= hi {
        None
    } else if r[lo] == w {
        Some(lo)
    } else {
        first_match(w, r, lo + 1, hi)
    }
}

/// Greedy left-to-right matching of predicted words against reference
/// words, from predicted index `pi` and reference cursor `ri`: an empty
/// predicted word is skipped; otherwise the next three reference words are
/// searched and the first equal one is matched, moving the cursor past it.
pub open spec fn greedy_from(p: Seq<Seq<char>>, r: Seq<Seq<char>>, pi: int, ri: int) -> Seq<(int, int)>
    decreases p.len() - pi,
{
    if pi < 0 || pi >= p.len() {
        seq![]
    } else if p[pi].len() == 0 {
        greedy_from(p, r, pi + 1, ri)
    } else {
        let hi = if ri + 3 < r.len() { ri + 3 } else { r.len() as int };
        match first_match(p[pi], r, ri, hi) {
            Some(k) => seq![(pi, k)] + greedy_from(p, r, pi + 1, k + 1),
            None => greedy_from(p, r, pi + 1, ri),
        }
    }
}

/// The normalised forms of a sequence of words.
pub open spec fn normalized_all(ws: Seq<String>) -> Seq<Seq<char>> {
    Seq::new(ws.len(), |i: int| spec_normalize(ws[i]@))
}

/// Index pairs as mathematical integers.
pub open spec fn pairs_view(v: Seq<(usize, usize)>) -> Seq<(int, int)> {
    Seq::new(v.len(), |i: int| (v[i].0 as int, v[i].1 as int))
}

/// Pairs `(predicted index, reference index)` matched greedily on
/// normalised words, in increasing order of both indices.
pub fn match_timed_words(predicted: &Vec<String>, reference: &Vec<String>) -> (pairs: Vec<(usize, usize)>)
    ensures
        pairs_view(pairs@) == greedy_from(normalized_all(predicted@), normalized_all(reference@), 0, 0),
{
    let ghost ps = normalized_all(predicted@);
    let ghost rs = normalized_all(reference@);
    let mut pn: Vec<Vec<char>> = Vec::new();
    let mut k: usize = 0;
    while k < predicted.len()
        invariant
            k <= predicted.len(),
            pn.len() == k,
            ps == normalized_all(predicted@),
            forall|q: int| 0 <= q < k ==> #[trigger] pn@[q]@ == ps[q],
        decreases predicted.len() - k,
    {
        pn.push(chars_of(normalize_text(predicted[k].as_str()).as_str()));
        k += 1;
    }
    let mut rn: Vec<Vec<char>> = Vec::new();
    let mut k: usize = 0;
    while k < reference.len()
        invariant
            k <= reference.len(),
            rn.len() == k,
            rs == normalized_all(reference@),
            forall|q: int| 0 <= q < k ==> #[trigger] rn@[q]@ == rs[q],
        decreases reference.len() - k,
    {
        rn.push(chars_of(normalize_text(reference[k].as_str()).as_str()));
        k += 1;
    }
    assert(views(pn@) =~= ps);
    assert(views(rn@) =~= rs);
    let mut out: Vec<(usize, usize)> = Vec::new();
    let ghost mut spec_out: Seq<(int, int)> = seq![];
    let mut ri: usize = 0;
    let mut pi: usize = 0;
    assert(pairs_view(out@) =~= spec_out);
    assert(greedy_from(ps, rs, 0, 0) =~= spec_out + greedy_from(ps, rs, 0, 0));
    while pi < pn.len()
        invariant
            pi <= pn.len(),
            ri <= rn.len(),
            pn.len() == ps.len(),
            rn.len() == rs.len(),
            views(pn@) == ps,
            views(rn@) == rs,
            greedy_from(ps, rs, 0, 0) == spec_out + greedy_from(ps, rs, pi as int, ri as int),
            pairs_view(out@) == spec_out,
        decreases pn.len() - pi,
    {
        assert(ps[pi as int] == pn@[pi as int]@);
        if pn[pi].len() == 0 {
            pi += 1;
        } else {
            let hi = if rn.len() - ri > 3 {
                ri + 3
            } else {
                rn.len()
            };
            let mut q = ri;
            let mut found = false;
            while q < hi
                invariant_except_break
                    !found,
                invariant
                    ri <= q <= hi,
                    hi <= rn.len(),
                    views(rn@) == rs,
                    views(pn@) == ps,
                    pi < pn.len(),
                    first_match(ps[pi as int], rs, ri as int, hi as int) == first_match(
                        ps[pi as int],
                        rs,
                        q as int,
                        hi as int,
                    ),
                ensures
                    found ==> q < hi && rs[q as int] == ps[pi as int],
                    !found ==> q == hi,
                    first_match(ps[pi as int], rs, ri as int, hi as int) == first_match(
                        ps[pi as int],
                        rs,
                        q as int,
                        hi as int,
                    ),
                decreases hi - q,
            {
                assert(rs[q as int] == rn@[q as int]@);
                if chars_eq(&rn[q], &pn[pi]) {
                    found = true;
                    break;
                }
                q += 1;
            }
            assert(pn@[pi as int]@.len() != 0);
            if found {
                let ghost tail = greedy_from(ps, rs, pi + 1, q + 1);
                assert(greedy_from(ps, rs, pi as int, ri as int) == seq![(pi as int, q as int)] + tail);
                assert(spec_out + (seq![(pi as int, q as int)] + tail) =~= (spec_out + seq![(pi as int, q as int)]) + tail);
                let ghost old_spec = spec_out;
                proof {
                    spec_out = spec_out + seq![(pi as int, q as int)];
                }
                let ghost old_out = out@;
                out.push((pi, q));
                assert(out@ =~= old_out.push((pi, q)));
                assert(pairs_view(out@) =~= spec_out);
                ri = q + 1;
            } else {
                assert(greedy_from(ps, rs, pi as int, ri as int) == greedy_from(ps, rs, pi + 1, ri as int));
            }
            pi += 1;
        }
    }
    out
}


/// The Levenshtein distance is at least the difference of the prefix lengths.
pub proof fn lemma_lev_lower(r: Seq<Seq<char>>, h: Seq<Seq<char>>, i: int, j: int)
    requires
        0 <= i,
        0 <= j,
    ensures
        lev(r, h, i, j) >= i - j,
        lev(r, h, i, j) >= j - i,
    decreases i + j,
{
    if i > 0 && j > 0 {
        lemma_lev_lower(r, h, i - 1, j);
        lemma_lev_lower(r, h, i, j - 1);
        lemma_lev_lower(r, h, i - 1, j - 1);
    }
}

/// Dropping one hypothesis item changes the distance by at most one.
pub proof fn lemma_lev_adj_j(r: Seq<Seq<char>>, h: Seq<Seq<char>>, i: int, j: int)
    requires
        0 <= i,
        1 <= j,
    ensures
        lev(r, h, i, j - 1) <= lev(r, h, i, j) + 1,
    decreases i + j,
{
    if i == 0 {
    } else if j == 1 {
        lemma_lev_lower(r, h, i, 1);
    } else {
        lemma_lev_adj_j(r, h, i - 1, j);
    }
}

/// Dropping one reference item changes the distance by at most one.
pub proof fn lemma_lev_adj_i(r: Seq<Seq<char>>, h: Seq<Seq<char>>, i: int, j: int)
    requires
        1 <= i,
        0 <= j,
    ensures
        lev(r, h, i - 1, j) <= lev(r, h, i, j) + 1,
    decreases i + j,
{
    if j == 0 {
    } else if i == 1 {
        lemma_lev_lower(r, h, 1, j);
    } else {
        lemma_lev_adj_i(r, h, i, j - 1);
    }
}

/// The distance that the decomposing edit table reports is the Levenshtein
/// distance: the tie-breaking between substitution, deletion and insertion
/// changes only the decomposition, never the total.
pub proof fn law_edit_table_distance_is_levenshtein(r: Seq<Seq<char>>, h: Seq<Seq<char>>, i: int, j: int)
    requires
        0 <= i,
        0 <= j,
    ensures
        edit_cell(r, h, i, j).0 == lev(r, h, i, j),
    decreases i + j,
{
    if i > 0 && j > 0 {
        law_edit_table_distance_is_levenshtein(r, h, i - 1, j - 1);
        law_edit_table_distance_is_levenshtein(r, h, i - 1, j);
        law_edit_table_distance_is_levenshtein(r, h, i, j - 1);
        if r[i - 1] == h[j - 1] {
            lemma_lev_adj_j(r, h, i - 1, j);
            lemma_lev_adj_i(r, h, i, j - 1);
        }
    }
}

/// Substitutions, insertions and deletions add up to the word distance.
pub proof fn law_wer_parts_sum_to_distance(reference: Seq<char>, hypothesis: Seq<char>)
    ensures
        ({
            let rw = words(spec_normalize(reference));
            let hw = words(spec_normalize(hypothesis));
            let e = edit_cell(rw, hw, rw.len() as int, hw.len() as int);
            e.0 == e.1 + e.2 + e.3 && e.0 == edit_distance(rw, hw)
        }),
{
    let rw = words(spec_normalize(reference));
    let hw = words(spec_normalize(hypothesis));
    lemma_edit_cell_bounds(rw, hw, rw.len() as int, hw.len() as int);
    law_edit_table_distance_is_levenshtein(rw, hw, rw.len() as int, hw.len() as int);
}

/// A sequence compared with itself needs no edits at all.
pub proof fn law_identical_needs_no_edits<T>(w: Seq<T>, i: int)
    requires
        0 <= i,
    ensures
        edit_cell(w, w, i, i) == (0nat, 0nat, 0nat, 0nat),
        lev(w, w, i, i) == 0,
    decreases i,
{
    if i > 0 {
        law_identical_needs_no_edits(w, i - 1);
    }
}

/// Against an empty reference every hypothesis item is an insertion.
pub proof fn law_empty_reference_is_all_insertions<T>(r: Seq<T>, h: Seq<T>)
    requires
        r.len() == 0,
    ensures
        edit_cell(r, h, 0, h.len() as int) == (h.len(), 0nat, h.len(), 0nat),
        edit_distance(r, h) == h.len(),
{
}


/// A character that normalised text keeps inside words: a letter, a digit,
/// `_`, `-` or `'`.
pub open spec fn is_word_char(c: char) -> bool {
    is_alnum(c) || c == '_' || c == '-' || c == '\''
}

/// Normalisation of text that is already lower-cased: punctuation blanked,
/// words joined by one space.
pub open spec fn normalize_lowered(s: Seq<char>) -> Seq<char> {
    join_words(words(s.map_values(|c: char| norm_char(c))))
}

/// Whether every word of `ws` is non-empty and made of word characters.
pub open spec fn all_word_chars(ws: Seq<Seq<char>>) -> bool {
    forall|k: int|
        0 <= k < ws.len() ==> #[trigger] ws[k].len() > 0 && forall|i: int|
            0 <= i < ws[k].len() ==> is_word_char(#[trigger] ws[k][i])
}

proof fn lemma_words_word_chars(s: Seq<char>, cur: Seq<char>)
    requires
        forall|i: int| 0 <= i < s.len() ==> is_white(#[trigger] s[i]) || is_word_char(s[i]),
        forall|i: int| 0 <= i < cur.len() ==> is_word_char(#[trigger] cur[i]),
    ensures
        all_word_chars(words_from(s, cur)),
    decreases s.len(),
{
    if s.len() == 0 {
        if cur.len() > 0 {
            assert(words_from(s, cur) =~= seq![cur]);
        }
    } else {
        assert(is_white(s[0]) || is_word_char(s[0]));
        let rest = s.drop_first();
        assert forall|i: int| 0 <= i < rest.len() implies is_white(#[trigger] rest[i]) || is_word_char(
            rest[i],
        ) by {
            assert(rest[i] == s[i + 1]);
        }
        if is_white(s[0]) {
            lemma_words_word_chars(rest, seq![]);
            let r = words_from(rest, seq![]);
            if cur.len() > 0 {
                let t = seq![cur] + r;
                assert forall|k: int| 0 <= k < t.len() implies #[trigger] t[k].len() > 0 && forall|i: int|
                    0 <= i < t[k].len() ==> is_word_char(#[trigger] t[k][i]) by {
                    if k > 0 {
                        assert(t[k] == r[k - 1]);
                    } else {
                        assert(t[0] == cur);
                    }
                }
                assert(words_from(s, cur) == t);
            } else {
                assert(words_from(s, cur) == r);
            }
        } else {
            let c2 = cur.push(s[0]);
            assert forall|i: int| 0 <= i < c2.len() implies is_word_char(#[trigger] c2[i]) by {
                if i < cur.len() {
                    assert(c2[i] == cur[i]);
                }
            }
            lemma_words_word_chars(rest, c2);
            assert(words_from(s, cur) == words_from(rest, c2));
        }
    }
}

/// The space-joined text of non-empty words of word characters: each
/// character is a space or a word character, it neither starts nor ends
/// with a space, and no two spaces are adjacent.
proof fn lemma_join_shape(ws: Seq<Seq<char>>)
    requires
        all_word_chars(ws),
    ensures
        ({
            let j = join_words(ws);
            &&& ws.len() > 0 ==> j.len() > 0 && is_word_char(j[0]) && is_word_char(j[j.len() - 1])
            &&& forall|i: int| 0 <= i < j.len() ==> #[trigger] j[i] == ' ' || is_word_char(j[i])
            &&& forall|i: int| 0 <= i < j.len() - 1 ==> !(#[trigger] j[i] == ' ' && j[i + 1] == ' ')
        }),
    decreases ws.len(),
{
    if ws.len() == 1 {
        assert(ws[0].len() > 0);
        assert(is_word_char(ws[0][0]));
        assert(is_word_char(ws[0][ws[0].len() - 1]));
        assert forall|i: int| 0 <= i < ws[0].len() implies #[trigger] ws[0][i] == ' ' || is_word_char(ws[0][i]) by {
            assert(is_word_char(ws[0][i]));
        }
        assert forall|i: int| 0 <= i < ws[0].len() - 1 implies !(#[trigger] ws[0][i] == ' ' && ws[0][i
            + 1] == ' ') by {
            assert(is_word_char(ws[0][i]));
        }
    } else if ws.len() > 1 {
        let init = ws.drop_last();
        let w = ws.last();
        assert forall|k: int| 0 <= k < init.len() implies #[trigger] init[k].len() > 0 && forall|i: int|
            0 <= i < init[k].len() ==> is_word_char(#[trigger] init[k][i]) by {
            assert(init[k] == ws[k]);
        }
        lemma_join_shape(init);
        let j0 = join_words(init);
        let j = join_words(ws);
        assert(j == j0 + seq![' '] + w);
        assert(w == ws[ws.len() - 1]);
        assert(w.len() > 0);
        assert forall|i: int| 0 <= i < w.len() implies is_word_char(#[trigger] w[i]) by {
            assert(is_word_char(ws[ws.len() - 1][i]));
        }
        assert(is_word_char(j[0])) by {
            assert(j[0] == j0[0]);
        }
        assert(is_word_char(j[j.len() - 1])) by {
            assert(j[j.len() - 1] == w[w.len() - 1]);
        }
        assert forall|i: int| 0 <= i < j.len() implies #[trigger] j[i] == ' ' || is_word_char(j[i]) by {
            if i < j0.len() {
                assert(j[i] == j0[i]);
            } else if i > j0.len() {
                assert(j[i] == w[i - j0.len() - 1]);
            }
        }
        assert forall|i: int| 0 <= i < j.len() - 1 implies !(#[trigger] j[i] == ' ' && j[i + 1] == ' ') by {
            if i < j0.len() - 1 {
                assert(j[i] == j0[i] && j[i + 1] == j0[i + 1]);
            } else if i == j0.len() - 1 {
                assert(j[i] == j0[j0.len() - 1]);
            } else if i == j0.len() {
                assert(j[i + 1] == w[0]);
            } else {
                assert(j[i + 1] == w[i + 1 - j0.len() - 1]);
                assert(is_word_char(w[i + 1 - j0.len() - 1]));
            }
        }
    }
}

/// Normalised text is trimmed and single-spaced: it neither starts nor
/// ends with whitespace, holds only spaces and word characters, never two
/// spaces in a row, and is the space-join of its own words. Normalising it
/// again after lower-casing changes nothing, so normalising is idempotent
/// on any result that lower-casing leaves as it is.
pub proof fn law_normalized_text_is_canonical(text: Seq<char>)
    ensures
        ({
            let r = spec_normalize(text);
            &&& r == normalize_lowered(lowercase_of(text))
            &&& r.len() == 0 || (!is_white(r[0]) && !is_white(r[r.len() - 1]))
            &&& forall|i: int| 0 <= i < r.len() ==> #[trigger] r[i] == ' ' || is_word_char(r[i])
            &&& forall|i: int| 0 <= i < r.len() - 1 ==> !(#[trigger] r[i] == ' ' && r[i + 1] == ' ')
            &&& join_words(words(r)) == r
            &&& normalize_lowered(r) == r
            &&& lowercase_of(r) == r ==> spec_normalize(r) == r
        }),
{
    let m = lowercase_of(text).map_values(|c: char| norm_char(c));
    assert forall|i: int| 0 <= i < m.len() implies is_white(#[trigger] m[i]) || is_word_char(m[i]) by {
    }
    lemma_words_word_chars(m, seq![]);
    let ws = words(m);
    lemma_join_shape(ws);
    let r = join_words(ws);
    assert forall|k: int| 0 <= k < ws.len() implies crate::text::is_solid(#[trigger] ws[k]) by {
        assert(ws[k].len() > 0);
        assert forall|i: int| 0 <= i < ws[k].len() implies !is_white(#[trigger] ws[k][i]) by {
            assert(is_word_char(ws[k][i]));
        }
    }
    crate::text::lemma_words_of_join(ws);
    let rm = r.map_values(|c: char| norm_char(c));
    assert(rm =~= r) by {
        assert forall|i: int| 0 <= i < r.len() implies rm[i] == r[i] by {
            assert(r[i] == ' ' || is_word_char(r[i]));
        }
    }
    if r.len() > 0 {
        assert(ws.len() > 0) by {
            if ws.len() == 0 {
                assert(join_words(ws) =~= Seq::<char>::empty());
            }
        }
    }
}


/// Normalisation keeps every lowered letter, digit, `_`, `-` and
/// apostrophe as it is, and blanks every other character to a space.
pub proof fn law_word_characters_survive_normalization(c: char)
    ensures
        (is_alnum(c) || c == '_' || c == '-' || c == '\'') ==> norm_char(c) == c,
        !(is_alnum(c) || c == '_' || c == '-' || c == '\'') ==> norm_char(c) == ' ',
{
}

/// Text whose lower-cased form is words of letters, digits, `_`, `-` and
/// apostrophes joined by single spaces normalises to that lower-cased text,
/// and its normalised words are exactly those words: a contraction such as
/// "don't" stays one word.
pub proof fn law_word_character_text_is_kept(text: Seq<char>, ws: Seq<Seq<char>>)
    requires
        forall|k: int|
            0 <= k < ws.len() ==> #[trigger] ws[k].len() > 0 && forall|i: int|
                0 <= i < ws[k].len() ==> (is_alnum(#[trigger] ws[k][i]) || ws[k][i] == '_'
                    || ws[k][i] == '-' || ws[k][i] == '\''),
        lowercase_of(text) == join_words(ws),
    ensures
        spec_normalize(text) == join_words(ws),
        words(spec_normalize(text)) == ws,
{
    assert(all_word_chars(ws));
    lemma_join_shape(ws);
    let s = join_words(ws);
    let m = s.map_values(|c: char| norm_char(c));
    assert(m =~= s) by {
        assert forall|i: int| 0 <= i < s.len() implies m[i] == s[i] by {
            assert(s[i] == ' ' || is_word_char(s[i]));
        }
    }
    assert forall|k: int| 0 <= k < ws.len() implies crate::text::is_solid(#[trigger] ws[k]) by {
        assert(ws[k].len() > 0);
        assert forall|i: int| 0 <= i < ws[k].len() implies !is_white(#[trigger] ws[k][i]) by {
            assert(is_word_char(ws[k][i]));
        }
    }
    crate::text::lemma_words_of_join(ws);
    assert(spec_normalize(text) == join_words(words(m)));
}

proof fn lemma_cell_balance<T>(r: Seq<T>, h: Seq<T>, i: int, j: int)
    requires
        0 <= i,
        0 <= j,
    ensures
        edit_cell(r, h, i, j).3 - edit_cell(r, h, i, j).2 == i - j,
    decreases i + j,
{
    if i > 0 && j > 0 {
        lemma_cell_balance(r, h, i - 1, j - 1);
        lemma_cell_balance(r, h, i - 1, j);
        lemma_cell_balance(r, h, i, j - 1);
    }
}

/// Deletions minus insertions is the reference word count minus the
/// hypothesis word count.
pub proof fn law_deletions_minus_insertions(reference: Seq<char>, hypothesis: Seq<char>)
    ensures
        ({
            let rw = words(spec_normalize(reference));
            let hw = words(spec_normalize(hypothesis));
            let e = edit_cell(rw, hw, rw.len() as int, hw.len() as int);
            e.3 - e.2 == rw.len() - hw.len()
        }),
{
    let rw = words(spec_normalize(reference));
    let hw = words(spec_normalize(hypothesis));
    lemma_cell_balance(rw, hw, rw.len() as int, hw.len() as int);
}


proof fn lemma_first_match(w: Seq<char>, r: Seq<Seq<char>>, lo: int, hi: int)
    ensures
        first_match(w, r, lo, hi) matches Some(k) ==> lo <= k < hi && r[k] == w,
    decreases hi - lo,
{
    if lo < hi && r[lo] != w {
        lemma_first_match(w, r, lo + 1, hi);
    }
}

/// Whether `m` pairs equal non-empty predicted and reference words, with
/// predicted indices from `pi` and reference indices from `ri` on, both
/// strictly increasing along `m`.
pub open spec fn increasing_matches(
    p: Seq<Seq<char>>,
    r: Seq<Seq<char>>,
    m: Seq<(int, int)>,
    pi: int,
    ri: int,
) -> bool {
    &&& forall|k: int|
        0 <= k < m.len() ==> {
            &&& pi <= (#[trigger] m[k]).0 < p.len()
            &&& ri <= m[k].1 < r.len()
            &&& p[m[k].0] == r[m[k].1]
            &&& p[m[k].0].len() > 0
        }
    &&& forall|i: int, j: int|
        0 <= i < j < m.len() ==> (#[trigger] m[i]).0 < (#[trigger] m[j]).0 && m[i].1 < m[j].1
}

proof fn lemma_greedy_increasing(p: Seq<Seq<char>>, r: Seq<Seq<char>>, pi: int, ri: int)
    requires
        0 <= pi,
        0 <= ri,
    ensures
        increasing_matches(p, r, greedy_from(p, r, pi, ri), pi, ri),
    decreases p.len() - pi,
{
    if pi < p.len() {
        if p[pi].len() == 0 {
            lemma_greedy_increasing(p, r, pi + 1, ri);
        } else {
            let hi = if ri + 3 < r.len() { ri + 3 } else { r.len() as int };
            lemma_first_match(p[pi], r, ri, hi);
            match first_match(p[pi], r, ri, hi) {
                Some(k) => {
                    lemma_greedy_increasing(p, r, pi + 1, k + 1);
                    let rest = greedy_from(p, r, pi + 1, k + 1);
                    let m = seq![(pi, k)] + rest;
                    assert(greedy_from(p, r, pi, ri) == m);
                    assert forall|q: int| 0 <= q < m.len() implies {
                        &&& pi <= (#[trigger] m[q]).0 < p.len()
                        &&& ri <= m[q].1 < r.len()
                        &&& p[m[q].0] == r[m[q].1]
                        &&& p[m[q].0].len() > 0
                    } by {
                        if q > 0 {
                            assert(m[q] == rest[q - 1]);
                        }
                    }
                    assert forall|i: int, j: int| 0 <= i < j < m.len() implies (#[trigger] m[i]).0
                        < (#[trigger] m[j]).0 && m[i].1 < m[j].1 by {
                        assert(m[j] == rest[j - 1]);
                        if i > 0 {
                            assert(m[i] == rest[i - 1]);
                        }
                    }
                },
                None => {
                    lemma_greedy_increasing(p, r, pi + 1, ri);
                },
            }
        }
    }
}

/// Greedy word matching pairs each matched predicted word with an equal
/// reference word, and both indices strictly increase from pair to pair:
/// no predicted or reference word is matched twice, and matches never
/// cross.
pub proof fn law_matches_are_increasing(p: Seq<Seq<char>>, r: Seq<Seq<char>>)
    ensures
        ({
            let m = greedy_from(p, r, 0, 0);
            &&& forall|k: int|
                0 <= k < m.len() ==> {
                    &&& 0 <= (#[trigger] m[k]).0 < p.len()
                    &&& 0 <= m[k].1 < r.len()
                    &&& p[m[k].0] == r[m[k].1]
                }
            &&& forall|i: int, j: int|
                0 <= i < j < m.len() ==> (#[trigger] m[i]).0 < (#[trigger] m[j]).0 && m[i].1
                    < m[j].1
            &&& m.len() <= r.len()
        }),
{
    lemma_greedy_increasing(p, r, 0, 0);
    let m = greedy_from(p, r, 0, 0);
    lemma_increasing_len(m, r.len() as int, m.len() as int);
}

proof fn lemma_increasing_len(m: Seq<(int, int)>, bound: int, k: int)
    requires
        0 <= k <= m.len(),
        0 <= bound,
        forall|q: int| 0 <= q < m.len() ==> 0 <= (#[trigger] m[q]).1 < bound,
        forall|i: int, j: int| 0 <= i < j < m.len() ==> (#[trigger] m[i]).1 < (#[trigger] m[j]).1,
    ensures
        k > 0 ==> m[k - 1].1 >= k - 1,
        k <= bound,
    decreases k,
{
    if k > 0 {
        lemma_increasing_len(m, bound, k - 1);
        if k > 1 {
            assert(m[k - 2].1 < m[k - 1].1);
        }
        assert(m[k - 1].1 < bound);
    }
}

} // verus!
