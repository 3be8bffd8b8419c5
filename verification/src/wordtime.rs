//! Word segmentation for alignment and character-count time weights.
//! CJK ideographs become one word each; Hangul and Latin runs stay whole.

use vstd::prelude::*;
use crate::text::{
    char_is_alphanumeric, chars_of, is_alnum, split_words, string_of, views, words,
};

verus! {

/// Whether `c` lies in one of the CJK unified ideograph blocks (Hangul excluded).
pub open spec fn spec_is_cjk(c: char) -> bool {
    let u = c as u32;
    (0x4E00 <= u <= 0x9FFF) || (0x3400 <= u <= 0x4DBF) || (0x20000 <= u <= 0x2A6DF) || (0x2A700
        <= u <= 0x2B73F) || (0x2B740 <= u <= 0x2B81F) || (0x2B820 <= u <= 0x2CEAF) || (0xF900 <= u
        <= 0xFAFF)
}

/// Whether alignment keeps `c`: an apostrophe, a letter or a digit.
pub open spec fn spec_is_kept(c: char) -> bool {
    c == '\'' || is_alnum(c)
}

/// The kept characters of `s`, in order.
pub open spec fn kept_only(s: Seq<char>) -> Seq<char>
    decreases s.len(),
{
    if s.len() == 0 {
        seq![]
    } else if spec_is_kept(s.last()) {
        kept_only(s.drop_last()).push(s.last())
    } else {
        kept_only(s.drop_last())
    }
}

/// The alignment pieces of one cleaned word whose pending run is `buf`:
/// every CJK ideograph stands alone, other characters gather into runs.
pub open spec fn pieces_from(s: Seq<char>, buf: Seq<char>) -> Seq<Seq<char>>
    decreases s.len(),
{
    if s.len() == 0 {
        if buf.len() == 0 {
            seq![]
        } else {
            seq![buf]
        }
    } else if spec_is_cjk(s[0]) {
        (if buf.len() == 0 {
            Seq::<Seq<char>>::empty()
        } else {
            seq![buf]
        }) + seq![seq![s[0]]] + pieces_from(s.drop_first(), seq![])
    } else {
        pieces_from(s.drop_first(), buf.push(s[0]))
    }
}

/// The alignment words of a sequence of whitespace-separated words.
pub open spec fn align_words_of(ws: Seq<Seq<char>>) -> Seq<Seq<char>>
    decreases ws.len(),
{
    if ws.len() == 0 {
        seq![]
    } else {
        align_words_of(ws.drop_last()) + pieces_from(kept_only(ws.last()), seq![])
    }
}

/// The alignment words of `text`.
pub open spec fn spec_split_align_words(text: Seq<char>) -> Seq<Seq<char>> {
    align_words_of(words(text))
}

/// The time weight of a word: its number of kept characters, at least one.
pub open spec fn spec_time_weight(word: Seq<char>) -> nat {
    let n = kept_only(word).len();
    if n == 0 {
        1
    } else {
        n
    }
}

/// Whether `ch` is a CJK unified ideograph.
pub fn is_cjk_char(ch: char) -> (r: bool)
    ensures
        r == spec_is_cjk(ch),
{
    let c = ch as u32;
    (0x4E00 <= c && c <= 0x9FFF) || (0x3400 <= c && c <= 0x4DBF) || (0x20000 <= c && c <= 0x2A6DF)
        || (0x2A700 <= c && c <= 0x2B73F) || (0x2B740 <= c && c <= 0x2B81F) || (0x2B820 <= c && c
        <= 0x2CEAF) || (0xF900 <= c && c <= 0xFAFF)
}

/// Whether alignment keeps `ch` (apostrophe, letter or digit).
pub fn is_kept_char(ch: char) -> (r: bool)
    ensures
        r == spec_is_kept(ch),
{
    ch == '\'' || char_is_alphanumeric(ch)
}

/// The kept characters of `v`.
pub fn kept_chars(v: &Vec<char>) -> (out: Vec<char>)
    ensures
        out@ == kept_only(v@),
{
    let mut out: Vec<char> = Vec::new();
    let mut i: usize = 0;
    while i < v.len()
        invariant
            i <= v.len(),
            out@ == kept_only(v@.take(i as int)),
        decreases v.len() - i,
    {
        assert(v@.take(i + 1).drop_last() =~= v@.take(i as int));
        if is_kept_char(v[i]) {
            out.push(v[i]);
        }
        i += 1;
    }
    assert(v@.take(v.len() as int) =~= v@);
    out
}

/// The token with only its kept characters left.
pub fn clean_align_token(token: &str) -> (r: String)
    ensures
        r@ == kept_only(token@),
{
    let v = chars_of(token);
    let k = kept_chars(&v);
    string_of(&k)
}

/// Appends the alignment pieces of one cleaned word to `out`.
fn push_pieces(cleaned: &Vec<char>, out: &mut Vec<Vec<char>>)
    ensures
        views(final(out)@) == views(old(out)@) + pieces_from(cleaned@, seq![]),
{
    let mut buf: Vec<char> = Vec::new();
    let mut i: usize = 0;
    let ghost start = views(out@);
    assert(cleaned@.skip(0) =~= cleaned@);
    assert(start + pieces_from(cleaned@, seq![]) =~= views(out@) + pieces_from(cleaned@.skip(0), buf@));
    while i < cleaned.len()
        invariant
            i <= cleaned.len(),
            start + pieces_from(cleaned@, seq![]) == views(out@) + pieces_from(
                cleaned@.skip(i as int),
                buf@,
            ),
        decreases cleaned.len() - i,
    {
        let ch = cleaned[i];
        let ghost rest = cleaned@.skip(i as int);
        assert(rest[0] == ch);
        assert(rest.drop_first() =~= cleaned@.skip(i + 1));
        if is_cjk_char(ch) {
            let ghost o = views(out@);
            let ghost b = buf@;
            if buf.len() > 0 {
                out.push(buf);
                buf = Vec::new();
            }
            let mut single: Vec<char> = Vec::new();
            single.push(ch);
            out.push(single);
            let ghost lead = if b.len() == 0 {
                Seq::<Seq<char>>::empty()
            } else {
                seq![b]
            };
            assert(views(out@) =~= o + lead + seq![seq![ch]]);
            assert(pieces_from(rest, b) == lead + seq![seq![ch]] + pieces_from(
                cleaned@.skip(i + 1),
                seq![],
            ));
            assert(buf@ =~= Seq::<char>::empty());
            assert(o + (lead + seq![seq![ch]] + pieces_from(cleaned@.skip(i + 1), seq![]))
                =~= views(out@) + pieces_from(cleaned@.skip(i + 1), buf@));
        } else {
            let ghost b = buf@;
            buf.push(ch);
            assert(pieces_from(rest, b) == pieces_from(cleaned@.skip(i + 1), b.push(ch)));
        }
        i += 1;
    }
    if buf.len() > 0 {
        let ghost o = views(out@);
        let ghost b = buf@;
        out.push(buf);
        assert(views(out@) =~= o + seq![b]);
    } else {
        assert(views(out@) + pieces_from(cleaned@.skip(i as int), buf@) =~= views(out@));
    }
}

/// Alignment words of `text`: whitespace split, kept characters only, CJK
/// ideographs one per word, other runs whole; words left empty are dropped.
pub fn split_align_words(text: &str) -> (r: Vec<String>)
    ensures
        crate::text::string_views(r@) == spec_split_align_words(text@),
{
    let chars = chars_of(text);
    let segments = split_words(&chars);
    let mut acc: Vec<Vec<char>> = Vec::new();
    let mut i: usize = 0;
    while i < segments.len()
        invariant
            i <= segments.len(),
            views(segments@) == words(text@),
            views(acc@) == align_words_of(views(segments@).take(i as int)),
        decreases segments.len() - i,
    {
        assert(views(segments@).take(i + 1).drop_last() =~= views(segments@).take(i as int));
        let cleaned = kept_chars(&segments[i]);
        push_pieces(&cleaned, &mut acc);
        i += 1;
    }
    assert(views(segments@).take(segments.len() as int) =~= views(segments@));
    crate::text::strings_of(&acc)
}

/// Number of kept characters of `word`, at least one: the share of a time
/// span that the word receives when spans are divided by spoken length.
pub fn time_weight_units(word: &str) -> (n: usize)
    ensures
        n == spec_time_weight(word@),
{
    let v = chars_of(word);
    let k = kept_chars(&v);
    proof {
        lemma_kept_only_len(v@);
    }
    if k.len() == 0 {
        1
    } else {
        k.len()
    }
}

/// Filtering never lengthens a sequence.
pub proof fn lemma_kept_only_len(s: Seq<char>)
    ensures
        kept_only(s).len() <= s.len(),
    decreases s.len(),
{
    if s.len() > 0 {
        lemma_kept_only_len(s.drop_last());
    }
}


/// An alignment word is non-empty, made of kept characters, and holds a
/// CJK ideograph only when it is that single character.
pub open spec fn well_formed_piece(w: Seq<char>) -> bool {
    &&& w.len() > 0
    &&& forall|k: int| 0 <= k < w.len() ==> spec_is_kept(#[trigger] w[k])
    &&& w.len() > 1 ==> forall|k: int| 0 <= k < w.len() ==> !spec_is_cjk(#[trigger] w[k])
}

proof fn lemma_kept_only_kept(s: Seq<char>)
    ensures
        forall|k: int| 0 <= k < kept_only(s).len() ==> spec_is_kept(#[trigger] kept_only(s)[k]),
    decreases s.len(),
{
    if s.len() > 0 {
        lemma_kept_only_kept(s.drop_last());
        let a = kept_only(s.drop_last());
        if spec_is_kept(s.last()) {
            assert forall|k: int| 0 <= k < kept_only(s).len() implies spec_is_kept(#[trigger] kept_only(s)[k]) by {
                if k < a.len() {
                    assert(kept_only(s)[k] == a[k]);
                }
            }
        }
    }
}

proof fn lemma_pieces_well_formed(s: Seq<char>, buf: Seq<char>)
    requires
        forall|k: int| 0 <= k < s.len() ==> spec_is_kept(#[trigger] s[k]),
        forall|k: int| 0 <= k < buf.len() ==> spec_is_kept(#[trigger] buf[k]),
        forall|k: int| 0 <= k < buf.len() ==> !spec_is_cjk(#[trigger] buf[k]),
    ensures
        forall|q: int| 0 <= q < pieces_from(s, buf).len() ==> well_formed_piece(#[trigger] pieces_from(s, buf)[q]),
    decreases s.len(),
{
    if s.len() == 0 {
        if buf.len() > 0 {
            assert(pieces_from(s, buf) == seq![buf]);
            assert(well_formed_piece(buf));
        }
    } else if spec_is_cjk(s[0]) {
        assert forall|k: int| 0 <= k < s.drop_first().len() implies spec_is_kept(#[trigger] s.drop_first()[k]) by {
            assert(s.drop_first()[k] == s[k + 1]);
        }
        lemma_pieces_well_formed(s.drop_first(), seq![]);
        let lead = if buf.len() == 0 {
            Seq::<Seq<char>>::empty()
        } else {
            seq![buf]
        };
        let rest = pieces_from(s.drop_first(), seq![]);
        assert(pieces_from(s, buf) == lead + seq![seq![s[0]]] + rest);
        assert forall|q: int| 0 <= q < pieces_from(s, buf).len() implies well_formed_piece(
            #[trigger] pieces_from(s, buf)[q],
        ) by {
            let all = lead + seq![seq![s[0]]] + rest;
            if q < lead.len() {
                assert(all[q] == buf);
            } else if q == lead.len() {
                assert(all[q] == seq![s[0]]);
                assert(spec_is_kept(s[0]));
            } else {
                assert(all[q] == rest[q - lead.len() - 1]);
            }
        }
    } else {
        assert(spec_is_kept(s[0]));
        let b2 = buf.push(s[0]);
        assert forall|k: int| 0 <= k < b2.len() implies spec_is_kept(#[trigger] b2[k]) && !spec_is_cjk(b2[k]) by {
            if k < buf.len() {
                assert(b2[k] == buf[k]);
            }
        }
        assert forall|k: int| 0 <= k < s.drop_first().len() implies spec_is_kept(#[trigger] s.drop_first()[k]) by {
            assert(s.drop_first()[k] == s[k + 1]);
        }
        lemma_pieces_well_formed(s.drop_first(), b2);
        assert(pieces_from(s, buf) == pieces_from(s.drop_first(), b2));
    }
}

/// Every alignment word of any text is non-empty, holds only kept
/// characters (apostrophes, letters, digits), and is a single character
/// whenever it holds a CJK ideograph.
pub proof fn law_align_words_well_formed(text: Seq<char>)
    ensures
        forall|q: int| 0 <= q < spec_split_align_words(text).len() ==> well_formed_piece(
            #[trigger] spec_split_align_words(text)[q],
        ),
{
    lemma_align_words_well_formed(words(text));
}

proof fn lemma_align_words_well_formed(ws: Seq<Seq<char>>)
    ensures
        forall|q: int| 0 <= q < align_words_of(ws).len() ==> well_formed_piece(#[trigger] align_words_of(ws)[q]),
    decreases ws.len(),
{
    if ws.len() > 0 {
        lemma_align_words_well_formed(ws.drop_last());
        lemma_kept_only_kept(ws.last());
        lemma_pieces_well_formed(kept_only(ws.last()), seq![]);
        let a = align_words_of(ws.drop_last());
        let b = pieces_from(kept_only(ws.last()), seq![]);
        assert forall|q: int| 0 <= q < align_words_of(ws).len() implies well_formed_piece(
            #[trigger] align_words_of(ws)[q],
        ) by {
            if q < a.len() {
                assert(align_words_of(ws)[q] == a[q]);
            } else {
                assert(align_words_of(ws)[q] == b[q - a.len()]);
            }
        }
    }
}


proof fn lemma_align_words_concat(x: Seq<Seq<char>>, y: Seq<Seq<char>>)
    ensures
        align_words_of(x + y) == align_words_of(x) + align_words_of(y),
    decreases y.len(),
{
    if y.len() == 0 {
        assert(x + y =~= x);
        assert(align_words_of(x) + align_words_of(y) =~= align_words_of(x));
    } else {
        assert((x + y).drop_last() =~= x + y.drop_last());
        assert((x + y).last() == y.last());
        lemma_align_words_concat(x, y.drop_last());
        let p = pieces_from(kept_only(y.last()), seq![]);
        assert(align_words_of(x) + align_words_of(y.drop_last()) + p =~= align_words_of(x) + (
        align_words_of(y.drop_last()) + p));
    }
}

/// Splitting two texts joined by a space gives the alignment words of the
/// first followed by those of the second.
pub proof fn law_split_align_words_join_space(a: Seq<char>, b: Seq<char>)
    ensures
        spec_split_align_words(a + seq![' '] + b) == spec_split_align_words(a)
            + spec_split_align_words(b),
{
    crate::text::lemma_words_join_space(a, b);
    lemma_align_words_concat(words(a), words(b));
}

} // verus!
