//! Unicode-aware tokenizer: word-boundary segmentation, lowercase folding,
//! and a minimum-length filter.

use vstd::prelude::*;
use vstd::utf8::encode_utf8;
use unicode_segmentation::UnicodeSegmentation;

verus! {

/// The words of a text, in order: the substrings between Unicode (UAX #29)
/// word boundaries that contain an alphanumeric character, before any
/// normalization.
pub uninterp spec fn words_of(text: Seq<char>) -> Seq<Seq<char>>;

/// The lowercase folding of a character sequence.
pub uninterp spec fn lower_of(s: Seq<char>) -> Seq<char>;

/// The character sequences a list of strings holds.
pub open spec fn views_of(ts: Seq<String>) -> Seq<Seq<char>> {
    ts.map_values(|t: String| t@)
}

/// The terms a word list yields: each word lowercased, keeping those whose
/// UTF-8 byte length is at least `min`, duplicates and order preserved.
pub open spec fn spec_tokenize_words(ws: Seq<Seq<char>>, min: usize) -> Seq<Seq<char>>
    decreases ws.len(),
{
    if ws.len() == 0 {
        Seq::empty()
    } else {
        let rest = spec_tokenize_words(ws.drop_last(), min);
        let w = lower_of(ws.last());
        if encode_utf8(w).len() as usize >= min {
            rest.push(w)
        } else {
            rest
        }
    }
}

/// The terms a text tokenizes to under minimum term length `min`.
pub open spec fn spec_tokenize(text: Seq<char>, min: usize) -> Seq<Seq<char>> {
    spec_tokenize_words(words_of(text), min)
}

/// Lexicographic order on character sequences, by code point; the order in
/// which `str`'s comparison places strings.
pub open spec fn spec_str_le(a: Seq<char>, b: Seq<char>) -> bool
    decreases a.len(),
{
    if a.len() == 0 {
        true
    } else if b.len() == 0 {
        false
    } else if a[0] == b[0] {
        spec_str_le(a.drop_first(), b.drop_first())
    } else {
        (a[0] as u32) < (b[0] as u32)
    }
}

/// Strict lexicographic order.
pub open spec fn spec_str_lt(a: Seq<char>, b: Seq<char>) -> bool {
    spec_str_le(a, b) && a != b
}

/// A term list that is strictly ascending, hence duplicate-free.
pub open spec fn sorted_terms(ts: Seq<Seq<char>>) -> bool {
    forall|i: int, j: int| 0 <= i < j < ts.len() ==> spec_str_lt(ts[i], ts[j])
}

pub proof fn lemma_str_le_total(a: Seq<char>, b: Seq<char>)
    ensures
        spec_str_le(a, b) || spec_str_le(b, a),
    decreases a.len(),
{
    if a.len() > 0 && b.len() > 0 {
        if a[0] == b[0] {
            lemma_str_le_total(a.drop_first(), b.drop_first());
        } else {
            // distinct characters have distinct code points
            vstd::utf8::char_u32_cast(a[0], a[0] as u32);
            vstd::utf8::char_u32_cast(b[0], b[0] as u32);
            assert((a[0] as u32) != (b[0] as u32));
        }
    }
}

pub proof fn lemma_str_le_antisym(a: Seq<char>, b: Seq<char>)
    requires
        spec_str_le(a, b),
        spec_str_le(b, a),
    ensures
        a == b,
    decreases a.len(),
{
    if a.len() == 0 {
        assert(b.len() == 0);
        assert(a =~= b);
    } else {
        assert(b.len() > 0);
        assert(a[0] == b[0]);
        assert(spec_str_le(a.drop_first(), b.drop_first()));
        assert(spec_str_le(b.drop_first(), a.drop_first()));
        lemma_str_le_antisym(a.drop_first(), b.drop_first());
        assert(a.drop_first() == b.drop_first());
        assert(a.len() == b.len());
        assert forall|i: int| 0 <= i < a.len() implies a[i] == b[i] by {
            if i >= 1 {
                assert(a[i] == a.drop_first()[i - 1]);
                assert(b[i] == b.drop_first()[i - 1]);
            }
        }
        assert(a =~= b);
    }
}

pub proof fn lemma_str_le_trans(a: Seq<char>, b: Seq<char>, c: Seq<char>)
    requires
        spec_str_le(a, b),
        spec_str_le(b, c),
    ensures
        spec_str_le(a, c),
    decreases a.len(),
{
    if a.len() > 0 && b.len() > 0 && c.len() > 0 && a[0] == b[0] && b[0] == c[0] {
        lemma_str_le_trans(a.drop_first(), b.drop_first(), c.drop_first());
    }
}

/// Relies on unicode_segmentation's `unicode_words`: the substrings between
/// UAX #29 word boundaries that contain an alphanumeric character, in text
/// order; an empty text has none.
#[verifier::external_body]
fn split_words(text: &str) -> (r: Vec<String>)
    ensures
        views_of(r@) == words_of(text@),
        text@.len() == 0 ==> r@.len() == 0,
{
    text.unicode_words().map(|w| w.to_string()).collect()
}

/// Relies on `str::to_lowercase`: the lowercase folding depends on the
/// characters alone.
#[verifier::external_body]
fn lowercase(word: &str) -> (r: String)
    ensures
        r@ == lower_of(word@),
{
    word.to_lowercase()
}

/// Relies on `str`'s `PartialOrd`: strings compare lexicographically by code
/// point, the order `spec_str_le` states on the views.
#[verifier::external_body]
fn str_le(a: &str, b: &str) -> (r: bool)
    ensures
        r == spec_str_le(a@, b@),
{
    a <= b
}

/// Whether `a` orders strictly before `b`.
fn str_lt(a: &String, b: &String) -> (r: bool)
    ensures
        r == spec_str_lt(a@, b@),
{
    let le = str_le(a.as_str(), b.as_str());
    let eq = *a == *b;
    le && !eq
}

/// Splits text on Unicode word boundaries, folds to lowercase, and drops
/// terms shorter than `min_length` bytes.
#[derive(Debug, Clone)]
pub struct Tokenizer {
    /// Minimum byte length a term must have to survive filtering.
    pub min_length: usize,
}

impl Tokenizer {
    /// Create a tokenizer with a custom minimum term length.
    pub fn new(min_length: usize) -> (r: Tokenizer)
        ensures
            r.min_length == min_length,
    {
        Tokenizer { min_length }
    }

    /// Tokenize text into terms, duplicates and order preserved.
    pub fn tokenize(&self, text: &str) -> (r: Vec<String>)
        ensures
            views_of(r@) == spec_tokenize(text@, self.min_length),
            text@.len() == 0 ==> r@.len() == 0,
    {
        let words = split_words(text);
        let ghost ws = words_of(text@);
        let mut out: Vec<String> = Vec::new();
        let mut i: usize = 0;
        proof {
            assert(ws.take(0) =~= Seq::<Seq<char>>::empty());
            assert(views_of(out@) =~= spec_tokenize_words(ws.take(0), self.min_length));
        }
        while i < words.len()
            invariant
                i <= words@.len(),
                views_of(words@) == ws,
                views_of(out@) == spec_tokenize_words(ws.take(i as int), self.min_length),
            decreases words@.len() - i,
        {
            proof {
                assert(ws.take(i + 1).drop_last() =~= ws.take(i as int));
                assert(ws.take(i + 1).last() == ws[i as int]);
                assert(ws[i as int] == views_of(words@)[i as int]);
            }
            let w = lowercase(words[i].as_str());
            if w.as_str().len() >= self.min_length {
                proof {
                    assert(views_of(out@.push(w)) =~= views_of(out@).push(w@));
                }
                out.push(w);
            }
            i = i + 1;
        }
        proof {
            assert(ws.take(i as int) =~= ws);
        }
        out
    }

    /// Tokenize text into the sorted, duplicate-free list of its terms: the
    /// result is strictly ascending and holds exactly the terms `tokenize`
    /// yields.
    pub fn tokenize_unique(&self, text: &str) -> (r: Vec<String>)
        ensures
            sorted_terms(views_of(r@)),
            forall|x: Seq<char>| #![auto]
                views_of(r@).contains(x) <==> spec_tokenize(text@, self.min_length).contains(x),
    {
        let terms = self.tokenize(text);
        let ghost ts = spec_tokenize(text@, self.min_length);
        let mut out: Vec<String> = Vec::new();
        let mut i: usize = 0;
        while i < terms.len()
            invariant
                i <= terms@.len(),
                views_of(terms@) == ts,
                sorted_terms(views_of(out@)),
                forall|x: Seq<char>| #![auto]
                    views_of(out@).contains(x) <==> ts.take(i as int).contains(x),
            decreases terms@.len() - i,
        {
            let ghost before = views_of(out@);
            proof {
                assert(ts[i as int] == views_of(terms@)[i as int]);
            }
            let t = terms[i].clone();
            insert_term(&mut out, t);
            proof {
                let after = views_of(out@);
                let cur = ts.take(i as int);
                let nxt = ts.take(i + 1);
                assert forall|x: Seq<char>| #![auto] after.contains(x) <==> nxt.contains(x) by {
                    if after.contains(x) {
                        if before.contains(x) {
                            let j = choose|j: int| 0 <= j < cur.len() && cur[j] == x;
                            assert(nxt[j] == x);
                        } else {
                            assert(x == ts[i as int]);
                            assert(nxt[i as int] == x);
                        }
                    }
                    if nxt.contains(x) {
                        let j = choose|j: int| 0 <= j < nxt.len() && nxt[j] == x;
                        if j < i {
                            assert(cur[j] == x);
                        } else {
                            assert(x == ts[i as int]);
                        }
                    }
                }
            }
            i = i + 1;
        }
        proof {
            assert(ts.take(i as int) =~= ts);
        }
        out
    }
}

/// Insert a term into a strictly sorted term list, keeping it strictly
/// sorted; a term already present is left alone.
fn insert_term(out: &mut Vec<String>, t: String)
    requires
        sorted_terms(views_of(old(out)@)),
    ensures
        sorted_terms(views_of(final(out)@)),
        forall|x: Seq<char>| #![auto]
            views_of(final(out)@).contains(x) <==> views_of(old(out)@).contains(x) || x == t@,
{
    let ghost olds = views_of(old(out)@);
    let mut i: usize = 0;
    while i < out.len() && str_lt(&out[i], &t)
        invariant
            i <= out@.len(),
            out@ == old(out)@,
            olds == views_of(old(out)@),
            forall|j: int| 0 <= j < i ==> spec_str_lt(#[trigger] olds[j], t@),
        decreases out@.len() - i,
    {
        proof {
            assert(olds[i as int] == out@[i as int]@);
        }
        i = i + 1;
    }
    proof {
        assert(olds.len() == out@.len());
        if i < out@.len() {
            assert(olds[i as int] == out@[i as int]@);
        }
    }
    if i < out.len() && out[i] == t {
        // already present: nothing changes
        proof {
            assert(olds[i as int] == t@);
            assert forall|x: Seq<char>| #![auto]
                views_of(out@).contains(x) <==> olds.contains(x) || x == t@ by {
                if x == t@ {
                    assert(olds[i as int] == x);
                }
            }
        }
    } else {
        proof {
            if i < out@.len() {
                // the scan stopped short of equality, so t orders strictly
                // before the element at i, and before everything past it
                let v = olds[i as int];
                assert(!spec_str_lt(v, t@));
                assert(v != t@);
                lemma_str_le_total(v, t@);
                assert(spec_str_le(t@, v));
                assert(spec_str_lt(t@, v));
                assert forall|k: int| i <= k < olds.len() implies spec_str_lt(
                    t@,
                    #[trigger] olds[k],
                ) by {
                    if k > i {
                        assert(spec_str_lt(olds[i as int], olds[k]));
                        lemma_str_le_trans(t@, olds[i as int], olds[k]);
                        if t@ == olds[k] {
                            lemma_str_le_antisym(olds[i as int], olds[k]);
                        }
                    }
                }
            }
            assert(olds.insert(i as int, t@) =~= views_of(old(out)@.insert(i as int, t)));
        }
        out.insert(i, t);
        proof {
            let news = views_of(out@);
            assert(news == olds.insert(i as int, t@));
            assert forall|p: int, q: int| 0 <= p < q < news.len() implies spec_str_lt(
                news[p],
                news[q],
            ) by {
                assert(news[p] == if p < i {
                    olds[p]
                } else if p == i {
                    t@
                } else {
                    olds[p - 1]
                });
                assert(news[q] == if q < i {
                    olds[q]
                } else if q == i {
                    t@
                } else {
                    olds[q - 1]
                });
            }
            assert forall|x: Seq<char>| #![auto]
                news.contains(x) <==> olds.contains(x) || x == t@ by {
                if news.contains(x) {
                    let j = choose|j: int| 0 <= j < news.len() && news[j] == x;
                    if j < i {
                        assert(olds[j] == x);
                    } else if j == i {
                        assert(x == t@);
                    } else {
                        assert(olds[j - 1] == x);
                    }
                }
                if olds.contains(x) {
                    let j = choose|j: int| 0 <= j < olds.len() && olds[j] == x;
                    if j < i {
                        assert(news[j] == x);
                    } else {
                        assert(news[j + 1] == x);
                    }
                }
                if x == t@ {
                    assert(news[i as int] == x);
                }
            }
        }
    }
}

impl Default for Tokenizer {
    /// The default minimum term length is two bytes.
    fn default() -> (r: Tokenizer)
        ensures
            r.min_length == 2,
    {
        Tokenizer { min_length: 2 }
    }
}

} // verus!
