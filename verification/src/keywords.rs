//! The keyword extractor: lower-case the text, split it on runs of
//! non-alphanumeric characters, drop short tokens and stopwords, and
//! deduplicate keeping first-occurrence order.

use vstd::prelude::*;
use vstd::string::StrSliceExecFns;

use crate::text::{is_word_char, lower_of, lowercase, str_eq, word_char};

verus! {

/// Splitting `s` from position `i` on, with `cur` the run of word characters
/// read so far and `acc` the tokens already complete.
pub open spec fn token_split(
    s: Seq<char>,
    i: int,
    cur: Seq<char>,
    acc: Seq<Seq<char>>,
) -> Seq<Seq<char>>
    decreases s.len() - i,
{
    if i < 0 || i >= s.len() {
        if cur.len() > 0 {
            acc.push(cur)
        } else {
            acc
        }
    } else if is_word_char(s[i]) {
        token_split(s, i + 1, cur.push(s[i]), acc)
    } else if cur.len() > 0 {
        token_split(s, i + 1, Seq::empty(), acc.push(cur))
    } else {
        token_split(s, i + 1, cur, acc)
    }
}

/// The maximal runs of alphanumeric characters of `s`, in order.
pub open spec fn tokens_of(s: Seq<char>) -> Seq<Seq<char>> {
    token_split(s, 0, Seq::empty(), Seq::empty())
}

/// The fixed list of common English function words that are never keywords.
pub open spec fn is_stopword(w: Seq<char>) -> bool {
    ||| w == "the"@ ||| w == "a"@ ||| w == "an"@ ||| w == "and"@ ||| w == "or"@
    ||| w == "but"@ ||| w == "if"@ ||| w == "then"@ ||| w == "else"@ ||| w == "when"@
    ||| w == "at"@ ||| w == "from"@ ||| w == "by"@ ||| w == "for"@ ||| w == "with"@
    ||| w == "about"@ ||| w == "against"@ ||| w == "between"@
    ||| w == "into"@ ||| w == "through"@ ||| w == "during"@ ||| w == "before"@
    ||| w == "after"@ ||| w == "above"@ ||| w == "below"@
    ||| w == "to"@ ||| w == "of"@ ||| w == "in"@ ||| w == "on"@ ||| w == "is"@
    ||| w == "are"@ ||| w == "was"@ ||| w == "were"@ ||| w == "be"@ ||| w == "been"@
    ||| w == "being"@ ||| w == "have"@ ||| w == "has"@ ||| w == "had"@ ||| w == "do"@
    ||| w == "does"@ ||| w == "did"@ ||| w == "will"@ ||| w == "would"@
    ||| w == "shall"@ ||| w == "should"@ ||| w == "can"@ ||| w == "could"@
    ||| w == "may"@ ||| w == "might"@ ||| w == "must"@ ||| w == "this"@
    ||| w == "that"@ ||| w == "these"@ ||| w == "those"@ ||| w == "i"@ ||| w == "you"@
    ||| w == "he"@ ||| w == "she"@ ||| w == "it"@ ||| w == "we"@ ||| w == "they"@
}

/// A token is kept when it is longer than two characters and no stopword.
pub open spec fn keeps(t: Seq<char>) -> bool {
    t.len() > 2 && !is_stopword(t)
}

/// The tokens of `ts` that are kept, in order.
pub open spec fn filter_keep(ts: Seq<Seq<char>>) -> Seq<Seq<char>>
    decreases ts.len(),
{
    if ts.len() == 0 {
        Seq::empty()
    } else {
        let front = filter_keep(ts.drop_last());
        if keeps(ts.last()) {
            front.push(ts.last())
        } else {
            front
        }
    }
}

/// `ts` with every repetition removed, keeping the first occurrence of each
/// token and the order of first occurrences.
pub open spec fn dedup_first(ts: Seq<Seq<char>>) -> Seq<Seq<char>>
    decreases ts.len(),
{
    if ts.len() == 0 {
        Seq::empty()
    } else {
        let front = dedup_first(ts.drop_last());
        if ts.drop_last().contains(ts.last()) {
            front
        } else {
            front.push(ts.last())
        }
    }
}

/// The keywords of a text: its lower-cased alphanumeric runs, without short
/// tokens and stopwords, deduplicated in first-occurrence order.
pub open spec fn keywords_of(text: Seq<char>) -> Seq<Seq<char>> {
    dedup_first(filter_keep(tokens_of(lower_of(text))))
}

/// The deduplication keeps exactly the tokens that occur in the input.
pub proof fn lemma_dedup_contains(ts: Seq<Seq<char>>, x: Seq<char>)
    ensures
        dedup_first(ts).contains(x) <==> ts.contains(x),
    decreases ts.len(),
{
    if ts.len() == 0 {
    } else {
        lemma_dedup_contains(ts.drop_last(), x);
        let front = dedup_first(ts.drop_last());
        if ts.drop_last().contains(ts.last()) {
            assert(ts.contains(x) ==> ts.drop_last().contains(x)) by {
                if ts.contains(x) {
                    let k = choose|k: int| 0 <= k < ts.len() && ts[k] == x;
                    if k < ts.len() - 1 {
                        assert(ts.drop_last()[k] == x);
                    } else {
                        assert(x == ts.last());
                    }
                }
            }
            assert(ts.drop_last().contains(x) ==> ts.contains(x)) by {
                if ts.drop_last().contains(x) {
                    let k = choose|k: int| 0 <= k < ts.drop_last().len() && ts.drop_last()[k] == x;
                    assert(ts[k] == x);
                }
            }
        } else {
            assert(dedup_first(ts) == front.push(ts.last()));
            assert forall|k: int| 0 <= k < ts.len() && ts[k] == x implies dedup_first(ts).contains(
                x,
            ) by {
                if k < ts.len() - 1 {
                    assert(ts.drop_last()[k] == x);
                    assert(front.contains(x));
                    let j = choose|j: int| 0 <= j < front.len() && front[j] == x;
                    assert(front.push(ts.last())[j] == x);
                } else {
                    assert(front.push(ts.last()).last() == x);
                }
            }
            assert forall|k: int| 0 <= k < dedup_first(ts).len() && dedup_first(ts)[k] == x implies
                ts.contains(x) by {
                if k < front.len() {
                    assert(front[k] == x);
                    assert(ts.drop_last().contains(x));
                    let j = choose|j: int| 0 <= j < ts.drop_last().len() && ts.drop_last()[j] == x;
                    assert(ts[j] == x);
                } else {
                    assert(ts.last() == x);
                    assert(ts[ts.len() - 1] == x);
                }
            }
            if ts.contains(x) {
                assert(dedup_first(ts).contains(x));
            }
            if dedup_first(ts).contains(x) {
                let k = choose|k: int| 0 <= k < dedup_first(ts).len() && dedup_first(ts)[k] == x;
                assert(ts.contains(x));
            }
        }
    }
}

/// Keyword extraction is deterministic: two extractions of the same text
/// are equal.
pub proof fn keyword_extraction_deterministic(t: Seq<char>, k1: Seq<Seq<char>>, k2: Seq<Seq<char>>)
    requires
        k1 == keywords_of(t),
        k2 == keywords_of(t),
    ensures
        k1 == k2,
{
}

/// Whether `w` stands in the fixed stopword list.
fn stopword(w: &str) -> (r: bool)
    ensures
        r == is_stopword(w@),
{
    str_eq(w, "the") || str_eq(w, "a") || str_eq(w, "an") || str_eq(w, "and") || str_eq(w, "or")
    || str_eq(w, "but") || str_eq(w, "if") || str_eq(w, "then") || str_eq(w, "else") || str_eq(w, "when")
    || str_eq(w, "at") || str_eq(w, "from") || str_eq(w, "by") || str_eq(w, "for") || str_eq(w, "with")
    || str_eq(w, "about") || str_eq(w, "against") || str_eq(w, "between") || str_eq(w, "into") || str_eq(w, "through")
    || str_eq(w, "during") || str_eq(w, "before") || str_eq(w, "after") || str_eq(w, "above") || str_eq(w, "below")
    || str_eq(w, "to") || str_eq(w, "of") || str_eq(w, "in") || str_eq(w, "on") || str_eq(w, "is")
    || str_eq(w, "are") || str_eq(w, "was") || str_eq(w, "were") || str_eq(w, "be") || str_eq(w, "been")
    || str_eq(w, "being") || str_eq(w, "have") || str_eq(w, "has") || str_eq(w, "had") || str_eq(w, "do")
    || str_eq(w, "does") || str_eq(w, "did") || str_eq(w, "will") || str_eq(w, "would") || str_eq(w, "shall")
    || str_eq(w, "should") || str_eq(w, "can") || str_eq(w, "could") || str_eq(w, "may") || str_eq(w, "might")
    || str_eq(w, "must") || str_eq(w, "this") || str_eq(w, "that") || str_eq(w, "these") || str_eq(w, "those")
    || str_eq(w, "i") || str_eq(w, "you") || str_eq(w, "he") || str_eq(w, "she") || str_eq(w, "it")
    || str_eq(w, "we") || str_eq(w, "they")
}

/// Splits `s` into its maximal runs of alphanumeric characters.
fn tokenize(s: &str) -> (r: Vec<String>)
    ensures
        r.deep_view() == tokens_of(s@),
{
    let n = s.unicode_len();
    let mut toks: Vec<String> = Vec::new();
    let mut i: usize = 0;
    let mut start: usize = 0;
    assert(s@.subrange(0, 0) =~= Seq::<char>::empty());
    assert(toks.deep_view() =~= Seq::<Seq<char>>::empty());
    while i < n
        invariant
            start <= i <= n,
            n == s@.len(),
            token_split(s@, i as int, s@.subrange(start as int, i as int), toks.deep_view())
                == tokens_of(s@),
        decreases n - i,
    {
        let ghost cur = s@.subrange(start as int, i as int);
        let ghost acc = toks.deep_view();
        let c = s.get_char(i);
        if word_char(c) {
            assert(cur.push(s@[i as int]) =~= s@.subrange(start as int, i as int + 1));
            i += 1;
        } else {
            if i > start {
                let tok: String = s.substring_char(start, i).to_owned();
                toks.push(tok);
                assert(toks.deep_view() =~= acc.push(cur));
            }
            assert(cur.len() == 0 ==> cur =~= Seq::<char>::empty());
            i += 1;
            start = i;
            assert(s@.subrange(start as int, start as int) =~= Seq::<char>::empty());
        }
    }
    if start < n {
        let ghost acc = toks.deep_view();
        let tok: String = s.substring_char(start, n).to_owned();
        toks.push(tok);
        assert(toks.deep_view() =~= acc.push(s@.subrange(start as int, n as int)));
    }
    toks
}

/// Keyword extraction as the store and the query side both use it.
pub fn extract_keywords(text: &str) -> (r: Vec<String>)
    ensures
        r.deep_view() == keywords_of(text@),
{
    let low = lowercase(text);
    let toks = tokenize(low.as_str());
    let ghost ts = toks.deep_view();

    // Keep tokens longer than two characters that are no stopwords.
    let mut kept: Vec<String> = Vec::new();
    let mut i: usize = 0;
    assert(ts.subrange(0, 0) =~= Seq::<Seq<char>>::empty());
    assert(kept.deep_view() =~= Seq::<Seq<char>>::empty());
    while i < toks.len()
        invariant
            i <= toks.len(),
            ts == toks.deep_view(),
            kept.deep_view() == filter_keep(ts.subrange(0, i as int)),
        decreases toks.len() - i,
    {
        let ghost before = kept.deep_view();
        let t = &toks[i];
        assert(ts.subrange(0, i as int + 1).drop_last() =~= ts.subrange(0, i as int));
        assert(ts.subrange(0, i as int + 1).last() == ts[i as int]);
        if t.as_str().unicode_len() > 2 && !stopword(t.as_str()) {
            let copy: String = t.clone();
            kept.push(copy);
            assert(kept.deep_view() =~= before.push(ts[i as int]));
        }
        i += 1;
    }
    assert(ts.subrange(0, ts.len() as int) =~= ts);
    let ghost ks = kept.deep_view();

    // Deduplicate, keeping the first occurrence of each token.
    let mut out: Vec<String> = Vec::new();
    let mut j: usize = 0;
    assert(ks.subrange(0, 0) =~= Seq::<Seq<char>>::empty());
    assert(out.deep_view() =~= Seq::<Seq<char>>::empty());
    while j < kept.len()
        invariant
            j <= kept.len(),
            ks == kept.deep_view(),
            out.deep_view() == dedup_first(ks.subrange(0, j as int)),
        decreases kept.len() - j,
    {
        let ghost before = out.deep_view();
        let t = &kept[j];
        assert(ks.subrange(0, j as int + 1).drop_last() =~= ks.subrange(0, j as int));
        assert(ks.subrange(0, j as int + 1).last() == ks[j as int]);
        proof {
            lemma_dedup_contains(ks.subrange(0, j as int), ks[j as int]);
        }
        if !contains_string(&out, t) {
            let copy: String = t.clone();
            out.push(copy);
            assert(out.deep_view() =~= before.push(ks[j as int]));
        }
        j += 1;
    }
    assert(ks.subrange(0, ks.len() as int) =~= ks);
    out
}

/// Whether some element of `v` equals `s`.
pub(crate) fn contains_string(v: &Vec<String>, s: &String) -> (r: bool)
    ensures
        r == v.deep_view().contains(s@),
{
    let mut i: usize = 0;
    while i < v.len()
        invariant
            i <= v.len(),
            forall|k: int| 0 <= k < i ==> v.deep_view()[k] != s@,
        decreases v.len() - i,
    {
        if str_eq(v[i].as_str(), s.as_str()) {
            assert(v.deep_view()[i as int] == s@);
            return true;
        }
        i += 1;
    }
    false
}

} // verus!
