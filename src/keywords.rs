//! Keyword extraction: normalization, filtering, frequency counting and ranking.

use vstd::prelude::*;

use crate::laws::{
    lemma_batch_tokens_are_keywords, lemma_ranking_count_bound, lemma_ranking_length, sum_counts,
};
use crate::notes::{AnalysisError, Note};
use crate::order::{lemma_ranks_before_order, ranks_before, ranks_before_exec, Entry};
use crate::stopwords::{is_stop_word, stop_word_chars, stop_word_in, stop_words};
use crate::text::{
    chars_of, copy_chars, is_letter, lower_of, lowercase, matches_deleted, noise_stripped,
    same_chars, split_words, string_of, strip_contractions, strip_noise, view_words, words,
    CONTRACTION_PATTERN,
};

verus! {

/// A token that counts as a keyword: longer than one character and no stop word.
pub open spec fn is_keyword(w: Seq<char>) -> bool {
    w.len() > 1 && !is_stop_word(w)
}

/// The keywords among the whitespace-separated tokens of `s`, in order.
pub open spec fn keywords_of(s: Seq<char>) -> Seq<Seq<char>> {
    words(s).filter(|w: Seq<char>| is_keyword(w))
}

/// A note's text after case folding, contraction stripping and noise stripping.
pub open spec fn normalized(content: Seq<char>) -> Seq<char> {
    noise_stripped(matches_deleted(CONTRACTION_PATTERN@, lower_of(content)))
}

/// The keyword tokens of one note's text, in order of appearance.
pub open spec fn note_keywords(content: Seq<char>) -> Seq<Seq<char>> {
    keywords_of(normalized(content))
}

/// The keyword tokens of normalized text `s`, in order of appearance.
pub fn keyword_tokens(s: &Vec<char>) -> (r: Vec<Vec<char>>)
    ensures
        view_words(r@) == keywords_of(s@),
{
    let all = split_words(s);
    let stop = stop_word_chars();
    let mut out: Vec<Vec<char>> = Vec::new();
    let mut i: usize = 0;
    while i < all.len()
        invariant
            i <= all.len(),
            view_words(all@) == words(s@),
            view_words(stop@) == stop_words(),
            view_words(out@) == view_words(all@).subrange(0, i as int).filter(
                |w: Seq<char>| is_keyword(w),
            ),
        decreases all.len() - i,
    {
        let ghost done = view_words(all@).subrange(0, i as int);
        assert(view_words(all@).subrange(0, i + 1) == done.push(all@[i as int]@));
        proof {
            done.lemma_filter_push(all@[i as int]@, |w: Seq<char>| is_keyword(w));
        }
        if all[i].len() > 1 && !stop_word_in(&stop, &all[i]) {
            out.push(copy_chars(&all[i]));
            assert(view_words(out@) =~= view_words(all@).subrange(0, i + 1).filter(
                |w: Seq<char>| is_keyword(w),
            ));
        }
        i = i + 1;
    }
    assert(view_words(all@).subrange(0, all.len() as int) == view_words(all@));
    out
}

/// The keyword tokens of a note's text: lowercased, stripped of elided articles and
/// of every character that is neither a letter nor whitespace, split on whitespace,
/// and filtered of stop words and one-character tokens.
pub fn note_keyword_tokens(content: &str) -> (r: Vec<Vec<char>>)
    ensures
        view_words(r@) == note_keywords(content@),
{
    let folded = lowercase(content);
    let bare = strip_contractions(folded.as_str());
    let clean = strip_noise(bare.as_str());
    keyword_tokens(&chars_of(clean.as_str()))
}

/// How many times `t` occurs in `s`.
pub open spec fn occurrences(s: Seq<Seq<char>>, t: Seq<char>) -> nat
    decreases s.len(),
{
    if s.len() == 0 {
        0
    } else {
        occurrences(s.drop_last(), t) + if s.last() == t {
            1nat
        } else {
            0nat
        }
    }
}

pub proof fn lemma_occurrences_push(s: Seq<Seq<char>>, w: Seq<char>, t: Seq<char>)
    ensures
        occurrences(s.push(w), t) == occurrences(s, t) + if w == t {
            1nat
        } else {
            0nat
        },
{
    assert(s.push(w).drop_last() == s);
}

pub proof fn lemma_occurrences_bound(s: Seq<Seq<char>>, t: Seq<char>)
    ensures
        occurrences(s, t) <= s.len(),
        occurrences(s, t) > 0 <==> s.contains(t),
    decreases s.len(),
{
    if s.len() > 0 {
        lemma_occurrences_bound(s.drop_last(), t);
        if s.drop_last().contains(t) {
            let k = choose|k: int| 0 <= k < s.drop_last().len() && s.drop_last()[k] == t;
            assert(s[k] == t);
        }
        if s.contains(t) && s.last() != t {
            let k = choose|k: int| 0 <= k < s.len() && s[k] == t;
            assert(s.drop_last()[k] == t);
        }
    }
}

/// A frequency table: distinct tokens `keys`, with `counts[i]` the number of
/// occurrences of `keys[i]` in `s`, and every token of `s` among the keys.
pub open spec fn is_table_of(keys: Seq<Seq<char>>, counts: Seq<usize>, s: Seq<Seq<char>>) -> bool {
    &&& keys.len() == counts.len()
    &&& keys.no_duplicates()
    &&& forall|i: int| 0 <= i < keys.len() ==> counts[i] == occurrences(s, keys[i])
    &&& forall|i: int| 0 <= i < keys.len() ==> s.contains(keys[i])
    &&& forall|t: Seq<char>| s.contains(t) ==> keys.contains(t)
}

/// The position of `w` among `keys`, if it is there.
pub(crate) fn find_key(keys: &Vec<Vec<char>>, w: &Vec<char>) -> (r: Option<usize>)
    ensures
        r matches Some(j) ==> j < keys.len() && keys@[j as int]@ == w@,
        r is None ==> !view_words(keys@).contains(w@),
{
    let mut i: usize = 0;
    while i < keys.len()
        invariant
            i <= keys.len(),
            forall|j: int| 0 <= j < i ==> keys@[j]@ != w@,
        decreases keys.len() - i,
    {
        if same_chars(&keys[i], w) {
            return Some(i);
        }
        i = i + 1;
    }
    None
}

/// Adds each token of `toks` to the frequency table of `s`, which then counts `s + toks`.
fn count_tokens(
    keys: &mut Vec<Vec<char>>,
    counts: &mut Vec<usize>,
    toks: &Vec<Vec<char>>,
    Ghost(s): Ghost<Seq<Seq<char>>>,
)
    requires
        is_table_of(view_words(old(keys)@), old(counts)@, s),
        s.len() + toks.len() <= usize::MAX,
    ensures
        is_table_of(view_words(final(keys)@), final(counts)@, s + view_words(toks@)),
{
    let mut i: usize = 0;
    while i < toks.len()
        invariant
            i <= toks.len(),
            s.len() + toks.len() <= usize::MAX,
            is_table_of(
                view_words(keys@),
                counts@,
                s + view_words(toks@).subrange(0, i as int),
            ),
        decreases toks.len() - i,
    {
        let ghost cur = s + view_words(toks@).subrange(0, i as int);
        let ghost next = s + view_words(toks@).subrange(0, i + 1);
        let ghost w = toks@[i as int]@;
        assert(next == cur.push(w));
        assert forall|t: Seq<char>| occurrences(next, t) == occurrences(cur, t) + if w == t {
            1nat
        } else {
            0nat
        } by {
            lemma_occurrences_push(cur, w, t);
        }
        assert(next.contains(w)) by {
            assert(next[next.len() - 1] == w);
        }
        assert forall|t: Seq<char>| cur.contains(t) implies next.contains(t) by {
            {
                let k = choose|k: int| 0 <= k < cur.len() && cur[k] == t;
                assert(next[k] == t);
            }
        }
        assert forall|t: Seq<char>| next.contains(t) implies cur.contains(t) || t == w by {
            if t != w {
                let k = choose|k: int| 0 <= k < next.len() && next[k] == t;
                assert(cur[k] == t);
            }
        }
        match find_key(keys, &toks[i]) {
            Some(j) => {
                proof {
                    lemma_occurrences_bound(cur, w);
                }
                let c = counts[j] + 1;
                counts.set(j, c);
                proof {
                    assert forall|k: int| 0 <= k < keys.len() && k != j implies keys@[k]@ != w by {
                        assert(view_words(keys@)[k] == keys@[k]@);
                        assert(view_words(keys@)[j as int] == keys@[j as int]@);
                    }
                    assert forall|t: Seq<char>| next.contains(t) implies view_words(
                        keys@,
                    ).contains(t) by {
                        if t == w {
                            assert(view_words(keys@)[j as int] == t);
                        }
                    }
                }
            },
            None => {
                let ghost old_keys = view_words(keys@);
                keys.push(copy_chars(&toks[i]));
                counts.push(1);
                proof {
                    assert(view_words(keys@) == old_keys.push(w));
                    assert forall|k: int| 0 <= k < old_keys.len() implies old_keys[k] != w by {
                        assert(old_keys.contains(old_keys[k]));
                    }
                    assert(!cur.contains(w));
                    lemma_occurrences_bound(cur, w);
                    assert forall|t: Seq<char>| next.contains(t) implies view_words(
                        keys@,
                    ).contains(t) by {
                        if t == w {
                            assert(view_words(keys@)[old_keys.len() as int] == t);
                        } else {
                            let k = choose|k: int| 0 <= k < old_keys.len() && old_keys[k] == t;
                            assert(view_words(keys@)[k] == t);
                        }
                    }
                }
            },
        }
        i = i + 1;
    }
    assert(view_words(toks@).subrange(0, toks.len() as int) == view_words(toks@));
}

/// The entries of a table with tokens `keys` and counts `counts`.
pub open spec fn entries(keys: Seq<Vec<char>>, counts: Seq<usize>) -> Seq<Entry> {
    Seq::new(keys.len(), |i: int| (keys[i]@, counts[i] as nat))
}

pub open spec fn min_nat(a: nat, b: nat) -> nat {
    if a < b {
        a
    } else {
        b
    }
}

/// `r` holds the `top_n` entries of `table` that rank first, in ranking order.
pub open spec fn is_top_of(table: Seq<Entry>, top_n: nat, r: Seq<Entry>) -> bool {
    &&& r.len() == min_nat(top_n, table.len())
    &&& forall|i: int| 0 <= i < r.len() ==> table.contains(r[i])
    &&& forall|i: int, j: int| 0 <= i < j < r.len() ==> ranks_before(r[i], r[j])
    &&& forall|i: int, e: Entry|
        0 <= i < r.len() && table.contains(e) && !r.contains(e) ==> ranks_before(r[i], e)
}

/// The position of the entry that ranks first among `keys` and `counts`.
fn best_entry(keys: &Vec<Vec<char>>, counts: &Vec<usize>) -> (b: usize)
    requires
        keys.len() == counts.len(),
        keys.len() > 0,
        view_words(keys@).no_duplicates(),
    ensures
        b < keys.len(),
        forall|m: int|
            0 <= m < keys.len() && m != b ==> ranks_before(
                entries(keys@, counts@)[b as int],
                entries(keys@, counts@)[m],
            ),
{
    let ghost e = entries(keys@, counts@);
    let mut b: usize = 0;
    let mut i: usize = 1;
    while i < keys.len()
        invariant
            keys.len() == counts.len(),
            e == entries(keys@, counts@),
            view_words(keys@).no_duplicates(),
            b < i <= keys.len(),
            forall|m: int| 0 <= m < i && m != b ==> ranks_before(e[b as int], e[m]),
        decreases keys.len() - i,
    {
        assert(view_words(keys@)[i as int] != view_words(keys@)[b as int]);
        if ranks_before_exec(&keys[i], counts[i], &keys[b], counts[b]) {
            assert forall|m: int| 0 <= m < i + 1 && m != i implies ranks_before(
                e[i as int],
                e[m],
            ) by {
                lemma_ranks_before_order(e[i as int], e[b as int], e[m]);
            }
            b = i;
        } else {
            proof {
                lemma_ranks_before_order(e[b as int], e[i as int], e[b as int]);
            }
        }
        i = i + 1;
    }
    b
}

/// The first `top_n` entries of a table with distinct tokens, in ranking order.
fn top_entries(keys: Vec<Vec<char>>, counts: Vec<usize>, top_n: usize) -> (r: (
    Vec<Vec<char>>,
    Vec<usize>,
))
    requires
        keys.len() == counts.len(),
        view_words(keys@).no_duplicates(),
    ensures
        r.0.len() == r.1.len(),
        is_top_of(entries(keys@, counts@), top_n as nat, entries(r.0@, r.1@)),
{
    let ghost table = entries(keys@, counts@);
    let k: usize = if top_n < keys.len() {
        top_n
    } else {
        keys.len()
    };
    let mut rest_k = keys;
    let mut rest_c = counts;
    let mut out_k: Vec<Vec<char>> = Vec::new();
    let mut out_c: Vec<usize> = Vec::new();
    while out_k.len() < k
        invariant
            k == min_nat(top_n as nat, table.len()),
            rest_k.len() == rest_c.len(),
            out_k.len() == out_c.len(),
            out_k.len() + rest_k.len() == table.len(),
            out_k.len() <= k,
            view_words(rest_k@).no_duplicates(),
            forall|i: int|
                0 <= i < out_k.len() ==> table.contains(entries(out_k@, out_c@)[i]),
            forall|i: int|
                0 <= i < rest_k.len() ==> table.contains(entries(rest_k@, rest_c@)[i]),
            forall|e: Entry|
                table.contains(e) ==> entries(out_k@, out_c@).contains(e) || entries(
                    rest_k@,
                    rest_c@,
                ).contains(e),
            forall|i: int, j: int|
                0 <= i < j < out_k.len() ==> ranks_before(
                    entries(out_k@, out_c@)[i],
                    entries(out_k@, out_c@)[j],
                ),
            forall|i: int, m: int|
                0 <= i < out_k.len() && 0 <= m < rest_k.len() ==> ranks_before(
                    entries(out_k@, out_c@)[i],
                    entries(rest_k@, rest_c@)[m],
                ),
        decreases k - out_k.len(),
    {
        let ghost out = entries(out_k@, out_c@);
        let ghost rest = entries(rest_k@, rest_c@);
        let ghost rest_words = view_words(rest_k@);
        let b = best_entry(&rest_k, &rest_c);
        let ghost best = rest[b as int];
        let key = rest_k.remove(b);
        let c = rest_c.remove(b);
        out_k.push(key);
        out_c.push(c);
        proof {
            let out2 = entries(out_k@, out_c@);
            let rest2 = entries(rest_k@, rest_c@);
            assert(out2 =~= out.push(best));
            assert(rest2 =~= rest.remove(b as int));
            assert(view_words(rest_k@) =~= rest_words.remove(b as int));
            assert forall|x: int, y: int|
                0 <= x < y < rest_k.len() implies view_words(rest_k@)[x] != view_words(
                rest_k@,
            )[y] by {
                let x0 = if x < b {
                    x
                } else {
                    x + 1
                };
                let y0 = if y < b {
                    y
                } else {
                    y + 1
                };
                assert(rest_words[x0] != rest_words[y0]);
            }
            assert forall|i: int, m: int|
                0 <= i < out2.len() && 0 <= m < rest2.len() implies ranks_before(
                out2[i],
                rest2[m],
            ) by {
                let m0 = if m < b {
                    m
                } else {
                    m + 1
                };
                assert(rest2[m] == rest[m0]);
            }
            assert forall|i: int| 0 <= i < rest2.len() implies table.contains(rest2[i]) by {
                let m0 = if i < b {
                    i
                } else {
                    i + 1
                };
                assert(rest2[i] == rest[m0]);
            }
            assert forall|i: int| 0 <= i < out2.len() implies table.contains(out2[i]) by {
                if i == out.len() {
                    assert(table.contains(rest[b as int]));
                } else {
                    assert(out2[i] == out[i]);
                }
            }
            assert forall|e: Entry| table.contains(e) implies out2.contains(e) || rest2.contains(
                e,
            ) by {
                if out.contains(e) {
                    let i = choose|i: int| 0 <= i < out.len() && out[i] == e;
                    assert(out2[i] == e);
                } else {
                    let m = choose|m: int| 0 <= m < rest.len() && rest[m] == e;
                    if m == b {
                        assert(out2[out.len() as int] == e);
                    } else if m < b {
                        assert(rest2[m] == e);
                    } else {
                        assert(rest2[m - 1] == e);
                    }
                }
            }
        }
    }
    proof {
        let out = entries(out_k@, out_c@);
        let rest = entries(rest_k@, rest_c@);
        assert forall|i: int, e: Entry|
            0 <= i < out.len() && table.contains(e) && !out.contains(e) implies ranks_before(
            out[i],
            e,
        ) by {
            let m = choose|m: int| 0 <= m < rest.len() && rest[m] == e;
        }
    }
    (out_k, out_c)
}

/// The keyword tokens of all notes, note after note.
pub open spec fn batch_keywords(notes: Seq<Note>) -> Seq<Seq<char>>
    decreases notes.len(),
{
    if notes.len() == 0 {
        seq![]
    } else {
        batch_keywords(notes.drop_last()) + note_keywords(notes.last().content@)
    }
}

/// The tokens of a ranked list.
pub open spec fn ranked_tokens(r: Seq<Entry>) -> Seq<Seq<char>> {
    r.map_values(|e: Entry| e.0)
}

/// `r` ranks the `top_n` most frequent tokens of `s` with their counts: by count,
/// highest first, and equal counts in lexicographic order of the token.
pub open spec fn is_keyword_ranking(s: Seq<Seq<char>>, top_n: nat, r: Seq<Entry>) -> bool {
    &&& r.len() == min_nat(top_n, s.to_set().len())
    &&& forall|i: int| 0 <= i < r.len() ==> s.contains(r[i].0) && r[i].1 == occurrences(s, r[i].0)
    &&& forall|i: int, j: int| 0 <= i < j < r.len() ==> ranks_before(r[i], r[j])
    &&& forall|i: int, t: Seq<char>|
        0 <= i < r.len() && s.contains(t) && !ranked_tokens(r).contains(t) ==> ranks_before(
            r[i],
            (t, occurrences(s, t)),
        )
}

/// The entries of a ranked list of tokens and counts.
pub open spec fn ranked_view(r: Seq<(String, usize)>) -> Seq<Entry> {
    r.map_values(|p: (String, usize)| (p.0@, p.1 as nat))
}

proof fn lemma_batch_prefix(notes: Seq<Note>, j: int)
    requires
        0 <= j <= notes.len(),
    ensures
        batch_keywords(notes.subrange(0, j)).len() <= batch_keywords(notes).len(),
    decreases notes.len(),
{
    if j < notes.len() {
        assert(notes.subrange(0, j) == notes.drop_last().subrange(0, j));
        lemma_batch_prefix(notes.drop_last(), j);
    } else {
        assert(notes.subrange(0, j) == notes);
    }
}

proof fn lemma_table_ranking(
    keys: Seq<Vec<char>>,
    counts: Seq<usize>,
    s: Seq<Seq<char>>,
    top_n: nat,
    r: Seq<Entry>,
)
    requires
        is_table_of(view_words(keys), counts, s),
        is_top_of(entries(keys, counts), top_n, r),
    ensures
        is_keyword_ranking(s, top_n, r),
{
    let k = view_words(keys);
    let t = entries(keys, counts);
    k.unique_seq_to_set();
    assert forall|x: Seq<char>| k.to_set().contains(x) == s.to_set().contains(x) by {
        if k.contains(x) {
            let j = choose|j: int| 0 <= j < k.len() && k[j] == x;
        }
    }
    assert(k.to_set() =~= s.to_set());
    assert forall|i: int| 0 <= i < r.len() implies s.contains(r[i].0) && r[i].1 == occurrences(
        s,
        r[i].0,
    ) by {
        let j = choose|j: int| 0 <= j < t.len() && t[j] == r[i];
        assert(k[j] == keys[j]@);
    }
    assert forall|i: int, x: Seq<char>|
        0 <= i < r.len() && s.contains(x) && !ranked_tokens(r).contains(x) implies ranks_before(
        r[i],
        (x, occurrences(s, x)),
    ) by {
        let j = choose|j: int| 0 <= j < k.len() && k[j] == x;
        assert(t[j] == (x, occurrences(s, x)));
        if r.contains(t[j]) {
            let m = choose|m: int| 0 <= m < r.len() && r[m] == t[j];
            assert(ranked_tokens(r)[m] == x);
        }
    }
}

/// The `top_n` most frequent keywords of the notes with their counts: highest count
/// first, equal counts in lexicographic order of the token. Fails only when the
/// number of keyword tokens in the batch does not fit in `usize`.
pub fn extract_keywords(notes: &Vec<Note>, top_n: usize) -> (r: Result<
    Vec<(String, usize)>,
    AnalysisError,
>)
    ensures
        r is Err <==> batch_keywords(notes@).len() > usize::MAX,
        r matches Ok(v) ==> is_keyword_ranking(batch_keywords(notes@), top_n as nat, ranked_view(v@)),
        r matches Ok(v) ==> forall|i: int|
            0 <= i < v.len() ==> v@[i].0@.len() > 1 && !is_stop_word(#[trigger] v@[i].0@),
        r matches Ok(v) ==> forall|i: int, j: int|
            0 <= i < v.len() && 0 <= j < v@[i].0@.len() ==> is_letter(#[trigger] v@[i].0@[j]),
        r matches Ok(v) ==> sum_counts(ranked_view(v@)) <= batch_keywords(notes@).len(),
        top_n == 0 ==> (r matches Ok(v) ==> v.len() == 0),
{
    let mut keys: Vec<Vec<char>> = Vec::new();
    let mut counts: Vec<usize> = Vec::new();
    let mut total: usize = 0;
    let ghost mut s: Seq<Seq<char>> = seq![];
    let mut i: usize = 0;
    while i < notes.len()
        invariant
            i <= notes.len(),
            s == batch_keywords(notes@.subrange(0, i as int)),
            total == s.len(),
            is_table_of(view_words(keys@), counts@, s),
        decreases notes.len() - i,
    {
        assert(notes@.subrange(0, i + 1).drop_last() == notes@.subrange(0, i as int));
        let toks = note_keyword_tokens(notes[i].content.as_str());
        if toks.len() > usize::MAX - total {
            proof {
                lemma_batch_prefix(notes@, i + 1);
            }
            return Err(AnalysisError::CountOverflow);
        }
        count_tokens(&mut keys, &mut counts, &toks, Ghost(s));
        total = total + toks.len();
        proof {
            s = s + view_words(toks@);
        }
        i = i + 1;
    }
    assert(notes@.subrange(0, notes.len() as int) == notes@);
    let ghost table_keys = keys@;
    let ghost table_counts = counts@;
    let (top_k, top_c) = top_entries(keys, counts, top_n);
    proof {
        lemma_table_ranking(table_keys, table_counts, s, top_n as nat, entries(top_k@, top_c@));
    }
    let mut out: Vec<(String, usize)> = Vec::new();
    let mut j: usize = 0;
    while j < top_k.len()
        invariant
            j <= top_k.len(),
            top_k.len() == top_c.len(),
            out.len() == j,
            forall|m: int| #![trigger out@[m]] 0 <= m < j ==> out@[m].0@ == top_k@[m]@ && out@[m].1 == top_c@[m],
        decreases top_k.len() - j,
    {
        let name = string_of(&top_k[j]);
        let c = top_c[j];
        out.push((name, c));
        j = j + 1;
    }
    assert(ranked_view(out@) =~= entries(top_k@, top_c@));
    proof {
        let rv = ranked_view(out@);
        lemma_ranking_count_bound(s, top_n as nat, rv);
        lemma_ranking_length(s, top_n as nat, rv);
        assert forall|i: int| 0 <= i < out.len() implies out@[i].0@.len() > 1 && !is_stop_word(
            #[trigger] out@[i].0@,
        ) && forall|j: int| 0 <= j < out@[i].0@.len() ==> is_letter(#[trigger] out@[i].0@[j]) by {
            assert(rv[i].0 == out@[i].0@);
            lemma_batch_tokens_are_keywords(notes@, rv[i].0);
        }
    }
    Ok(out)
}

} // verus!
