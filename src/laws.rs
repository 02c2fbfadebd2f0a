//! Properties that relate the results of the analysis to each other and to the input.

use vstd::prelude::*;

use crate::keywords::{
    batch_keywords, is_keyword, is_keyword_ranking, note_keywords,
    occurrences, ranked_tokens, lemma_occurrences_push,
};
use crate::notes::{projects, total_words, Note};
use crate::order::{lemma_ranks_before_order, ranks_before, Entry};
use crate::keywords::normalized;
use crate::text::{
    is_letter, lemma_noise_stripped_kept, lemma_words_of_letters, lower_of, matches_deleted, words,
    CONTRACTION_PATTERN,
};

verus! {

/// The sum of the counts of a ranked list.
pub open spec fn sum_counts(r: Seq<Entry>) -> nat
    decreases r.len(),
{
    if r.len() == 0 {
        0
    } else {
        sum_counts(r.drop_last()) + r.last().1
    }
}

/// The sum over `ts` of the occurrences of each in `s`.
pub open spec fn sum_occurrences(ts: Seq<Seq<char>>, s: Seq<Seq<char>>) -> nat
    decreases ts.len(),
{
    if ts.len() == 0 {
        0
    } else {
        sum_occurrences(ts.drop_last(), s) + occurrences(s, ts.last())
    }
}

/// How many entries of `ts` equal `w`.
pub open spec fn count_equal(ts: Seq<Seq<char>>, w: Seq<char>) -> nat
    decreases ts.len(),
{
    if ts.len() == 0 {
        0
    } else {
        count_equal(ts.drop_last(), w) + if ts.last() == w {
            1nat
        } else {
            0nat
        }
    }
}

proof fn lemma_sum_occurrences_empty(ts: Seq<Seq<char>>)
    ensures
        sum_occurrences(ts, seq![]) == 0,
    decreases ts.len(),
{
    if ts.len() > 0 {
        lemma_sum_occurrences_empty(ts.drop_last());
    }
}

proof fn lemma_sum_occurrences_push(ts: Seq<Seq<char>>, s: Seq<Seq<char>>, w: Seq<char>)
    ensures
        sum_occurrences(ts, s.push(w)) == sum_occurrences(ts, s) + count_equal(ts, w),
    decreases ts.len(),
{
    if ts.len() > 0 {
        lemma_sum_occurrences_push(ts.drop_last(), s, w);
        lemma_occurrences_push(s, w, ts.last());
    }
}

proof fn lemma_count_equal_distinct(ts: Seq<Seq<char>>, w: Seq<char>)
    requires
        ts.no_duplicates(),
    ensures
        count_equal(ts, w) <= 1,
        !ts.contains(w) ==> count_equal(ts, w) == 0,
    decreases ts.len(),
{
    if ts.len() > 0 {
        let d = ts.drop_last();
        assert(d.no_duplicates());
        lemma_count_equal_distinct(d, w);
        if ts.last() == w {
            assert forall|k: int| 0 <= k < d.len() implies d[k] != w by {
                assert(ts[k] != ts[ts.len() - 1]);
            }
        }
        if d.contains(w) {
            let k = choose|k: int| 0 <= k < d.len() && d[k] == w;
            assert(ts[k] == w);
        }
    }
}

proof fn lemma_sum_occurrences_bound(ts: Seq<Seq<char>>, s: Seq<Seq<char>>)
    requires
        ts.no_duplicates(),
    ensures
        sum_occurrences(ts, s) <= s.len(),
    decreases s.len(),
{
    if s.len() == 0 {
        assert(s == Seq::<Seq<char>>::empty());
        lemma_sum_occurrences_empty(ts);
    } else {
        lemma_sum_occurrences_bound(ts, s.drop_last());
        assert(s == s.drop_last().push(s.last()));
        lemma_sum_occurrences_push(ts, s.drop_last(), s.last());
        lemma_count_equal_distinct(ts, s.last());
    }
}

proof fn lemma_sum_counts_occurrences(r: Seq<Entry>, s: Seq<Seq<char>>)
    requires
        forall|i: int| 0 <= i < r.len() ==> r[i].1 == occurrences(s, r[i].0),
    ensures
        sum_counts(r) == sum_occurrences(ranked_tokens(r), s),
    decreases r.len(),
{
    if r.len() > 0 {
        lemma_sum_counts_occurrences(r.drop_last(), s);
        assert(ranked_tokens(r).drop_last() == ranked_tokens(r.drop_last()));
    }
}

/// The tokens of a keyword ranking are distinct.
pub proof fn lemma_ranking_distinct(s: Seq<Seq<char>>, top_n: nat, r: Seq<Entry>)
    requires
        is_keyword_ranking(s, top_n, r),
    ensures
        ranked_tokens(r).no_duplicates(),
{
    assert forall|i: int, j: int|
        0 <= i < ranked_tokens(r).len() && 0 <= j < ranked_tokens(r).len() && i != j implies
        ranked_tokens(r)[i] != ranked_tokens(r)[j] by {
        lemma_ranks_before_order(r[i], r[j], r[i]);
    }
}

/// The counts of a keyword ranking add up to at most the number of keyword tokens.
pub proof fn lemma_ranking_count_bound(s: Seq<Seq<char>>, top_n: nat, r: Seq<Entry>)
    requires
        is_keyword_ranking(s, top_n, r),
    ensures
        sum_counts(r) <= s.len(),
{
    lemma_ranking_distinct(s, top_n, r);
    lemma_sum_counts_occurrences(r, s);
    lemma_sum_occurrences_bound(ranked_tokens(r), s);
}

proof fn lemma_ranking_step(s: Seq<Seq<char>>, top_n: nat, r1: Seq<Entry>, r2: Seq<Entry>, i: int)
    requires
        is_keyword_ranking(s, top_n, r1),
        is_keyword_ranking(s, top_n, r2),
        0 <= i < r1.len(),
        forall|k: int| 0 <= k < i ==> r1[k] == r2[k],
    ensures
        r1[i] == r2[i] || ranks_before(r1[i], r2[i]),
{
    let b = r2[i];
    if r1[i] != b {
        if ranked_tokens(r1).contains(b.0) {
            let m = choose|m: int| 0 <= m < r1.len() && ranked_tokens(r1)[m] == b.0;
            assert(r1[m] == b);
            if m < i {
                lemma_ranks_before_order(b, b, b);
                assert(r2[m] == b);
            }
        }
    }
}

proof fn lemma_ranking_prefix(s: Seq<Seq<char>>, top_n: nat, r1: Seq<Entry>, r2: Seq<Entry>, i: int)
    requires
        is_keyword_ranking(s, top_n, r1),
        is_keyword_ranking(s, top_n, r2),
        0 <= i <= r1.len(),
    ensures
        forall|k: int| 0 <= k < i ==> r1[k] == r2[k],
    decreases i,
{
    if i > 0 {
        let j = i - 1;
        lemma_ranking_prefix(s, top_n, r1, r2, j);
        lemma_ranking_step(s, top_n, r1, r2, j);
        lemma_ranking_step(s, top_n, r2, r1, j);
        lemma_ranks_before_order(r1[j], r2[j], r1[j]);
    }
}

/// Keyword ranking is deterministic: two rankings of the same tokens with the same
/// `top_n` are the same list.
pub proof fn lemma_ranking_unique(s: Seq<Seq<char>>, top_n: nat, r1: Seq<Entry>, r2: Seq<Entry>)
    requires
        is_keyword_ranking(s, top_n, r1),
        is_keyword_ranking(s, top_n, r2),
    ensures
        r1 == r2,
{
    lemma_ranking_prefix(s, top_n, r1, r2, r1.len() as int);
    assert(r1 =~= r2);
}

/// Extracting keywords twice from the same batch with the same `top_n` gives the same
/// ranked list.
pub proof fn lemma_extraction_deterministic(
    notes: Seq<Note>,
    top_n: nat,
    r1: Seq<Entry>,
    r2: Seq<Entry>,
)
    requires
        is_keyword_ranking(batch_keywords(notes), top_n, r1),
        is_keyword_ranking(batch_keywords(notes), top_n, r2),
    ensures
        r1 == r2,
{
    lemma_ranking_unique(batch_keywords(notes), top_n, r1, r2);
}

/// Every keyword token of a batch is longer than one character, no stop word, and
/// made of letters only.
pub proof fn lemma_batch_tokens_are_keywords(notes: Seq<Note>, t: Seq<char>)
    requires
        batch_keywords(notes).contains(t),
    ensures
        is_keyword(t),
        forall|j: int| 0 <= j < t.len() ==> is_letter(#[trigger] t[j]),
    decreases notes.len(),
{
    if notes.len() > 0 {
        let pre = batch_keywords(notes.drop_last());
        let last = note_keywords(notes.last().content@);
        let k = choose|k: int| 0 <= k < batch_keywords(notes).len() && batch_keywords(notes)[k] == t;
        if k < pre.len() {
            assert(pre[k] == t);
            lemma_batch_tokens_are_keywords(notes.drop_last(), t);
        } else {
            assert(last[k - pre.len()] == t);
            let clean = normalized(notes.last().content@);
            let ws = words(clean);
            assert(last.contains(t));
            ws.lemma_filter_contains_rev(|w: Seq<char>| is_keyword(w), t);
            ws.lemma_filter_pred(|w: Seq<char>| is_keyword(w), k - pre.len());
            lemma_noise_stripped_kept(matches_deleted(CONTRACTION_PATTERN@, lower_of(notes.last().content@)));
            lemma_words_of_letters(clean);
            let m = choose|m: int| 0 <= m < ws.len() && ws[m] == t;
            assert forall|j: int| 0 <= j < t.len() implies is_letter(t[j]) by {
                assert(ws[m][j] == t[j]);
            }
        }
    }
}

/// A keyword ranking holds `min(top_n, distinct tokens)` entries: none for a `top_n`
/// of zero, and every distinct token for a `top_n` at least their number.
pub proof fn lemma_ranking_length(s: Seq<Seq<char>>, top_n: nat, r: Seq<Entry>)
    requires
        is_keyword_ranking(s, top_n, r),
    ensures
        top_n == 0 ==> r.len() == 0,
        top_n >= s.to_set().len() ==> r.len() == s.to_set().len(),
        top_n >= s.to_set().len() ==> forall|t: Seq<char>|
            s.contains(t) ==> ranked_tokens(r).contains(t),
{
    lemma_ranking_distinct(s, top_n, r);
    if top_n >= s.to_set().len() {
        assert forall|t: Seq<char>| s.contains(t) implies ranked_tokens(r).contains(t) by {
            if !ranked_tokens(r).contains(t) {
                let toks = ranked_tokens(r);
                toks.unique_seq_to_set();
                assert(toks.to_set().subset_of(s.to_set())) by {
                    assert forall|x: Seq<char>| toks.to_set().contains(x) implies s.to_set().contains(x) by {
                        let m = choose|m: int| 0 <= m < toks.len() && toks[m] == x;
                    }
                }
                assert(toks.to_set().insert(t).subset_of(s.to_set()));
                vstd::set_lib::lemma_len_subset(toks.to_set().insert(t), s.to_set());
            }
        }
    }
}

/// The word total of a batch is the sum of its notes' word counts: appending a note
/// adds the number of its words, and a note with empty content adds nothing.
pub proof fn lemma_total_words_push(notes: Seq<Note>, n: Note)
    ensures
        total_words(notes.push(n)) == total_words(notes) + words(n.content@).len(),
        n.content@.len() == 0 ==> total_words(notes.push(n)) == total_words(notes),
{
    assert(notes.push(n).drop_last() == notes);
}

/// Empty projects are never counted, and a project already present counts once.
pub proof fn lemma_projects_push(notes: Seq<Note>, n: Note)
    ensures
        !projects(notes).contains(Seq::<char>::empty()),
        n.project@.len() == 0 || projects(notes).contains(n.project@) ==> projects(notes.push(n))
            == projects(notes),
{
    let next = notes.push(n);
    if n.project@.len() == 0 || projects(notes).contains(n.project@) {
        assert forall|p: Seq<char>| projects(next).contains(p) == projects(notes).contains(p) by {
            if projects(next).contains(p) {
                let k = choose|k: int| 0 <= k < next.len() && next[k].project@ == p;
                if k < notes.len() {
                    assert(notes[k] == next[k]);
                }
            }
            if projects(notes).contains(p) {
                let k = choose|k: int| 0 <= k < notes.len() && notes[k].project@ == p;
                assert(next[k] == notes[k]);
            }
        }
        assert(projects(next) =~= projects(notes));
    }
}

} // verus!
