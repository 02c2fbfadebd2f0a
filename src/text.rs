//! Characters, whitespace and tokenization.

use vstd::prelude::*;

verus! {

/// The Unicode `White_Space` property.
pub open spec fn is_white_space(c: char) -> bool {
    ('\u{9}' <= c && c <= '\u{d}') || c == ' ' || c == '\u{85}' || c == '\u{a0}'
        || c == '\u{1680}' || ('\u{2000}' <= c && c <= '\u{200a}') || c == '\u{2028}'
        || c == '\u{2029}' || c == '\u{202f}' || c == '\u{205f}' || c == '\u{3000}'
}

/// Tests the Unicode `White_Space` property, as `char::is_whitespace` does.
pub fn white_space(c: char) -> (r: bool)
    ensures
        r == is_white_space(c),
{
    ('\u{9}' <= c && c <= '\u{d}') || c == ' ' || c == '\u{85}' || c == '\u{a0}'
        || c == '\u{1680}' || ('\u{2000}' <= c && c <= '\u{200a}') || c == '\u{2028}'
        || c == '\u{2029}' || c == '\u{202f}' || c == '\u{205f}' || c == '\u{3000}'
}

/// The maximal runs of non-whitespace characters of `s`, in order.
pub open spec fn words(s: Seq<char>) -> Seq<Seq<char>>
    decreases s.len(),
{
    if s.len() == 0 {
        seq![]
    } else {
        let prev = words(s.drop_last());
        let c = s.last();
        if is_white_space(c) {
            prev
        } else if s.len() >= 2 && !is_white_space(s[s.len() - 2]) {
            prev.drop_last().push(prev.last().push(c))
        } else {
            prev.push(seq![c])
        }
    }
}

/// The character sequences held by a list of tokens.
pub open spec fn view_words(v: Seq<Vec<char>>) -> Seq<Seq<char>> {
    v.map_values(|w: Vec<char>| w@)
}

/// Splits `s` on runs of whitespace.
pub fn split_words(s: &Vec<char>) -> (r: Vec<Vec<char>>)
    ensures
        view_words(r@) == words(s@),
{
    let mut out: Vec<Vec<char>> = Vec::new();
    let mut i: usize = 0;
    while i < s.len()
        invariant
            i <= s.len(),
            view_words(out@) == words(s@.subrange(0, i as int)),
        decreases s.len() - i,
    {
        let c = s[i];
        let ghost pre = s@.subrange(0, i as int);
        assert(s@.subrange(0, i + 1).drop_last() == pre);
        if white_space(c) {
        } else if i >= 1 && !white_space(s[i - 1]) {
            assert(words(pre).len() > 0) by {
                assert(pre.drop_last().len() == 0 ==> pre.len() == 1);
                assert(pre.last() == s@[i - 1]);
            }
            let mut last = out.pop().unwrap();
            last.push(c);
            out.push(last);
            assert(view_words(out@) =~= words(s@.subrange(0, i + 1)));
        } else {
            let mut w: Vec<char> = Vec::new();
            w.push(c);
            out.push(w);
            assert(view_words(out@) =~= words(s@.subrange(0, i + 1)));
        }
        i = i + 1;
    }
    assert(s@.subrange(0, s.len() as int) == s@);
    out
}

/// Whether two character sequences are equal.
pub fn same_chars(a: &Vec<char>, b: &Vec<char>) -> (r: bool)
    ensures
        r == (a@ == b@),
{
    if a.len() != b.len() {
        return false;
    }
    let mut i: usize = 0;
    while i < a.len()
        invariant
            i <= a.len(),
            a.len() == b.len(),
            forall|j: int| 0 <= j < i ==> a@[j] == b@[j],
        decreases a.len() - i,
    {
        if a[i] != b[i] {
            return false;
        }
        i = i + 1;
    }
    assert(a@ =~= b@);
    true
}

/// A copy of a character sequence.
pub fn copy_chars(a: &Vec<char>) -> (r: Vec<char>)
    ensures
        r@ == a@,
{
    let mut r: Vec<char> = Vec::new();
    let mut i: usize = 0;
    while i < a.len()
        invariant
            i <= a.len(),
            r@ == a@.subrange(0, i as int),
        decreases a.len() - i,
    {
        r.push(a[i]);
        i = i + 1;
    }
    assert(a@.subrange(0, a.len() as int) == a@);
    r
}

/// Relies on `str::chars` collected into a `Vec`: the characters of `s`, in order.
#[verifier::external_body]
pub(crate) fn chars_of(s: &str) -> (r: Vec<char>)
    ensures
        r@ == s@,
{
    s.chars().collect()
}

/// Relies on collecting a `char` iterator into a `String`: the characters of `v`, in order.
#[verifier::external_body]
pub(crate) fn string_of(v: &Vec<char>) -> (r: String)
    ensures
        r@ == v@,
{
    v.iter().collect()
}

/// What `str::to_lowercase` returns for a string: Unicode lowercase mapping.
pub uninterp spec fn lower_of(s: Seq<char>) -> Seq<char>;

/// Relies on `str::to_lowercase`: the result depends on the characters alone,
/// and an empty string stays empty.
#[verifier::external_body]
pub(crate) fn lowercase(s: &str) -> (r: String)
    ensures
        r@ == lower_of(s@),
        s@.len() == 0 ==> r@.len() == 0,
{
    s.to_lowercase()
}

/// An elided French article or pronoun at the start of a word: `qu` or one of the
/// letters d, l, c, j, n, t, s, q, u, followed by an apostrophe.
pub const CONTRACTION_PATTERN: &'static str = "\\b(?:qu|[dlcjntsqu])'";

/// Any character that is neither a Latin letter nor whitespace.
pub const NOISE_PATTERN: &'static str = "[^a-zA-Z\u{c0}-\u{ff}\\s]";

/// What deleting every match of the regular expression `pattern` from `text` leaves.
pub uninterp spec fn matches_deleted(pattern: Seq<char>, text: Seq<char>) -> Seq<char>;

/// An ASCII letter, a letter of the Latin-1 range U+00C0..=U+00FF, or whitespace.
pub open spec fn is_kept_char(c: char) -> bool {
    ('a' <= c && c <= 'z') || ('A' <= c && c <= 'Z') || ('\u{c0}' <= c && c <= '\u{ff}')
        || is_white_space(c)
}

/// An ASCII letter or a letter of the Latin-1 range U+00C0..=U+00FF.
pub open spec fn is_letter(c: char) -> bool {
    ('a' <= c && c <= 'z') || ('A' <= c && c <= 'Z') || ('\u{c0}' <= c && c <= '\u{ff}')
}

/// The words of text made of letters and whitespace are made of letters.
pub proof fn lemma_words_of_letters(s: Seq<char>)
    requires
        forall|i: int| 0 <= i < s.len() ==> is_kept_char(s[i]),
    ensures
        forall|k: int, j: int|
            0 <= k < words(s).len() && 0 <= j < words(s)[k].len() ==> is_letter(
                #[trigger] words(s)[k][j],
            ),
    decreases s.len(),
{
    if s.len() > 0 {
        let pre = s.drop_last();
        lemma_words_of_letters(pre);
        let prev = words(pre);
        let c = s.last();
        if !is_white_space(c) {
            if s.len() >= 2 && !is_white_space(s[s.len() - 2]) {
                assert(prev.len() > 0) by {
                    assert(pre.drop_last().len() == 0 ==> pre.len() == 1);
                    assert(pre.last() == s[s.len() - 2]);
                }
                let w = words(s);
                assert forall|k: int, j: int|
                    0 <= k < w.len() && 0 <= j < w[k].len() implies is_letter(w[k][j]) by {
                    if k == w.len() - 1 && j < prev.last().len() {
                        assert(w[k][j] == prev[k][j]);
                    } else if k < w.len() - 1 {
                        assert(w[k] == prev[k]);
                    }
                }
            } else {
                let w = words(s);
                assert forall|k: int, j: int|
                    0 <= k < w.len() && 0 <= j < w[k].len() implies is_letter(w[k][j]) by {
                    if k < prev.len() {
                        assert(w[k] == prev[k]);
                    }
                }
            }
        }
    }
}

/// `s` with every character removed that is neither a letter nor whitespace.
pub open spec fn noise_stripped(s: Seq<char>) -> Seq<char> {
    s.filter(|c: char| is_kept_char(c))
}

pub proof fn lemma_noise_stripped_kept(s: Seq<char>)
    ensures
        forall|i: int|
            0 <= i < noise_stripped(s).len() ==> is_kept_char(#[trigger] noise_stripped(s)[i]),
{
    assert forall|i: int| 0 <= i < noise_stripped(s).len() implies is_kept_char(
        noise_stripped(s)[i],
    ) by {
        s.lemma_filter_pred(|c: char| is_kept_char(c), i);
    }
}

/// Relies on `regex::Regex::new` and `Regex::replace_all` with an empty replacement:
/// every leftmost-first, non-overlapping match of `pattern` in `text` is deleted.
/// Both patterns of this module are valid. The noise pattern is one negated class,
/// whose matches are single characters outside the class (`\s` being Unicode
/// `White_Space`), so deleting them keeps exactly the characters inside it.
#[verifier::external_body]
fn delete_matches(pattern: &str, text: &str) -> (r: Result<String, regex::Error>)
    ensures
        r is Ok ==> r->Ok_0@ == matches_deleted(pattern@, text@),
        pattern@ == CONTRACTION_PATTERN@ ==> r is Ok,
        pattern@ == NOISE_PATTERN@ ==> r is Ok && r->Ok_0@ == noise_stripped(text@),
{
    let re = regex::Regex::new(pattern)?;
    Ok(re.replace_all(text, "").into_owned())
}

#[verifier::external_type_specification]
#[verifier::external_body]
pub struct ExRegexError(regex::Error);

/// Removes every elided article or pronoun (`l'`, `d'`, `qu'`, ...) that starts a word.
pub fn strip_contractions(s: &str) -> (r: String)
    ensures
        r@ == matches_deleted(CONTRACTION_PATTERN@, s@),
{
    match delete_matches(CONTRACTION_PATTERN, s) {
        Ok(out) => out,
        Err(_) => {
            proof {
                assert(false);
            }
            String::new()
        },
    }
}

/// Removes every character that is neither a letter nor whitespace, joining what
/// stood on both sides of it.
pub fn strip_noise(s: &str) -> (r: String)
    ensures
        r@ == noise_stripped(s@),
{
    match delete_matches(NOISE_PATTERN, s) {
        Ok(out) => out,
        Err(_) => {
            proof {
                assert(false);
            }
            String::new()
        },
    }
}

} // verus!
