//! The English and French stop words excluded from keyword ranking.

use vstd::prelude::*;

use crate::text::{chars_of, same_chars, view_words};

verus! {

/// The stop words, lowercase, including French elision prefixes and phrases.
pub open spec fn stop_words() -> Seq<Seq<char>> {
    seq![
        "a"@,
        "an"@,
        "and"@,
        "are"@,
        "as"@,
        "at"@,
        "be"@,
        "but"@,
        "by"@,
        "for"@,
        "if"@,
        "in"@,
        "into"@,
        "is"@,
        "it"@,
        "no"@,
        "not"@,
        "of"@,
        "on"@,
        "or"@,
        "such"@,
        "that"@,
        "the"@,
        "their"@,
        "then"@,
        "there"@,
        "these"@,
        "they"@,
        "this"@,
        "to"@,
        "was"@,
        "will"@,
        "with"@,
        "about"@,
        "above"@,
        "after"@,
        "again"@,
        "against"@,
        "all"@,
        "am"@,
        "any"@,
        "because"@,
        "been"@,
        "before"@,
        "being"@,
        "between"@,
        "both"@,
        "did"@,
        "do"@,
        "does"@,
        "doing"@,
        "down"@,
        "during"@,
        "each"@,
        "few"@,
        "from"@,
        "further"@,
        "had"@,
        "has"@,
        "have"@,
        "having"@,
        "he"@,
        "her"@,
        "here"@,
        "hers"@,
        "him"@,
        "his"@,
        "how"@,
        "i"@,
        "if"@,
        "into"@,
        "itself"@,
        "just"@,
        "me"@,
        "more"@,
        "most"@,
        "my"@,
        "myself"@,
        "now"@,
        "off"@,
        "once"@,
        "only"@,
        "other"@,
        "our"@,
        "ours"@,
        "ourselves"@,
        "out"@,
        "over"@,
        "own"@,
        "same"@,
        "she"@,
        "should"@,
        "some"@,
        "such"@,
        "than"@,
        "that"@,
        "theirs"@,
        "them"@,
        "themselves"@,
        "then"@,
        "there"@,
        "these"@,
        "they"@,
        "this"@,
        "those"@,
        "through"@,
        "under"@,
        "until"@,
        "up"@,
        "very"@,
        "we"@,
        "were"@,
        "what"@,
        "when"@,
        "where"@,
        "which"@,
        "while"@,
        "who"@,
        "whom"@,
        "why"@,
        "you"@,
        "your"@,
        "yours"@,
        "yourself"@,
        "yourselves"@,
        "le"@,
        "la"@,
        "les"@,
        "un"@,
        "une"@,
        "des"@,
        "de"@,
        "du"@,
        "et"@,
        "ou"@,
        "ne"@,
        "pas"@,
        "il"@,
        "elle"@,
        "on"@,
        "nous"@,
        "vous"@,
        "ils"@,
        "elles"@,
        "ce"@,
        "ces"@,
        "\u{e0}"@,
        "au"@,
        "aux"@,
        "en"@,
        "dans"@,
        "sur"@,
        "par"@,
        "pour"@,
        "avec"@,
        "sans"@,
        "mais"@,
        "o\u{f9}"@,
        "quand"@,
        "comment"@,
        "que"@,
        "qui"@,
        "quoi"@,
        "dont"@,
        "mon"@,
        "ton"@,
        "son"@,
        "ma"@,
        "ta"@,
        "sa"@,
        "mes"@,
        "tes"@,
        "ses"@,
        "notre"@,
        "votre"@,
        "leur"@,
        "nos"@,
        "vos"@,
        "je"@,
        "tu"@,
        "se"@,
        "me"@,
        "te"@,
        "lui"@,
        "y"@,
        "tout"@,
        "tous"@,
        "toute"@,
        "toutes"@,
        "chaque"@,
        "plus"@,
        "moins"@,
        "aussi"@,
        "tr\u{e8}s"@,
        "bien"@,
        "mal"@,
        "si"@,
        "donc"@,
        "car"@,
        "parce"@,
        "comme"@,
        "lorsque"@,
        "depuis"@,
        "avant"@,
        "apr\u{e8}s"@,
        "pendant"@,
        "vers"@,
        "chez"@,
        "entre"@,
        "parmi"@,
        "sous"@,
        "devant"@,
        "derri\u{e8}re"@,
        "contre"@,
        "malgr\u{e9}"@,
        "hormis"@,
        "sauf"@,
        "selon"@,
        "voici"@,
        "voil\u{e0}"@,
        "afin"@,
        "quoique"@,
        "tandis"@,
        "alors"@,
        "jusqu'\u{e0}"@,
        "pourvu"@,
        "\u{e0} condition"@,
        "en cas"@,
        "au lieu de"@,
        "plut\u{f4}t"@,
        "soit"@,
        "ni"@,
        "non"@,
        "seulement"@,
        "d'ailleurs"@,
        "outre"@,
        "enfin"@,
        "bref"@,
        "en somme"@,
        "ainsi"@,
        "par cons\u{e9}quent"@,
        "c'est"@,
        "pourquoi"@,
        "c'est-\u{e0}-dire"@,
        "autrement"@,
        "dit"@,
        "par exemple"@,
        "notamment"@,
        "surtout"@,
        "en particulier"@,
        "quant \u{e0}"@,
        "ici"@,
        "l\u{e0}"@,
        "m\u{ea}me"@,
        "toujours"@,
        "jamais"@,
        "souvent"@,
        "trop"@,
        "peut-\u{ea}tre"@,
        "plusieurs"@,
        "aucun"@,
        "certains"@,
        "chacun"@,
        "quelque"@,
        "toutefois"@,
        "n\u{e9}anmoins"@,
        "or"@,
        "alors que"@,
        "depuis que"@,
        "avant que"@,
        "apr\u{e8}s que"@,
        "l'"@,
        "d'"@,
        "c'"@,
        "j'"@,
        "n'"@,
        "s'"@,
        "t'"@,
        "qu'"@,
    ]
}

pub open spec fn is_stop_word(w: Seq<char>) -> bool {
    stop_words().contains(w)
}

fn stop_word_table() -> (r: Vec<&'static str>)
    ensures
        r@.map_values(|s: &str| s@) == stop_words(),
{
    let r = vec![
        "a",
        "an",
        "and",
        "are",
        "as",
        "at",
        "be",
        "but",
        "by",
        "for",
        "if",
        "in",
        "into",
        "is",
        "it",
        "no",
        "not",
        "of",
        "on",
        "or",
        "such",
        "that",
        "the",
        "their",
        "then",
        "there",
        "these",
        "they",
        "this",
        "to",
        "was",
        "will",
        "with",
        "about",
        "above",
        "after",
        "again",
        "against",
        "all",
        "am",
        "any",
        "because",
        "been",
        "before",
        "being",
        "between",
        "both",
        "did",
        "do",
        "does",
        "doing",
        "down",
        "during",
        "each",
        "few",
        "from",
        "further",
        "had",
        "has",
        "have",
        "having",
        "he",
        "her",
        "here",
        "hers",
        "him",
        "his",
        "how",
        "i",
        "if",
        "into",
        "itself",
        "just",
        "me",
        "more",
        "most",
        "my",
        "myself",
        "now",
        "off",
        "once",
        "only",
        "other",
        "our",
        "ours",
        "ourselves",
        "out",
        "over",
        "own",
        "same",
        "she",
        "should",
        "some",
        "such",
        "than",
        "that",
        "theirs",
        "them",
        "themselves",
        "then",
        "there",
        "these",
        "they",
        "this",
        "those",
        "through",
        "under",
        "until",
        "up",
        "very",
        "we",
        "were",
        "what",
        "when",
        "where",
        "which",
        "while",
        "who",
        "whom",
        "why",
        "you",
        "your",
        "yours",
        "yourself",
        "yourselves",
        "le",
        "la",
        "les",
        "un",
        "une",
        "des",
        "de",
        "du",
        "et",
        "ou",
        "ne",
        "pas",
        "il",
        "elle",
        "on",
        "nous",
        "vous",
        "ils",
        "elles",
        "ce",
        "ces",
        "\u{e0}",
        "au",
        "aux",
        "en",
        "dans",
        "sur",
        "par",
        "pour",
        "avec",
        "sans",
        "mais",
        "o\u{f9}",
        "quand",
        "comment",
        "que",
        "qui",
        "quoi",
        "dont",
        "mon",
        "ton",
        "son",
        "ma",
        "ta",
        "sa",
        "mes",
        "tes",
        "ses",
        "notre",
        "votre",
        "leur",
        "nos",
        "vos",
        "je",
        "tu",
        "se",
        "me",
        "te",
        "lui",
        "y",
        "tout",
        "tous",
        "toute",
        "toutes",
        "chaque",
        "plus",
        "moins",
        "aussi",
        "tr\u{e8}s",
        "bien",
        "mal",
        "si",
        "donc",
        "car",
        "parce",
        "comme",
        "lorsque",
        "depuis",
        "avant",
        "apr\u{e8}s",
        "pendant",
        "vers",
        "chez",
        "entre",
        "parmi",
        "sous",
        "devant",
        "derri\u{e8}re",
        "contre",
        "malgr\u{e9}",
        "hormis",
        "sauf",
        "selon",
        "voici",
        "voil\u{e0}",
        "afin",
        "quoique",
        "tandis",
        "alors",
        "jusqu'\u{e0}",
        "pourvu",
        "\u{e0} condition",
        "en cas",
        "au lieu de",
        "plut\u{f4}t",
        "soit",
        "ni",
        "non",
        "seulement",
        "d'ailleurs",
        "outre",
        "enfin",
        "bref",
        "en somme",
        "ainsi",
        "par cons\u{e9}quent",
        "c'est",
        "pourquoi",
        "c'est-\u{e0}-dire",
        "autrement",
        "dit",
        "par exemple",
        "notamment",
        "surtout",
        "en particulier",
        "quant \u{e0}",
        "ici",
        "l\u{e0}",
        "m\u{ea}me",
        "toujours",
        "jamais",
        "souvent",
        "trop",
        "peut-\u{ea}tre",
        "plusieurs",
        "aucun",
        "certains",
        "chacun",
        "quelque",
        "toutefois",
        "n\u{e9}anmoins",
        "or",
        "alors que",
        "depuis que",
        "avant que",
        "apr\u{e8}s que",
        "l'",
        "d'",
        "c'",
        "j'",
        "n'",
        "s'",
        "t'",
        "qu'",
    ];
    assert(r@.map_values(|s: &str| s@) =~= stop_words());
    r
}

/// The stop words as character sequences.
pub fn stop_word_chars() -> (r: Vec<Vec<char>>)
    ensures
        view_words(r@) == stop_words(),
{
    let table = stop_word_table();
    let mut r: Vec<Vec<char>> = Vec::new();
    let mut i: usize = 0;
    while i < table.len()
        invariant
            i <= table.len(),
            table@.map_values(|s: &str| s@) == stop_words(),
            view_words(r@) == stop_words().subrange(0, i as int),
        decreases table.len() - i,
    {
        let ghost before = view_words(r@);
        assert(table@.map_values(|s: &str| s@)[i as int] == table@[i as int]@);
        r.push(chars_of(table[i]));
        assert(view_words(r@) == before.push(stop_words()[i as int]));
        assert(view_words(r@) =~= stop_words().subrange(0, i + 1));
        i = i + 1;
    }
    assert(stop_words().subrange(0, i as int) == stop_words());
    r
}

/// Whether `w` is in `table`, which holds the stop words.
pub fn stop_word_in(table: &Vec<Vec<char>>, w: &Vec<char>) -> (r: bool)
    requires
        view_words(table@) == stop_words(),
    ensures
        r == is_stop_word(w@),
{
    let mut i: usize = 0;
    while i < table.len()
        invariant
            i <= table.len(),
            view_words(table@) == stop_words(),
            forall|j: int| 0 <= j < i ==> stop_words()[j] != w@,
        decreases table.len() - i,
    {
        if same_chars(&table[i], w) {
            assert(stop_words()[i as int] == w@);
            return true;
        }
        i = i + 1;
    }
    false
}

/// Whether `w` is one of the stop words.
pub fn stop_word(w: &Vec<char>) -> (r: bool)
    ensures
        r == is_stop_word(w@),
{
    stop_word_in(&stop_word_chars(), w)
}

} // verus!
