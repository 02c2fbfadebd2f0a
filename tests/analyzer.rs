use notia_analyzer::keywords::{extract_keywords, keyword_tokens, note_keyword_tokens};
use notia_analyzer::notes::{analyze_notes_content, AnalysisError, Note, NoteAnalysis};
use notia_analyzer::order::{lex_less_exec, ranks_before_exec};
use notia_analyzer::stopwords::stop_word;
use notia_analyzer::text::{
    copy_chars, same_chars, split_words, strip_contractions, strip_noise, white_space,
};

fn note(id: &str, content: &str, project: &str) -> Note {
    Note::new(id.to_string(), content.to_string(), project.to_string())
}

fn chars(s: &str) -> Vec<char> {
    s.chars().collect()
}

fn keywords(notes: &Vec<Note>, top_n: usize) -> Vec<(String, usize)> {
    extract_keywords(notes, top_n).expect("keyword extraction")
}

fn pairs(items: &[(&str, usize)]) -> Vec<(String, usize)> {
    items.iter().map(|(w, c)| (w.to_string(), *c)).collect()
}

fn french_batch() -> Vec<Note> {
    vec![
        note("1", "Le chat mange la souris", "A"),
        note("2", "Le chien court", ""),
    ]
}

#[test]
fn scenario_french_batch_statistics() {
    let r = analyze_notes_content(&french_batch()).unwrap();
    assert_eq!(
        r,
        NoteAnalysis { note_count: 2, total_word_count: 8, unique_project_count: 1 }
    );
}

#[test]
fn scenario_french_batch_keywords() {
    let r = keywords(&french_batch(), 5);
    assert_eq!(
        r,
        pairs(&[("chat", 1), ("chien", 1), ("court", 1), ("mange", 1), ("souris", 1)])
    );
}

#[test]
fn scenario_elided_pronouns() {
    let notes = vec![note("1", "qu'il pleure, qu'il rie", "")];
    assert_eq!(keywords(&notes, 10), pairs(&[("pleure", 1), ("rie", 1)]));
}

#[test]
fn scenario_digits_and_punctuation_join_letters() {
    let notes = vec![note("1", "co2-neutre", "")];
    assert_eq!(keywords(&notes, 10), pairs(&[("coneutre", 1)]));
}

#[test]
fn note_count_is_batch_length() {
    let notes = vec![note("1", "", ""), note("2", "", ""), note("3", "x", "")];
    assert_eq!(analyze_notes_content(&notes).unwrap().note_count, 3);
}

#[test]
fn empty_batch() {
    let notes: Vec<Note> = Vec::new();
    assert_eq!(
        analyze_notes_content(&notes).unwrap(),
        NoteAnalysis { note_count: 0, total_word_count: 0, unique_project_count: 0 }
    );
    assert_eq!(keywords(&notes, 5), Vec::new());
}

#[test]
fn word_count_sums_notes_and_empty_content_adds_nothing() {
    let notes = vec![
        note("1", "one two\tthree\n four", "p"),
        note("2", "", "p"),
        note("3", "   ", ""),
        note("4", "a,b c!", ""),
        note("5", "x\u{a0}y\u{3000}z", ""),
    ];
    assert_eq!(analyze_notes_content(&notes).unwrap().total_word_count, 4 + 0 + 0 + 2 + 3);
}

#[test]
fn projects_count_once_and_empty_is_ignored() {
    let notes = vec![
        note("1", "a", "alpha"),
        note("2", "b", ""),
        note("3", "c", "alpha"),
        note("4", "d", "beta"),
        note("5", "e", ""),
        note("6", "f", "Alpha"),
    ];
    assert_eq!(analyze_notes_content(&notes).unwrap().unique_project_count, 3);
}

#[test]
fn counts_aggregate_across_notes() {
    let notes = vec![
        note("1", "Chat chien chat", ""),
        note("2", "CHAT oiseau", ""),
        note("3", "oiseau", ""),
    ];
    assert_eq!(
        keywords(&notes, 10),
        pairs(&[("chat", 3), ("oiseau", 2), ("chien", 1)])
    );
}

#[test]
fn ties_break_in_lexicographic_order() {
    let notes = vec![note("1", "zebre abeille mouton abeille zebre", "")];
    assert_eq!(
        keywords(&notes, 10),
        pairs(&[("abeille", 2), ("zebre", 2), ("mouton", 1)])
    );
}

#[test]
fn top_n_zero_gives_empty_result() {
    assert_eq!(keywords(&french_batch(), 0), Vec::new());
}

#[test]
fn top_n_truncates_and_larger_top_n_gives_whole_list() {
    let notes = vec![note("1", "pomme pomme poire kiwi", "")];
    assert_eq!(keywords(&notes, 1), pairs(&[("pomme", 2)]));
    assert_eq!(keywords(&notes, 2), pairs(&[("pomme", 2), ("kiwi", 1)]));
    assert_eq!(
        keywords(&notes, 100),
        pairs(&[("pomme", 2), ("kiwi", 1), ("poire", 1)])
    );
}

#[test]
fn extraction_is_deterministic() {
    let notes = vec![
        note("1", "delta alpha charlie bravo alpha", ""),
        note("2", "bravo echo", ""),
    ];
    assert_eq!(keywords(&notes, 4), keywords(&notes, 4));
}

#[test]
fn returned_tokens_are_long_non_stop_words_and_counts_are_bounded() {
    let notes = vec![
        note("1", "The cat and a dog are in the house, x y z", ""),
        note("2", "Le chat et le chien sont dans la maison; très bien", ""),
    ];
    let r = keywords(&notes, 100);
    assert!(!r.is_empty());
    let mut sum = 0;
    for (w, c) in &r {
        assert!(w.chars().count() > 1);
        assert!(!stop_word(&chars(w)));
        sum += c;
    }
    let mut kept = 0;
    for n in &notes {
        kept += note_keyword_tokens(&n.content).len();
    }
    assert!(sum <= kept);
    assert_eq!(
        r,
        pairs(&[
            ("cat", 1),
            ("chat", 1),
            ("chien", 1),
            ("dog", 1),
            ("house", 1),
            ("maison", 1),
            ("sont", 1)
        ])
    );
}

#[test]
fn case_is_folded_before_filtering() {
    let notes = vec![note("1", "LE Soleil SOLEIL", "")];
    assert_eq!(keywords(&notes, 5), pairs(&[("soleil", 2)]));
}

#[test]
fn accented_capitals_are_folded() {
    let notes = vec![note("1", "ÉTÉ été Été", "")];
    assert_eq!(keywords(&notes, 5), pairs(&[("été", 3)]));
}

#[test]
fn accented_letters_are_kept() {
    let notes = vec![note("1", "Été, très chaud à Noël", "")];
    assert_eq!(
        keywords(&notes, 5),
        pairs(&[("chaud", 1), ("noël", 1), ("été", 1)])
    );
}

#[test]
fn elided_articles_are_stripped() {
    let notes = vec![note("1", "l'arbre d'hiver j'aime c'était s'il", "")];
    assert_eq!(
        keywords(&notes, 10),
        pairs(&[("aime", 1), ("arbre", 1), ("hiver", 1), ("était", 1)])
    );
}

#[test]
fn strip_contractions_removes_elisions_at_word_start_only() {
    assert_eq!(strip_contractions("l'arbre qu'il"), "arbre il");
    assert_eq!(strip_contractions("aujourd'hui"), "aujourd'hui");
    assert_eq!(strip_contractions("rien"), "rien");
}

#[test]
fn strip_noise_keeps_letters_and_whitespace() {
    assert_eq!(strip_noise("co2-neutre"), "coneutre");
    assert_eq!(strip_noise("a1 b.c\td"), "a bc\td");
    assert_eq!(strip_noise("Ça été ÿ ×"), "Ça été ÿ ×");
    assert_eq!(strip_noise("€ß-ŝ"), "ß");
}

#[test]
fn keyword_tokens_drop_short_and_stop_words() {
    let r = keyword_tokens(&chars("le chat x  et   souris"));
    assert_eq!(r, vec![chars("chat"), chars("souris")]);
}

#[test]
fn note_keyword_tokens_run_the_whole_pipeline() {
    let r = note_keyword_tokens("L'Arbre, le CO2-neutre!");
    assert_eq!(r, vec![chars("arbre"), chars("coneutre")]);
}

#[test]
fn split_words_on_whitespace_runs() {
    assert_eq!(
        split_words(&chars("  ab \t c\n\nde ")),
        vec![chars("ab"), chars("c"), chars("de")]
    );
    assert_eq!(split_words(&chars("")), Vec::<Vec<char>>::new());
    assert_eq!(split_words(&chars(" \u{2003} ")), Vec::<Vec<char>>::new());
}

#[test]
fn white_space_matches_std() {
    for c in ['\t', '\n', '\u{b}', '\u{c}', '\r', ' ', '\u{85}', '\u{a0}', '\u{1680}', '\u{2000}', '\u{200a}', '\u{2028}', '\u{2029}', '\u{202f}', '\u{205f}', '\u{3000}', 'a', '\u{200b}', '\u{180e}', '_'] {
        assert_eq!(white_space(c), c.is_whitespace());
    }
}

#[test]
fn stop_words_are_recognized() {
    assert!(stop_word(&chars("le")));
    assert!(stop_word(&chars("the")));
    assert!(stop_word(&chars("très")));
    assert!(stop_word(&chars("qu'")));
    assert!(!stop_word(&chars("chat")));
    assert!(!stop_word(&chars("")));
}

#[test]
fn lexicographic_and_ranking_order() {
    assert!(lex_less_exec(&chars("ab"), &chars("abc")));
    assert!(lex_less_exec(&chars("abc"), &chars("abd")));
    assert!(!lex_less_exec(&chars("abc"), &chars("abc")));
    assert!(!lex_less_exec(&chars("b"), &chars("abc")));
    assert!(ranks_before_exec(&chars("z"), 3, &chars("a"), 2));
    assert!(ranks_before_exec(&chars("a"), 2, &chars("b"), 2));
    assert!(!ranks_before_exec(&chars("b"), 2, &chars("a"), 2));
}

#[test]
fn char_sequence_helpers() {
    assert!(same_chars(&chars("été"), &chars("été")));
    assert!(!same_chars(&chars("été"), &chars("ete")));
    assert!(!same_chars(&chars("ab"), &chars("abc")));
    assert_eq!(copy_chars(&chars("noël")), chars("noël"));
}

#[test]
fn overflow_error_is_distinct() {
    assert_ne!(analyze_notes_content(&french_batch()), Err(AnalysisError::CountOverflow));
}
