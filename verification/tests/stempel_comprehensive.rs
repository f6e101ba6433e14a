//! Tests of the Polish stemmer and stop filter.

use pizza_analysis_stempel::{PolishStopFilter, StempelStemFilter, POLISH_STOP_WORDS};

fn push_i32(out: &mut Vec<u8>, v: i32) {
    out.extend_from_slice(&v.to_be_bytes());
}

fn push_utf(out: &mut Vec<u8>, s: &str) {
    let bytes = s.as_bytes();
    out.extend_from_slice(&(bytes.len() as u16).to_be_bytes());
    out.extend_from_slice(bytes);
}

fn push_trie(out: &mut Vec<u8>, forward: bool, root: i32, cmds: &[&str], rows: &[Vec<(char, i32, i32)>]) {
    out.push(if forward { 1 } else { 0 });
    push_i32(out, root);
    push_i32(out, cmds.len() as i32);
    for c in cmds {
        push_utf(out, c);
    }
    push_i32(out, rows.len() as i32);
    for row in rows {
        push_i32(out, row.len() as i32);
        for &(ch, cmd, next) in row {
            out.extend_from_slice(&(ch as u32 as u16).to_be_bytes());
            push_i32(out, cmd);
            push_i32(out, 1);
            push_i32(out, next);
            push_i32(out, 0);
        }
    }
}

/// A small table in the Stempel format: two backward tries whose commands
/// are concatenated.
fn sample_table() -> Vec<u8> {
    let mut t = Vec::new();
    push_utf(&mut t, "-0ME2");
    t.push(0);
    push_i32(&mut t, 1);
    push_i32(&mut t, 2);
    push_trie(
        &mut t,
        false,
        0,
        &["Da", "*", "Rl", "Dc", "Dc", "Rz", "-a", "Dc"],
        &[
            vec![('y', 0, -1), ('m', 3, 2), ('ź', 5, -1), ('t', 6, -1), ('c', 7, -1)],
            vec![],
            vec![('e', 4, -1)],
        ],
    );
    push_trie(&mut t, false, 0, &["*", "Ić"], &[vec![('y', 0, -1), ('m', 1, -1)]]);
    t
}

fn filter() -> StempelStemFilter {
    StempelStemFilter::new(&sample_table()).unwrap()
}

#[test]
fn stemmer_construction() {
    let _filter = filter();
}

#[test]
fn stemmer_clone() {
    let f1 = filter();
    let f2 = f1.clone();
    assert_eq!(f1.stem("domy"), f2.stem("domy"));
}

#[test]
fn stemmer_debug() {
    let f = filter();
    let dbg = format!("{:?}", f);
    assert!(dbg.contains("StempelStemFilter"));
}

#[test]
fn stem_polish_noun_plural() {
    let f = filter();
    // "domy" (houses) should reduce towards "dom"
    if let Some(stemmed) = f.stem("domy") {
        assert!(!stemmed.is_empty());
        assert_ne!(stemmed, "domy");
    }
}

#[test]
fn stem_polish_verb_conjugation() {
    let f = filter();
    // "pisałem" (I was writing) should stem
    if let Some(stemmed) = f.stem("pisałem") {
        assert!(!stemmed.is_empty());
    }
}

#[test]
fn stem_short_word_returns_none() {
    let f = filter();
    // Words shorter than 3 chars should return None
    assert!(f.stem("do").is_none());
    assert!(f.stem("w").is_none());
}

#[test]
fn stem_empty_string() {
    let f = filter();
    assert!(f.stem("").is_none());
}

#[test]
fn stem_already_base_form() {
    let f = filter();
    // Some base forms may return None (no transformation)
    let result = f.stem("dom");
    // Either None or a valid string
    if let Some(ref s) = result {
        assert!(!s.is_empty());
    }
}

#[test]
fn stem_adjective_forms() {
    let f = filter();
    // "pięknego" (beautiful, genitive) should stem
    if let Some(stemmed) = f.stem("pięknego") {
        assert!(!stemmed.is_empty());
    }
}

#[test]
fn stem_non_polish_text() {
    let f = filter();
    // English word — may or may not stem, but should not panic
    let _result = f.stem("running");
}

#[test]
fn filter_stems_polish_word() {
    let f = filter();
    // the filter only ever replaces a token's term; it never deletes one,
    // and the sample table has no command for this word
    assert_eq!(f.filter_term("komputerów"), None);
}

#[test]
fn filter_preserves_offsets() {
    let f = filter();
    // the filter changes only the term, and this one to its stem
    assert_eq!(f.filter_term("domy"), Some("dom".to_string()));
}

#[test]
fn filter_empty_token() {
    let f = filter();
    assert_eq!(f.filter_term(""), None);
}

#[test]
fn filter_single_char() {
    let f = filter();
    assert_eq!(f.filter_term("a"), None);
}

#[test]
fn stop_filter_construction() {
    let _f = PolishStopFilter::new();
}

#[test]
fn stop_filter_default() {
    let f = PolishStopFilter::default();
    assert!(f.is_stop_word("nie"));
}

#[test]
fn stop_filter_custom_words() {
    let words = vec!["foo".to_string(), "bar".to_string()];
    let _f = PolishStopFilter::with_words(words);
}

#[test]
fn stop_filter_removes_polish_stop_words() {
    let f = PolishStopFilter::new();
    for &word in &["i", "nie", "się", "na", "że", "to", "do"] {
        let deleted = f.is_stop_word(word);
        assert!(deleted, "expected '{}' to be deleted as stop word", word);
    }
}

#[test]
fn stop_filter_keeps_content_words() {
    let f = PolishStopFilter::new();
    for &word in &["komputer", "programowanie", "dom", "szkoła"] {
        let deleted = f.is_stop_word(word);
        assert!(!deleted, "expected '{}' to NOT be deleted", word);
    }
}

#[test]
fn stop_filter_is_case_sensitive() {
    let f = PolishStopFilter::new();
    assert!(f.is_stop_word("nie"));
    assert!(!f.is_stop_word("Nie"));
    assert!(f.is_stop_word("jest"));
}

#[test]
fn stop_filter_empty_token() {
    let f = PolishStopFilter::new();
    assert!(!f.is_stop_word(""));
}

#[test]
fn stop_filter_custom_words_work() {
    let words = vec!["custom".to_string(), "stop".to_string()];
    let f = PolishStopFilter::with_words(words);
    assert!(f.is_stop_word("custom"));
    assert!(!f.is_stop_word("other"));
}

#[test]
fn stop_words_list_not_empty() {
    assert!(!POLISH_STOP_WORDS.is_empty());
    assert!(POLISH_STOP_WORDS.len() > 50);
}

#[test]
fn stop_words_contain_common_words() {
    assert!(POLISH_STOP_WORDS.contains(&"i"));
    assert!(POLISH_STOP_WORDS.contains(&"nie"));
    assert!(POLISH_STOP_WORDS.contains(&"się"));
}

#[test]
fn pipeline_stop_then_stem() {
    let stop = PolishStopFilter::new();
    let stem = filter();

    let words = ["dom", "jest", "piękny", "i", "duży"];
    let mut surviving = Vec::new();

    for &w in &words {
        if !stop.is_stop_word(w) {
            let term = stem.filter_term(w).unwrap_or_else(|| w.to_string());
            surviving.push(term);
        }
    }

    // "i" and "jest" should be removed by stop filter
    assert!(!surviving.iter().any(|s| s == "i"));
    assert!(!surviving.iter().any(|s| s == "jest"));
}

#[test]
fn stem_unicode_polish_chars() {
    let f = filter();
    // Polish-specific characters: ą ć ę ł ń ó ś ź ż
    let _result = f.stem("źródło");
    let _result2 = f.stem("łódź");
}

#[test]
fn stop_filter_unicode_stop_words() {
    let f = PolishStopFilter::new();
    assert!(f.is_stop_word("będzie"));
}
