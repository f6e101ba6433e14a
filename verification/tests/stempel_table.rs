//! Tests of the table format, the trie lookup, the patch commands and the
//! stemmer on exact values.

use pizza_analysis_stempel::bytes::{read_char, read_i32, read_utf};
use pizza_analysis_stempel::diff::apply_diff;
use pizza_analysis_stempel::{PolishStopFilter, StempelStemFilter};

fn push_i32(out: &mut Vec<u8>, v: i32) {
    out.extend_from_slice(&v.to_be_bytes());
}

fn push_utf(out: &mut Vec<u8>, s: &str) {
    let bytes = s.as_bytes();
    out.extend_from_slice(&(bytes.len() as u16).to_be_bytes());
    out.extend_from_slice(bytes);
}

fn push_trie(out: &mut Vec<u8>, forward: bool, root: i32, cmds: &[&str], rows: &[Vec<(char, i32, i32)>]) {
    out.push(if forward { 1 } else { 0 });
    push_i32(out, root);
    push_i32(out, cmds.len() as i32);
    for c in cmds {
        push_utf(out, c);
    }
    push_i32(out, rows.len() as i32);
    for row in rows {
        push_i32(out, row.len() as i32);
        for &(ch, cmd, next) in row {
            out.extend_from_slice(&(ch as u32 as u16).to_be_bytes());
            push_i32(out, cmd);
            push_i32(out, 1);
            push_i32(out, next);
            push_i32(out, 0);
        }
    }
}

/// A small table in the Stempel format: two backward tries whose commands
/// are concatenated.
fn sample_table() -> Vec<u8> {
    let mut t = Vec::new();
    push_utf(&mut t, "-0ME2");
    t.push(0);
    push_i32(&mut t, 1);
    push_i32(&mut t, 2);
    push_trie(
        &mut t,
        false,
        0,
        &["Da", "*", "Rl", "Dc", "Dc", "Rz", "-a", "Dc"],
        &[
            vec![('y', 0, -1), ('m', 3, 2), ('ź', 5, -1), ('t', 6, -1), ('c', 7, -1)],
            vec![],
            vec![('e', 4, -1)],
        ],
    );
    push_trie(&mut t, false, 0, &["*", "Ić"], &[vec![('y', 0, -1), ('m', 1, -1)]]);
    t
}

fn sample() -> StempelStemFilter {
    StempelStemFilter::new(&sample_table()).unwrap()
}

fn patched(word: &str, diff: &str) -> String {
    let mut w: Vec<char> = word.chars().collect();
    let d: Vec<char> = diff.chars().collect();
    apply_diff(&mut w, &d);
    w.into_iter().collect()
}

#[test]
fn read_i32_big_endian() {
    assert_eq!(read_i32(&[0, 0, 1, 2], 0), 258);
    assert_eq!(read_i32(&[9, 0xff, 0xff, 0xff, 0xfe], 1), -2);
    assert_eq!(read_i32(&[0x80, 0, 0, 0], 0), i32::MIN);
}

#[test]
fn read_char_code_units() {
    assert_eq!(read_char(&[0x00, 0x61], 0), 'a');
    assert_eq!(read_char(&[0x01, 0x42], 0), 'ł');
    // a surrogate code unit is no char of its own
    assert_eq!(read_char(&[0xd8, 0x00], 0), '\u{FFFD}');
}

#[test]
fn read_utf_modified_utf8() {
    let data = [0x00, 0x06, b'a', 0xc5, 0x82, 0xe2, 0x82, 0xac, 0x99];
    let (s, consumed) = read_utf(&data, 0).unwrap();
    assert_eq!(s, vec!['a', 'ł', '€']);
    assert_eq!(consumed, 8);
    // a continuation byte on its own is skipped, a cut-off unit ends the string
    let (s, consumed) = read_utf(&[0x00, 0x03, 0x80, b'x', 0xe2], 0).unwrap();
    assert_eq!(s, vec!['x']);
    assert_eq!(consumed, 5);
    // the data ends before the string does
    assert!(read_utf(&[0x00, 0x05, b'a'], 0).is_none());
    assert!(read_utf(&[0x00], 0).is_none());
}

#[test]
fn diff_replace_delete_insert_move() {
    assert_eq!(patched("kota", "Ry"), "koty");
    assert_eq!(patched("domy", "Da"), "dom");
    assert_eq!(patched("domami", "Dc"), "dom");
    assert_eq!(patched("dom", "Iy"), "domy");
    assert_eq!(patched("kot", "-aRa"), "kat");
    assert_eq!(patched("pisałem", "DcIć"), "pisać");
}

#[test]
fn diff_edge_cases() {
    // an empty command, an empty word, a dangling operation
    assert_eq!(patched("dom", ""), "dom");
    assert_eq!(patched("", "Da"), "");
    assert_eq!(patched("domy", "DaR"), "dom");
    // a deletion longer than the word changes nothing
    assert_eq!(patched("do", "Dc"), "do");
    // an unknown operation only moves the cursor back
    assert_eq!(patched("abc", "xxRz"), "azc");
}

#[test]
fn stem_exact_results() {
    let f = sample();
    assert_eq!(f.stem("domy"), Some("dom".to_string()));
    assert_eq!(f.stem("pisałem"), Some("pisać".to_string()));
    assert_eq!(f.stem("łódź"), Some("łódz".to_string()));
    // no command for the word
    assert_eq!(f.stem("las"), None);
    // the walk keeps the command met on the way where the path ends
    // without one: "Dc" from the first trie, "Ić" from the second
    assert_eq!(f.stem("dom"), Some("ć".to_string()));
    // a command that leaves the word as it is
    assert_eq!(f.stem("kot"), None);
    // a command that deletes the whole word
    assert_eq!(f.stem("abc"), None);
}

#[test]
fn stem_lowercases_first() {
    let f = sample();
    assert_eq!(f.stem("DOMY"), Some("dom".to_string()));
    assert_eq!(f.stem_lowercase("domy"), Some("dom".to_string()));
    assert_eq!(f.stem_lowercase("DOMY"), None);
    assert_eq!(f.try_stem_lowercase("domy"), Some(Some("dom".to_string())));
    assert_eq!(f.try_stem("DOMY"), Some(Some("dom".to_string())));
}

#[test]
fn filter_term_keeps_unchanged_terms() {
    let f = sample();
    assert_eq!(f.filter_term("Domy"), Some("dom".to_string()));
    assert_eq!(f.filter_term("las"), None);
}

#[test]
fn table_refused_when_malformed() {
    let t = sample_table();
    // cut off
    assert!(StempelStemFilter::new(&t[..t.len() - 1]).is_none());
    assert!(StempelStemFilter::new(&[]).is_none());
    // trailing bytes are ignored
    let mut longer = t.clone();
    longer.extend_from_slice(&[1, 2, 3]);
    assert_eq!(StempelStemFilter::new(&longer).unwrap().stem("domy"), Some("dom".to_string()));
    // a negative trie count
    let mut neg = Vec::new();
    push_utf(&mut neg, "-0ME2");
    neg.push(0);
    push_i32(&mut neg, 1);
    push_i32(&mut neg, -1);
    assert!(StempelStemFilter::new(&neg).is_none());
}

#[test]
fn walks_outside_the_table_are_reported() {
    // a command index outside the commands, met only by words ending in 'y'
    let mut t = Vec::new();
    push_utf(&mut t, "-0ME2");
    t.push(0);
    push_i32(&mut t, 1);
    push_i32(&mut t, 1);
    push_trie(&mut t, false, 0, &["Da"], &[vec![('y', 1, -1), ('s', 0, -1)]]);
    let f = StempelStemFilter::new(&t).unwrap();
    assert!(!f.can_stem("domy"));
    assert_eq!(f.try_stem("domy"), None);
    assert_eq!(f.try_filter_term("domy"), None);
    assert!(f.can_stem("kos"));
    assert_eq!(f.try_stem("kos"), Some(Some("ko".to_string())));
    assert_eq!(f.stem("kos"), Some("ko".to_string()));
    assert_eq!(f.try_filter_term("kos"), Some(Some("ko".to_string())));
    // short words are not looked up
    assert_eq!(f.try_stem("dy"), Some(None));
    // a root outside the rows: every word of 3 characters or more
    let mut t = Vec::new();
    push_utf(&mut t, "-0ME2");
    t.push(0);
    push_i32(&mut t, 1);
    push_i32(&mut t, 1);
    push_trie(&mut t, false, 3, &["Da"], &[vec![('y', 0, -1)]]);
    let f = StempelStemFilter::new(&t).unwrap();
    assert_eq!(f.try_stem("domy"), None);
    assert_eq!(f.try_stem_lowercase("las"), None);
    assert_eq!(f.try_stem("do"), Some(None));
}

#[test]
fn forward_trie_and_end_marker() {
    // a forward trie walks the word from its first character
    let mut t = Vec::new();
    push_utf(&mut t, "x");
    t.push(1);
    push_i32(&mut t, 0);
    push_i32(&mut t, 2);
    push_trie(&mut t, true, 0, &["Da", "Ra"], &[vec![('k', -1, 1)], vec![('o', 0, -1)]]);
    // the second trie gives the end marker, so only the first command counts
    push_trie(&mut t, true, 0, &["*"], &[vec![('k', 0, -1)]]);
    let f = StempelStemFilter::new(&t).unwrap();
    assert_eq!(f.stem("kot"), Some("ko".to_string()));
    assert_eq!(f.stem("tok"), None);
}

#[test]
fn stop_filter_with_duplicates_and_clone() {
    let f = PolishStopFilter::with_words(vec!["a".to_string(), "a".to_string(), "b".to_string()]);
    let g = f.clone();
    assert!(g.is_stop_word("a"));
    assert!(g.is_stop_word("b"));
    assert!(!g.is_stop_word("c"));
    assert!(!PolishStopFilter::with_words(vec![]).is_stop_word("a"));
}

#[test]
fn diff_rewrites_only_what_it_reaches() {
    // "DcIć" reaches 3 characters back: the first 4 of 7 stay, and the
    // length is 7 - 3 + 1
    let out = patched("pisałem", "DcIć");
    assert_eq!(out.chars().count(), 5);
    assert!(out.starts_with("pisa"));
    // "Rk" then "-b" then "Ra" reaches 1 + 2 + 1 = 4 characters back
    let out = patched("kotami", "Rk-bRa");
    assert_eq!(out, "koaamk");
}

#[test]
fn read_utf_reads_what_write_utf_writes() {
    let s = "zażółć\u{0}€";
    let mut enc = Vec::new();
    for c in s.chars() {
        let v = c as u32;
        if (1..=0x7f).contains(&v) {
            enc.push(v as u8);
        } else if v <= 0x7ff {
            enc.push((0xc0 | (v >> 6)) as u8);
            enc.push((0x80 | (v & 0x3f)) as u8);
        } else {
            enc.push((0xe0 | (v >> 12)) as u8);
            enc.push((0x80 | ((v >> 6) & 0x3f)) as u8);
            enc.push((0x80 | (v & 0x3f)) as u8);
        }
    }
    let mut data = vec![7, 7];
    data.extend_from_slice(&(enc.len() as u16).to_be_bytes());
    data.extend_from_slice(&enc);
    data.push(9);
    let (chars, consumed) = read_utf(&data, 2).unwrap();
    assert_eq!(chars, s.chars().collect::<Vec<char>>());
    assert_eq!(consumed, enc.len() + 2);
}
