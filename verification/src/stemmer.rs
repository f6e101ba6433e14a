//! The Stempel stemmer for Polish: the table's trie gives a word its patch
//! command, and the command turns the word into its stem.
//!
//! The steps:
//! 1. load the compiled multi-trie (such as `stemmer_20000.tbl`, compiled
//!    from 20,000 Polish word pairs);
//! 2. walk it along the lower-cased word (from its end) to get a patch
//!    command;
//! 3. apply the patch to the word.

use vstd::prelude::*;

use crate::diff::{apply_diff, apply_patch, law_insert_appends};
use crate::trie::{parse_table, patch_command, table_safe, MultiTrie, TableModel};

verus! {

/// What `str::to_lowercase` gives for a string: each character mapped by
/// its Unicode lower-case mapping (some characters map to several).
pub uninterp spec fn spec_to_lowercase(s: Seq<char>) -> Seq<char>;

/// `str::to_lowercase`. The result is named by `spec_to_lowercase`, a
/// function of the string alone; what the Unicode case mapping gives is left
/// unsaid.
#[verifier::external_body]
fn to_lowercase(s: &str) -> (r: String)
    ensures
        r@ == spec_to_lowercase(s@),
{
    s.to_lowercase()
}

/// `String::push`: appends a character.
#[verifier::external_body]
fn push_char(s: &mut String, c: char)
    ensures
        final(s)@ == old(s)@.push(c),
{
    s.push(c)
}

/// The characters of a string.
fn chars_of(s: &str) -> (v: Vec<char>)
    ensures
        v@ == s@,
{
    broadcast use vstd::string::group_string_axioms;

    let mut v: Vec<char> = Vec::new();
    for c in it: s.chars()
        invariant
            it.seq() == s@,
            v@ == it.seq().take(it.index() as int),
    {
        v.push(c);
    }
    assert(s@.take(s@.len() as int) =~= s@);
    v
}

/// The string of a sequence of characters.
fn string_of(v: &Vec<char>) -> (s: String)
    ensures
        s@ == v@,
{
    let mut s = String::new();
    let mut i: usize = 0;
    while i < v.len()
        invariant
            0 <= i <= v@.len(),
            s@ =~= v@.subrange(0, i as int),
        decreases v@.len() - i,
    {
        push_char(&mut s, v[i]);
        i = i + 1;
    }
    s
}

/// Whether two character vectors are equal.
fn same_chars(a: &Vec<char>, b: &Vec<char>) -> (r: bool)
    ensures
        r == (a@ == b@),
{
    if a.len() != b.len() {
        return false;
    }
    let mut i: usize = 0;
    while i < a.len()
        invariant
            a@.len() == b@.len(),
            0 <= i <= a@.len(),
            forall|j: int| 0 <= j < i ==> a@[j] == b@[j],
        decreases a@.len() - i,
    {
        if a[i] != b[i] {
            return false;
        }
        i = i + 1;
    }
    assert(a@ =~= b@);
    true
}

/// The stem of a lower-cased word under a table: `None` where the word has
/// fewer than 3 characters, where the table has no patch command for it, or
/// where the patch gives an empty word or the word itself.
pub open spec fn spec_stem(m: TableModel, lower: Seq<char>) -> Option<Seq<char>> {
    if lower.len() < 3 {
        None
    } else {
        match patch_command(m, lower) {
            None => None,
            Some(cmd) => {
                let out = apply_patch(lower, cmd);
                if out.len() == 0 || out == lower {
                    None
                } else {
                    Some(out)
                }
            },
        }
    }
}

/// Whether stemming a lower-cased word reads only rows and commands of the
/// table that exist (a word shorter than 3 characters is not looked up).
pub open spec fn stems_safely(m: TableModel, lower: Seq<char>) -> bool {
    lower.len() < 3 || table_safe(m.tries, lower)
}

/// The term a token takes under a table: the stem of its lower-cased form
/// where that differs from the term.
pub open spec fn spec_filter_term(m: TableModel, term: Seq<char>) -> Option<Seq<char>> {
    match spec_stem(m, spec_to_lowercase(term)) {
        Some(s) => if s == term {
            None
        } else {
            Some(s)
        },
        None => None,
    }
}

/// The patched word where stemming owes it: the word has at least 3
/// characters, the table has a patch command for it, and the patch gives a
/// non-empty word other than the word itself, whatever its length.
pub open spec fn patched_stem(m: TableModel, lower: Seq<char>) -> Option<Seq<char>> {
    if lower.len() >= 3 && patch_command(m, lower) is Some {
        let out = apply_patch(lower, patch_command(m, lower).unwrap());
        if out.len() > 0 && out != lower {
            Some(out)
        } else {
            None
        }
    } else {
        None
    }
}

/// Stemming gives exactly the patched word wherever the table has a command
/// for a word of at least 3 characters and the patch changes the word without
/// emptying it, be the result shorter, as long, or longer than the word; it
/// gives nothing where the patch empties the word or leaves it as it was.
pub proof fn law_stem_is_patched_word(m: TableModel, w: Seq<char>, c: Seq<char>)
    requires
        w.len() >= 3,
        patch_command(m, w) == Some(c),
    ensures
        apply_patch(w, c).len() > 0 && apply_patch(w, c) != w ==> spec_stem(m, w) == Some(
            apply_patch(w, c),
        ),
        apply_patch(w, c).len() == 0 || apply_patch(w, c) == w ==> spec_stem(m, w) is None,
{
}

/// A word gets no stem where the table has no command for it, or where it
/// has fewer than 3 characters.
pub proof fn law_stem_needs_command(m: TableModel, w: Seq<char>)
    ensures
        patch_command(m, w) is None ==> spec_stem(m, w) is None,
        w.len() < 3 ==> spec_stem(m, w) is None,
{
}

/// A command that only inserts a character lengthens the word: where the
/// table's command for a word of at least 3 characters is `Ip`, the stem is
/// the word with `p` appended.
pub proof fn law_insert_command_lengthens(m: TableModel, w: Seq<char>, p: char)
    requires
        w.len() >= 3,
        patch_command(m, w) == Some(seq!['I', p]),
    ensures
        spec_stem(m, w) == Some(w.push(p)),
{
    law_insert_appends(w, p);
    assert(w.push(p).len() == w.len() + 1);
}

/// A token takes its stem as its new term wherever the stem differs from the
/// term as a string, whether or not the two have the same length; where the
/// stem is the term itself, the token keeps its term.
pub proof fn law_filter_takes_differing_stem(m: TableModel, term: Seq<char>, s: Seq<char>)
    requires
        spec_stem(m, spec_to_lowercase(term)) == Some(s),
    ensures
        s != term ==> spec_filter_term(m, term) == Some(s),
        s == term ==> spec_filter_term(m, term) is None,
{
}

/// A token whose lower-cased term has no stem keeps its term.
pub proof fn law_filter_without_stem(m: TableModel, term: Seq<char>)
    requires
        spec_stem(m, spec_to_lowercase(term)) is None,
    ensures
        spec_filter_term(m, term) is None,
{
}

/// The view of an optional string: its characters.
pub open spec fn opt_chars(r: Option<String>) -> Option<Seq<char>> {
    match r {
        Some(s) => Some(s@),
        None => None,
    }
}

/// Polish stemming filter using the Stempel algorithm with an Egothor trie
/// table.
#[derive(Debug)]
pub struct StempelStemFilter {
    trie: MultiTrie,
}

impl View for StempelStemFilter {
    type V = TableModel;

    /// The table the filter stems with.
    closed spec fn view(&self) -> TableModel {
        self.trie@
    }
}

impl StempelStemFilter {
    /// Creates a stemmer from the bytes of a compiled Stempel table (the
    /// format of `stemmer_20000.tbl`); `None` where the bytes hold no table.
    pub fn new(table: &[u8]) -> (r: Option<StempelStemFilter>)
        ensures
            match parse_table(table@) {
                Some(m) => r matches Some(f) && f@ == m,
                None => r is None,
            },
    {
        match MultiTrie::from_bytes(table) {
            None => None,
            Some(trie) => Some(StempelStemFilter { trie }),
        }
    }

    /// Stems a word that is already in lower case, as `stem_lowercase`
    /// does; the outer `None` stands for a table whose walk for this word
    /// reaches a row or a command index outside it.
    pub fn try_stem_lowercase(&self, lower: &str) -> (r: Option<Option<String>>)
        ensures
            r is None <==> !stems_safely(self@, lower@),
            r matches Some(x) ==> opt_chars(x) == spec_stem(self@, lower@),
            r matches Some(x) ==> (patched_stem(self@, lower@) matches Some(out) ==> opt_chars(x)
                == Some(out)),
    {
        let chars = chars_of(lower);
        if chars.len() < 3 {
            return Some(None);
        }
        let cmd = match self.trie.get_last_on_path(chars.as_slice()) {
            None => {
                return None;
            },
            Some(None) => {
                return Some(None);
            },
            Some(Some(c)) => c,
        };
        let mut buffer = chars.clone();
        assert(buffer@ == chars@);
        apply_diff(&mut buffer, cmd.as_slice());
        if buffer.len() == 0 {
            return Some(None);
        }
        if same_chars(&buffer, &chars) {
            return Some(None);
        }
        Some(Some(string_of(&buffer)))
    }

    /// Stems a word that is already in lower case: applies the table's patch
    /// command for it. `None` where the word is shorter than 3 characters,
    /// where no command applies, or where the result would be empty or
    /// unchanged.
    pub fn stem_lowercase(&self, lower: &str) -> (r: Option<String>)
        requires
            stems_safely(self@, lower@),
        ensures
            opt_chars(r) == spec_stem(self@, lower@),
            patched_stem(self@, lower@) matches Some(out) ==> opt_chars(r) == Some(out),
            lower@.len() < 3 ==> r is None,
            r matches Some(s) ==> s@.len() > 0 && s@ != lower@,
    {
        match self.try_stem_lowercase(lower) {
            Some(r) => r,
            None => None,
        }
    }

    /// Whether stemming `word` stays inside the table, that is whether
    /// `stem` and `filter_term` may be called with it.
    pub fn can_stem(&self, word: &str) -> (r: bool)
        ensures
            r == stems_safely(self@, spec_to_lowercase(word@)),
    {
        let lower = to_lowercase(word);
        self.try_stem_lowercase(lower.as_str()).is_some()
    }

    /// Stems a Polish word: lower-cases it, then applies the table's patch
    /// command for it. Returns the stemmed form, or `None` where no
    /// transformation applies or the result would be empty.
    pub fn stem(&self, word: &str) -> (r: Option<String>)
        requires
            stems_safely(self@, spec_to_lowercase(word@)),
        ensures
            opt_chars(r) == spec_stem(self@, spec_to_lowercase(word@)),
            patched_stem(self@, spec_to_lowercase(word@)) matches Some(out) ==> opt_chars(r) == Some(
                out,
            ),
            spec_to_lowercase(word@).len() < 3 ==> r is None,
            r matches Some(s) ==> s@.len() > 0 && s@ != spec_to_lowercase(word@),
    {
        let lower = to_lowercase(word);
        self.stem_lowercase(lower.as_str())
    }

    /// `stem`, where the table's walk for the word stays inside it; `None`
    /// where it does not.
    pub fn try_stem(&self, word: &str) -> (r: Option<Option<String>>)
        ensures
            r is None <==> !stems_safely(self@, spec_to_lowercase(word@)),
            r matches Some(x) ==> opt_chars(x) == spec_stem(self@, spec_to_lowercase(word@)),
            r matches Some(x) ==> (patched_stem(self@, spec_to_lowercase(word@)) matches Some(out)
                ==> opt_chars(x) == Some(out)),
    {
        if self.can_stem(word) {
            Some(self.stem(word))
        } else {
            None
        }
    }

    /// The term that a token takes in the filter: its stem where that
    /// differs from the term, else `None` (the token keeps its term). The
    /// filter never deletes a token.
    pub fn filter_term(&self, term: &str) -> (r: Option<String>)
        requires
            stems_safely(self@, spec_to_lowercase(term@)),
        ensures
            opt_chars(r) == spec_filter_term(self@, term@),
            spec_stem(self@, spec_to_lowercase(term@)) matches Some(s) ==> opt_chars(r) == (if s
                == term@ {
                None
            } else {
                Some(s)
            }),
            spec_stem(self@, spec_to_lowercase(term@)) is None ==> r is None,
    {
        match self.stem(term) {
            Some(stemmed) => {
                let a = chars_of(stemmed.as_str());
                let b = chars_of(term);
                if same_chars(&a, &b) {
                    None
                } else {
                    Some(stemmed)
                }
            },
            None => None,
        }
    }

    /// `filter_term`, where the table's walk for the term stays inside it;
    /// `None` where it does not.
    pub fn try_filter_term(&self, term: &str) -> (r: Option<Option<String>>)
        ensures
            r is None <==> !stems_safely(self@, spec_to_lowercase(term@)),
            r matches Some(x) ==> opt_chars(x) == spec_filter_term(self@, term@),
            r matches Some(x) ==> (spec_stem(self@, spec_to_lowercase(term@)) matches Some(s) ==> (s
                != term@ ==> opt_chars(x) == Some(s))),
    {
        if self.can_stem(term) {
            Some(self.filter_term(term))
        } else {
            None
        }
    }
}

impl Clone for StempelStemFilter {
    fn clone(&self) -> (r: StempelStemFilter)
        ensures
            r@ == self@,
    {
        StempelStemFilter { trie: self.trie.clone() }
    }
}

} // verus!
