//! Polish stop words and the filter that drops them.

use vstd::prelude::*;

verus! {

/// Default Polish stop words.
pub const POLISH_STOP_WORDS: [&'static str; 195] = [
    "a", "aby", "ach", "acz", "ale", "aż", "bo", "bowiem", "by", "byli", "bym", "być", "był",
    "była", "było", "były", "będzie", "będą", "cali", "cała", "cały", "ci", "cię", "co",
    "coraz", "czy", "czyli", "dla", "do", "gdy", "gdyby", "gdyż", "gdzie", "go", "i", "ich",
    "ile", "im", "inna", "inne", "inni", "inny", "innych", "iż", "ja", "jak", "jakaś", "jest",
    "jakichś", "jakie", "jakiś", "już", "każdy", "kiedy", "kilka", "kto", "która", "które",
    "którego", "której", "który", "których", "którym", "którzy", "ku", "lecz", "lub", "ma",
    "mają", "mi", "mimo", "między", "mnie", "mogą", "moim", "może", "można", "mu", "musi", "my",
    "mój", "na", "nad", "nam", "nas", "nasi", "nasz", "nawet", "nic", "nich", "nie", "niej",
    "nim", "niż", "no", "nsi", "o", "ob", "od", "ok", "obok", "on", "ona", "one", "oni", "ono",
    "oraz", "owszem", "pan", "pana", "pani", "po", "pod", "podczas", "pomimo", "ponad",
    "ponieważ", "powinien", "powinna", "powinni", "powinno", "poza", "przed", "przede", "przez",
    "przy", "roku", "również", "sam", "sama", "się", "skąd", "sobie", "sobą", "sposób", "swoje",
    "są", "ta", "tak", "taka", "taki", "takie", "tam", "te", "tego", "tej", "ten", "też", "to",
    "tobie", "trzeba", "tu", "tutaj", "twoi", "twoja", "twoje", "twój", "twym", "ty", "tych",
    "tylko", "tym", "tę", "u", "w", "wam", "was", "wasi", "wasz", "wasza", "wasze", "we",
    "więc", "wszystkich", "wszystkie", "wszystkim", "wszystko", "wtedy", "wy", "właśnie", "z",
    "za", "zapewne", "zawsze", "ze", "zeznowu", "znowu", "znów", "został", "żaden", "żadna",
    "żadne", "żadnych", "że", "żeby",
];

/// The set of the strings of a sequence.
pub open spec fn seq_set(words: Seq<Seq<char>>) -> Set<Seq<char>> {
    Set::new(|w: Seq<char>| words.contains(w))
}

/// The default stop words, as a set.
pub open spec fn polish_stop_set() -> Set<Seq<char>> {
    seq_set(POLISH_STOP_WORDS@.map_values(|s: &str| s@))
}

/// The strings that a set of stop words holds.
pub uninterp spec fn stop_word_contents(words: StopWords) -> Set<Seq<char>>;

/// A set of stop words, held in a `hashbrown::HashSet<String>`. The set sits
/// in a private field: Verus does not take a declaration of hashbrown's
/// `HashSet` itself, whose allocator bound names a trait of `allocator-api2`.
#[verifier::external_body]
pub struct StopWords {
    set: hashbrown::HashSet<String>,
}

impl StopWords {
    /// `hashbrown::HashSet::new`: an empty set.
    #[verifier::external_body]
    fn new() -> (r: StopWords)
        ensures
            stop_word_contents(r) == Set::<Seq<char>>::empty(),
    {
        StopWords { set: hashbrown::HashSet::new() }
    }

    /// `hashbrown::HashSet::insert`: adds a string to the set (a string
    /// already there stays once).
    #[verifier::external_body]
    fn insert(&mut self, w: String)
        ensures
            stop_word_contents(*final(self)) == stop_word_contents(*old(self)).insert(w@),
    {
        self.set.insert(w);
    }

    /// `hashbrown::HashSet::contains`: whether the set holds a string equal
    /// to `w`.
    #[verifier::external_body]
    fn contains(&self, w: &str) -> (r: bool)
        ensures
            r == stop_word_contents(*self).contains(w@),
    {
        self.set.contains(w)
    }

    /// `hashbrown::HashSet::clone`: a set with the same strings.
    #[verifier::external_body]
    fn duplicate(&self) -> (r: StopWords)
        ensures
            stop_word_contents(r) == stop_word_contents(*self),
    {
        StopWords { set: self.set.clone() }
    }
}

proof fn lemma_seq_set_push(words: Seq<Seq<char>>, w: Seq<char>)
    ensures
        seq_set(words.push(w)) == seq_set(words).insert(w),
{
    assert forall|x: Seq<char>| #[trigger] seq_set(words.push(w)).contains(x) == seq_set(words).insert(w).contains(x) by {
        if words.push(w).contains(x) {
            let j = choose|j: int| 0 <= j < words.push(w).len() && words.push(w)[j] == x;
            if j < words.len() {
                assert(words[j] == x);
            }
        }
        if words.contains(x) {
            let j = choose|j: int| 0 <= j < words.len() && words[j] == x;
            assert(words.push(w)[j] == x);
        }
        if x == w {
            assert(words.push(w)[words.len() as int] == x);
        }
    }
    assert(seq_set(words.push(w)) =~= seq_set(words).insert(w));
}

/// A filter made with given stop words deletes exactly the tokens whose
/// term is one of them.
pub proof fn law_custom_stop_words(words: Seq<Seq<char>>, term: Seq<char>)
    ensures
        seq_set(words).contains(term) <==> exists|i: int| 0 <= i < words.len() && words[i] == term,
{
}

/// Polish stop word filter: a token whose term is a stop word is deleted.
pub struct PolishStopFilter {
    stop_words: StopWords,
}

impl View for PolishStopFilter {
    type V = Set<Seq<char>>;

    /// The filter's stop words.
    closed spec fn view(&self) -> Set<Seq<char>> {
        stop_word_contents(self.stop_words)
    }
}

impl PolishStopFilter {
    /// A filter with the default Polish stop words.
    pub fn new() -> (f: PolishStopFilter)
        ensures
            f@ == polish_stop_set(),
    {
        let ghost all = POLISH_STOP_WORDS@.map_values(|s: &str| s@);
        let mut set = StopWords::new();
        let mut i: usize = 0;
        assert(seq_set(all.take(0)) =~= Set::<Seq<char>>::empty());
        while i < POLISH_STOP_WORDS.len()
            invariant
                0 <= i <= POLISH_STOP_WORDS@.len(),
                all == POLISH_STOP_WORDS@.map_values(|s: &str| s@),
                stop_word_contents(set) == seq_set(all.take(i as int)),
            decreases POLISH_STOP_WORDS@.len() - i,
        {
            let w = POLISH_STOP_WORDS[i];
            set.insert(String::from_str(w));
            proof {
                lemma_seq_set_push(all.take(i as int), all[i as int]);
                assert(all.take(i + 1) =~= all.take(i as int).push(all[i as int]));
            }
            i = i + 1;
        }
        assert(all.take(i as int) =~= all);
        PolishStopFilter { stop_words: set }
    }

    /// A filter with the given stop words.
    pub fn with_words(words: Vec<String>) -> (f: PolishStopFilter)
        ensures
            f@ == seq_set(words@.map_values(|s: String| s@)),
    {
        let ghost all = words@.map_values(|s: String| s@);
        let mut set = StopWords::new();
        let mut i: usize = 0;
        assert(seq_set(all.take(0)) =~= Set::<Seq<char>>::empty());
        while i < words.len()
            invariant
                0 <= i <= words@.len(),
                all == words@.map_values(|s: String| s@),
                stop_word_contents(set) == seq_set(all.take(i as int)),
            decreases words@.len() - i,
        {
            set.insert(words[i].clone());
            proof {
                lemma_seq_set_push(all.take(i as int), all[i as int]);
                assert(all.take(i + 1) =~= all.take(i as int).push(all[i as int]));
            }
            i = i + 1;
        }
        assert(all.take(i as int) =~= all);
        PolishStopFilter { stop_words: set }
    }

    /// Whether a term is one of the filter's stop words, that is whether the
    /// filter deletes a token with this term.
    pub fn is_stop_word(&self, term: &str) -> (r: bool)
        ensures
            r == self@.contains(term@),
    {
        self.stop_words.contains(term)
    }
}

impl Clone for PolishStopFilter {
    fn clone(&self) -> (r: PolishStopFilter)
        ensures
            r@ == self@,
    {
        PolishStopFilter { stop_words: self.stop_words.duplicate() }
    }
}

impl Default for PolishStopFilter {
    fn default() -> (r: PolishStopFilter)
        ensures
            r@ == polish_stop_set(),
    {
        PolishStopFilter::new()
    }
}

} // verus!
