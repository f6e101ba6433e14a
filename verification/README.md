# pizza-analysis-stempel

Polish algorithmic stemming (Stempel) and Polish stop words, verified with Verus.

The stemmer is table-driven: a compiled Egothor multi-trie (such as
`stemmer_20000.tbl`, compiled from 20,000 Polish word pairs) gives each
lower-cased word a patch command, and the patch turns the word into its stem.
The table is handed to `StempelStemFilter::new` as bytes.

Layout:

- `src/bytes.rs`: big-endian integers, Java chars and modified UTF-8 strings;
- `src/trie.rs`: the table's binary layout, its loading and validity, and the
  lookup of a word's patch command;
- `src/layout.rs`: the writer of the table's layout, and the law that the
  reader reads back what it writes;
- `src/diff.rs`: patch commands and how they change a word;
- `src/stemmer.rs`: `StempelStemFilter`;
- `src/stop.rs`: `PolishStopFilter` and `POLISH_STOP_WORDS`;
- `app/lib.rs`: the token filters of the search engine and their registration.
