//! The Egothor trie of the Stempel stemmer table: its binary layout, its
//! loading, its validity, and the lookup of the patch command of a word.
//!
//! Layout (Java `DataOutput`, big-endian):
//! - table: method string (modified UTF-8), forward flag (1 byte), `by`
//!   (i32), trie count (i32), the tries;
//! - trie: forward flag (1 byte), root row (i32), command count (i32), the
//!   commands (modified UTF-8 each), row count (i32), the rows;
//! - row: cell count (i32), then per cell its character (2 bytes), command
//!   index, use count, next row and skip (i32 each).

use vstd::prelude::*;

use crate::bytes::{
    be_i32, be_u16, char_or_replacement, lemma_parse_utf_extend, parse_utf, read_char, read_i32,
    read_utf,
};

verus! {

/// A cell of a trie row: what a character leads to.
#[derive(Clone, Copy, Debug)]
pub struct Cell {
    /// Index into the trie's commands; negative where there is none.
    pub cmd: i32,
    /// How often the cell was used when the table was built.
    pub cnt: i32,
    /// Index of the next row; negative where there is none.
    pub ref_: i32,
    /// Characters to skip during traversal.
    pub skip: i32,
}

/// What a trie of the table holds.
pub struct TrieModel {
    /// Whether keys are walked from their first character (else from their last).
    pub forward: bool,
    /// The row where a walk starts.
    pub root: int,
    /// The patch commands.
    pub cmds: Seq<Seq<char>>,
    /// The rows, each a list of (character, cell) pairs.
    pub rows: Seq<Seq<(char, Cell)>>,
}

/// What the whole stemmer table holds.
pub struct TableModel {
    pub forward: bool,
    pub by: int,
    /// The sub-tries whose commands are concatenated.
    pub tries: Seq<TrieModel>,
}

// ---------------------------------------------------------------------------
// The binary layout
// ---------------------------------------------------------------------------

/// The cell stored at `q`: 2 bytes of character, then four big-endian i32.
pub open spec fn parse_cell(d: Seq<u8>, q: int) -> (char, Cell) {
    (
        char_or_replacement(be_u16(d, q)),
        Cell {
            cmd: be_i32(d, q + 2) as i32,
            cnt: be_i32(d, q + 6) as i32,
            ref_: be_i32(d, q + 10) as i32,
            skip: be_i32(d, q + 14) as i32,
        },
    )
}

/// The row stored at `p` and the position after it; `None` where its cell
/// count is negative or the data ends first.
pub open spec fn parse_row(d: Seq<u8>, p: int) -> Option<(Seq<(char, Cell)>, int)> {
    if p < 0 || p + 4 > d.len() {
        None
    } else {
        let count = be_i32(d, p);
        if count < 0 || p + 4 + 18 * count > d.len() {
            None
        } else {
            Some((Seq::new(count as nat, |k: int| parse_cell(d, p + 4 + 18 * k)), p + 4 + 18 * count))
        }
    }
}

/// `acc` put in front of the items that a parse gave.
pub open spec fn prepend<T>(acc: Seq<T>, r: Option<(Seq<T>, int)>) -> Option<(Seq<T>, int)> {
    match r {
        Some((items, next)) => Some((acc + items, next)),
        None => None,
    }
}

/// `n` strings stored one after the other from `p`.
pub open spec fn parse_strs(d: Seq<u8>, p: int, n: nat) -> Option<(Seq<Seq<char>>, int)>
    decreases n,
{
    if n == 0 {
        Some((Seq::empty(), p))
    } else {
        match parse_utf(d, p) {
            Some((s, q)) => prepend(seq![s], parse_strs(d, q, (n - 1) as nat)),
            None => None,
        }
    }
}

/// `n` rows stored one after the other from `p`.
pub open spec fn parse_rows(d: Seq<u8>, p: int, n: nat) -> Option<(Seq<Seq<(char, Cell)>>, int)>
    decreases n,
{
    if n == 0 {
        Some((Seq::empty(), p))
    } else {
        match parse_row(d, p) {
            Some((row, q)) => prepend(seq![row], parse_rows(d, q, (n - 1) as nat)),
            None => None,
        }
    }
}

/// The trie stored at `p` and the position after it.
#[verifier::opaque]
pub open spec fn parse_trie(d: Seq<u8>, p: int) -> Option<(TrieModel, int)> {
    if p < 0 || p + 9 > d.len() {
        None
    } else {
        let n_cmds = be_i32(d, p + 5);
        if n_cmds < 0 {
            None
        } else {
            match parse_strs(d, p + 9, n_cmds as nat) {
                None => None,
                Some((cmds, q)) => if q + 4 > d.len() || be_i32(d, q) < 0 {
                    None
                } else {
                    match parse_rows(d, q + 4, be_i32(d, q) as nat) {
                        None => None,
                        Some((rows, r)) => Some(
                            (TrieModel { forward: d[p] != 0, root: be_i32(d, p + 1), cmds, rows }, r),
                        ),
                    }
                },
            }
        }
    }
}

/// `n` tries stored one after the other from `p`.
pub open spec fn parse_tries(d: Seq<u8>, p: int, n: nat) -> Option<(Seq<TrieModel>, int)>
    decreases n,
{
    if n == 0 {
        Some((Seq::empty(), p))
    } else {
        match parse_trie(d, p) {
            Some((t, q)) => prepend(seq![t], parse_tries(d, q, (n - 1) as nat)),
            None => None,
        }
    }
}

/// The stemmer table stored in `d`, or `None` where `d` does not hold one.
/// Bytes after the last trie are ignored.
pub open spec fn parse_table(d: Seq<u8>) -> Option<TableModel> {
    match parse_utf(d, 0) {
        None => None,
        Some((_method, p)) => if p + 9 > d.len() || be_i32(d, p + 5) < 0 {
            None
        } else {
            match parse_tries(d, p + 9, be_i32(d, p + 5) as nat) {
                None => None,
                Some((tries, _end)) => Some(
                    TableModel { forward: d[p] != 0, by: be_i32(d, p + 1), tries },
                ),
            }
        },
    }
}

// ---------------------------------------------------------------------------
// Validity and lookup
// ---------------------------------------------------------------------------

/// The index of the first cell of `row` from index `k` on whose character is
/// `ch`, or -1.
pub open spec fn find_from(row: Seq<(char, Cell)>, ch: char, k: int) -> int
    decreases row.len() - k,
{
    if k < 0 || k >= row.len() {
        -1
    } else if row[k].0 == ch {
        k
    } else {
        find_from(row, ch, k + 1)
    }
}

/// The cell of `row` for `ch`: that of its first pair with character `ch`.
pub open spec fn row_cell(row: Seq<(char, Cell)>, ch: char) -> Option<Cell> {
    let k = find_from(row, ch, 0);
    if k < 0 {
        None
    } else {
        Some(row[k].1)
    }
}

/// The command index for `ch` in `row`, -1 where there is no cell for it.
pub open spec fn row_cmd(row: Seq<(char, Cell)>, ch: char) -> int {
    match row_cell(row, ch) {
        Some(c) => c.cmd as int,
        None => -1,
    }
}

/// The next row for `ch` in `row`, -1 where there is no cell for it.
pub open spec fn row_ref(row: Seq<(char, Cell)>, ch: char) -> int {
    match row_cell(row, ch) {
        Some(c) => c.ref_ as int,
        None => -1,
    }
}

/// The walk from row `now` along `s`: each character but the last records
/// its command (where it has one) and moves to its next row, or ends the walk
/// where it has no next row inside the trie; the last character's command,
/// where it has one, wins. The result is the last command recorded.
pub open spec fn walk(t: TrieModel, now: int, s: Seq<char>, last: Option<int>) -> Option<int>
    decreases s.len(),
{
    if s.len() == 0 {
        last
    } else if s.len() == 1 {
        let w = row_cmd(t.rows[now], s[0]);
        if w >= 0 {
            Some(w)
        } else {
            last
        }
    } else {
        let w = row_cmd(t.rows[now], s[0]);
        let last2 = if w >= 0 {
            Some(w)
        } else {
            last
        };
        let r = row_ref(t.rows[now], s[0]);
        if 0 <= r < t.rows.len() {
            walk(t, r, s.drop_first(), last2)
        } else {
            last2
        }
    }
}

/// The order in which a trie reads a key.
pub open spec fn trie_key(t: TrieModel, key: Seq<char>) -> Seq<char> {
    if t.forward {
        key
    } else {
        key.reverse()
    }
}

/// The index of the last command on the path of `key` in `t`.
pub open spec fn last_on_path(t: TrieModel, key: Seq<char>) -> Option<int> {
    if t.rows.len() == 0 || key.len() == 0 {
        None
    } else {
        walk(t, t.root, trie_key(t, key), None)
    }
}

/// The commands of the tries for `key`, concatenated in order until a trie
/// has none or gives the end marker `*`.
pub open spec fn collect_commands(tries: Seq<TrieModel>, key: Seq<char>) -> Seq<char>
    decreases tries.len(),
{
    if tries.len() == 0 {
        Seq::empty()
    } else {
        match last_on_path(tries[0], key) {
            None => Seq::empty(),
            Some(w) => {
                let c = tries[0].cmds[w];
                if c == seq!['*'] {
                    Seq::empty()
                } else {
                    c + collect_commands(tries.drop_first(), key)
                }
            },
        }
    }
}

/// Whether the walk from row `now` along `s` reads only rows and commands
/// that exist: each row it stands on is a row of the trie, and each command
/// index it meets (a non-negative one) names a command. A walk that is not
/// safe indexes outside the trie.
pub open spec fn walk_safe(t: TrieModel, now: int, s: Seq<char>) -> bool
    decreases s.len(),
{
    if !(0 <= now < t.rows.len()) {
        false
    } else if s.len() == 0 {
        true
    } else {
        &&& row_cmd(t.rows[now], s[0]) < t.cmds.len()
        &&& (s.len() == 1 || {
            let r = row_ref(t.rows[now], s[0]);
            !(0 <= r < t.rows.len()) || walk_safe(t, r, s.drop_first())
        })
    }
}

/// Whether looking `key` up in `t` stays inside the trie.
pub open spec fn lookup_safe(t: TrieModel, key: Seq<char>) -> bool {
    t.rows.len() == 0 || key.len() == 0 || walk_safe(t, t.root, trie_key(t, key))
}

/// Whether looking `key` up in the tries, in order until one ends the
/// concatenation, stays inside each trie looked at.
pub open spec fn table_safe(tries: Seq<TrieModel>, key: Seq<char>) -> bool
    decreases tries.len(),
{
    tries.len() == 0 || (lookup_safe(tries[0], key) && (stops_at(tries[0], key) || table_safe(
        tries.drop_first(),
        key,
    )))
}

/// The patch command of the table for `key`, `None` where it is empty.
pub open spec fn patch_command(m: TableModel, key: Seq<char>) -> Option<Seq<char>> {
    let c = collect_commands(m.tries, key);
    if c.len() == 0 {
        None
    } else {
        Some(c)
    }
}

// ---------------------------------------------------------------------------
// Lemmas
// ---------------------------------------------------------------------------

proof fn lemma_prepend_push<T>(acc: Seq<T>, x: T, r: Option<(Seq<T>, int)>)
    ensures
        prepend(acc, prepend(seq![x], r)) == prepend(acc.push(x), r),
{
    if let Some((items, next)) = r {
        assert(acc + (seq![x] + items) =~= acc.push(x) + items);
    }
}

proof fn lemma_be_i32_extend(d: Seq<u8>, e: Seq<u8>, p: int)
    requires
        0 <= p,
        p + 4 <= d.len(),
    ensures
        be_i32(d + e, p) == be_i32(d, p),
{
    assert((d + e)[p] == d[p]);
    assert((d + e)[p + 1] == d[p + 1]);
    assert((d + e)[p + 2] == d[p + 2]);
    assert((d + e)[p + 3] == d[p + 3]);
}

proof fn lemma_parse_row_extend(d: Seq<u8>, e: Seq<u8>, p: int)
    requires
        parse_row(d, p) is Some,
    ensures
        parse_row(d + e, p) == parse_row(d, p),
{
    lemma_be_i32_extend(d, e, p);
    let count = be_i32(d, p);
    assert forall|k: int| 0 <= k < count implies #[trigger] parse_cell(d + e, p + 4 + 18 * k)
        == parse_cell(d, p + 4 + 18 * k) by {
        let q = p + 4 + 18 * k;
        assert((d + e)[q] == d[q]);
        assert((d + e)[q + 1] == d[q + 1]);
        lemma_be_i32_extend(d, e, q + 2);
        lemma_be_i32_extend(d, e, q + 6);
        lemma_be_i32_extend(d, e, q + 10);
        lemma_be_i32_extend(d, e, q + 14);
    }
    assert(Seq::new(count as nat, |k: int| parse_cell(d + e, p + 4 + 18 * k)) =~= Seq::new(
        count as nat,
        |k: int| parse_cell(d, p + 4 + 18 * k),
    ));
}

proof fn lemma_parse_strs_extend(d: Seq<u8>, e: Seq<u8>, p: int, n: nat)
    requires
        parse_strs(d, p, n) is Some,
    ensures
        parse_strs(d + e, p, n) == parse_strs(d, p, n),
    decreases n,
{
    if n > 0 {
        lemma_parse_utf_extend(d, e, p);
        let (_s, q) = parse_utf(d, p).unwrap();
        lemma_parse_strs_extend(d, e, q, (n - 1) as nat);
    }
}

proof fn lemma_parse_rows_extend(d: Seq<u8>, e: Seq<u8>, p: int, n: nat)
    requires
        parse_rows(d, p, n) is Some,
    ensures
        parse_rows(d + e, p, n) == parse_rows(d, p, n),
    decreases n,
{
    if n > 0 {
        lemma_parse_row_extend(d, e, p);
        let (_r, q) = parse_row(d, p).unwrap();
        lemma_parse_rows_extend(d, e, q, (n - 1) as nat);
    }
}

proof fn lemma_parse_strs_forward(d: Seq<u8>, p: int, n: nat)
    requires
        parse_strs(d, p, n) is Some,
    ensures
        p <= parse_strs(d, p, n).unwrap().1,
    decreases n,
{
    if n > 0 {
        let (_s, q) = parse_utf(d, p).unwrap();
        lemma_parse_strs_forward(d, q, (n - 1) as nat);
    }
}

proof fn lemma_parse_trie_extend(d: Seq<u8>, e: Seq<u8>, p: int)
    requires
        parse_trie(d, p) is Some,
    ensures
        parse_trie(d + e, p) == parse_trie(d, p),
{
    reveal(parse_trie);
    assert((d + e)[p] == d[p]);
    lemma_be_i32_extend(d, e, p + 1);
    lemma_be_i32_extend(d, e, p + 5);
    let n_cmds = be_i32(d, p + 5);
    lemma_parse_strs_extend(d, e, p + 9, n_cmds as nat);
    let (_cmds, q) = parse_strs(d, p + 9, n_cmds as nat).unwrap();
    lemma_parse_strs_forward(d, p + 9, n_cmds as nat);
    lemma_be_i32_extend(d, e, q);
    lemma_parse_rows_extend(d, e, q + 4, be_i32(d, q) as nat);
}

proof fn lemma_parse_tries_extend(d: Seq<u8>, e: Seq<u8>, p: int, n: nat)
    requires
        parse_tries(d, p, n) is Some,
    ensures
        parse_tries(d + e, p, n) == parse_tries(d, p, n),
    decreases n,
{
    if n > 0 {
        lemma_parse_trie_extend(d, e, p);
        let (_t, q) = parse_trie(d, p).unwrap();
        lemma_parse_tries_extend(d, e, q, (n - 1) as nat);
    }
}

/// Bytes after a table do not change it: a table read from `d` is read the
/// same from `d` followed by anything.
pub proof fn law_trailing_bytes_ignored(d: Seq<u8>, extra: Seq<u8>)
    requires
        parse_table(d) is Some,
    ensures
        parse_table(d + extra) == parse_table(d),
{
    lemma_parse_utf_extend(d, extra, 0);
    let (_m, p) = parse_utf(d, 0).unwrap();
    assert((d + extra)[p] == d[p]);
    lemma_be_i32_extend(d, extra, p + 1);
    lemma_be_i32_extend(d, extra, p + 5);
    lemma_parse_tries_extend(d, extra, p + 9, be_i32(d, p + 5) as nat);
}

/// Where the first trie gives the end marker `*` for a key, the table has no
/// command for it.
pub proof fn law_end_marker_first(m: TableModel, key: Seq<char>)
    requires
        m.tries.len() > 0,
        last_on_path(m.tries[0], key) matches Some(w) && m.tries[0].cmds[w] == seq!['*'],
    ensures
        patch_command(m, key) is None,
{
}

/// Where the first trie has a command for a key other than the end marker,
/// the table's command for it starts with that one, the next tries' commands
/// following.
pub proof fn law_first_command_leads(m: TableModel, key: Seq<char>)
    requires
        m.tries.len() > 0,
        last_on_path(m.tries[0], key) matches Some(w) && m.tries[0].cmds[w] != seq!['*'],
    ensures
        collect_commands(m.tries, key) == m.tries[0].cmds[last_on_path(m.tries[0], key).unwrap()]
            + collect_commands(m.tries.drop_first(), key),
{
}

/// An empty key has no command.
pub proof fn law_empty_key(m: TableModel)
    ensures
        patch_command(m, Seq::empty()) is None,
{
    if m.tries.len() > 0 {
        assert(last_on_path(m.tries[0], Seq::empty()) is None);
    }
}

/// A backward trie reads the whole key, from its last character to its
/// first: the `i`-th character it reads is the key's `i`-th from the end, for
/// keys of every length.
pub proof fn law_backward_trie_reads_whole_key(t: TrieModel, key: Seq<char>)
    requires
        !t.forward,
    ensures
        trie_key(t, key).len() == key.len(),
        forall|i: int| 0 <= i < key.len() ==> #[trigger] trie_key(t, key)[i] == key[key.len() - 1 - i],
{
}

/// A forward trie reads the key as it stands.
pub proof fn law_forward_trie_reads_key(t: TrieModel, key: Seq<char>)
    requires
        t.forward,
    ensures
        trie_key(t, key) == key,
{
}

/// Looking a key up in a backward trie walks from the root along all of the
/// key's characters, last one first: where `s` is the key read backwards,
/// the command found is the one the walk along `s` ends with.
pub proof fn law_backward_lookup_walks_whole_key(t: TrieModel, key: Seq<char>, s: Seq<char>)
    requires
        !t.forward,
        t.rows.len() > 0,
        key.len() > 0,
        s.len() == key.len(),
        forall|i: int| 0 <= i < key.len() ==> #[trigger] s[i] == key[key.len() - 1 - i],
    ensures
        last_on_path(t, key) == walk(t, t.root, s, None),
{
    assert(trie_key(t, key) =~= s);
}

/// The rows a walk from `now` along `s` visits, one per character it reads.
pub open spec fn walk_rows(t: TrieModel, now: int, s: Seq<char>) -> Seq<int>
    decreases s.len(),
{
    if s.len() == 0 {
        Seq::empty()
    } else if s.len() == 1 {
        seq![now]
    } else {
        let r = row_ref(t.rows[now], s[0]);
        if 0 <= r < t.rows.len() {
            seq![now] + walk_rows(t, r, s.drop_first())
        } else {
            seq![now]
        }
    }
}

proof fn lemma_walk_rows_len(t: TrieModel, now: int, s: Seq<char>)
    ensures
        walk_rows(t, now, s).len() <= s.len(),
    decreases s.len(),
{
    if s.len() >= 2 {
        lemma_walk_rows_len(t, row_ref(t.rows[now], s[0]), s.drop_first());
    }
}

/// The command index that step `j` of a walk meets (negative for none).
pub open spec fn step_cmd(t: TrieModel, rows: Seq<int>, s: Seq<char>, j: int) -> int {
    row_cmd(t.rows[rows[j]], s[j])
}

/// A walk that meets no command keeps the command it started with.
pub proof fn law_walk_without_command(t: TrieModel, now: int, s: Seq<char>, last: Option<int>)
    requires
        forall|j: int|
            0 <= j < walk_rows(t, now, s).len() ==> #[trigger] step_cmd(t, walk_rows(t, now, s), s, j)
                < 0,
    ensures
        walk(t, now, s, last) == last,
    decreases s.len(),
{
    let path = walk_rows(t, now, s);
    if s.len() >= 1 {
        assert(path[0] == now);
        assert(step_cmd(t, path, s, 0) < 0);
    }
    if s.len() >= 2 {
        let r = row_ref(t.rows[now], s[0]);
        if 0 <= r < t.rows.len() {
            let s2 = s.drop_first();
            let path2 = walk_rows(t, r, s2);
            lemma_walk_rows_len(t, r, s2);
            assert forall|j: int| 0 <= j < path2.len() implies #[trigger] step_cmd(t, path2, s2, j) < 0 by {
                assert(path[j + 1] == path2[j]);
                assert(s[j + 1] == s2[j]);
                assert(step_cmd(t, path, s, j + 1) < 0);
            }
            law_walk_without_command(t, r, s2, last);
        }
    }
}

/// A walk ends with the last command it meets: the command of the last step
/// that has one.
pub proof fn law_walk_keeps_last_command(
    t: TrieModel,
    now: int,
    s: Seq<char>,
    last: Option<int>,
    j: int,
)
    requires
        0 <= j < walk_rows(t, now, s).len(),
        step_cmd(t, walk_rows(t, now, s), s, j) >= 0,
        forall|k: int|
            j < k < walk_rows(t, now, s).len() ==> #[trigger] step_cmd(t, walk_rows(t, now, s), s, k)
                < 0,
    ensures
        walk(t, now, s, last) == Some(step_cmd(t, walk_rows(t, now, s), s, j)),
    decreases s.len(),
{
    let path = walk_rows(t, now, s);
    assert(path[0] == now);
    if s.len() >= 2 {
        let r = row_ref(t.rows[now], s[0]);
        if 0 <= r < t.rows.len() {
            let s2 = s.drop_first();
            let path2 = walk_rows(t, r, s2);
            lemma_walk_rows_len(t, r, s2);
            let w = row_cmd(t.rows[now], s[0]);
            let last2 = if w >= 0 {
                Some(w)
            } else {
                last
            };
            assert forall|k: int| j - 1 < k < path2.len() implies #[trigger] step_cmd(t, path2, s2, k) < 0 by {
                assert(path[k + 1] == path2[k]);
                assert(s[k + 1] == s2[k]);
                assert(step_cmd(t, path, s, k + 1) < 0);
            }
            if j == 0 {
                law_walk_without_command(t, r, s2, last2);
            } else {
                assert(path[j] == path2[j - 1]);
                assert(s[j] == s2[j - 1]);
                law_walk_keeps_last_command(t, r, s2, last2, j - 1);
            }
        }
    }
}

/// Whether a trie ends the concatenation of commands for `key`: it has no
/// command for it, or its command is the end marker `*`.
pub open spec fn stops_at(t: TrieModel, key: Seq<char>) -> bool {
    match last_on_path(t, key) {
        None => true,
        Some(w) => t.cmds[w] == seq!['*'],
    }
}

/// The commands of all of `tries` for `key`, concatenated.
pub open spec fn concat_commands(tries: Seq<TrieModel>, key: Seq<char>) -> Seq<char>
    decreases tries.len(),
{
    if tries.len() == 0 {
        Seq::empty()
    } else {
        tries[0].cmds[last_on_path(tries[0], key).unwrap()] + concat_commands(tries.drop_first(), key)
    }
}

/// The table's command for a key is the concatenation of the commands of
/// the tries before the first one that ends it (all of them where none
/// does).
pub proof fn law_commands_up_to_first_stop(tries: Seq<TrieModel>, key: Seq<char>, k: int)
    requires
        0 <= k <= tries.len(),
        forall|i: int| 0 <= i < k ==> !stops_at(#[trigger] tries[i], key),
        k < tries.len() ==> stops_at(tries[k], key),
    ensures
        collect_commands(tries, key) == concat_commands(tries.take(k), key),
    decreases k,
{
    if k == 0 {
        assert(tries.take(0) =~= Seq::<TrieModel>::empty());
    } else {
        assert(!stops_at(tries[0], key));
        let rest = tries.drop_first();
        assert forall|i: int| 0 <= i < k - 1 implies !stops_at(#[trigger] rest[i], key) by {
            assert(rest[i] == tries[i + 1]);
        }
        if k - 1 < rest.len() {
            assert(rest[k - 1] == tries[k]);
        }
        law_commands_up_to_first_stop(rest, key, k - 1);
        assert(tries.take(k).drop_first() =~= rest.take(k - 1));
        assert(tries.take(k)[0] == tries[0]);
    }
}

/// The bytes that rows take: per row 4 bytes of count and 18 per cell.
pub open spec fn rows_size(rows: Seq<Seq<(char, Cell)>>) -> int
    decreases rows.len(),
{
    if rows.len() == 0 {
        0
    } else {
        4 + 18 * rows[0].len() + rows_size(rows.drop_first())
    }
}

/// Rows read one after the other take exactly their size: 4 bytes of count
/// and 18 per cell each.
pub proof fn law_rows_take_their_size(d: Seq<u8>, p: int, n: nat)
    requires
        parse_rows(d, p, n) is Some,
    ensures
        ({
            let (rows, q) = parse_rows(d, p, n).unwrap();
            rows.len() == n && q == p + rows_size(rows)
        }),
    decreases n,
{
    if n > 0 {
        let (row, q1) = parse_row(d, p).unwrap();
        law_rows_take_their_size(d, q1, (n - 1) as nat);
        let (rest, q) = parse_rows(d, q1, (n - 1) as nat).unwrap();
        let rows = seq![row] + rest;
        assert(rows.drop_first() =~= rest);
        assert(rows[0] == row);
    }
}

// ---------------------------------------------------------------------------
// Executable rows, tries and tables
// ---------------------------------------------------------------------------

/// A row of an Egothor trie (maps a character to a cell).
#[derive(Debug)]
pub(crate) struct Row {
    cells: Vec<(char, Cell)>,
}

impl View for Row {
    type V = Seq<(char, Cell)>;

    closed spec fn view(&self) -> Seq<(char, Cell)> {
        self.cells@
    }
}

impl Row {
    /// Loads the row stored at `offset`; gives it and the bytes it takes.
    pub(crate) fn from_bytes(data: &[u8], offset: usize) -> (r: Option<(Row, usize)>)
        ensures
            match parse_row(data@, offset as int) {
                Some((cells, next)) => r matches Some((row, consumed)) && row@ == cells && offset
                    + consumed == next && next <= data@.len(),
                None => r is None,
            },
    {
        if offset > data.len() || data.len() - offset < 4 {
            return None;
        }
        let count = read_i32(data, offset);
        if count < 0 {
            return None;
        }
        let avail: u64 = (data.len() - offset - 4) as u64;
        if avail < 18 * (count as u64) {
            return None;
        }
        let n = count as usize;
        let ghost d = data@;
        let ghost base = offset + 4;
        let mut cells: Vec<(char, Cell)> = Vec::new();
        let mut pos = offset + 4;
        let mut k: usize = 0;
        while k < n
            invariant
                0 <= k <= n,
                n == be_i32(d, offset as int),
                d == data@,
                d.len() == data.len(),
                base == offset + 4,
                base + 18 * n <= d.len(),
                pos == base + 18 * k,
                cells@ =~= Seq::new(k as nat, |j: int| parse_cell(d, base + 18 * j)),
            decreases n - k,
        {
            let ch = read_char(data, pos);
            let cmd = read_i32(data, pos + 2);
            let cnt = read_i32(data, pos + 6);
            let ref_ = read_i32(data, pos + 10);
            let skip = read_i32(data, pos + 14);
            cells.push((ch, Cell { cmd, cnt, ref_, skip }));
            pos = pos + 18;
            k = k + 1;
        }
        Some((Row { cells }, pos - offset))
    }

    /// The cell for a character: that of the first pair that has it.
    pub(crate) fn at(&self, ch: char) -> (r: Option<&Cell>)
        ensures
            match row_cell(self@, ch) {
                Some(c) => r matches Some(rc) && *rc == c,
                None => r is None,
            },
    {
        let mut i: usize = 0;
        while i < self.cells.len()
            invariant
                0 <= i <= self.cells@.len(),
                find_from(self.cells@, ch, 0) == find_from(self.cells@, ch, i as int),
            decreases self.cells@.len() - i,
        {
            if self.cells[i].0 == ch {
                return Some(&self.cells[i].1);
            }
            i = i + 1;
        }
        None
    }

    /// The command index for a character, -1 where it has none.
    pub(crate) fn get_cmd(&self, ch: char) -> (r: i32)
        ensures
            r as int == row_cmd(self@, ch),
    {
        match self.at(ch) {
            Some(c) => c.cmd,
            None => -1,
        }
    }

    /// The next row for a character, -1 where it has none.
    pub(crate) fn get_ref(&self, ch: char) -> (r: i32)
        ensures
            r as int == row_ref(self@, ch),
    {
        match self.at(ch) {
            Some(c) => c.ref_,
            None => -1,
        }
    }
}

/// One trie of the table.
#[derive(Debug)]
pub(crate) struct Trie {
    forward: bool,
    root: i32,
    cmds: Vec<Vec<char>>,
    rows: Vec<Row>,
}

impl View for Trie {
    type V = TrieModel;

    closed spec fn view(&self) -> TrieModel {
        TrieModel {
            forward: self.forward,
            root: self.root as int,
            cmds: self.cmds@.map_values(|c: Vec<char>| c@),
            rows: self.rows@.map_values(|r: Row| r@),
        }
    }
}

/// Reads `n` strings one after the other from `pos`.
fn read_strs(data: &[u8], pos: usize, n: usize) -> (r: Option<(Vec<Vec<char>>, usize)>)
    requires
        pos <= data@.len(),
    ensures
        match parse_strs(data@, pos as int, n as nat) {
            Some((s, next)) => r matches Some((v, p)) && v@.map_values(|c: Vec<char>| c@) == s && p
                == next && pos <= next <= data@.len(),
            None => r is None,
        },
{
    let ghost d = data@;
    let mut out: Vec<Vec<char>> = Vec::new();
    let mut p = pos;
    let mut k: usize = 0;
    assert(out@.map_values(|c: Vec<char>| c@) =~= Seq::<Seq<char>>::empty());
    while k < n
        invariant
            0 <= k <= n,
            d == data@,
            pos <= p <= d.len(),
            d.len() == data.len(),
            parse_strs(d, pos as int, n as nat) == prepend(
                out@.map_values(|c: Vec<char>| c@),
                parse_strs(d, p as int, (n - k) as nat),
            ),
        decreases n - k,
    {
        let ghost acc = out@.map_values(|c: Vec<char>| c@);
        match read_utf(data, p) {
            None => {
                return None;
            },
            Some((s, consumed)) => {
                proof {
                    lemma_prepend_push(acc, s@, parse_strs(d, (p + consumed) as int, (n - k - 1) as nat));
                }
                out.push(s);
                assert(out@.map_values(|c: Vec<char>| c@) =~= acc.push(s@));
                p = p + consumed;
                k = k + 1;
            },
        }
    }
    assert(out@.map_values(|c: Vec<char>| c@) + Seq::<Seq<char>>::empty() =~= out@.map_values(
        |c: Vec<char>| c@,
    ));
    Some((out, p))
}

/// Reads `n` rows one after the other from `pos`.
fn read_rows(data: &[u8], pos: usize, n: usize) -> (r: Option<(Vec<Row>, usize)>)
    requires
        pos <= data@.len(),
    ensures
        match parse_rows(data@, pos as int, n as nat) {
            Some((s, next)) => r matches Some((v, p)) && v@.map_values(|row: Row| row@) == s && p
                == next && pos <= next <= data@.len(),
            None => r is None,
        },
{
    let ghost d = data@;
    let mut out: Vec<Row> = Vec::new();
    let mut p = pos;
    let mut k: usize = 0;
    assert(out@.map_values(|row: Row| row@) =~= Seq::<Seq<(char, Cell)>>::empty());
    while k < n
        invariant
            0 <= k <= n,
            d == data@,
            pos <= p <= d.len(),
            d.len() == data.len(),
            parse_rows(d, pos as int, n as nat) == prepend(
                out@.map_values(|row: Row| row@),
                parse_rows(d, p as int, (n - k) as nat),
            ),
        decreases n - k,
    {
        let ghost acc = out@.map_values(|row: Row| row@);
        match Row::from_bytes(data, p) {
            None => {
                return None;
            },
            Some((row, consumed)) => {
                proof {
                    lemma_prepend_push(acc, row@, parse_rows(d, (p + consumed) as int, (n - k - 1) as nat));
                }
                let ghost rv = row@;
                out.push(row);
                assert(out@.map_values(|row: Row| row@) =~= acc.push(rv));
                p = p + consumed;
                k = k + 1;
            },
        }
    }
    assert(out@.map_values(|row: Row| row@) + Seq::<Seq<(char, Cell)>>::empty() =~= out@.map_values(
        |row: Row| row@,
    ));
    Some((out, p))
}

impl Trie {
    /// Loads the trie stored at `offset`; gives it and the bytes it takes.
    pub(crate) fn from_bytes(data: &[u8], offset: usize) -> (r: Option<(Trie, usize)>)
        ensures
            match parse_trie(data@, offset as int) {
                Some((t, next)) => r matches Some((trie, consumed)) && trie@ == t && offset
                    + consumed == next && next <= data@.len(),
                None => r is None,
            },
    {
        reveal(parse_trie);
        if offset > data.len() || data.len() - offset < 9 {
            return None;
        }
        let forward = data[offset] != 0;
        let root = read_i32(data, offset + 1);
        let cmd_count = read_i32(data, offset + 5);
        if cmd_count < 0 {
            return None;
        }
        let (cmds, pos) = match read_strs(data, offset + 9, cmd_count as usize) {
            Some(x) => x,
            None => {
                return None;
            },
        };
        if data.len() - pos < 4 {
            return None;
        }
        let row_count = read_i32(data, pos);
        if row_count < 0 {
            return None;
        }
        let (rows, end) = match read_rows(data, pos + 4, row_count as usize) {
            Some(x) => x,
            None => {
                return None;
            },
        };
        let trie = Trie { forward, root, cmds, rows };
        assert(trie@.cmds == trie.cmds@.map_values(|c: Vec<char>| c@));
        Some((trie, end - offset))
    }

    /// The index of the last command on the path of `key`: the walk follows
    /// the key's characters (from its last one where the trie is not
    /// forward) and keeps the most recent command found on the way. The
    /// outer `None` stands for a walk that reaches a row or a command index
    /// outside the trie.
    pub(crate) fn get_last_on_path(&self, key: &[char]) -> (r: Option<Option<usize>>)
        ensures
            r is None <==> !lookup_safe(self@, key@),
            r matches Some(x) ==> match last_on_path(self@, key@) {
                Some(w) => x matches Some(i) && i as int == w && 0 <= w < self@.cmds.len(),
                None => x is None,
            },
    {
        let ghost t = self@;
        if self.rows.len() == 0 || key.len() == 0 {
            return Some(None);
        }
        let mut iter: Vec<char> = Vec::new();
        if self.forward {
            let mut j: usize = 0;
            while j < key.len()
                invariant
                    0 <= j <= key@.len(),
                    iter@ =~= key@.subrange(0, j as int),
                decreases key@.len() - j,
            {
                iter.push(key[j]);
                j = j + 1;
            }
        } else {
            let mut j: usize = key.len();
            while j > 0
                invariant
                    0 <= j <= key@.len(),
                    iter@ =~= key@.reverse().subrange(0, key@.len() - j),
                decreases j,
            {
                j = j - 1;
                iter.push(key[j]);
            }
        }
        assert(iter@ =~= trie_key(t, key@));
        if self.root < 0 || self.root as usize >= self.rows.len() {
            return None;
        }
        let len = iter.len();
        let n_cmds = self.cmds.len();
        let mut now: usize = self.root as usize;
        let mut last: Option<usize> = None;
        let mut i: usize = 0;
        assert(iter@.skip(0) =~= iter@);
        while i < len - 1
            invariant
                t == self@,
                n_cmds == t.cmds.len(),
                t.rows.len() == self.rows@.len(),
                forall|x: int| 0 <= x < self.rows@.len() ==> #[trigger] t.rows[x] == self.rows@[x]@,
                len == iter@.len(),
                len >= 1,
                0 <= i <= len - 1,
                0 <= now < self.rows@.len(),
                lookup_safe(t, key@) == walk_safe(t, now as int, iter@.skip(i as int)),
                last_on_path(t, key@) == walk(
                    t,
                    now as int,
                    iter@.skip(i as int),
                    match last {
                        Some(w) => Some(w as int),
                        None => None,
                    },
                ),
                last matches Some(w) ==> w < t.cmds.len(),
            decreases len - 1 - i,
        {
            let ghost s = iter@.skip(i as int);
            assert(s[0] == iter@[i as int]);
            assert(s.drop_first() =~= iter@.skip(i + 1));
            let ch = iter[i];
            let row = &self.rows[now];
            let w = row.get_cmd(ch);
            if w >= 0 {
                if w as usize >= n_cmds {
                    return None;
                }
                last = Some(w as usize);
            }
            let r = row.get_ref(ch);
            if r >= 0 && (r as usize) < self.rows.len() {
                now = r as usize;
            } else {
                return Some(last);
            }
            i = i + 1;
        }
        let ghost s = iter@.skip(i as int);
        assert(s.len() == 1);
        assert(s[0] == iter@[len - 1]);
        let row = &self.rows[now];
        let w = row.get_cmd(iter[len - 1]);
        if w >= 0 {
            if w as usize >= n_cmds {
                return None;
            }
            Some(Some(w as usize))
        } else {
            Some(last)
        }
    }
}

/// The stemmer table: sub-tries whose commands are concatenated.
#[derive(Debug)]
pub(crate) struct MultiTrie {
    forward: bool,
    by: i32,
    tries: Vec<Trie>,
}

impl View for MultiTrie {
    type V = TableModel;

    closed spec fn view(&self) -> TableModel {
        TableModel {
            forward: self.forward,
            by: self.by as int,
            tries: self.tries@.map_values(|t: Trie| t@),
        }
    }
}

impl MultiTrie {
    /// Loads the stemmer table from its bytes.
    pub(crate) fn from_bytes(data: &[u8]) -> (r: Option<MultiTrie>)
        ensures
            match parse_table(data@) {
                Some(m) => r matches Some(mt) && mt@ == m,
                None => r is None,
            },
    {
        let ghost d = data@;
        let pos = match read_utf(data, 0) {
            Some((_method, consumed)) => consumed,
            None => {
                return None;
            },
        };
        if data.len() - pos < 9 {
            return None;
        }
        let forward = data[pos] != 0;
        let by = read_i32(data, pos + 1);
        let trie_count = read_i32(data, pos + 5);
        if trie_count < 0 {
            return None;
        }
        let n = trie_count as usize;
        let mut tries: Vec<Trie> = Vec::new();
        let mut p = pos + 9;
        let mut k: usize = 0;
        assert(tries@.map_values(|t: Trie| t@) =~= Seq::<TrieModel>::empty());
        while k < n
            invariant
                0 <= k <= n,
                d == data@,
                pos + 9 <= p <= d.len(),
                d.len() == data.len(),
                parse_utf(d, 0) matches Some((_m, q)) && q == pos,
                be_i32(d, pos + 5) == n,
                forward == (d[pos as int] != 0),
                by == be_i32(d, pos + 1),
                parse_tries(d, (pos + 9) as int, n as nat) == prepend(
                    tries@.map_values(|t: Trie| t@),
                    parse_tries(d, p as int, (n - k) as nat),
                ),
            decreases n - k,
        {
            let ghost acc = tries@.map_values(|t: Trie| t@);
            match Trie::from_bytes(data, p) {
                None => {
                    return None;
                },
                Some((trie, consumed)) => {
                    proof {
                        lemma_prepend_push(acc, trie@, parse_tries(d, (p + consumed) as int, (n - k - 1) as nat));
                    }
                    let ghost tv = trie@;
                    tries.push(trie);
                    assert(tries@.map_values(|t: Trie| t@) =~= acc.push(tv));
                    p = p + consumed;
                    k = k + 1;
                },
            }
        }
        assert(tries@.map_values(|t: Trie| t@) + Seq::<TrieModel>::empty() =~= tries@.map_values(
            |t: Trie| t@,
        ));
        Some(MultiTrie { forward, by, tries })
    }

    /// The combined patch command for a word: the sub-tries' commands,
    /// concatenated until one has none or gives the end marker `*`; `None`
    /// inside where that is empty. The outer `None` stands for a lookup that
    /// reaches a row or a command index outside a trie.
    pub(crate) fn get_last_on_path(&self, key: &[char]) -> (r: Option<Option<Vec<char>>>)
        ensures
            r is None <==> !table_safe(self@.tries, key@),
            r matches Some(x) ==> match patch_command(self@, key@) {
                Some(c) => x matches Some(v) && v@ == c,
                None => x is None,
            },
    {
        let ghost m = self@;
        let mut result: Vec<char> = Vec::new();
        let mut i: usize = 0;
        assert(m.tries.skip(0) =~= m.tries);
        while i < self.tries.len()
            invariant
                m == self@,
                m.tries.len() == self.tries@.len(),
                forall|j: int| 0 <= j < self.tries@.len() ==> #[trigger] m.tries[j] == self.tries@[j]@,
                0 <= i <= self.tries@.len(),
                table_safe(m.tries, key@) == table_safe(m.tries.skip(i as int), key@),
                table_safe(m.tries, key@) ==> collect_commands(m.tries, key@) == result@
                    + collect_commands(m.tries.skip(i as int), key@),
            decreases self.tries@.len() - i,
        {
            let ghost rest = m.tries.skip(i as int);
            assert(rest[0] == m.tries[i as int]);
            assert(rest.drop_first() =~= m.tries.skip(i + 1));
            let trie = &self.tries[i];
            match trie.get_last_on_path(key) {
                None => {
                    return None;
                },
                Some(Some(w)) => {
                    let cmd = &trie.cmds[w];
                    assert(cmd@ == m.tries[i as int].cmds[w as int]);
                    assert(last_on_path(rest[0], key@) == Some(w as int));
                    if cmd.len() == 1 && cmd[0] == '*' {
                        assert(cmd@ =~= seq!['*']);
                        assert(result@ + Seq::<char>::empty() =~= result@);
                        if result.len() == 0 {
                            return Some(None);
                        } else {
                            return Some(Some(result));
                        }
                    }
                    assert(cmd@ != seq!['*']) by {
                        if cmd@ == seq!['*'] {
                            assert(cmd@.len() == 1 && cmd@[0] == '*');
                        }
                    }
                    let ghost before = result@;
                    let mut j: usize = 0;
                    while j < cmd.len()
                        invariant
                            0 <= j <= cmd@.len(),
                            result@ =~= before + cmd@.subrange(0, j as int),
                        decreases cmd@.len() - j,
                    {
                        result.push(cmd[j]);
                        j = j + 1;
                    }
                    assert(cmd@.subrange(0, cmd@.len() as int) =~= cmd@);
                    assert(before + (cmd@ + collect_commands(m.tries.skip(i + 1), key@)) =~= result@
                        + collect_commands(m.tries.skip(i + 1), key@));
                },
                Some(None) => {
                    assert(result@ + Seq::<char>::empty() =~= result@);
                    if result.len() == 0 {
                        return Some(None);
                    } else {
                        return Some(Some(result));
                    }
                },
            }
            i = i + 1;
        }
        assert(m.tries.skip(i as int) =~= Seq::<TrieModel>::empty());
        assert(result@ + Seq::<char>::empty() =~= result@);
        if result.len() == 0 {
            Some(None)
        } else {
            Some(Some(result))
        }
    }
}

impl Clone for Row {
    fn clone(&self) -> (r: Row)
        ensures
            r@ == self@,
    {
        let mut cells: Vec<(char, Cell)> = Vec::new();
        let mut i: usize = 0;
        while i < self.cells.len()
            invariant
                0 <= i <= self.cells@.len(),
                cells@ =~= self.cells@.subrange(0, i as int),
            decreases self.cells@.len() - i,
        {
            let c = self.cells[i];
            cells.push(c);
            i = i + 1;
        }
        assert(self.cells@.subrange(0, i as int) =~= self.cells@);
        Row { cells }
    }
}

impl Clone for Trie {
    fn clone(&self) -> (r: Trie)
        ensures
            r@ == self@,
    {
        let mut cmds: Vec<Vec<char>> = Vec::new();
        let mut i: usize = 0;
        while i < self.cmds.len()
            invariant
                0 <= i <= self.cmds@.len(),
                cmds@.len() == i,
                forall|j: int| 0 <= j < i ==> #[trigger] cmds@[j]@ == self.cmds@[j]@,
            decreases self.cmds@.len() - i,
        {
            let c = self.cmds[i].clone();
            assert(c@ =~= self.cmds@[i as int]@);
            cmds.push(c);
            i = i + 1;
        }
        let mut rows: Vec<Row> = Vec::new();
        let mut k: usize = 0;
        while k < self.rows.len()
            invariant
                0 <= k <= self.rows@.len(),
                rows@.len() == k,
                forall|j: int| 0 <= j < k ==> #[trigger] rows@[j]@ == self.rows@[j]@,
            decreases self.rows@.len() - k,
        {
            let row = self.rows[k].clone();
            rows.push(row);
            k = k + 1;
        }
        let r = Trie { forward: self.forward, root: self.root, cmds, rows };
        assert(r@.cmds =~= self@.cmds);
        assert(r@.rows =~= self@.rows);
        r
    }
}

impl Clone for MultiTrie {
    fn clone(&self) -> (r: MultiTrie)
        ensures
            r@ == self@,
    {
        let mut tries: Vec<Trie> = Vec::new();
        let mut i: usize = 0;
        while i < self.tries.len()
            invariant
                0 <= i <= self.tries@.len(),
                tries@.len() == i,
                forall|j: int| 0 <= j < i ==> #[trigger] tries@[j]@ == self.tries@[j]@,
            decreases self.tries@.len() - i,
        {
            let t = self.tries[i].clone();
            tries.push(t);
            i = i + 1;
        }
        let r = MultiTrie { forward: self.forward, by: self.by, tries };
        assert(r@.tries =~= self@.tries);
        r
    }
}

} // verus!
