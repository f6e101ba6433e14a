//! Patch commands (Egothor `Diff::apply`): how a word becomes its stem.
//!
//! A command is a sequence of (operation, parameter) pairs applied from the
//! end of the word towards its beginning, with a cursor that starts on the
//! last character. For a parameter `p`, `n` is `p - 'a' + 1`:
//! - `-p`: move the cursor back by `n` positions;
//! - `Rp`: replace the character under the cursor with `p`;
//! - `Dp`: delete the `n` characters that end at the cursor;
//! - `Ip`: insert `p` after the cursor.
//! After each pair but `-`, `D` and `I`, the cursor moves back by one.

use vstd::prelude::*;

verus! {

/// The count that a parameter character stands for: `p - 'a' + 1`.
pub open spec fn param_count(p: char) -> int {
    (p as u32) as int - 96
}

/// The word once the pairs of `diff` are applied with the cursor at `pos`.
/// A last character without its parameter is ignored; an operation whose
/// cursor lies outside the word changes nothing.
pub open spec fn patch_from(word: Seq<char>, pos: int, diff: Seq<char>) -> Seq<char>
    decreases diff.len(),
{
    if diff.len() < 2 {
        word
    } else {
        let op = diff[0];
        let p = diff[1];
        let n = param_count(p);
        let rest = diff.skip(2);
        if op == '-' {
            patch_from(word, pos - n, rest)
        } else if op == 'R' {
            if 0 <= pos < word.len() {
                patch_from(word.update(pos, p), pos - 1, rest)
            } else {
                patch_from(word, pos - 1, rest)
            }
        } else if op == 'D' {
            let start = pos - n + 1;
            if 0 <= start <= pos < word.len() {
                patch_from(word.subrange(0, start) + word.subrange(pos + 1, word.len() as int), start - 1, rest)
            } else {
                patch_from(word, pos - 1, rest)
            }
        } else if op == 'I' {
            if 0 <= pos + 1 <= word.len() {
                patch_from(word.insert(pos + 1, p), pos, rest)
            } else {
                patch_from(word, pos, rest)
            }
        } else {
            patch_from(word, pos - 1, rest)
        }
    }
}

/// `word` patched by `diff`, the cursor starting on the last character; an
/// empty word or an empty command leaves the word as it is.
pub open spec fn apply_patch(word: Seq<char>, diff: Seq<char>) -> Seq<char> {
    if diff.len() == 0 || word.len() == 0 {
        word
    } else {
        patch_from(word, word.len() - 1, diff)
    }
}

/// Deletes the characters `start..=end` of `word`.
fn delete_range(word: &mut Vec<char>, start: usize, end: usize)
    requires
        start <= end < old(word)@.len(),
    ensures
        final(word)@ == old(word)@.subrange(0, start as int) + old(word)@.subrange(
            end + 1,
            old(word)@.len() as int,
        ),
{
    let ghost w0 = word@;
    let len = word.len();
    let mut k: usize = 0;
    let count = end - start + 1;
    while k < count
        invariant
            start + count == end + 1,
            end < w0.len(),
            0 <= k <= count,
            word@ =~= w0.subrange(0, start as int) + w0.subrange(start + k, w0.len() as int),
        decreases count - k,
    {
        word.remove(start);
        k = k + 1;
    }
}

/// Applies a patch command to a word (Egothor `Diff::apply`).
///
/// The cursor is held in an `i128`, wide enough that no sequence of moves
/// overflows it.
pub fn apply_diff(word: &mut Vec<char>, diff: &[char])
    ensures
        final(word)@ == apply_patch(old(word)@, diff@),
{
    if diff.len() == 0 {
        return;
    }
    if word.len() == 0 {
        return;
    }
    let ghost w0 = word@;
    let mut pos: i128 = word.len() as i128 - 1;
    let mut i: usize = 0;
    assert(diff@.skip(0) =~= diff@);
    while diff.len() - i >= 2
        invariant
            0 <= i <= diff@.len(),
            w0.len() >= 1,
            apply_patch(w0, diff@) == patch_from(word@, pos as int, diff@.skip(i as int)),
            word@.len() <= w0.len() + i,
            -1 - 0x11_0000 * (i as int) <= pos <= w0.len() + 100 * (i as int),
            w0.len() <= usize::MAX,
            diff@.len() <= usize::MAX,
        decreases diff@.len() - i,
    {
        let ghost rest = diff@.skip(i as int);
        assert(rest[0] == diff@[i as int]);
        assert(rest[1] == diff@[i + 1]);
        assert(rest.skip(2) =~= diff@.skip(i + 2));
        let op = diff[i];
        let param = diff[i + 1];
        proof {
            vstd::utf8::char_is_scalar(param);
        }
        let n: i128 = (param as u32) as i128 - 96;
        if op == '-' {
            pos = pos - n;
        } else if op == 'R' {
            if 0 <= pos && pos < word.len() as i128 {
                word.set(pos as usize, param);
            }
            pos = pos - 1;
        } else if op == 'D' {
            let start = pos - n + 1;
            if 0 <= start && start <= pos && pos < word.len() as i128 {
                delete_range(word, start as usize, pos as usize);
                pos = start - 1;
            } else {
                pos = pos - 1;
            }
        } else if op == 'I' {
            if 0 <= pos + 1 && pos + 1 <= word.len() as i128 {
                word.insert((pos + 1) as usize, param);
            }
        } else {
            pos = pos - 1;
        }
        i = i + 2;
    }
}

// ---------------------------------------------------------------------------
// Laws
// ---------------------------------------------------------------------------

/// An empty command leaves every word as it is.
pub proof fn law_empty_command(word: Seq<char>)
    ensures
        apply_patch(word, Seq::empty()) == word,
{
}

/// No command changes the empty word.
pub proof fn law_empty_word(diff: Seq<char>)
    ensures
        apply_patch(Seq::empty(), diff) == Seq::<char>::empty(),
{
}

/// `Rp` replaces the last character with `p`.
pub proof fn law_replace_last(word: Seq<char>, p: char)
    requires
        word.len() > 0,
    ensures
        apply_patch(word, seq!['R', p]) == word.update(word.len() - 1, p),
{
    reveal_with_fuel(patch_from, 3);
    assert(seq!['R', p].skip(2) =~= Seq::<char>::empty());
}

/// `Dp` deletes the last `p - 'a' + 1` characters, where there are as many.
pub proof fn law_delete_suffix(word: Seq<char>, p: char)
    requires
        1 <= param_count(p) <= word.len(),
    ensures
        apply_patch(word, seq!['D', p]) == word.subrange(0, word.len() - param_count(p)),
{
    reveal_with_fuel(patch_from, 3);
    assert(seq!['D', p].skip(2) =~= Seq::<char>::empty());
    assert(word.subrange(word.len() as int, word.len() as int) =~= Seq::<char>::empty());
    assert(word.subrange(0, word.len() - param_count(p)) + Seq::<char>::empty() =~= word.subrange(
        0,
        word.len() - param_count(p),
    ));
}

/// `Ip` appends `p` to the word.
pub proof fn law_insert_appends(word: Seq<char>, p: char)
    requires
        word.len() > 0,
    ensures
        apply_patch(word, seq!['I', p]) == word.push(p),
{
    reveal_with_fuel(patch_from, 3);
    assert(seq!['I', p].skip(2) =~= Seq::<char>::empty());
    assert(word.insert(word.len() as int, p) =~= word.push(p));
}

/// `-p` moves the cursor back by `p - 'a' + 1` positions: a following `Rq`
/// replaces the character that many positions before the last one.
pub proof fn law_move_then_replace(word: Seq<char>, p: char, q: char)
    requires
        0 <= param_count(p) < word.len(),
    ensures
        apply_patch(word, seq!['-', p, 'R', q]) == word.update(word.len() - 1 - param_count(p), q),
{
    reveal_with_fuel(patch_from, 3);
    let d = seq!['-', p, 'R', q];
    assert(d.skip(2) =~= seq!['R', q]);
    assert(d.skip(2).skip(2) =~= Seq::<char>::empty());
}

/// An insert leaves the cursor where it was, on the character before the
/// inserted one: two inserts at the end of a word put their characters
/// after it in reverse order.
pub proof fn law_inserts_keep_cursor(word: Seq<char>, p: char, q: char)
    requires
        word.len() > 0,
    ensures
        apply_patch(word, seq!['I', p, 'I', q]) == word.push(q).push(p),
{
    reveal_with_fuel(patch_from, 3);
    let d = seq!['I', p, 'I', q];
    assert(d.skip(2) =~= seq!['I', q]);
    assert(d.skip(2).skip(2) =~= Seq::<char>::empty());
    assert(word.insert(word.len() as int, p) =~= word.push(p));
    assert(word.push(p).insert(word.len() as int, q) =~= word.push(q).push(p));
}

/// A replace after an insert acts on the character before the inserted one.
pub proof fn law_replace_after_insert(word: Seq<char>, p: char, q: char)
    requires
        word.len() > 0,
    ensures
        apply_patch(word, seq!['I', p, 'R', q]) == word.update(word.len() - 1, q).push(p),
{
    reveal_with_fuel(patch_from, 3);
    let d = seq!['I', p, 'R', q];
    assert(d.skip(2) =~= seq!['R', q]);
    assert(d.skip(2).skip(2) =~= Seq::<char>::empty());
    assert(word.insert(word.len() as int, p) =~= word.push(p));
    assert(word.push(p).update(word.len() - 1, q) =~= word.update(word.len() - 1, q).push(p));
}

/// A deletion leaves the cursor on the character before the deleted ones:
/// `Dp` then `-a` then `Iq` inserts `q` after the character that is one
/// before the end of what remains.
pub proof fn law_delete_then_insert(word: Seq<char>, p: char, q: char)
    requires
        1 <= param_count(p),
        param_count(p) + 2 <= word.len(),
    ensures
        ({
            let k = word.len() - param_count(p);
            apply_patch(word, seq!['D', p, '-', 'a', 'I', q]) == word.subrange(0, k - 1).push(q).push(
                word[k - 1],
            )
        }),
{
    reveal_with_fuel(patch_from, 4);
    let d = seq!['D', p, '-', 'a', 'I', q];
    let k = word.len() - param_count(p);
    assert(d.skip(2) =~= seq!['-', 'a', 'I', q]);
    assert(d.skip(2).skip(2) =~= seq!['I', q]);
    assert(d.skip(2).skip(2).skip(2) =~= Seq::<char>::empty());
    assert(('a' as u32) == 97);
    let w1 = word.subrange(0, k) + word.subrange(word.len() as int, word.len() as int);
    assert(w1 =~= word.subrange(0, k));
    assert(w1.insert(k - 1, q) =~= word.subrange(0, k - 1).push(q).push(word[k - 1]));
}

/// A last operation without its parameter is ignored.
pub proof fn law_trailing_char_ignored(word: Seq<char>, diff: Seq<char>, x: char)
    requires
        diff.len() % 2 == 0,
    ensures
        apply_patch(word, diff.push(x)) == apply_patch(word, diff),
{
    if word.len() > 0 {
        lemma_patch_from_trailing(word, word.len() - 1, diff, x);
    }
}

proof fn lemma_patch_from_trailing(word: Seq<char>, pos: int, diff: Seq<char>, x: char)
    requires
        diff.len() % 2 == 0,
    ensures
        patch_from(word, pos, diff.push(x)) == patch_from(word, pos, diff),
    decreases diff.len(),
{
    if diff.len() >= 2 {
        assert(diff.push(x).skip(2) =~= diff.skip(2).push(x));
        assert(diff.push(x)[0] == diff[0]);
        assert(diff.push(x)[1] == diff[1]);
        let n = param_count(diff[1]);
        let rest = diff.skip(2);
        if diff[0] == '-' {
            lemma_patch_from_trailing(word, pos - n, rest, x);
        } else if diff[0] == 'R' {
            if 0 <= pos < word.len() {
                lemma_patch_from_trailing(word.update(pos, diff[1]), pos - 1, rest, x);
            } else {
                lemma_patch_from_trailing(word, pos - 1, rest, x);
            }
        } else if diff[0] == 'D' {
            let start = pos - n + 1;
            if 0 <= start <= pos < word.len() {
                lemma_patch_from_trailing(
                    word.subrange(0, start) + word.subrange(pos + 1, word.len() as int),
                    start - 1,
                    rest,
                    x,
                );
            } else {
                lemma_patch_from_trailing(word, pos - 1, rest, x);
            }
        } else if diff[0] == 'I' {
            if 0 <= pos + 1 <= word.len() {
                lemma_patch_from_trailing(word.insert(pos + 1, diff[1]), pos, rest, x);
            } else {
                lemma_patch_from_trailing(word, pos, rest, x);
            }
        } else {
            lemma_patch_from_trailing(word, pos - 1, rest, x);
        }
    }
}

/// Whether every pair of `diff` is `R`, `I`, or `-`/`D` with a count of at
/// least one (a trailing character is ignored).
pub open spec fn plain_ops(diff: Seq<char>) -> bool
    decreases diff.len(),
{
    if diff.len() < 2 {
        true
    } else {
        let op = diff[0];
        (op == 'R' || op == 'I' || ((op == '-' || op == 'D') && 1 <= param_count(diff[1])))
            && plain_ops(diff.skip(2))
    }
}

/// How far back from the end of the word the pairs of `diff` reach: each
/// `R` one character, each `-p` and `Dp` `p - 'a' + 1` characters.
pub open spec fn reach(diff: Seq<char>) -> int
    decreases diff.len(),
{
    if diff.len() < 2 {
        0
    } else {
        let op = diff[0];
        let here: int = if op == 'R' {
            1int
        } else if op == '-' || op == 'D' {
            param_count(diff[1])
        } else {
            0int
        };
        here + reach(diff.skip(2))
    }
}

/// How many characters the `D` pairs of `diff` delete.
pub open spec fn deleted_count(diff: Seq<char>) -> int
    decreases diff.len(),
{
    if diff.len() < 2 {
        0
    } else {
        (if diff[0] == 'D' {
            param_count(diff[1])
        } else {
            0int
        }) + deleted_count(diff.skip(2))
    }
}

/// How many characters the `I` pairs of `diff` insert.
pub open spec fn inserted_count(diff: Seq<char>) -> int
    decreases diff.len(),
{
    if diff.len() < 2 {
        0
    } else {
        (if diff[0] == 'I' {
            1int
        } else {
            0int
        }) + inserted_count(diff.skip(2))
    }
}

proof fn lemma_reach_nonneg(diff: Seq<char>)
    requires
        plain_ops(diff),
    ensures
        reach(diff) >= 0,
    decreases diff.len(),
{
    if diff.len() >= 2 {
        lemma_reach_nonneg(diff.skip(2));
    }
}

proof fn lemma_patch_structure(word: Seq<char>, pos: int, diff: Seq<char>, k: int)
    requires
        plain_ops(diff),
        reach(diff) <= k,
        k - 1 <= pos < word.len(),
    ensures
        patch_from(word, pos, diff).len() == word.len() - deleted_count(diff) + inserted_count(diff),
        patch_from(word, pos, diff).subrange(0, k - reach(diff)) == word.subrange(0, k - reach(diff)),
    decreases diff.len(),
{
    lemma_reach_nonneg(diff);
    if diff.len() >= 2 {
        let op = diff[0];
        let p = diff[1];
        let n = param_count(p);
        let rest = diff.skip(2);
        lemma_reach_nonneg(rest);
        let b = k - reach(diff);
        if op == '-' {
            lemma_patch_structure(word, pos - n, rest, k - n);
        } else if op == 'R' {
            let w2 = word.update(pos, p);
            lemma_patch_structure(w2, pos - 1, rest, k - 1);
            assert(w2.subrange(0, b) =~= word.subrange(0, b));
        } else if op == 'D' {
            let start = pos - n + 1;
            let w2 = word.subrange(0, start) + word.subrange(pos + 1, word.len() as int);
            lemma_patch_structure(w2, start - 1, rest, k - n);
            assert(w2.subrange(0, b) =~= word.subrange(0, b));
        } else {
            let w2 = word.insert(pos + 1, p);
            lemma_patch_structure(w2, pos, rest, k);
            assert(w2.subrange(0, b) =~= word.subrange(0, b));
        }
    } else {
        assert(word.subrange(0, k - reach(diff)) == word.subrange(0, k - reach(diff)));
    }
}

/// A command of plain pairs that reaches no further back than the word's
/// length rewrites only the part of the word it reaches: the first
/// `len - reach` characters stay, and the length changes by the characters
/// inserted less those deleted.
pub proof fn law_patch_rewrites_suffix(word: Seq<char>, diff: Seq<char>)
    requires
        word.len() > 0,
        plain_ops(diff),
        reach(diff) <= word.len(),
    ensures
        apply_patch(word, diff).len() == word.len() - deleted_count(diff) + inserted_count(diff),
        apply_patch(word, diff).subrange(0, word.len() - reach(diff)) == word.subrange(
            0,
            word.len() - reach(diff),
        ),
{
    lemma_patch_structure(word, word.len() - 1, diff, word.len() as int);
}

} // verus!
