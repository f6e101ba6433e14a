//! Writing a stemmer table: the encoding that the table's reader reads back.

use vstd::prelude::*;

use crate::bytes::{
    be_i32, be_u16, char_or_replacement, encode_modified_utf8, is_bmp, is_scalar_value,
    law_read_written_string,
};
use crate::trie::{
    parse_cell, parse_row, parse_rows, parse_strs, parse_table, parse_trie, parse_tries,
    Cell, TableModel, TrieModel,
};

verus! {

/// A 16-bit value in two big-endian bytes.
pub open spec fn write_u16(n: int) -> Seq<u8> {
    seq![(n / 256) as u8, (n % 256) as u8]
}

/// A 32-bit signed value in four big-endian bytes (two's complement).
pub open spec fn write_i32(v: int) -> Seq<u8> {
    let u = if v < 0 {
        v + 0x1_0000_0000
    } else {
        v
    };
    seq![
        (u / 0x100_0000) as u8,
        ((u / 0x1_0000) % 256) as u8,
        ((u / 256) % 256) as u8,
        (u % 256) as u8,
    ]
}

/// Whether `v` fits in an `i32`.
pub open spec fn in_i32(v: int) -> bool {
    -0x8000_0000 <= v < 0x8000_0000
}

/// A string as `DataOutput.writeUTF` writes it: its byte length in two
/// big-endian bytes, then its modified UTF-8.
pub open spec fn write_utf(s: Seq<char>) -> Seq<u8> {
    write_u16(encode_modified_utf8(s).len() as int) + encode_modified_utf8(s)
}

/// Whether `writeUTF` can write `s`: its characters are in the Basic
/// Multilingual Plane and its encoding takes at most 65535 bytes.
pub open spec fn writable_str(s: Seq<char>) -> bool {
    is_bmp(s) && encode_modified_utf8(s).len() <= 0xFFFF
}

/// Strings written one after the other.
#[verifier::opaque]
pub open spec fn write_strs(ss: Seq<Seq<char>>) -> Seq<u8>
    decreases ss.len(),
{
    if ss.len() == 0 {
        Seq::empty()
    } else {
        write_utf(ss[0]) + write_strs(ss.drop_first())
    }
}

/// A cell: its character as a 16-bit code unit, then its four fields.
pub open spec fn write_cell(ch: char, c: Cell) -> Seq<u8> {
    write_u16((ch as u32) as int) + write_i32(c.cmd as int) + write_i32(c.cnt as int) + write_i32(
        c.ref_ as int,
    ) + write_i32(c.skip as int)
}

/// Cells written one after the other.
pub open spec fn write_cells(cells: Seq<(char, Cell)>) -> Seq<u8>
    decreases cells.len(),
{
    if cells.len() == 0 {
        Seq::empty()
    } else {
        write_cell(cells[0].0, cells[0].1) + write_cells(cells.drop_first())
    }
}

/// A row: its cell count, then its cells.
pub open spec fn write_row(cells: Seq<(char, Cell)>) -> Seq<u8> {
    write_i32(cells.len() as int) + write_cells(cells)
}

/// Rows written one after the other.
#[verifier::opaque]
pub open spec fn write_rows(rows: Seq<Seq<(char, Cell)>>) -> Seq<u8>
    decreases rows.len(),
{
    if rows.len() == 0 {
        Seq::empty()
    } else {
        write_row(rows[0]) + write_rows(rows.drop_first())
    }
}

/// Whether a row can be written: fewer than 2^31 cells, each character in
/// the Basic Multilingual Plane.
pub open spec fn writable_row(cells: Seq<(char, Cell)>) -> bool {
    cells.len() < 0x8000_0000 && forall|k: int| 0 <= k < cells.len() ==> (#[trigger] cells[k].0 as u32)
        <= 0xFFFF
}

/// A trie: its forward flag, root, commands and rows.
#[verifier::opaque]
pub open spec fn write_trie(t: TrieModel) -> Seq<u8> {
    seq![if t.forward { 1u8 } else { 0u8 }] + write_i32(t.root) + write_i32(t.cmds.len() as int)
        + write_strs(t.cmds) + write_i32(t.rows.len() as int) + write_rows(t.rows)
}

/// Whether a trie can be written: its numbers fit in an `i32` and its
/// strings and rows can be written.
pub open spec fn writable_trie(t: TrieModel) -> bool {
    &&& in_i32(t.root)
    &&& t.cmds.len() < 0x8000_0000
    &&& t.rows.len() < 0x8000_0000
    &&& forall|i: int| 0 <= i < t.cmds.len() ==> writable_str(#[trigger] t.cmds[i])
    &&& forall|r: int| 0 <= r < t.rows.len() ==> writable_row(#[trigger] t.rows[r])
}

/// Tries written one after the other.
pub open spec fn write_tries(ts: Seq<TrieModel>) -> Seq<u8>
    decreases ts.len(),
{
    if ts.len() == 0 {
        Seq::empty()
    } else {
        write_trie(ts[0]) + write_tries(ts.drop_first())
    }
}

/// A stemmer table with its method string: the method, the forward flag,
/// `by`, the trie count and the tries.
pub open spec fn write_table(m: TableModel, method: Seq<char>) -> Seq<u8> {
    write_utf(method) + seq![if m.forward { 1u8 } else { 0u8 }] + write_i32(m.by) + write_i32(
        m.tries.len() as int,
    ) + write_tries(m.tries)
}

/// Whether a table can be written with a method string.
pub open spec fn writable_table(m: TableModel, method: Seq<char>) -> bool {
    &&& writable_str(method)
    &&& in_i32(m.by)
    &&& m.tries.len() < 0x8000_0000
    &&& forall|i: int| 0 <= i < m.tries.len() ==> writable_trie(#[trigger] m.tries[i])
}

// ---------------------------------------------------------------------------
// Reading back what was written
// ---------------------------------------------------------------------------

proof fn lemma_read_i32(a: Seq<u8>, v: int, b: Seq<u8>)
    requires
        in_i32(v),
    ensures
        be_i32(a + write_i32(v) + b, a.len() as int) == v,
{
    let d = a + write_i32(v) + b;
    let p = a.len() as int;
    let u = if v < 0 {
        v + 0x1_0000_0000
    } else {
        v
    };
    assert(d[p] == write_i32(v)[0]);
    assert(d[p + 1] == write_i32(v)[1]);
    assert(d[p + 2] == write_i32(v)[2]);
    assert(d[p + 3] == write_i32(v)[3]);
    assert((u / 0x100_0000) * 0x100_0000 + ((u / 0x1_0000) % 256) * 0x1_0000 + ((u / 256) % 256)
        * 0x100 + u % 256 == u) by (nonlinear_arith)
        requires
            0 <= u < 0x1_0000_0000,
    ;
}

proof fn lemma_read_cell(a: Seq<u8>, ch: char, c: Cell, b: Seq<u8>)
    requires
        (ch as u32) <= 0xFFFF,
    ensures
        parse_cell(a + write_cell(ch, c) + b, a.len() as int) == (ch, c),
{
    let w = write_cell(ch, c);
    let d = a + w + b;
    let p = a.len() as int;
    let v = (ch as u32) as int;
    assert(w.len() == 18);
    assert(d[p] == w[0]);
    assert(d[p + 1] == w[1]);
    assert(be_u16(d, p) == v);
    vstd::utf8::char_is_scalar(ch);
    vstd::utf8::char_u32_cast(ch, ch as u32);
    assert(is_scalar_value(v));
    assert(char_or_replacement(v) == ch);
    let fields = seq![c.cmd as int, c.cnt as int, c.ref_ as int, c.skip as int];
    assert forall|j: int| 0 <= j < 4 implies be_i32(d, p + 2 + 4 * j) == #[trigger] fields[j] by {
        let pre = a + w.subrange(0, 2 + 4 * j);
        let post = w.subrange(6 + 4 * j, 18) + b;
        assert(w.subrange(2 + 4 * j, 6 + 4 * j) =~= write_i32(fields[j]));
        assert(d =~= pre + write_i32(fields[j]) + post);
        lemma_read_i32(pre, fields[j], post);
    }
    assert(be_i32(d, p + 2) == fields[0]);
    assert(be_i32(d, p + 6) == fields[1]);
    assert(be_i32(d, p + 10) == fields[2]);
    assert(be_i32(d, p + 14) == fields[3]);
}

proof fn lemma_write_cells_len(cells: Seq<(char, Cell)>)
    ensures
        write_cells(cells).len() == 18 * cells.len(),
    decreases cells.len(),
{
    if cells.len() > 0 {
        lemma_write_cells_len(cells.drop_first());
    }
}

proof fn lemma_read_cells(a: Seq<u8>, cells: Seq<(char, Cell)>, b: Seq<u8>, k: int)
    requires
        0 <= k < cells.len(),
        forall|j: int| 0 <= j < cells.len() ==> (#[trigger] cells[j].0 as u32) <= 0xFFFF,
    ensures
        parse_cell(a + write_cells(cells) + b, a.len() + 18 * k) == cells[k],
    decreases k,
{
    let w0 = write_cell(cells[0].0, cells[0].1);
    let rest = cells.drop_first();
    assert(a + write_cells(cells) + b =~= (a + w0) + write_cells(rest) + b);
    if k == 0 {
        assert(a + write_cells(cells) + b =~= a + w0 + (write_cells(rest) + b));
        lemma_read_cell(a, cells[0].0, cells[0].1, write_cells(rest) + b);
    } else {
        assert(rest[k - 1] == cells[k]);
        assert forall|j: int| 0 <= j < rest.len() implies (#[trigger] rest[j].0 as u32) <= 0xFFFF by {
            assert(rest[j] == cells[j + 1]);
        }
        lemma_read_cells(a + w0, rest, b, k - 1);
    }
}

proof fn lemma_read_row(a: Seq<u8>, cells: Seq<(char, Cell)>, b: Seq<u8>)
    requires
        writable_row(cells),
    ensures
        parse_row(a + write_row(cells) + b, a.len() as int) == Some(
            (cells, (a.len() + write_row(cells).len()) as int),
        ),
{
    let d = a + write_row(cells) + b;
    let p = a.len() as int;
    let n = cells.len() as int;
    lemma_write_cells_len(cells);
    assert(d =~= a + write_i32(n) + (write_cells(cells) + b));
    lemma_read_i32(a, n, write_cells(cells) + b);
    assert(d =~= (a + write_i32(n)) + write_cells(cells) + b);
    assert forall|k: int| 0 <= k < n implies #[trigger] parse_cell(d, p + 4 + 18 * k) == cells[k] by {
        lemma_read_cells(a + write_i32(n), cells, b, k);
    }
    assert(Seq::new(n as nat, |k: int| parse_cell(d, p + 4 + 18 * k)) =~= cells);
}

proof fn lemma_read_rows(a: Seq<u8>, rows: Seq<Seq<(char, Cell)>>, b: Seq<u8>)
    requires
        forall|r: int| 0 <= r < rows.len() ==> writable_row(#[trigger] rows[r]),
    ensures
        parse_rows(a + write_rows(rows) + b, a.len() as int, rows.len()) == Some(
            (rows, (a.len() + write_rows(rows).len()) as int),
        ),
    decreases rows.len(),
{
    reveal(write_strs);
    reveal(write_rows);
    if rows.len() == 0 {
        assert(a + write_rows(rows) + b =~= a + b);
    } else {
        let w0 = write_row(rows[0]);
        let rest = rows.drop_first();
        assert(writable_row(rows[0]));
        assert(a + write_rows(rows) + b =~= a + w0 + (write_rows(rest) + b));
        lemma_read_row(a, rows[0], write_rows(rest) + b);
        assert(a + write_rows(rows) + b =~= (a + w0) + write_rows(rest) + b);
        assert forall|r: int| 0 <= r < rest.len() implies writable_row(#[trigger] rest[r]) by {
            assert(rest[r] == rows[r + 1]);
        }
        lemma_read_rows(a + w0, rest, b);
        assert(seq![rows[0]] + rest =~= rows);
    }
}

proof fn lemma_read_strs(a: Seq<u8>, ss: Seq<Seq<char>>, b: Seq<u8>)
    requires
        forall|i: int| 0 <= i < ss.len() ==> writable_str(#[trigger] ss[i]),
    ensures
        parse_strs(a + write_strs(ss) + b, a.len() as int, ss.len()) == Some(
            (ss, (a.len() + write_strs(ss).len()) as int),
        ),
    decreases ss.len(),
{
    reveal(write_strs);
    reveal(write_rows);
    if ss.len() == 0 {
        assert(a + write_strs(ss) + b =~= a + b);
    } else {
        let s0 = ss[0];
        let w0 = write_utf(s0);
        let rest = ss.drop_first();
        assert(writable_str(s0));
        let enc = encode_modified_utf8(s0);
        let n = enc.len() as int;
        assert(write_u16(n) =~= seq![(n / 256) as u8, (n % 256) as u8]);
        assert(a + write_strs(ss) + b =~= a + seq![(n / 256) as u8, (n % 256) as u8] + enc + (
        write_strs(rest) + b));
        law_read_written_string(a, s0, write_strs(rest) + b);
        assert(a + write_strs(ss) + b =~= (a + w0) + write_strs(rest) + b);
        assert forall|i: int| 0 <= i < rest.len() implies writable_str(#[trigger] rest[i]) by {
            assert(rest[i] == ss[i + 1]);
        }
        lemma_read_strs(a + w0, rest, b);
        assert(seq![s0] + rest =~= ss);
    }
}

proof fn lemma_parse_trie_parts(d: Seq<u8>, p: int, t: TrieModel, q: int, r: int)
    requires
        0 <= p,
        p + 9 <= d.len(),
        (d[p] != 0) == t.forward,
        be_i32(d, p + 1) == t.root,
        be_i32(d, p + 5) == t.cmds.len(),
        parse_strs(d, p + 9, t.cmds.len()) == Some((t.cmds, q)),
        q + 4 <= d.len(),
        be_i32(d, q) == t.rows.len(),
        parse_rows(d, (q + 4) as int, t.rows.len()) == Some((t.rows, r)),
    ensures
        parse_trie(d, p) == Some((t, r)),
{
    reveal(parse_trie);
}

proof fn lemma_read_trie_body(d: Seq<u8>, a: Seq<u8>, t: TrieModel, b: Seq<u8>)
    requires
        writable_trie(t),
        d == a + write_strs(t.cmds) + write_i32(t.rows.len() as int) + write_rows(t.rows) + b,
    ensures
        parse_strs(d, a.len() as int, t.cmds.len()) == Some(
            (t.cmds, (a.len() + write_strs(t.cmds).len()) as int),
        ),
        be_i32(d, (a.len() + write_strs(t.cmds).len()) as int) == t.rows.len(),
        parse_rows(d, (a.len() + write_strs(t.cmds).len() + 4) as int, t.rows.len()) == Some(
            (t.rows, (a.len() + write_strs(t.cmds).len() + 4 + write_rows(t.rows).len()) as int),
        ),
{
    let s = write_strs(t.cmds);
    let nr = write_i32(t.rows.len() as int);
    let rw = write_rows(t.rows);
    assert(d =~= a + s + (nr + rw + b));
    lemma_read_strs(a, t.cmds, nr + rw + b);
    assert(d =~= (a + s) + nr + (rw + b));
    lemma_read_i32(a + s, t.rows.len() as int, rw + b);
    assert(d =~= (a + s + nr) + rw + b);
    lemma_read_rows(a + s + nr, t.rows, b);
}

proof fn lemma_read_trie_header(
    d: Seq<u8>,
    a: Seq<u8>,
    f: Seq<u8>,
    rv: int,
    ncv: int,
    s: Seq<u8>,
    nr: Seq<u8>,
    rw: Seq<u8>,
    b: Seq<u8>,
)
    requires
        f.len() == 1,
        in_i32(rv),
        in_i32(ncv),
        d == a + (f + write_i32(rv) + write_i32(ncv) + s + nr + rw) + b,
    ensures
        d[a.len() as int] == f[0],
        be_i32(d, a.len() + 1int) == rv,
        be_i32(d, a.len() + 5int) == ncv,
        d == (a + f + write_i32(rv) + write_i32(ncv)) + s + nr + rw + b,
{
    let root = write_i32(rv);
    let nc = write_i32(ncv);
    assert(d =~= (a + f + root + nc) + s + nr + rw + b);
    assert(d =~= (a + f) + root + (nc + s + nr + rw + b));
    lemma_read_i32(a + f, rv, nc + s + nr + rw + b);
    assert(d =~= (a + f + root) + nc + (s + nr + rw + b));
    lemma_read_i32(a + f + root, ncv, s + nr + rw + b);
}

proof fn lemma_read_trie(a: Seq<u8>, t: TrieModel, b: Seq<u8>)
    requires
        writable_trie(t),
    ensures
        parse_trie(a + write_trie(t) + b, a.len() as int) == Some(
            (t, (a.len() + write_trie(t).len()) as int),
        ),
{
    let f = seq![if t.forward { 1u8 } else { 0u8 }];
    let ncv = t.cmds.len() as int;
    let root = write_i32(t.root);
    let nc = write_i32(ncv);
    let s = write_strs(t.cmds);
    let nr = write_i32(t.rows.len() as int);
    let rw = write_rows(t.rows);
    assert(write_trie(t) == f + root + nc + s + nr + rw) by {
        reveal(write_trie);
    }
    let d = a + write_trie(t) + b;
    let p = a.len() as int;
    let a3 = a + f + root + nc;
    lemma_read_trie_header(d, a, f, t.root, ncv, s, nr, rw, b);
    lemma_read_trie_body(d, a3, t, b);
    lemma_parse_trie_parts(
        d,
        p,
        t,
        (a3.len() + s.len()) as int,
        (a3.len() + s.len() + 4 + rw.len()) as int,
    );
}

proof fn lemma_read_tries(a: Seq<u8>, ts: Seq<TrieModel>, b: Seq<u8>)
    requires
        forall|i: int| 0 <= i < ts.len() ==> writable_trie(#[trigger] ts[i]),
    ensures
        parse_tries(a + write_tries(ts) + b, a.len() as int, ts.len()) == Some(
            (ts, (a.len() + write_tries(ts).len()) as int),
        ),
    decreases ts.len(),
{
    if ts.len() == 0 {
        assert(a + write_tries(ts) + b =~= a + b);
    } else {
        let w0 = write_trie(ts[0]);
        let rest = ts.drop_first();
        assert(writable_trie(ts[0]));
        assert(a + write_tries(ts) + b =~= a + w0 + (write_tries(rest) + b));
        lemma_read_trie(a, ts[0], write_tries(rest) + b);
        assert(a + write_tries(ts) + b =~= (a + w0) + write_tries(rest) + b);
        assert forall|i: int| 0 <= i < rest.len() implies writable_trie(#[trigger] rest[i]) by {
            assert(rest[i] == ts[i + 1]);
        }
        lemma_read_tries(a + w0, rest, b);
        assert(seq![ts[0]] + rest =~= ts);
    }
}

/// A table written with `write_table` reads back as itself, whatever bytes
/// follow it: the reader's layout is exactly the writer's.
pub proof fn law_read_written_table(m: TableModel, method: Seq<char>, rest: Seq<u8>)
    requires
        writable_table(m, method),
    ensures
        parse_table(write_table(m, method) + rest) == Some(m),
{
    let d = write_table(m, method) + rest;
    let enc = encode_modified_utf8(method);
    let n = enc.len() as int;
    let flag = seq![if m.forward { 1u8 } else { 0u8 }];
    let nt = m.tries.len() as int;
    let empty = Seq::<u8>::empty();
    let tail = flag + write_i32(m.by) + write_i32(nt) + write_tries(m.tries) + rest;
    assert(write_u16(n) =~= seq![(n / 256) as u8, (n % 256) as u8]);
    assert(d =~= empty + seq![(n / 256) as u8, (n % 256) as u8] + enc + tail);
    law_read_written_string(empty, method, tail);
    let p = 2 + n;
    let a1 = write_utf(method) + flag;
    let a2 = a1 + write_i32(m.by);
    let a3 = a2 + write_i32(nt);
    assert(d[p] == flag[0]);
    assert(d =~= a1 + write_i32(m.by) + (write_i32(nt) + write_tries(m.tries) + rest));
    lemma_read_i32(a1, m.by, write_i32(nt) + write_tries(m.tries) + rest);
    assert(d =~= a2 + write_i32(nt) + (write_tries(m.tries) + rest));
    lemma_read_i32(a2, nt, write_tries(m.tries) + rest);
    assert(d =~= a3 + write_tries(m.tries) + rest);
    lemma_read_tries(a3, m.tries, rest);
}

} // verus!
