//! Reading the primitive values of the stemmer table: big-endian integers,
//! Java `char`s and Java modified UTF-8 strings (the `DataInput` encodings).

use vstd::prelude::*;

verus! {

/// The character that stands for a code unit that is no Unicode scalar value.
pub const REPLACEMENT_CHAR: char = '\u{FFFD}';

/// The unsigned big-endian 16-bit value of `d[p..p + 2]`.
pub open spec fn be_u16(d: Seq<u8>, p: int) -> int {
    d[p] * 0x100 + d[p + 1]
}

/// The signed (two's complement) big-endian 32-bit value of `d[p..p + 4]`.
pub open spec fn be_i32(d: Seq<u8>, p: int) -> int {
    let u = d[p] * 0x100_0000 + d[p + 1] * 0x1_0000 + d[p + 2] * 0x100 + d[p + 3];
    if u >= 0x8000_0000 {
        u - 0x1_0000_0000
    } else {
        u
    }
}

/// Whether `code` is a Unicode scalar value, that is a valid `char`.
pub open spec fn is_scalar_value(code: int) -> bool {
    (0 <= code < 0xD800) || (0xE000 <= code <= 0x10FFFF)
}

/// The character of a code point, with U+FFFD standing for what is no scalar value.
pub open spec fn char_or_replacement(code: int) -> char {
    if is_scalar_value(code) {
        code as char
    } else {
        REPLACEMENT_CHAR
    }
}

/// Java modified UTF-8, decoded as `DataInput.readUTF` reads it, leniently:
/// a one-byte unit is the character itself, a two- or three-byte unit is
/// decoded from its payload bits (a surrogate code unit becomes U+FFFD), a
/// continuation byte or a byte of four or more leading ones is skipped, and a
/// multi-byte unit cut off by the end of the data ends the decoding.
pub open spec fn decode_modified_utf8(b: Seq<u8>) -> Seq<char>
    decreases b.len(),
{
    if b.len() == 0 {
        Seq::empty()
    } else if b[0] < 0x80 {
        seq![b[0] as char] + decode_modified_utf8(b.drop_first())
    } else if 0xC0 <= b[0] < 0xE0 {
        if b.len() >= 2 {
            seq![char_or_replacement((b[0] - 0xC0) * 64 + b[1] % 64)] + decode_modified_utf8(
                b.skip(2),
            )
        } else {
            Seq::empty()
        }
    } else if 0xE0 <= b[0] < 0xF0 {
        if b.len() >= 3 {
            seq![
                char_or_replacement((b[0] - 0xE0) * 4096 + (b[1] % 64) * 64 + b[2] % 64),
            ] + decode_modified_utf8(b.skip(3))
        } else {
            Seq::empty()
        }
    } else {
        decode_modified_utf8(b.drop_first())
    }
}

/// A string as `DataInput.readUTF` stores it at `p`: a big-endian 16-bit byte
/// length, then that many bytes of modified UTF-8. Gives the decoded
/// characters and the position just after the string, or `None` where the
/// data ends before the string does.
pub open spec fn parse_utf(d: Seq<u8>, p: int) -> Option<(Seq<char>, int)> {
    if p < 0 || p + 2 > d.len() {
        None
    } else {
        let n = be_u16(d, p);
        if p + 2 + n > d.len() {
            None
        } else {
            Some((decode_modified_utf8(d.subrange(p + 2, p + 2 + n)), p + 2 + n))
        }
    }
}

/// `char::from_u32`: the character with the code point `code`, where `code`
/// is a Unicode scalar value.
#[verifier::external_body]
fn char_from_u32(code: u32) -> (r: Option<char>)
    ensures
        r == (if is_scalar_value(code as int) {
            Some(code as char)
        } else {
            None
        }),
{
    char::from_u32(code)
}

/// The character of a code point, or U+FFFD where it is no scalar value.
fn char_or_fffd(code: u32) -> (c: char)
    ensures
        c == char_or_replacement(code as int),
{
    match char_from_u32(code) {
        Some(c) => c,
        None => REPLACEMENT_CHAR,
    }
}

/// Reads a big-endian `i32` at `pos`.
pub fn read_i32(data: &[u8], pos: usize) -> (v: i32)
    requires
        pos + 4 <= data@.len(),
    ensures
        v as int == be_i32(data@, pos as int),
{
    let u: u64 = (data[pos] as u64) * 0x100_0000 + (data[pos + 1] as u64) * 0x1_0000 + (data[pos
        + 2] as u64) * 0x100 + (data[pos + 3] as u64);
    if u >= 0x8000_0000 {
        let s: i64 = (u as i64) - 0x1_0000_0000;
        s as i32
    } else {
        u as i32
    }
}

/// Reads a big-endian unsigned 16-bit value at `pos`.
fn read_u16(data: &[u8], pos: usize) -> (v: u16)
    requires
        pos + 2 <= data@.len(),
    ensures
        v as int == be_u16(data@, pos as int),
{
    (data[pos] as u16) * 0x100 + (data[pos + 1] as u16)
}

/// Reads a big-endian Java `char` (a UTF-16 code unit) at `pos`; a surrogate
/// code unit, which is no `char` of its own, gives U+FFFD.
pub fn read_char(data: &[u8], pos: usize) -> (c: char)
    requires
        pos + 2 <= data@.len(),
    ensures
        c == char_or_replacement(be_u16(data@, pos as int)),
{
    let code = read_u16(data, pos);
    char_or_fffd(code as u32)
}

/// Reads a Java modified UTF-8 string (`DataInput.readUTF`) at `pos`.
/// Returns the characters and the number of bytes taken, the length prefix
/// included, or `None` where the data ends before the string does.
pub fn read_utf(data: &[u8], pos: usize) -> (r: Option<(Vec<char>, usize)>)
    ensures
        match parse_utf(data@, pos as int) {
            Some((s, next)) => r matches Some((chars, consumed)) && chars@ == s && pos + consumed
                == next,
            None => r is None,
        },
{
    if pos > data.len() || data.len() - pos < 2 {
        return None;
    }
    let len = read_u16(data, pos) as usize;
    let start = pos + 2;
    if data.len() - start < len {
        return None;
    }
    let end = start + len;
    let ghost b = data@.subrange(start as int, end as int);
    let mut chars: Vec<char> = Vec::new();
    let mut i = start;
    assert(b.skip(0) =~= b);
    while i < end
        invariant
            start <= i <= end,
            end <= data@.len(),
            b == data@.subrange(start as int, end as int),
            decode_modified_utf8(b) == chars@ + decode_modified_utf8(b.skip(i - start)),
        decreases end - i,
    {
        let ghost rest = b.skip(i - start);
        assert(rest[0] == data@[i as int]);
        let b1 = data[i];
        if b1 < 0x80 {
            chars.push(b1 as char);
            assert(rest.drop_first() =~= b.skip(i + 1 - start));
            i += 1;
        } else if 0xC0 <= b1 && b1 < 0xE0 {
            if end - i >= 2 {
                assert(rest[1] == data@[i + 1]);
                let b2 = data[i + 1];
                let code: u32 = ((b1 - 0xC0) as u32) * 64 + (b2 % 64) as u32;
                chars.push(char_or_fffd(code));
                assert(rest.skip(2) =~= b.skip(i + 2 - start));
                i += 2;
            } else {
                // a unit cut off by the end of the string ends it
                assert(decode_modified_utf8(rest) =~= Seq::<char>::empty());
                assert(chars@ + Seq::<char>::empty() =~= chars@);
                i = end;
            }
        } else if 0xE0 <= b1 && b1 < 0xF0 {
            if end - i >= 3 {
                assert(rest[1] == data@[i + 1]);
                assert(rest[2] == data@[i + 2]);
                let b2 = data[i + 1];
                let b3 = data[i + 2];
                let code: u32 = ((b1 - 0xE0) as u32) * 4096 + ((b2 % 64) as u32) * 64 + (b3
                    % 64) as u32;
                chars.push(char_or_fffd(code));
                assert(rest.skip(3) =~= b.skip(i + 3 - start));
                i += 3;
            } else {
                assert(decode_modified_utf8(rest) =~= Seq::<char>::empty());
                assert(chars@ + Seq::<char>::empty() =~= chars@);
                i = end;
            }
        } else {
            assert(rest.drop_first() =~= b.skip(i + 1 - start));
            i += 1;
        }
    }
    assert(b.skip(i - start) =~= Seq::<u8>::empty());
    assert(chars@ + Seq::<char>::empty() =~= chars@);
    Some((chars, len + 2))
}

/// Modified UTF-8 of ASCII bytes is those bytes, each as a character.
pub proof fn law_ascii_decodes_to_itself(b: Seq<u8>)
    requires
        forall|i: int| 0 <= i < b.len() ==> b[i] < 0x80,
    ensures
        decode_modified_utf8(b) == b.map_values(|x: u8| x as char),
    decreases b.len(),
{
    if b.len() > 0 {
        law_ascii_decodes_to_itself(b.drop_first());
        assert(b.map_values(|x: u8| x as char) =~= seq![b[0] as char] + b.drop_first().map_values(
            |x: u8| x as char,
        ));
    } else {
        assert(b.map_values(|x: u8| x as char) =~= Seq::<char>::empty());
    }
}

/// What follows a string does not change how it reads.
pub proof fn lemma_parse_utf_extend(d: Seq<u8>, e: Seq<u8>, p: int)
    requires
        parse_utf(d, p) is Some,
    ensures
        parse_utf(d + e, p) == parse_utf(d, p),
{
    let n = be_u16(d, p);
    assert((d + e)[p] == d[p]);
    assert((d + e)[p + 1] == d[p + 1]);
    assert((d + e).subrange(p + 2, p + 2 + n) =~= d.subrange(p + 2, p + 2 + n));
}

/// The Java modified UTF-8 bytes of a character of the Basic Multilingual
/// Plane (`DataOutput.writeUTF`): one byte for U+0001..U+007F, two for
/// U+0000 and up to U+07FF, three above.
pub open spec fn encode_java_char(c: char) -> Seq<u8> {
    let v = (c as u32) as int;
    if 1 <= v <= 0x7F {
        seq![v as u8]
    } else if v <= 0x7FF {
        seq![(0xC0 + v / 64) as u8, (0x80 + v % 64) as u8]
    } else {
        seq![(0xE0 + v / 4096) as u8, (0x80 + (v / 64) % 64) as u8, (0x80 + v % 64) as u8]
    }
}

/// The Java modified UTF-8 bytes of a string, without the length prefix.
pub open spec fn encode_modified_utf8(s: Seq<char>) -> Seq<u8>
    decreases s.len(),
{
    if s.len() == 0 {
        Seq::empty()
    } else {
        encode_java_char(s[0]) + encode_modified_utf8(s.drop_first())
    }
}

/// Whether every character of `s` is in the Basic Multilingual Plane, the
/// characters that modified UTF-8 stores in at most three bytes.
pub open spec fn is_bmp(s: Seq<char>) -> bool {
    forall|i: int| 0 <= i < s.len() ==> (s[i] as u32) <= 0xFFFF
}

proof fn lemma_decode_char(c: char, rest: Seq<u8>)
    requires
        (c as u32) <= 0xFFFF,
    ensures
        decode_modified_utf8(encode_java_char(c) + rest) == seq![c] + decode_modified_utf8(rest),
{
    vstd::utf8::char_is_scalar(c);
    vstd::utf8::char_u32_cast(c, c as u32);
    let u = c as u32;
    let v = u as int;
    let b = encode_java_char(c) + rest;
    if 1 <= v <= 0x7F {
        assert(b[0] == u as u8);
        assert(b.drop_first() =~= rest);
        assert((u as u8) as char == c);
    } else if v <= 0x7FF {
        assert(b[0] == (0xC0 + v / 64) as u8);
        assert(b[1] == (0x80 + v % 64) as u8);
        assert(b.skip(2) =~= rest);
        assert((b[0] - 0xC0) * 64 + b[1] % 64 == v);
        assert(is_scalar_value(v));
        assert(v as char == c);
    } else {
        assert(b[0] == (0xE0 + v / 4096) as u8);
        assert(b[1] == (0x80 + (v / 64) % 64) as u8);
        assert(b[2] == (0x80 + v % 64) as u8);
        assert(b.skip(3) =~= rest);
        assert((b[0] - 0xE0) * 4096 + (b[1] % 64) * 64 + b[2] % 64 == v);
        assert(is_scalar_value(v));
        assert(v as char == c);
    }
}

/// Decoding what encoding gives returns the string: modified UTF-8 round
/// trip for strings of the Basic Multilingual Plane.
pub proof fn law_modified_utf8_round_trip(s: Seq<char>)
    requires
        is_bmp(s),
    ensures
        decode_modified_utf8(encode_modified_utf8(s)) == s,
    decreases s.len(),
{
    if s.len() == 0 {
    } else {
        assert(is_bmp(s.drop_first()));
        law_modified_utf8_round_trip(s.drop_first());
        lemma_decode_char(s[0], encode_modified_utf8(s.drop_first()));
        assert(seq![s[0]] + s.drop_first() =~= s);
    }
}

/// A string written with `writeUTF` (its byte length in two big-endian
/// bytes, then its modified UTF-8) at position `p` reads back as the string,
/// the position after it being `p + 2` plus the length.
pub proof fn law_read_written_string(before: Seq<u8>, s: Seq<char>, after: Seq<u8>)
    requires
        is_bmp(s),
        encode_modified_utf8(s).len() <= 0xFFFF,
    ensures
        ({
            let enc = encode_modified_utf8(s);
            let n = enc.len() as int;
            let data = before + seq![(n / 256) as u8, (n % 256) as u8] + enc + after;
            parse_utf(data, before.len() as int) == Some((s, before.len() + 2 + n))
        }),
{
    let enc = encode_modified_utf8(s);
    let n = enc.len() as int;
    let data = before + seq![(n / 256) as u8, (n % 256) as u8] + enc + after;
    let p = before.len() as int;
    assert(data[p] == (n / 256) as u8);
    assert(data[p + 1] == (n % 256) as u8);
    assert(be_u16(data, p) == n);
    assert(data.subrange(p + 2, p + 2 + n) =~= enc);
    law_modified_utf8_round_trip(s);
}

} // verus!
