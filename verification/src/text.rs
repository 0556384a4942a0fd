//! Character-level text helpers: building a `String` from a character
//! vector, and the escaping rule used when a header name or value is
//! embedded in the serialized object text.

use vstd::prelude::*;

verus! {

/// Relies on `String: FromIterator<char>`: collecting characters yields a
/// string whose characters are exactly the collected ones, in order.
#[verifier::external_body]
pub fn chars_to_string(v: &Vec<char>) -> (r: String)
    ensures
        r@ == v@,
{
    v.iter().collect()
}

/// Hexadecimal digit (lower case) for a value below sixteen.
pub open spec fn hex_digit(n: u32) -> char {
    if n == 0 {
        '0'
    } else if n == 1 {
        '1'
    } else if n == 2 {
        '2'
    } else if n == 3 {
        '3'
    } else if n == 4 {
        '4'
    } else if n == 5 {
        '5'
    } else if n == 6 {
        '6'
    } else if n == 7 {
        '7'
    } else if n == 8 {
        '8'
    } else if n == 9 {
        '9'
    } else if n == 10 {
        'a'
    } else if n == 11 {
        'b'
    } else if n == 12 {
        'c'
    } else if n == 13 {
        'd'
    } else if n == 14 {
        'e'
    } else {
        'f'
    }
}

fn hex_digit_char(n: u32) -> (r: char)
    requires
        n < 16,
    ensures
        r == hex_digit(n),
{
    if n == 0 {
        '0'
    } else if n == 1 {
        '1'
    } else if n == 2 {
        '2'
    } else if n == 3 {
        '3'
    } else if n == 4 {
        '4'
    } else if n == 5 {
        '5'
    } else if n == 6 {
        '6'
    } else if n == 7 {
        '7'
    } else if n == 8 {
        '8'
    } else if n == 9 {
        '9'
    } else if n == 10 {
        'a'
    } else if n == 11 {
        'b'
    } else if n == 12 {
        'c'
    } else if n == 13 {
        'd'
    } else if n == 14 {
        'e'
    } else {
        'f'
    }
}

/// How one character appears inside a quoted string of the serialized
/// object: quote and backslash are escaped, the common control characters
/// get their short escapes, any other control character a hexadecimal
/// escape, and everything else stands for itself.
pub open spec fn escaped_char(c: char) -> Seq<char> {
    if c == '"' {
        seq!['\\', '"']
    } else if c == '\\' {
        seq!['\\', '\\']
    } else if c == '\u{8}' {
        seq!['\\', 'b']
    } else if c == '\u{c}' {
        seq!['\\', 'f']
    } else if c == '\n' {
        seq!['\\', 'n']
    } else if c == '\r' {
        seq!['\\', 'r']
    } else if c == '\t' {
        seq!['\\', 't']
    } else if (c as u32) < 0x20 {
        seq!['\\', 'u', '0', '0', hex_digit((c as u32) / 16), hex_digit((c as u32) % 16)]
    } else {
        seq![c]
    }
}

/// The escaped form of a whole string.
pub open spec fn escaped(s: Seq<char>) -> Seq<char>
    decreases s.len(),
{
    if s.len() == 0 {
        Seq::empty()
    } else {
        escaped(s.drop_last()) + escaped_char(s.last())
    }
}

/// Appends the escaped form of one character.
fn push_escaped_char(out: &mut Vec<char>, c: char)
    ensures
        final(out)@ == old(out)@ + escaped_char(c),
{
    if c == '"' {
        out.push('\\');
        out.push('"');
    } else if c == '\\' {
        out.push('\\');
        out.push('\\');
    } else if c == '\u{8}' {
        out.push('\\');
        out.push('b');
    } else if c == '\u{c}' {
        out.push('\\');
        out.push('f');
    } else if c == '\n' {
        out.push('\\');
        out.push('n');
    } else if c == '\r' {
        out.push('\\');
        out.push('r');
    } else if c == '\t' {
        out.push('\\');
        out.push('t');
    } else if (c as u32) < 0x20 {
        out.push('\\');
        out.push('u');
        out.push('0');
        out.push('0');
        out.push(hex_digit_char((c as u32) / 16));
        out.push(hex_digit_char((c as u32) % 16));
    } else {
        out.push(c);
    }
    proof {
        assert(out@ =~= old(out)@ + escaped_char(c));
    }
}

/// Relies on `char::from_u32`: `Some` exactly on Unicode scalar values,
/// returning the character with that code.
#[verifier::external_body]
pub(crate) fn char_from_u32(v: u32) -> (r: Option<char>)
    ensures
        r is Some <==> (v < 0xd800 || (0xe000 <= v && v <= 0x10ffff)),
        r matches Some(c) ==> c as u32 == v,
{
    char::from_u32(v)
}

/// A continuation byte of a multi-byte encoded scalar.
pub open spec fn is_cont(c: u8) -> bool {
    0x80 <= c <= 0xbf
}

/// The admissible second byte after the given lead byte: the ranges that
/// exclude overlong encodings, surrogate code points and positions above
/// the last scalar.
pub open spec fn utf8_second_ok(lead: u8, c: u8) -> bool {
    if lead == 0xe0 {
        0xa0 <= c <= 0xbf
    } else if lead == 0xed {
        0x80 <= c <= 0x9f
    } else if lead == 0xf0 {
        0x90 <= c <= 0xbf
    } else if lead == 0xf4 {
        0x80 <= c <= 0x8f
    } else {
        is_cont(c)
    }
}

/// The well-formed encoded scalar at `i`: its byte length and code point;
/// `None` when the bytes at `i` do not begin one.
pub open spec fn utf8_at(b: Seq<u8>, i: int) -> Option<(int, int)> {
    if !(0 <= i < b.len()) {
        None
    } else {
        let b0 = b[i];
        if b0 < 0x80 {
            Some((1, b0 as int))
        } else if 0xc2 <= b0 <= 0xdf {
            if i + 2 <= b.len() && is_cont(b[i + 1]) {
                Some((2, (b0 - 0xc0) * 0x40 + (b[i + 1] - 0x80)))
            } else {
                None
            }
        } else if 0xe0 <= b0 <= 0xef {
            if i + 3 <= b.len() && utf8_second_ok(b0, b[i + 1]) && is_cont(b[i + 2]) {
                Some((3, (b0 - 0xe0) * 0x1000 + (b[i + 1] - 0x80) * 0x40 + (b[i + 2] - 0x80)))
            } else {
                None
            }
        } else if 0xf0 <= b0 <= 0xf4 {
            if i + 4 <= b.len() && utf8_second_ok(b0, b[i + 1]) && is_cont(b[i + 2]) && is_cont(
                b[i + 3],
            ) {
                Some(
                    (
                        4,
                        (b0 - 0xf0) * 0x40000 + (b[i + 1] - 0x80) * 0x1000 + (b[i + 2] - 0x80)
                            * 0x40 + (b[i + 3] - 0x80),
                    ),
                )
            } else {
                None
            }
        } else {
            None
        }
    }
}

pub proof fn lemma_utf8_at(b: Seq<u8>, i: int)
    ensures
        match utf8_at(b, i) {
            Some((l, cp)) => 1 <= l <= 4 && 0 <= i && i + l <= b.len() && 0 <= cp <= 0x10ffff
                && !(0xd800 <= cp <= 0xdfff),
            None => true,
        },
{
}

/// Reads the well-formed encoded scalar at `i` as a character.
pub(crate) fn utf8_read(b: &Vec<u8>, i: usize) -> (r: Option<(char, usize)>)
    requires
        i <= b@.len(),
    ensures
        match (r, utf8_at(b@, i as int)) {
            (Some((c, l)), Some((sl, cp))) => c as u32 == cp as u32 && l as int == sl && 1 <= l
                <= 4 && i + l <= b@.len(),
            (None, None) => true,
            _ => false,
        },
{
    if i >= b.len() {
        return None;
    }
    let b0 = b[i];
    let cpl: Option<(u32, usize)> = if b0 < 0x80 {
        Some((b0 as u32, 1))
    } else if 0xc2 <= b0 && b0 <= 0xdf {
        if b.len() - i >= 2 && is_cont_exec(b[i + 1]) {
            Some((((b0 - 0xc0) as u32) * 0x40 + ((b[i + 1] - 0x80) as u32), 2))
        } else {
            None
        }
    } else if 0xe0 <= b0 && b0 <= 0xef {
        if b.len() - i >= 3 && second_ok_exec(b0, b[i + 1]) && is_cont_exec(b[i + 2]) {
            Some(
                (
                    ((b0 - 0xe0) as u32) * 0x1000 + ((b[i + 1] - 0x80) as u32) * 0x40 + ((b[i + 2]
                        - 0x80) as u32),
                    3,
                ),
            )
        } else {
            None
        }
    } else if 0xf0 <= b0 && b0 <= 0xf4 {
        if b.len() - i >= 4 && second_ok_exec(b0, b[i + 1]) && is_cont_exec(b[i + 2])
            && is_cont_exec(b[i + 3]) {
            Some(
                (
                    ((b0 - 0xf0) as u32) * 0x40000 + ((b[i + 1] - 0x80) as u32) * 0x1000 + ((b[i
                        + 2] - 0x80) as u32) * 0x40 + ((b[i + 3] - 0x80) as u32),
                    4,
                ),
            )
        } else {
            None
        }
    } else {
        None
    };
    match cpl {
        None => None,
        Some((cp, l)) => match char_from_u32(cp) {
            Some(c) => Some((c, l)),
            None => {
                proof {
                    assert(false);
                }
                None
            },
        },
    }
}

fn is_cont_exec(c: u8) -> (r: bool)
    ensures
        r == is_cont(c),
{
    0x80 <= c && c <= 0xbf
}

fn second_ok_exec(lead: u8, c: u8) -> (r: bool)
    ensures
        r == utf8_second_ok(lead, c),
{
    if lead == 0xe0 {
        0xa0 <= c && c <= 0xbf
    } else if lead == 0xed {
        0x80 <= c && c <= 0x9f
    } else if lead == 0xf0 {
        0x90 <= c && c <= 0xbf
    } else if lead == 0xf4 {
        0x80 <= c && c <= 0x8f
    } else {
        is_cont_exec(c)
    }
}

/// The length of the maximal subpart of an ill-formed sequence at `i`: the
/// bytes stood for by one replacement character.
pub open spec fn utf8_error_len(b: Seq<u8>, i: int) -> int
    recommends
        0 <= i < b.len(),
        utf8_at(b, i) is None,
{
    let b0 = b[i];
    if 0xe0 <= b0 <= 0xef {
        if i + 2 <= b.len() && utf8_second_ok(b0, b[i + 1]) {
            2
        } else {
            1
        }
    } else if 0xf0 <= b0 <= 0xf4 {
        if i + 2 <= b.len() && utf8_second_ok(b0, b[i + 1]) {
            if i + 3 <= b.len() && is_cont(b[i + 2]) {
                3
            } else {
                2
            }
        } else {
            1
        }
    } else {
        1
    }
}

fn utf8_error_len_exec(b: &Vec<u8>, i: usize) -> (r: usize)
    requires
        i < b@.len(),
    ensures
        r as int == utf8_error_len(b@, i as int),
        1 <= r,
        i + r <= b@.len(),
{
    let b0 = b[i];
    if 0xe0 <= b0 && b0 <= 0xef {
        if b.len() - i >= 2 && second_ok_exec(b0, b[i + 1]) {
            2
        } else {
            1
        }
    } else if 0xf0 <= b0 && b0 <= 0xf4 {
        if b.len() - i >= 2 && second_ok_exec(b0, b[i + 1]) {
            if b.len() - i >= 3 && is_cont_exec(b[i + 2]) {
                3
            } else {
                2
            }
        } else {
            1
        }
    } else {
        1
    }
}

/// The text that stands for the bytes when they are read as encoded text:
/// well-formed scalars decode, and every maximal ill-formed subpart is one
/// replacement character.
pub open spec fn utf8_lossy(b: Seq<u8>, i: int) -> Seq<char>
    decreases b.len() - i,
    via utf8_lossy_decreases
{
    if !(0 <= i < b.len()) {
        Seq::empty()
    } else {
        match utf8_at(b, i) {
            Some((l, cp)) => seq![((cp as u32) as char)] + utf8_lossy(b, i + l),
            None => seq!['\u{fffd}'] + utf8_lossy(b, i + utf8_error_len(b, i)),
        }
    }
}

#[via_fn]
proof fn utf8_lossy_decreases(b: Seq<u8>, i: int) {
    if 0 <= i < b.len() {
        lemma_utf8_at(b, i);
        if utf8_at(b, i) is None {
            assert(1 <= utf8_error_len(b, i) && i + utf8_error_len(b, i) <= b.len());
        }
    }
}

/// Decodes bytes to text, with one replacement character for each maximal
/// ill-formed subpart.
pub fn utf8_lossy_text(b: &Vec<u8>) -> (r: String)
    ensures
        r@ == utf8_lossy(b@, 0),
{
    let mut out: Vec<char> = Vec::new();
    let mut i: usize = 0;
    while i < b.len()
        invariant
            i <= b@.len(),
            utf8_lossy(b@, 0) == out@ + utf8_lossy(b@, i as int),
        decreases b@.len() - i,
    {
        let ghost i0 = i as int;
        match utf8_read(b, i) {
            Some((c, l)) => {
                let ghost a0 = out@;
                out.push(c);
                proof {
                    if let Some((sl, cp)) = utf8_at(b@, i0) {
                        vstd::utf8::char_u32_cast(c, (cp as u32));
                        assert(a0 + (seq![((cp as u32) as char)] + utf8_lossy(b@, i0 + sl)) =~= out@
                            + utf8_lossy(b@, i0 + sl));
                    }
                }
                i += l;
            },
            None => {
                let l = utf8_error_len_exec(b, i);
                let ghost a0 = out@;
                out.push('\u{fffd}');
                proof {
                    assert(a0 + (seq!['\u{fffd}'] + utf8_lossy(b@, i0 + l)) =~= out@ + utf8_lossy(
                        b@,
                        i0 + l,
                    ));
                }
                i += l;
            },
        }
    }
    proof {
        assert(out@ + utf8_lossy(b@, i as int) =~= out@);
    }
    chars_to_string(&out)
}

/// Appends the escaped form of a whole string.
pub fn push_escaped(out: &mut Vec<char>, s: &str)
    ensures
        final(out)@ == old(out)@ + escaped(s@),
{
    let n = s.unicode_len();
    let mut i: usize = 0;
    while i < n
        invariant
            i <= n,
            n == s@.len(),
            out@ == old(out)@ + escaped(s@.take(i as int)),
        decreases n - i,
    {
        let c = s.get_char(i);
        push_escaped_char(out, c);
        proof {
            assert(s@.take(i + 1).drop_last() =~= s@.take(i as int));
            assert(s@.take(i + 1).last() == c);
            assert(out@ =~= old(out)@ + escaped(s@.take(i + 1)));
        }
        i += 1;
    }
    proof {
        assert(s@.take(n as int) =~= s@);
    }
}

} // verus!
