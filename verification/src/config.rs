//! Configuration of the interceptor: the list of sensitive header names,
//! and the parser that reads it from raw configuration bytes.
//!
//! The configuration is one object in conventional object-notation text:
//! its recognized field, named `header`, holds the array of sensitive
//! header names; every other field is ignored, its value only checked for
//! well-formedness. Strings that are read decode the backslash escapes,
//! hexadecimal escapes with surrogate pairs, and multi-byte encoded text;
//! a missing or repeated `header` field is a parse error.

use vstd::prelude::*;

use crate::mask::name_views;
use crate::text::char_from_u32;
use crate::text::chars_to_string;
use crate::text::lemma_utf8_at;
use crate::text::utf8_at;
use crate::text::utf8_lossy;
use crate::text::utf8_lossy_text;
use crate::text::utf8_read;

verus! {

/// The interceptor's configuration: the names of the headers whose values
/// must be masked in log output.
#[derive(Clone, Debug)]
pub struct Config {
    /// Header names treated as sensitive; matching is exact and
    /// case-sensitive.
    pub header: Vec<String>,
}

/// Whitespace between tokens of the configuration text.
pub open spec fn is_ws(c: u8) -> bool {
    c == 0x20 || c == 0x09 || c == 0x0a || c == 0x0d
}

/// The first position at or after `i` that does not hold whitespace.
pub open spec fn spec_skip_ws(b: Seq<u8>, i: int) -> int
    decreases b.len() - i,
{
    if 0 <= i < b.len() && is_ws(b[i]) {
        spec_skip_ws(b, i + 1)
    } else {
        i
    }
}

pub proof fn lemma_skip_ws(b: Seq<u8>, i: int)
    requires
        0 <= i <= b.len(),
    ensures
        i <= spec_skip_ws(b, i) <= b.len(),
        spec_skip_ws(b, i) < b.len() ==> !is_ws(b[spec_skip_ws(b, i)]),
    decreases b.len() - i,
{
    if i < b.len() && is_ws(b[i]) {
        lemma_skip_ws(b, i + 1);
    }
}

/// The character stood for by a backslash escape code, if the code is
/// recognized.
pub open spec fn escape_code(e: u8) -> Option<char> {
    if e == 0x22 {
        Some('"')
    } else if e == 0x5c {
        Some('\\')
    } else if e == 0x2f {
        Some('/')
    } else if e == 0x62 {
        Some('\u{8}')
    } else if e == 0x66 {
        Some('\u{c}')
    } else if e == 0x6e {
        Some('\n')
    } else if e == 0x72 {
        Some('\r')
    } else if e == 0x74 {
        Some('\t')
    } else {
        None
    }
}

/// A decimal digit.
pub open spec fn is_digit(c: u8) -> bool {
    0x30 <= c <= 0x39
}

/// A hexadecimal digit.
pub open spec fn is_hex_digit(c: u8) -> bool {
    (0x30 <= c <= 0x39) || (0x41 <= c <= 0x46) || (0x61 <= c <= 0x66)
}

/// The value of a hexadecimal digit.
pub open spec fn hex_val(c: u8) -> int
    recommends
        is_hex_digit(c),
{
    if 0x30 <= c <= 0x39 {
        c - 0x30
    } else if 0x41 <= c <= 0x46 {
        c - 0x41 + 10
    } else {
        c - 0x61 + 10
    }
}

/// Whether four hexadecimal digits stand at `i`.
pub open spec fn hex4_at(b: Seq<u8>, i: int) -> bool {
    0 <= i && i + 4 <= b.len() && is_hex_digit(b[i]) && is_hex_digit(b[i + 1]) && is_hex_digit(
        b[i + 2],
    ) && is_hex_digit(b[i + 3])
}

/// The value of the four hexadecimal digits at `i`.
pub open spec fn hex4_val(b: Seq<u8>, i: int) -> u32
    recommends
        hex4_at(b, i),
{
    (hex_val(b[i]) * 0x1000 + hex_val(b[i + 1]) * 0x100 + hex_val(b[i + 2]) * 0x10 + hex_val(
        b[i + 3],
    )) as u32
}

/// Parses the rest of a quoted string from just after the opening quote to
/// just after the closing quote, decoding it: the single-character
/// backslash escapes, hexadecimal escapes (a surrogate pair standing for
/// one character, a stray surrogate rejected), and well-formed multi-byte
/// encoded text; unescaped control bytes, ill-formed byte sequences and
/// unterminated strings are rejected.
pub open spec fn spec_string_body(b: Seq<u8>, i: int) -> Option<(Seq<char>, int)>
    decreases b.len() - i,
    via spec_string_body_decreases
{
    if !(0 <= i < b.len()) {
        None
    } else if b[i] == 0x22 {
        Some((Seq::empty(), i + 1))
    } else if b[i] == 0x5c {
        if i + 1 >= b.len() {
            None
        } else if b[i + 1] == 0x75 {
            if !hex4_at(b, i + 2) {
                None
            } else {
                let n1 = hex4_val(b, i + 2);
                if 0xdc00 <= n1 <= 0xdfff {
                    None
                } else if 0xd800 <= n1 <= 0xdbff {
                    if i + 8 <= b.len() && b[i + 6] == 0x5c && b[i + 7] == 0x75 && hex4_at(
                        b,
                        i + 8,
                    ) {
                        let n2 = hex4_val(b, i + 8);
                        if 0xdc00 <= n2 <= 0xdfff {
                            let cp = 0x10000 + (n1 - 0xd800) * 0x400 + (n2 - 0xdc00);
                            match spec_string_body(b, i + 12) {
                                None => None,
                                Some((s, j)) => Some((seq![((cp as u32) as char)] + s, j)),
                            }
                        } else {
                            None
                        }
                    } else {
                        None
                    }
                } else {
                    match spec_string_body(b, i + 6) {
                        None => None,
                        Some((s, j)) => Some((seq![(n1 as char)] + s, j)),
                    }
                }
            }
        } else {
            match escape_code(b[i + 1]) {
                None => None,
                Some(c) => match spec_string_body(b, i + 2) {
                    None => None,
                    Some((s, j)) => Some((seq![c] + s, j)),
                },
            }
        }
    } else if b[i] < 0x20 {
        None
    } else if b[i] < 0x80 {
        match spec_string_body(b, i + 1) {
            None => None,
            Some((s, j)) => Some((seq![(b[i] as char)] + s, j)),
        }
    } else {
        match utf8_at(b, i) {
            None => None,
            Some((l, cp)) => match spec_string_body(b, i + l) {
                None => None,
                Some((s, j)) => Some((seq![((cp as u32) as char)] + s, j)),
            },
        }
    }
}

#[via_fn]
proof fn spec_string_body_decreases(b: Seq<u8>, i: int) {
    if 0 <= i < b.len() {
        lemma_utf8_at(b, i);
    }
}

pub proof fn lemma_string_body_bounds(b: Seq<u8>, i: int)
    ensures
        match spec_string_body(b, i) {
            Some((s, j)) => i < j <= b.len(),
            None => true,
        },
    decreases b.len() - i,
{
    if 0 <= i < b.len() {
        lemma_utf8_at(b, i);
        if i + 1 <= b.len() {
            lemma_string_body_bounds(b, i + 1);
        }
        if i + 2 <= b.len() {
            lemma_string_body_bounds(b, i + 2);
        }
        if i + 3 <= b.len() {
            lemma_string_body_bounds(b, i + 3);
        }
        if i + 4 <= b.len() {
            lemma_string_body_bounds(b, i + 4);
        }
        if i + 6 <= b.len() {
            lemma_string_body_bounds(b, i + 6);
        }
        if i + 12 <= b.len() {
            lemma_string_body_bounds(b, i + 12);
        }
    }
}

/// The first position at or after `i` that does not hold a digit.
pub open spec fn spec_digits_end(b: Seq<u8>, i: int) -> int
    decreases b.len() - i,
{
    if 0 <= i < b.len() && is_digit(b[i]) {
        spec_digits_end(b, i + 1)
    } else {
        i
    }
}

pub proof fn lemma_digits_end(b: Seq<u8>, i: int)
    requires
        0 <= i <= b.len(),
    ensures
        i <= spec_digits_end(b, i) <= b.len(),
    decreases b.len() - i,
{
    if i < b.len() && is_digit(b[i]) {
        lemma_digits_end(b, i + 1);
    }
}

/// The position just after the number that starts at `i`: an optional
/// minus, an integer part without a stray leading zero, an optional
/// fraction with at least one digit, an optional exponent with an optional
/// sign and at least one digit.
pub open spec fn spec_number_end(b: Seq<u8>, i: int) -> Option<int> {
    let s = if 0 <= i < b.len() && b[i] == 0x2d {
        i + 1
    } else {
        i
    };
    if !(0 <= s < b.len() && is_digit(b[s])) {
        None
    } else {
        let ie = if b[s] == 0x30 {
            s + 1
        } else {
            spec_digits_end(b, s)
        };
        if b[s] == 0x30 && ie < b.len() && is_digit(b[ie]) {
            None
        } else {
            let fe_opt = if ie < b.len() && b[ie] == 0x2e {
                if ie + 1 < b.len() && is_digit(b[ie + 1]) {
                    Some(spec_digits_end(b, ie + 1))
                } else {
                    None::<int>
                }
            } else {
                Some(ie)
            };
            match fe_opt {
                None => None,
                Some(fe) => {
                    if fe < b.len() && (b[fe] == 0x65 || b[fe] == 0x45) {
                        let sg = if fe + 1 < b.len() && (b[fe + 1] == 0x2b || b[fe + 1] == 0x2d) {
                            fe + 2
                        } else {
                            fe + 1
                        };
                        if sg < b.len() && is_digit(b[sg]) {
                            Some(spec_digits_end(b, sg))
                        } else {
                            None
                        }
                    } else {
                        Some(fe)
                    }
                },
            }
        }
    }
}

pub proof fn lemma_number_bounds(b: Seq<u8>, i: int)
    requires
        0 <= i <= b.len(),
    ensures
        match spec_number_end(b, i) {
            Some(r) => i < r <= b.len(),
            None => true,
        },
{
    let s = if i < b.len() && b[i] == 0x2d {
        i + 1
    } else {
        i
    };
    if 0 <= s < b.len() && is_digit(b[s]) {
        lemma_digits_end(b, s + 1);
        let ie = if b[s] == 0x30 {
            s + 1
        } else {
            spec_digits_end(b, s)
        };
        if ie + 1 <= b.len() {
            lemma_digits_end(b, ie + 1);
        }
        if ie < b.len() && b[ie] == 0x2e && ie + 1 < b.len() && is_digit(b[ie + 1]) {
            let fe = spec_digits_end(b, ie + 1);
            if fe + 2 <= b.len() {
                lemma_digits_end(b, fe + 2);
            }
            if fe + 1 <= b.len() {
                lemma_digits_end(b, fe + 1);
            }
        }
        if ie + 2 <= b.len() {
            lemma_digits_end(b, ie + 2);
        }
    }
}

/// Scans an ignored quoted string from just after the opening quote to
/// just after the closing quote: escapes must be recognized (a hexadecimal
/// escape only needs its four digits here) and unescaped control bytes are
/// rejected; other bytes pass unread.
pub open spec fn spec_string_skip(b: Seq<u8>, i: int) -> Option<int>
    decreases b.len() - i,
{
    if !(0 <= i < b.len()) {
        None
    } else if b[i] == 0x22 {
        Some(i + 1)
    } else if b[i] == 0x5c {
        if i + 1 >= b.len() {
            None
        } else if b[i + 1] == 0x75 {
            if hex4_at(b, i + 2) {
                spec_string_skip(b, i + 6)
            } else {
                None
            }
        } else if escape_code(b[i + 1]) is Some {
            spec_string_skip(b, i + 2)
        } else {
            None
        }
    } else if b[i] < 0x20 {
        None
    } else {
        spec_string_skip(b, i + 1)
    }
}

pub proof fn lemma_string_skip_bounds(b: Seq<u8>, i: int)
    ensures
        match spec_string_skip(b, i) {
            Some(j) => i < j <= b.len(),
            None => true,
        },
    decreases b.len() - i,
{
    if 0 <= i < b.len() {
        if i + 1 <= b.len() {
            lemma_string_skip_bounds(b, i + 1);
        }
        if i + 2 <= b.len() {
            lemma_string_skip_bounds(b, i + 2);
        }
        if i + 6 <= b.len() {
            lemma_string_skip_bounds(b, i + 6);
        }
    }
}

/// The states of the scan over one ignored value.
#[derive(Clone, Copy)]
pub enum SkipState {
    /// A value is expected.
    Value,
    /// An array just opened: its first item or the closing bracket follows.
    ArrayOpen,
    /// An object just opened: its first key or the closing brace follows.
    ObjectOpen,
    /// A member key is expected.
    Key,
    /// The colon between a key and its value is expected.
    Colon,
    /// A value just ended: a separator or the container's close follows.
    After,
}

/// The rank of a state, for termination: a state that can hand over at the
/// same position only hands over to a lower rank.
pub open spec fn skip_rank(st: SkipState) -> int {
    match st {
        SkipState::Value => 0,
        SkipState::Key => 0,
        SkipState::Colon => 1,
        SkipState::ArrayOpen => 1,
        SkipState::ObjectOpen => 1,
        SkipState::After => 2,
    }
}

/// One scan over an ignored value, from state `st` at position `i` with
/// the open containers on `stack`: ends just after the value once the
/// stack is empty again. Values take the shapes of the notation - strings,
/// numbers, the three literal words, arrays and objects with their commas,
/// keys and colons in place - and nothing else.
pub open spec fn spec_skip_json(b: Seq<u8>, i: int, stack: Seq<u8>, st: SkipState) -> Option<int>
    decreases b.len() - i, skip_rank(st),
    via spec_skip_json_decreases
{
    if !(0 <= i <= b.len()) {
        None
    } else if st is After && stack.len() == 0 {
        Some(i)
    } else {
        let j = spec_skip_ws(b, i);
        if j >= b.len() {
            None
        } else {
            let c = b[j];
            match st {
                SkipState::Value => {
                    if c == 0x22 {
                        match spec_string_skip(b, j + 1) {
                            None => None,
                            Some(e) => spec_skip_json(b, e, stack, SkipState::After),
                        }
                    } else if c == 0x2d || is_digit(c) {
                        match spec_number_end(b, j) {
                            None => None,
                            Some(e) => spec_skip_json(b, e, stack, SkipState::After),
                        }
                    } else if c == 0x74 {
                        if j + 4 <= b.len() && b[j + 1] == 0x72 && b[j + 2] == 0x75 && b[j + 3]
                            == 0x65 {
                            spec_skip_json(b, j + 4, stack, SkipState::After)
                        } else {
                            None
                        }
                    } else if c == 0x66 {
                        if j + 5 <= b.len() && b[j + 1] == 0x61 && b[j + 2] == 0x6c && b[j + 3]
                            == 0x73 && b[j + 4] == 0x65 {
                            spec_skip_json(b, j + 5, stack, SkipState::After)
                        } else {
                            None
                        }
                    } else if c == 0x6e {
                        if j + 4 <= b.len() && b[j + 1] == 0x75 && b[j + 2] == 0x6c && b[j + 3]
                            == 0x6c {
                            spec_skip_json(b, j + 4, stack, SkipState::After)
                        } else {
                            None
                        }
                    } else if c == 0x5b {
                        spec_skip_json(b, j + 1, stack.push(0x5b), SkipState::ArrayOpen)
                    } else if c == 0x7b {
                        spec_skip_json(b, j + 1, stack.push(0x7b), SkipState::ObjectOpen)
                    } else {
                        None
                    }
                },
                SkipState::ArrayOpen => {
                    if c == 0x5d {
                        spec_skip_json(b, j + 1, stack.drop_last(), SkipState::After)
                    } else {
                        spec_skip_json(b, j, stack, SkipState::Value)
                    }
                },
                SkipState::ObjectOpen => {
                    if c == 0x7d {
                        spec_skip_json(b, j + 1, stack.drop_last(), SkipState::After)
                    } else {
                        spec_skip_json(b, j, stack, SkipState::Key)
                    }
                },
                SkipState::Key => {
                    if c == 0x22 {
                        match spec_string_skip(b, j + 1) {
                            None => None,
                            Some(e) => spec_skip_json(b, e, stack, SkipState::Colon),
                        }
                    } else {
                        None
                    }
                },
                SkipState::Colon => {
                    if c == 0x3a {
                        spec_skip_json(b, j + 1, stack, SkipState::Value)
                    } else {
                        None
                    }
                },
                SkipState::After => {
                    let top = stack.last();
                    if c == 0x2c {
                        if top == 0x5b {
                            spec_skip_json(b, j + 1, stack, SkipState::Value)
                        } else {
                            spec_skip_json(b, j + 1, stack, SkipState::Key)
                        }
                    } else if c == 0x5d && top == 0x5b {
                        spec_skip_json(b, j + 1, stack.drop_last(), SkipState::After)
                    } else if c == 0x7d && top == 0x7b {
                        spec_skip_json(b, j + 1, stack.drop_last(), SkipState::After)
                    } else {
                        None
                    }
                },
            }
        }
    }
}

#[via_fn]
proof fn spec_skip_json_decreases(b: Seq<u8>, i: int, stack: Seq<u8>, st: SkipState) {
    if 0 <= i <= b.len() && !(st is After && stack.len() == 0) {
        lemma_skip_ws(b, i);
        let j = spec_skip_ws(b, i);
        if j < b.len() {
            lemma_string_skip_bounds(b, j + 1);
            lemma_number_bounds(b, j);
        }
    }
}

pub proof fn lemma_skip_json_bounds(b: Seq<u8>, i: int, stack: Seq<u8>, st: SkipState)
    ensures
        match spec_skip_json(b, i, stack, st) {
            Some(r) => i <= r <= b.len() && (!(st is After && stack.len() == 0) ==> i < r),
            None => true,
        },
    decreases b.len() - i, skip_rank(st),
{
    if 0 <= i <= b.len() && !(st is After && stack.len() == 0) {
        lemma_skip_ws(b, i);
        let j = spec_skip_ws(b, i);
        if j < b.len() {
            let c = b[j];
            match st {
                SkipState::Value => {
                    if c == 0x22 {
                        lemma_string_skip_bounds(b, j + 1);
                        if let Some(e) = spec_string_skip(b, j + 1) {
                            lemma_skip_json_bounds(b, e, stack, SkipState::After);
                        }
                    } else if c == 0x2d || is_digit(c) {
                        lemma_number_bounds(b, j);
                        if let Some(e) = spec_number_end(b, j) {
                            lemma_skip_json_bounds(b, e, stack, SkipState::After);
                        }
                    } else if c == 0x74 || c == 0x6e {
                        if j + 4 <= b.len() {
                            lemma_skip_json_bounds(b, j + 4, stack, SkipState::After);
                        }
                    } else if c == 0x66 {
                        if j + 5 <= b.len() {
                            lemma_skip_json_bounds(b, j + 5, stack, SkipState::After);
                        }
                    } else if c == 0x5b {
                        lemma_skip_json_bounds(b, j + 1, stack.push(0x5b), SkipState::ArrayOpen);
                    } else if c == 0x7b {
                        lemma_skip_json_bounds(b, j + 1, stack.push(0x7b), SkipState::ObjectOpen);
                    }
                },
                SkipState::ArrayOpen => {
                    lemma_skip_json_bounds(b, j + 1, stack.drop_last(), SkipState::After);
                    lemma_skip_json_bounds(b, j, stack, SkipState::Value);
                },
                SkipState::ObjectOpen => {
                    lemma_skip_json_bounds(b, j + 1, stack.drop_last(), SkipState::After);
                    lemma_skip_json_bounds(b, j, stack, SkipState::Key);
                },
                SkipState::Key => {
                    lemma_string_skip_bounds(b, j + 1);
                    if let Some(e) = spec_string_skip(b, j + 1) {
                        lemma_skip_json_bounds(b, e, stack, SkipState::Colon);
                    }
                },
                SkipState::Colon => {
                    lemma_skip_json_bounds(b, j + 1, stack, SkipState::Value);
                },
                SkipState::After => {
                    lemma_skip_json_bounds(b, j + 1, stack, SkipState::Value);
                    lemma_skip_json_bounds(b, j + 1, stack, SkipState::Key);
                    lemma_skip_json_bounds(b, j + 1, stack.drop_last(), SkipState::After);
                },
            }
        }
    }
}

/// Skips one ignored value: the position just after it, or `None` when no
/// well-formed value starts at `i`.
pub open spec fn spec_skip_value(b: Seq<u8>, i: int) -> Option<int> {
    spec_skip_json(b, i, Seq::empty(), SkipState::Value)
}

pub proof fn lemma_skip_value_bounds(b: Seq<u8>, i: int)
    ensures
        match spec_skip_value(b, i) {
            Some(j) => i < j <= b.len(),
            None => true,
        },
{
    lemma_skip_json_bounds(b, i, Seq::empty(), SkipState::Value);
}

/// The name of the recognized configuration field.
pub open spec fn header_field() -> Seq<char> {
    seq!['h', 'e', 'a', 'd', 'e', 'r']
}

/// Parses the elements of the sensitive-name array from the first element
/// to just after the closing bracket.
pub open spec fn spec_array_elems(b: Seq<u8>, i: int) -> Option<(Seq<Seq<char>>, int)>
    decreases b.len() - i,
    via spec_array_elems_decreases
{
    if !(0 <= i < b.len() && b[i] == 0x22) {
        None
    } else {
        match spec_string_body(b, i + 1) {
            None => None,
            Some((s, j)) => {
                let k = spec_skip_ws(b, j);
                if k < b.len() && b[k] == 0x5d {
                    Some((seq![s], k + 1))
                } else if k < b.len() && b[k] == 0x2c {
                    let m = spec_skip_ws(b, k + 1);
                    match spec_array_elems(b, m) {
                        None => None,
                        Some((rest, e)) => Some((seq![s] + rest, e)),
                    }
                } else {
                    None
                }
            },
        }
    }
}

#[via_fn]
proof fn spec_array_elems_decreases(b: Seq<u8>, i: int) {
    if 0 <= i < b.len() && b[i] == 0x22 {
        lemma_string_body_bounds(b, i + 1);
        match spec_string_body(b, i + 1) {
            None => {},
            Some((s, j)) => {
                lemma_skip_ws(b, j);
                let k = spec_skip_ws(b, j);
                if k < b.len() && b[k] == 0x2c {
                    lemma_skip_ws(b, k + 1);
                }
            },
        }
    }
}

pub proof fn lemma_array_elems_bounds(b: Seq<u8>, i: int)
    ensures
        match spec_array_elems(b, i) {
            Some((ss, j)) => i < j <= b.len(),
            None => true,
        },
    decreases b.len() - i,
{
    if 0 <= i < b.len() && b[i] == 0x22 {
        lemma_string_body_bounds(b, i + 1);
        match spec_string_body(b, i + 1) {
            None => {},
            Some((s, j)) => {
                lemma_skip_ws(b, j);
                let k = spec_skip_ws(b, j);
                if k < b.len() && b[k] == 0x2c {
                    lemma_skip_ws(b, k + 1);
                    lemma_array_elems_bounds(b, spec_skip_ws(b, k + 1));
                }
            },
        }
    }
}

/// Parses the sensitive-name array: an empty pair of brackets, or
/// bracketed comma-separated quoted strings.
pub open spec fn spec_parse_array(b: Seq<u8>, i: int) -> Option<(Seq<Seq<char>>, int)> {
    if !(0 <= i < b.len() && b[i] == 0x5b) {
        None
    } else {
        let j = spec_skip_ws(b, i + 1);
        if j < b.len() && b[j] == 0x5d {
            Some((Seq::empty(), j + 1))
        } else {
            spec_array_elems(b, j)
        }
    }
}

pub proof fn lemma_parse_array_bounds(b: Seq<u8>, i: int)
    ensures
        match spec_parse_array(b, i) {
            Some((ss, j)) => i < j <= b.len(),
            None => true,
        },
{
    if 0 <= i < b.len() && b[i] == 0x5b {
        lemma_skip_ws(b, i + 1);
        lemma_array_elems_bounds(b, spec_skip_ws(b, i + 1));
    }
}

/// Parses the members of the configuration object from the first member to
/// just after the closing brace, threading the recognized field's value.
/// The recognized field must hold an array of strings and may appear only
/// once; the value of any other field is skipped unread.
pub open spec fn spec_members(b: Seq<u8>, i: int, acc: Option<Seq<Seq<char>>>) -> Option<
    (Option<Seq<Seq<char>>>, int),
>
    decreases b.len() - i,
    via spec_members_decreases
{
    if !(0 <= i < b.len() && b[i] == 0x22) {
        None
    } else {
        match spec_string_body(b, i + 1) {
            None => None,
            Some((key, j)) => {
                let k = spec_skip_ws(b, j);
                if !(k < b.len() && b[k] == 0x3a) {
                    None
                } else {
                    let v = spec_skip_ws(b, k + 1);
                    let after = if key == header_field() {
                        if acc is Some {
                            None
                        } else {
                            match spec_parse_array(b, v) {
                                None => None,
                                Some((names, e)) => Some((Some(names), e)),
                            }
                        }
                    } else {
                        match spec_skip_value(b, v) {
                            None => None,
                            Some(e) => Some((acc, e)),
                        }
                    };
                    match after {
                        None => None,
                        Some((acc2, e)) => {
                            let t = spec_skip_ws(b, e);
                            if t < b.len() && b[t] == 0x7d {
                                Some((acc2, t + 1))
                            } else if t < b.len() && b[t] == 0x2c {
                                spec_members(b, spec_skip_ws(b, t + 1), acc2)
                            } else {
                                None
                            }
                        },
                    }
                }
            },
        }
    }
}

#[via_fn]
proof fn spec_members_decreases(b: Seq<u8>, i: int, acc: Option<Seq<Seq<char>>>) {
    if 0 <= i < b.len() && b[i] == 0x22 {
        lemma_string_body_bounds(b, i + 1);
        match spec_string_body(b, i + 1) {
            None => {},
            Some((key, j)) => {
                lemma_skip_ws(b, j);
                let k = spec_skip_ws(b, j);
                if k < b.len() && b[k] == 0x3a {
                    lemma_skip_ws(b, k + 1);
                    let v = spec_skip_ws(b, k + 1);
                    lemma_parse_array_bounds(b, v);
                    lemma_skip_value_bounds(b, v);
                    match spec_parse_array(b, v) {
                        None => {},
                        Some((names, e)) => {
                            lemma_skip_ws(b, e);
                            let t = spec_skip_ws(b, e);
                            if t < b.len() && b[t] == 0x2c {
                                lemma_skip_ws(b, t + 1);
                            }
                        },
                    }
                    match spec_skip_value(b, v) {
                        None => {},
                        Some(e) => {
                            lemma_skip_ws(b, e);
                            let t = spec_skip_ws(b, e);
                            if t < b.len() && b[t] == 0x2c {
                                lemma_skip_ws(b, t + 1);
                            }
                        },
                    }
                }
            },
        }
    }
}

/// The sensitive names parsed from raw configuration bytes: the bytes must
/// hold one object, with optional surrounding whitespace, whose recognized
/// field holds the array of names; `None` when they do not, or when the
/// recognized field is absent, repeated or malformed.
pub open spec fn spec_parse_config(b: Seq<u8>) -> Option<Seq<Seq<char>>> {
    let i = spec_skip_ws(b, 0);
    if !(i < b.len() && b[i] == 0x7b) {
        None
    } else {
        let j = spec_skip_ws(b, i + 1);
        let body = if j < b.len() && b[j] == 0x7d {
            Some((None::<Seq<Seq<char>>>, j + 1))
        } else {
            spec_members(b, j, None)
        };
        match body {
            None => None,
            Some((acc, e)) => {
                let t = spec_skip_ws(b, e);
                if t == b.len() {
                    acc
                } else {
                    None
                }
            },
        }
    }
}


/// The kinds of fault that reject configuration bytes.
#[derive(Clone, Copy, Debug, PartialEq, Eq)]
pub enum ConfigFault {
    /// The bytes do not begin an object.
    NotAnObject,
    /// A member of the object is malformed, or the object is unterminated.
    MalformedMember,
    /// Text follows the closing brace.
    TrailingText,
    /// The object has no sensitive-name field.
    MissingField,
}

/// The description that accompanies each fault.
pub open spec fn fault_text(k: ConfigFault) -> Seq<char> {
    match k {
        ConfigFault::NotAnObject => "the configuration is not an object"@,
        ConfigFault::MalformedMember => "a malformed member in the configuration object"@,
        ConfigFault::TrailingText => "text after the configuration object"@,
        ConfigFault::MissingField => "the sensitive-name field is missing"@,
    }
}

/// The fault reported for rejected configuration bytes: the first of the
/// top-level checks that the bytes fail.
pub open spec fn spec_fault(b: Seq<u8>) -> ConfigFault {
    let i = spec_skip_ws(b, 0);
    if !(i < b.len() && b[i] == 0x7b) {
        ConfigFault::NotAnObject
    } else {
        let j = spec_skip_ws(b, i + 1);
        let body = if j < b.len() && b[j] == 0x7d {
            Some((None::<Seq<Seq<char>>>, j + 1))
        } else {
            spec_members(b, j, None)
        };
        match body {
            None => ConfigFault::MalformedMember,
            Some((acc, e)) => {
                let t = spec_skip_ws(b, e);
                if t != b.len() {
                    ConfigFault::TrailingText
                } else {
                    ConfigFault::MissingField
                }
            },
        }
    }
}

/// The error of configuration parsing: the raw configuration bytes, kept
/// whole, the fault that rejected them, and its description.
#[derive(Debug)]
pub struct ConfigParseError {
    /// The offending configuration bytes.
    pub raw: Vec<u8>,
    /// The fault that rejected them.
    pub kind: ConfigFault,
    /// The description of the fault.
    pub detail: String,
}

impl ConfigParseError {
    /// The text rendering of the offending bytes, for diagnostics: encoded
    /// text decoded, with one replacement character for each maximal
    /// ill-formed subpart.
    pub fn raw_text(&self) -> (r: String)
        ensures
            r@ == utf8_lossy(self.raw@, 0),
    {
        utf8_lossy_text(&self.raw)
    }
}

fn fault_text_of(k: ConfigFault) -> (r: String)
    ensures
        r@ == fault_text(k),
{
    match k {
        ConfigFault::NotAnObject => String::from_str("the configuration is not an object"),
        ConfigFault::MalformedMember => String::from_str(
            "a malformed member in the configuration object",
        ),
        ConfigFault::TrailingText => String::from_str("text after the configuration object"),
        ConfigFault::MissingField => String::from_str("the sensitive-name field is missing"),
    }
}

/// The raw bytes copied, for keeping in an error.
fn copy_bytes(b: &Vec<u8>) -> (r: Vec<u8>)
    ensures
        r@ == b@,
{
    let mut out: Vec<u8> = Vec::new();
    let mut i: usize = 0;
    while i < b.len()
        invariant
            i <= b@.len(),
            out@ == b@.take(i as int),
        decreases b@.len() - i,
    {
        out.push(b[i]);
        proof {
            assert(out@ =~= b@.take(i + 1));
        }
        i += 1;
    }
    proof {
        assert(b@.take(b@.len() as int) =~= b@);
    }
    out
}

fn config_error(bytes: &Vec<u8>, kind: ConfigFault) -> (e: ConfigParseError)
    ensures
        e.raw@ == bytes@,
        e.kind == kind,
        e.detail@ == fault_text(kind),
{
    ConfigParseError { raw: copy_bytes(bytes), kind, detail: fault_text_of(kind) }
}

fn is_ws_byte(c: u8) -> (r: bool)
    ensures
        r == is_ws(c),
{
    c == 0x20 || c == 0x09 || c == 0x0a || c == 0x0d
}

fn skip_ws(b: &Vec<u8>, i: usize) -> (r: usize)
    requires
        i <= b@.len(),
    ensures
        r as int == spec_skip_ws(b@, i as int),
        i <= r <= b@.len(),
{
    let mut j: usize = i;
    while j < b.len() && is_ws_byte(b[j])
        invariant
            i <= j <= b@.len(),
            spec_skip_ws(b@, i as int) == spec_skip_ws(b@, j as int),
        decreases b@.len() - j,
    {
        j += 1;
    }
    j
}

fn escape_code_exec(e: u8) -> (r: Option<char>)
    ensures
        r == escape_code(e),
{
    if e == 0x22 {
        Some('"')
    } else if e == 0x5c {
        Some('\\')
    } else if e == 0x2f {
        Some('/')
    } else if e == 0x62 {
        Some('\u{8}')
    } else if e == 0x66 {
        Some('\u{c}')
    } else if e == 0x6e {
        Some('\n')
    } else if e == 0x72 {
        Some('\r')
    } else if e == 0x74 {
        Some('\t')
    } else {
        None
    }
}

fn hex_digit_val(c: u8) -> (r: Option<u32>)
    ensures
        r is Some <==> is_hex_digit(c),
        r matches Some(v) ==> v as int == hex_val(c) && v <= 15,
{
    if 0x30 <= c && c <= 0x39 {
        Some((c - 0x30) as u32)
    } else if 0x41 <= c && c <= 0x46 {
        Some((c - 0x41) as u32 + 10)
    } else if 0x61 <= c && c <= 0x66 {
        Some((c - 0x61) as u32 + 10)
    } else {
        None
    }
}

fn read_hex4(b: &Vec<u8>, i: usize) -> (r: Option<u32>)
    requires
        i <= b@.len(),
    ensures
        r is Some <==> hex4_at(b@, i as int),
        r matches Some(v) ==> v == hex4_val(b@, i as int) && v <= 0xffff,
{
    if b.len() - i < 4 {
        return None;
    }
    let d0 = hex_digit_val(b[i]);
    let d1 = hex_digit_val(b[i + 1]);
    let d2 = hex_digit_val(b[i + 2]);
    let d3 = hex_digit_val(b[i + 3]);
    match (d0, d1, d2, d3) {
        (Some(a), Some(x), Some(y), Some(z)) => Some(a * 0x1000 + x * 0x100 + y * 0x10 + z),
        _ => None,
    }
}

fn parse_string_body(b: &Vec<u8>, i: usize) -> (r: Option<(Vec<char>, usize)>)
    requires
        i <= b@.len(),
    ensures
        match (r, spec_string_body(b@, i as int)) {
            (Some((s, j)), Some((ss, sj))) => s@ == ss && j as int == sj && i < j <= b@.len(),
            (None, None) => true,
            _ => false,
        },
{
    let mut acc: Vec<char> = Vec::new();
    let mut j: usize = i;
    proof {
        if let Some((s, e)) = spec_string_body(b@, i as int) {
            assert(acc@ + s =~= s);
        }
    }
    loop
        invariant
            i <= j <= b@.len(),
            spec_string_body(b@, i as int) == (match spec_string_body(b@, j as int) {
                None => None::<(Seq<char>, int)>,
                Some((s, e)) => Some((acc@ + s, e)),
            }),
        decreases b@.len() - j,
    {
        if j >= b.len() {
            return None;
        }
        let c = b[j];
        if c == 0x22 {
            proof {
                assert(acc@ + Seq::<char>::empty() =~= acc@);
            }
            return Some((acc, j + 1));
        }
        if c == 0x5c {
            if b.len() - j < 2 {
                return None;
            }
            let e = b[j + 1];
            if e == 0x75 {
                if b.len() - j < 6 {
                    return None;
                }
                match read_hex4(b, j + 2) {
                    None => {
                        return None;
                    },
                    Some(n1) => {
                        if 0xdc00 <= n1 && n1 <= 0xdfff {
                            return None;
                        }
                        if 0xd800 <= n1 && n1 <= 0xdbff {
                            if b.len() - j < 12 {
                                return None;
                            }
                            if b[j + 6] != 0x5c || b[j + 7] != 0x75 {
                                return None;
                            }
                            match read_hex4(b, j + 8) {
                                None => {
                                    return None;
                                },
                                Some(n2) => {
                                    if !(0xdc00 <= n2 && n2 <= 0xdfff) {
                                        return None;
                                    }
                                    let cp: u32 = 0x10000 + (n1 - 0xd800) * 0x400 + (n2 - 0xdc00);
                                    match char_from_u32(cp) {
                                        None => {
                                            proof {
                                                assert(false);
                                            }
                                            return None;
                                        },
                                        Some(ch) => {
                                            let ghost a0 = acc@;
                                            acc.push(ch);
                                            proof {
                                                vstd::utf8::char_u32_cast(ch, cp);
                                                if let Some((s, e2)) = spec_string_body(
                                                    b@,
                                                    j + 12,
                                                ) {
                                                    assert(a0 + (seq![ch] + s) =~= acc@ + s);
                                                }
                                            }
                                            j += 12;
                                        },
                                    }
                                },
                            }
                        } else {
                            match char_from_u32(n1) {
                                None => {
                                    proof {
                                        assert(false);
                                    }
                                    return None;
                                },
                                Some(ch) => {
                                    let ghost a0 = acc@;
                                    acc.push(ch);
                                    proof {
                                        vstd::utf8::char_u32_cast(ch, n1);
                                        if let Some((s, e2)) = spec_string_body(b@, j + 6) {
                                            assert(a0 + (seq![ch] + s) =~= acc@ + s);
                                        }
                                    }
                                    j += 6;
                                },
                            }
                        }
                    },
                }
            } else {
                match escape_code_exec(e) {
                    None => {
                        return None;
                    },
                    Some(ch) => {
                        let ghost a0 = acc@;
                        acc.push(ch);
                        proof {
                            if let Some((s, e2)) = spec_string_body(b@, j + 2) {
                                assert(a0 + (seq![ch] + s) =~= acc@ + s);
                            }
                        }
                        j += 2;
                    },
                }
            }
        } else if c < 0x20 {
            return None;
        } else if c < 0x80 {
            let ch = c as char;
            let ghost a0 = acc@;
            acc.push(ch);
            proof {
                if let Some((s, e2)) = spec_string_body(b@, j + 1) {
                    assert(a0 + (seq![ch] + s) =~= acc@ + s);
                }
            }
            j += 1;
        } else {
            match utf8_read(b, j) {
                None => {
                    return None;
                },
                Some((ch, l)) => {
                    let ghost a0 = acc@;
                    acc.push(ch);
                    proof {
                        if let Some((sl, cp)) = utf8_at(b@, j as int) {
                            vstd::utf8::char_u32_cast(ch, (cp as u32));
                            if let Some((s, e2)) = spec_string_body(b@, j + sl) {
                                assert(a0 + (seq![ch] + s) =~= acc@ + s);
                            }
                        }
                    }
                    j += l;
                },
            }
        }
    }
}

fn digits_end(b: &Vec<u8>, i: usize) -> (r: usize)
    requires
        i <= b@.len(),
    ensures
        r as int == spec_digits_end(b@, i as int),
        i <= r <= b@.len(),
{
    let mut j: usize = i;
    while j < b.len() && 0x30 <= b[j] && b[j] <= 0x39
        invariant
            i <= j <= b@.len(),
            spec_digits_end(b@, i as int) == spec_digits_end(b@, j as int),
        decreases b@.len() - j,
    {
        j += 1;
    }
    j
}

fn number_end(b: &Vec<u8>, i: usize) -> (r: Option<usize>)
    requires
        i <= b@.len(),
    ensures
        match (r, spec_number_end(b@, i as int)) {
            (Some(j), Some(sj)) => j as int == sj && i < j <= b@.len(),
            (None, None) => true,
            _ => false,
        },
{
    let s: usize = if i < b.len() && b[i] == 0x2d {
        i + 1
    } else {
        i
    };
    if s >= b.len() || !(0x30 <= b[s] && b[s] <= 0x39) {
        return None;
    }
    proof {
        lemma_digits_end(b@, s + 1);
    }
    let ie: usize = if b[s] == 0x30 {
        s + 1
    } else {
        digits_end(b, s)
    };
    if b[s] == 0x30 && ie < b.len() && 0x30 <= b[ie] && b[ie] <= 0x39 {
        return None;
    }
    let fe: usize = if ie < b.len() && b[ie] == 0x2e {
        if b.len() - ie >= 2 && 0x30 <= b[ie + 1] && b[ie + 1] <= 0x39 {
            digits_end(b, ie + 1)
        } else {
            return None;
        }
    } else {
        ie
    };
    if fe < b.len() && (b[fe] == 0x65 || b[fe] == 0x45) {
        let sg: usize = if b.len() - fe >= 2 && (b[fe + 1] == 0x2b || b[fe + 1] == 0x2d) {
            fe + 2
        } else {
            fe + 1
        };
        if sg < b.len() && 0x30 <= b[sg] && b[sg] <= 0x39 {
            Some(digits_end(b, sg))
        } else {
            None
        }
    } else {
        Some(fe)
    }
}

fn string_skip(b: &Vec<u8>, i: usize) -> (r: Option<usize>)
    requires
        i <= b@.len(),
    ensures
        match (r, spec_string_skip(b@, i as int)) {
            (Some(j), Some(sj)) => j as int == sj && i < j <= b@.len(),
            (None, None) => true,
            _ => false,
        },
{
    let mut j: usize = i;
    loop
        invariant
            i <= j <= b@.len(),
            spec_string_skip(b@, i as int) == spec_string_skip(b@, j as int),
        decreases b@.len() - j,
    {
        if j >= b.len() {
            return None;
        }
        let c = b[j];
        if c == 0x22 {
            return Some(j + 1);
        }
        if c == 0x5c {
            if b.len() - j < 2 {
                return None;
            }
            let e = b[j + 1];
            if e == 0x75 {
                if b.len() - j < 6 {
                    return None;
                }
                match read_hex4(b, j + 2) {
                    None => {
                        return None;
                    },
                    Some(_) => {
                        j += 6;
                    },
                }
            } else {
                match escape_code_exec(e) {
                    None => {
                        return None;
                    },
                    Some(_) => {
                        j += 2;
                    },
                }
            }
        } else if c < 0x20 {
            return None;
        } else {
            j += 1;
        }
    }
}

fn skip_value(b: &Vec<u8>, i: usize) -> (r: Option<usize>)
    requires
        i <= b@.len(),
    ensures
        match (r, spec_skip_value(b@, i as int)) {
            (Some(j), Some(sj)) => j as int == sj && i < j <= b@.len(),
            (None, None) => true,
            _ => false,
        },
{
    let mut p: usize = i;
    let mut stack: Vec<u8> = Vec::new();
    let mut st: SkipState = SkipState::Value;
    loop
        invariant
            i <= p <= b@.len(),
            spec_skip_value(b@, i as int) == spec_skip_json(b@, p as int, stack@, st),
            !(st is Value) ==> i < p,
            st is ArrayOpen ==> stack@.len() > 0,
            st is ObjectOpen ==> stack@.len() > 0,
        decreases b@.len() - p, skip_rank(st),
    {
        let done = match st {
            SkipState::After => stack.len() == 0,
            _ => false,
        };
        if done {
            return Some(p);
        }
        let j = skip_ws(b, p);
        if j >= b.len() {
            return None;
        }
        let c = b[j];
        match st {
            SkipState::Value => {
                if c == 0x22 {
                    match string_skip(b, j + 1) {
                        None => {
                            return None;
                        },
                        Some(e) => {
                            p = e;
                            st = SkipState::After;
                        },
                    }
                } else if c == 0x2d || (0x30 <= c && c <= 0x39) {
                    match number_end(b, j) {
                        None => {
                            return None;
                        },
                        Some(e) => {
                            p = e;
                            st = SkipState::After;
                        },
                    }
                } else if c == 0x74 {
                    if b.len() - j >= 4 && b[j + 1] == 0x72 && b[j + 2] == 0x75 && b[j + 3]
                        == 0x65 {
                        p = j + 4;
                        st = SkipState::After;
                    } else {
                        return None;
                    }
                } else if c == 0x66 {
                    if b.len() - j >= 5 && b[j + 1] == 0x61 && b[j + 2] == 0x6c && b[j + 3]
                        == 0x73 && b[j + 4] == 0x65 {
                        p = j + 5;
                        st = SkipState::After;
                    } else {
                        return None;
                    }
                } else if c == 0x6e {
                    if b.len() - j >= 4 && b[j + 1] == 0x75 && b[j + 2] == 0x6c && b[j + 3]
                        == 0x6c {
                        p = j + 4;
                        st = SkipState::After;
                    } else {
                        return None;
                    }
                } else if c == 0x5b {
                    stack.push(0x5b);
                    p = j + 1;
                    st = SkipState::ArrayOpen;
                } else if c == 0x7b {
                    stack.push(0x7b);
                    p = j + 1;
                    st = SkipState::ObjectOpen;
                } else {
                    return None;
                }
            },
            SkipState::ArrayOpen => {
                if c == 0x5d {
                    stack.pop();
                    p = j + 1;
                    st = SkipState::After;
                } else {
                    p = j;
                    st = SkipState::Value;
                }
            },
            SkipState::ObjectOpen => {
                if c == 0x7d {
                    stack.pop();
                    p = j + 1;
                    st = SkipState::After;
                } else {
                    p = j;
                    st = SkipState::Key;
                }
            },
            SkipState::Key => {
                if c == 0x22 {
                    match string_skip(b, j + 1) {
                        None => {
                            return None;
                        },
                        Some(e) => {
                            p = e;
                            st = SkipState::Colon;
                        },
                    }
                } else {
                    return None;
                }
            },
            SkipState::Colon => {
                if c == 0x3a {
                    p = j + 1;
                    st = SkipState::Value;
                } else {
                    return None;
                }
            },
            SkipState::After => {
                let top = stack[stack.len() - 1];
                if c == 0x2c {
                    p = j + 1;
                    st = if top == 0x5b {
                        SkipState::Value
                    } else {
                        SkipState::Key
                    };
                } else if c == 0x5d && top == 0x5b {
                    stack.pop();
                    p = j + 1;
                    st = SkipState::After;
                } else if c == 0x7d && top == 0x7b {
                    stack.pop();
                    p = j + 1;
                    st = SkipState::After;
                } else {
                    return None;
                }
            },
        }
    }
}

fn is_header_field(key: &Vec<char>) -> (r: bool)
    ensures
        r == (key@ == header_field()),
{
    if key.len() != 6 {
        return false;
    }
    let r = key[0] == 'h' && key[1] == 'e' && key[2] == 'a' && key[3] == 'd' && key[4] == 'e'
        && key[5] == 'r';
    proof {
        if r {
            assert(key@ =~= header_field());
        }
    }
    r
}

fn parse_array(b: &Vec<u8>, i: usize) -> (r: Option<(Vec<String>, usize)>)
    requires
        i <= b@.len(),
    ensures
        match (r, spec_parse_array(b@, i as int)) {
            (Some((ns, j)), Some((ss, sj))) => name_views(ns@) == ss && j as int == sj && i < j
                <= b@.len(),
            (None, None) => true,
            _ => false,
        },
{
    if i >= b.len() || b[i] != 0x5b {
        return None;
    }
    let j = skip_ws(b, i + 1);
    if j < b.len() && b[j] == 0x5d {
        let ns: Vec<String> = Vec::new();
        proof {
            assert(name_views(ns@) =~= Seq::<Seq<char>>::empty());
        }
        return Some((ns, j + 1));
    }
    let mut acc: Vec<String> = Vec::new();
    let mut p: usize = j;
    proof {
        if let Some((rest, e)) = spec_array_elems(b@, p as int) {
            assert(name_views(acc@) + rest =~= rest);
        }
    }
    loop
        invariant
            i < p <= b@.len(),
            spec_parse_array(b@, i as int) == (match spec_array_elems(b@, p as int) {
                None => None::<(Seq<Seq<char>>, int)>,
                Some((rest, e)) => Some((name_views(acc@) + rest, e)),
            }),
        decreases b@.len() - p,
    {
        if p >= b.len() || b[p] != 0x22 {
            return None;
        }
        match parse_string_body(b, p + 1) {
            None => {
                return None;
            },
            Some((cs, j2)) => {
                let s = chars_to_string(&cs);
                let k = skip_ws(b, j2);
                if k < b.len() && b[k] == 0x5d {
                    let ghost a0 = acc@;
                    acc.push(s);
                    proof {
                        assert(name_views(acc@) =~= name_views(a0) + seq![cs@]);
                    }
                    return Some((acc, k + 1));
                } else if k < b.len() && b[k] == 0x2c {
                    let m = skip_ws(b, k + 1);
                    let ghost a0 = acc@;
                    acc.push(s);
                    proof {
                        assert(name_views(acc@) =~= name_views(a0) + seq![cs@]);
                        if let Some((rest, e)) = spec_array_elems(b@, m as int) {
                            assert(name_views(a0) + (seq![cs@] + rest) =~= name_views(acc@)
                                + rest);
                        }
                    }
                    p = m;
                } else {
                    return None;
                }
            },
        }
    }
}

/// The recognized field's value threaded through member parsing, as
/// character sequences.
pub open spec fn opt_views(a: Option<Vec<String>>) -> Option<Seq<Seq<char>>> {
    match a {
        Some(v) => Some(name_views(v@)),
        None => None,
    }
}

fn parse_members(b: &Vec<u8>, i: usize) -> (r: Option<(Option<Vec<String>>, usize)>)
    requires
        i <= b@.len(),
    ensures
        match (r, spec_members(b@, i as int, None)) {
            (Some((a, j)), Some((sa, sj))) => opt_views(a) == sa && j as int == sj && i < j
                <= b@.len(),
            (None, None) => true,
            _ => false,
        },
{
    let mut acc: Option<Vec<String>> = None;
    let mut p: usize = i;
    loop
        invariant
            i <= p <= b@.len(),
            spec_members(b@, i as int, None) == spec_members(b@, p as int, opt_views(acc)),
        decreases b@.len() - p,
    {
        if p >= b.len() || b[p] != 0x22 {
            return None;
        }
        match parse_string_body(b, p + 1) {
            None => {
                return None;
            },
            Some((key, j2)) => {
                let k = skip_ws(b, j2);
                if k >= b.len() || b[k] != 0x3a {
                    return None;
                }
                let v = skip_ws(b, k + 1);
                let e: usize = if is_header_field(&key) {
                    if acc.is_some() {
                        return None;
                    }
                    match parse_array(b, v) {
                        None => {
                            return None;
                        },
                        Some((ns, e2)) => {
                            acc = Some(ns);
                            e2
                        },
                    }
                } else {
                    match skip_value(b, v) {
                        None => {
                            return None;
                        },
                        Some(e2) => e2,
                    }
                };
                let t = skip_ws(b, e);
                if t < b.len() && b[t] == 0x7d {
                    return Some((acc, t + 1));
                } else if t < b.len() && b[t] == 0x2c {
                    p = skip_ws(b, t + 1);
                } else {
                    return None;
                }
            },
        }
    }
}

/// Reads the configuration from raw bytes. Succeeds exactly on the inputs
/// the configuration grammar accepts, and then returns the parsed
/// sensitive names; fails on every other input, with an error that keeps
/// the offending bytes whole.
pub fn parse_config(bytes: &Vec<u8>) -> (r: Result<Config, ConfigParseError>)
    ensures
        match r {
            Ok(c) => spec_parse_config(bytes@) == Some(name_views(c.header@)),
            Err(e) => spec_parse_config(bytes@) is None && e.raw@ == bytes@ && e.kind
                == spec_fault(bytes@) && e.detail@ == fault_text(e.kind),
        },
{
    let i = skip_ws(bytes, 0);
    if i >= bytes.len() || bytes[i] != 0x7b {
        return Err(config_error(bytes, ConfigFault::NotAnObject));
    }
    let j = skip_ws(bytes, i + 1);
    let body: Option<(Option<Vec<String>>, usize)> = if j < bytes.len() && bytes[j] == 0x7d {
        Some((None, j + 1))
    } else {
        parse_members(bytes, j)
    };
    match body {
        None => Err(config_error(bytes, ConfigFault::MalformedMember)),
        Some((acc, e)) => {
            let t = skip_ws(bytes, e);
            if t != bytes.len() {
                return Err(config_error(bytes, ConfigFault::TrailingText));
            }
            match acc {
                Some(ns) => Ok(Config { header: ns }),
                None => Err(config_error(bytes, ConfigFault::MissingField)),
            }
        },
    }
}

} // verus!
