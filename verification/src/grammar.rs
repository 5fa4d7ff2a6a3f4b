//! The JSON grammar this library accepts, as spec functions over the input characters.
//!
//! Each function reads the input `s` from position `p` and says where the construct ends
//! (or that the input is malformed there, `None`).
use vstd::prelude::*;
use crate::value::JsonValue;
use crate::number::rounds_to_infinity;

verus! {

/// How deeply values may nest: a value inside this many open containers is refused.
pub const MAX_NESTING_DEPTH: usize = 2048;

pub open spec fn is_ws(c: char) -> bool {
    c == ' ' || c == '\t' || c == '\r' || c == '\n'
}

pub open spec fn is_digit(c: char) -> bool {
    '0' <= c && c <= '9'
}

/// Value of a hexadecimal digit, or -1.
pub open spec fn hex_digit_value(c: char) -> int {
    if '0' <= c && c <= '9' {
        c as int - '0' as int
    } else if 'a' <= c && c <= 'f' {
        c as int - 'a' as int + 10
    } else if 'A' <= c && c <= 'F' {
        c as int - 'A' as int + 10
    } else {
        -1
    }
}

/// Skips whitespace, and line and block comments when `cm` is set.
pub open spec fn skip_ws(s: Seq<char>, p: int, cm: bool) -> Option<int>
    decreases s.len() - p, 0int,
{
    if p < 0 || p >= s.len() {
        Some(p)
    } else if is_ws(s[p]) {
        skip_ws(s, p + 1, cm)
    } else if cm && s[p] == '/' {
        if p + 1 < s.len() && s[p + 1] == '/' {
            skip_line_comment(s, p + 2, cm)
        } else if p + 1 < s.len() && s[p + 1] == '*' {
            skip_block_comment(s, p + 2, cm)
        } else {
            None
        }
    } else {
        Some(p)
    }
}

/// Inside a line comment: it ends after the next newline, or at the end of the input.
pub open spec fn skip_line_comment(s: Seq<char>, p: int, cm: bool) -> Option<int>
    decreases s.len() - p, 1int,
{
    if p < 0 || p >= s.len() {
        Some(p)
    } else if s[p] == '\n' {
        skip_ws(s, p + 1, cm)
    } else {
        skip_line_comment(s, p + 1, cm)
    }
}

/// Inside a block comment: it ends after the next `*/`; an unterminated one is malformed.
pub open spec fn skip_block_comment(s: Seq<char>, p: int, cm: bool) -> Option<int>
    decreases s.len() - p, 1int,
{
    if p < 0 || p >= s.len() {
        None
    } else if s[p] == '*' && p + 1 < s.len() && s[p + 1] == '/' {
        skip_ws(s, p + 2, cm)
    } else {
        skip_block_comment(s, p + 1, cm)
    }
}

/// Skipping never moves backwards, nor past the end of the input.
pub proof fn lemma_skip_ws_bounds(s: Seq<char>, p: int, cm: bool)
    requires
        0 <= p <= s.len(),
    ensures
        skip_ws(s, p, cm) matches Some(q) ==> p <= q <= s.len(),
    decreases s.len() - p, 0int,
{
    if p < s.len() {
        if is_ws(s[p]) {
            lemma_skip_ws_bounds(s, p + 1, cm);
        } else if cm && s[p] == '/' {
            if p + 1 < s.len() && s[p + 1] == '/' {
                lemma_skip_line_comment_bounds(s, p + 2, cm);
            } else if p + 1 < s.len() && s[p + 1] == '*' {
                lemma_skip_block_comment_bounds(s, p + 2, cm);
            }
        }
    }
}

pub proof fn lemma_skip_line_comment_bounds(s: Seq<char>, p: int, cm: bool)
    requires
        0 <= p <= s.len(),
    ensures
        skip_line_comment(s, p, cm) matches Some(q) ==> p <= q <= s.len(),
    decreases s.len() - p, 1int,
{
    if p < s.len() {
        if s[p] == '\n' {
            lemma_skip_ws_bounds(s, p + 1, cm);
        } else {
            lemma_skip_line_comment_bounds(s, p + 1, cm);
        }
    }
}

pub proof fn lemma_skip_block_comment_bounds(s: Seq<char>, p: int, cm: bool)
    requires
        0 <= p <= s.len(),
    ensures
        skip_block_comment(s, p, cm) matches Some(q) ==> p <= q <= s.len(),
    decreases s.len() - p, 1int,
{
    if p < s.len() {
        if s[p] == '*' && p + 1 < s.len() && s[p + 1] == '/' {
            lemma_skip_ws_bounds(s, p + 2, cm);
        } else {
            lemma_skip_block_comment_bounds(s, p + 1, cm);
        }
    }
}

/// Four hexadecimal digits at `p`, as a number.
pub open spec fn hex4(s: Seq<char>, p: int) -> Option<int> {
    if 0 <= p && p + 4 <= s.len() && hex_digit_value(s[p]) >= 0 && hex_digit_value(s[p + 1]) >= 0
        && hex_digit_value(s[p + 2]) >= 0 && hex_digit_value(s[p + 3]) >= 0 {
        Some(
            ((hex_digit_value(s[p]) * 16 + hex_digit_value(s[p + 1])) * 16 + hex_digit_value(
                s[p + 2],
            )) * 16 + hex_digit_value(s[p + 3]),
        )
    } else {
        None
    }
}

pub open spec fn is_high_surrogate(u: int) -> bool {
    0xD800 <= u <= 0xDBFF
}

pub open spec fn is_low_surrogate(u: int) -> bool {
    0xDC00 <= u <= 0xDFFF
}

/// The character whose scalar value is `u`.
pub open spec fn scalar_char(u: int) -> char {
    choose|c: char| #[trigger] scalar_value(c) == u
}

/// The scalar value of a character.
pub open spec fn scalar_value(c: char) -> int {
    c as u32 as int
}

/// A character is the one with its own scalar value.
pub proof fn lemma_scalar_char(c: char)
    ensures
        scalar_char(scalar_value(c)) == c,
{
    let u = scalar_value(c);
    assert(exists|x: char| #[trigger] scalar_value(x) == u);
    let x = scalar_char(u);
    assert(x as u32 == c as u32);
}

/// The scalar value a surrogate pair stands for.
pub open spec fn combine_surrogates(hi: int, lo: int) -> int {
    0x10000 + (hi - 0xD800) * 1024 + (lo - 0xDC00)
}

/// The `\u` escape whose four hexadecimal digits start at `p`: a character other than a
/// surrogate, or a high surrogate followed by `\u` and a low surrogate. Gives the character
/// and how many characters the escape occupies from `p`.
pub open spec fn unicode_escape(s: Seq<char>, p: int) -> Option<(char, nat)> {
    match hex4(s, p) {
        None => None,
        Some(u1) => if is_high_surrogate(u1) {
            if p + 5 < s.len() && s[p + 4] == '\\' && s[p + 5] == 'u' {
                match hex4(s, p + 6) {
                    Some(u2) => if is_low_surrogate(u2) {
                        Some((scalar_char(combine_surrogates(u1, u2)), 10))
                    } else {
                        None
                    },
                    None => None,
                }
            } else {
                None
            }
        } else if is_low_surrogate(u1) {
            None
        } else {
            Some((scalar_char(u1), 4))
        },
    }
}

/// The escape sequence whose letter is at `p` (just after the backslash): the character it
/// stands for and how many characters it occupies after the backslash.
pub open spec fn escape(s: Seq<char>, p: int) -> Option<(char, nat)> {
    if p < 0 || p >= s.len() {
        None
    } else if s[p] == '"' {
        Some(('"', 1))
    } else if s[p] == '\\' {
        Some(('\\', 1))
    } else if s[p] == '/' {
        Some(('/', 1))
    } else if s[p] == 'b' {
        Some(('\x08', 1))
    } else if s[p] == 'f' {
        Some(('\x0C', 1))
    } else if s[p] == 'n' {
        Some(('\n', 1))
    } else if s[p] == 'r' {
        Some(('\r', 1))
    } else if s[p] == 't' {
        Some(('\t', 1))
    } else if s[p] == 'u' {
        match unicode_escape(s, p + 1) {
            Some((c, n)) => Some((c, n + 1)),
            None => None,
        }
    } else {
        None
    }
}

/// The body of a string literal from `p` (just after the opening quote): its characters,
/// and the position after the closing quote.
pub open spec fn string_body(s: Seq<char>, p: int) -> Option<(Seq<char>, int)>
    decreases s.len() - p,
{
    if p < 0 || p >= s.len() {
        None
    } else if s[p] == '"' {
        Some((Seq::empty(), p + 1))
    } else if s[p] == '\\' {
        match escape(s, p + 1) {
            None => None,
            Some((c, n)) => match string_body(s, p + 1 + n) {
                None => None,
                Some((t, q)) => Some((seq![c] + t, q)),
            },
        }
    } else if (s[p] as u32) < 0x20 {
        None
    } else {
        match string_body(s, p + 1) {
            None => None,
            Some((t, q)) => Some((seq![s[p]] + t, q)),
        }
    }
}

/// A string body ends after where it starts, and within the input.
pub proof fn lemma_string_body_bounds(s: Seq<char>, p: int)
    requires
        0 <= p,
    ensures
        string_body(s, p) matches Some((t, q)) ==> p < q <= s.len(),
    decreases s.len() - p,
{
    if 0 <= p < s.len() {
        if s[p] == '\\' {
            if let Some((c, n)) = escape(s, p + 1) {
                lemma_string_body_bounds(s, p + 1 + n);
            }
        } else if s[p] != '"' {
            lemma_string_body_bounds(s, p + 1);
        }
    }
}

/// Length of the run of decimal digits at `p`.
pub open spec fn digit_run(s: Seq<char>, p: int) -> nat
    decreases s.len() - p,
{
    if 0 <= p < s.len() && is_digit(s[p]) {
        1 + digit_run(s, p + 1)
    } else {
        0
    }
}

pub open spec fn is_exponent_mark(s: Seq<char>, p: int) -> bool {
    0 <= p < s.len() && (s[p] == 'e' || s[p] == 'E')
}

/// End of a number whose integer part ends before `b`; `bare_zero` tells that the
/// integer part is a single `0`, which may not take an exponent without a fraction.
pub open spec fn number_tail_end(s: Seq<char>, b: int, bare_zero: bool) -> Option<int> {
    let has_dot = 0 <= b < s.len() && s[b] == '.';
    let c = if has_dot {
        b + 1 + digit_run(s, b + 1)
    } else {
        b
    };
    if has_dot && digit_run(s, b + 1) == 0 {
        None
    } else if bare_zero && !has_dot && is_exponent_mark(s, c) {
        None
    } else if is_exponent_mark(s, c) {
        let k = if c + 1 < s.len() && (s[c + 1] == '+' || s[c + 1] == '-') {
            c + 2
        } else {
            c + 1
        };
        if digit_run(s, k) == 0 {
            None
        } else {
            Some(k + digit_run(s, k))
        }
    } else {
        Some(c)
    }
}

/// End of the number lexeme at `p`: an optional minus, an integer part without leading
/// zeros, an optional fraction and an optional exponent.
pub open spec fn number_end(s: Seq<char>, p: int) -> Option<int> {
    let a = if 0 <= p < s.len() && s[p] == '-' {
        p + 1
    } else {
        p
    };
    if a < 0 || a >= s.len() {
        None
    } else if s[a] == '0' {
        number_tail_end(s, a + 1, true)
    } else if '1' <= s[a] && s[a] <= '9' {
        number_tail_end(s, a + 1 + digit_run(s, a + 1), false)
    } else {
        None
    }
}

/// Whether `w` stands at `p`.
pub open spec fn word_at(s: Seq<char>, p: int, w: Seq<char>) -> bool {
    0 <= p && p + w.len() <= s.len() && s.subrange(p, p + w.len()) == w
}

pub open spec fn starts_number(c: char) -> bool {
    c == '-' || is_digit(c)
}

/// Whether `key` is among the keys of `members`.
pub open spec fn has_key(members: Seq<(Seq<char>, JsonValue)>, key: Seq<char>) -> bool {
    exists|i: int| 0 <= i < members.len() && (#[trigger] members[i]).0 == key
}

/// A value at `p` nested inside `d` containers: the value and the position after it.
pub open spec fn value_at(s: Seq<char>, p: int, d: nat, cm: bool) -> Option<(JsonValue, int)>
    decreases s.len() - p, 0int,
{
    if p < 0 || p > s.len() {
        None
    } else {
    proof { lemma_skip_ws_bounds(s, p, cm); }
    match skip_ws(s, p, cm) {
        None => None,
        Some(q) => {
            if d >= MAX_NESTING_DEPTH || q >= s.len() {
                None
            } else if s[q] == '"' {
                match string_body(s, q + 1) {
                    None => None,
                    Some((t, r)) => Some((JsonValue::String(t), r)),
                }
            } else if s[q] == '[' {
                array_open(s, q + 1, d + 1, cm)
            } else if s[q] == '{' {
                object_open(s, q + 1, d + 1, cm)
            } else if s[q] == 'n' {
                if word_at(s, q, seq!['n', 'u', 'l', 'l']) {
                    Some((JsonValue::Null, q + 4))
                } else {
                    None
                }
            } else if s[q] == 't' {
                if word_at(s, q, seq!['t', 'r', 'u', 'e']) {
                    Some((JsonValue::Bool(true), q + 4))
                } else {
                    None
                }
            } else if s[q] == 'f' {
                if word_at(s, q, seq!['f', 'a', 'l', 's', 'e']) {
                    Some((JsonValue::Bool(false), q + 5))
                } else {
                    None
                }
            } else if starts_number(s[q]) {
                match number_end(s, q) {
                    None => None,
                    Some(e) => if rounds_to_infinity(s.subrange(q, e)) {
                        None
                    } else {
                        Some((JsonValue::Number(s.subrange(q, e)), e))
                    },
                }
            } else {
                None
            }
        },
    }
    }
}

/// An array from `p` (just after `[`): empty, or its elements.
pub open spec fn array_open(s: Seq<char>, p: int, d: nat, cm: bool) -> Option<(JsonValue, int)>
    decreases s.len() - p, 2int,
{
    if p < 0 || p > s.len() {
        None
    } else {
    proof { lemma_skip_ws_bounds(s, p, cm); }
    match skip_ws(s, p, cm) {
        None => None,
        Some(q) => if q < s.len() && s[q] == ']' {
            Some((JsonValue::Array(Seq::empty()), q + 1))
        } else {
            array_items(s, q, d, cm, Seq::empty())
        },
    }
    }
}

/// The elements of an array from `p`, after the elements `acc` already read; a comma
/// before the closing bracket is allowed.
pub open spec fn array_items(
    s: Seq<char>,
    p: int,
    d: nat,
    cm: bool,
    acc: Seq<JsonValue>,
) -> Option<(JsonValue, int)>
    decreases s.len() - p, 1int,
{
    if p < 0 || p > s.len() {
        None
    } else {
    match value_at(s, p, d, cm) {
        None => None,
        Some((v, q)) => {
            let acc2 = acc.push(v);
            match skip_ws(s, q, cm) {
                None => None,
                Some(r) => if r < 0 || r >= s.len() {
                    None
                } else if s[r] == ',' {
                    match skip_ws(s, r + 1, cm) {
                        None => None,
                        Some(t) => if 0 <= t < s.len() && s[t] == ']' {
                            Some((JsonValue::Array(acc2), t + 1))
                        } else if p < t <= s.len() {
                            array_items(s, t, d, cm, acc2)
                        } else {
                            None
                        },
                    }
                } else if s[r] == ']' {
                    Some((JsonValue::Array(acc2), r + 1))
                } else {
                    None
                },
            }
        },
    }
    }
}

/// An object from `p` (just after `{`): empty, or its members.
pub open spec fn object_open(s: Seq<char>, p: int, d: nat, cm: bool) -> Option<(JsonValue, int)>
    decreases s.len() - p, 2int,
{
    if p < 0 || p > s.len() {
        None
    } else {
    proof { lemma_skip_ws_bounds(s, p, cm); }
    match skip_ws(s, p, cm) {
        None => None,
        Some(q) => if q < s.len() && s[q] == '}' {
            Some((JsonValue::Object(Seq::empty()), q + 1))
        } else {
            object_members(s, q, d, cm, Seq::empty())
        },
    }
    }
}

/// The members of an object from `p`, after the members `acc` already read. A key must
/// not repeat an earlier one nor hold a NUL character; a comma before the closing brace is
/// allowed.
pub open spec fn object_members(
    s: Seq<char>,
    p: int,
    d: nat,
    cm: bool,
    acc: Seq<(Seq<char>, JsonValue)>,
) -> Option<(JsonValue, int)>
    decreases s.len() - p, 1int,
{
    if p < 0 || p > s.len() {
        None
    } else {
    proof { lemma_skip_ws_bounds(s, p, cm); }
    match skip_ws(s, p, cm) {
        None => None,
        Some(q) => if q >= s.len() || s[q] != '"' {
            None
        } else {
            proof { lemma_string_body_bounds(s, q + 1); }
            match string_body(s, q + 1) {
                None => None,
                Some((key, k2)) => {
                    proof { lemma_skip_ws_bounds(s, k2, cm); }
                    match skip_ws(s, k2, cm) {
                    None => None,
                    Some(k3) => if k3 >= s.len() || s[k3] != ':' {
                        None
                    } else {
                        match value_at(s, k3 + 1, d, cm) {
                            None => None,
                            Some((v, q2)) => if has_key(acc, key) || key.contains('\0') {
                                None
                            } else {
                                let acc2 = acc.push((key, v));
                                match skip_ws(s, q2, cm) {
                                    None => None,
                                    Some(r) => if r < 0 || r >= s.len() {
                                        None
                                    } else if s[r] == ',' {
                                        match skip_ws(s, r + 1, cm) {
                                            None => None,
                                            Some(t) => if 0 <= t < s.len() && s[t] == '}' {
                                                Some((JsonValue::Object(acc2), t + 1))
                                            } else if p < t <= s.len() {
                                                object_members(s, t, d, cm, acc2)
                                            } else {
                                                None
                                            },
                                        }
                                    } else if s[r] == '}' {
                                        Some((JsonValue::Object(acc2), r + 1))
                                    } else {
                                        None
                                    },
                                }
                            },
                        }
                    },
                }
                },
            }
        },
    }
    }
}

/// A document without its leading byte order mark, when it has one.
pub open spec fn without_bom(s: Seq<char>) -> Seq<char> {
    if s.len() > 0 && s[0] == '\u{FEFF}' {
        s.drop_first()
    } else {
        s
    }
}

/// The body of a document: one value, with only whitespace (and comments, when `cm` is set)
/// around it.
pub open spec fn parse_body(t: Seq<char>, cm: bool) -> Option<JsonValue> {
    match value_at(t, 0, 0, cm) {
        None => None,
        Some((v, q)) => match skip_ws(t, q, cm) {
            Some(r) => if r == t.len() {
                Some(v)
            } else {
                None
            },
            None => None,
        },
    }
}

/// A whole document: a leading byte order mark is dropped, and the rest is its body.
pub open spec fn parse_document(s: Seq<char>, cm: bool) -> Option<JsonValue> {
    parse_body(without_bom(s), cm)
}

/// One leading byte order mark is skipped: the document with it parses as the document
/// without it, when that does not itself start with one.
pub proof fn law_byte_order_mark(t: Seq<char>, cm: bool)
    requires
        t.len() == 0 || t[0] != '\u{FEFF}',
    ensures
        parse_document(seq!['\u{FEFF}'] + t, cm) == parse_document(t, cm),
{
    assert((seq!['\u{FEFF}'] + t).drop_first() =~= t);
}

} // verus!
