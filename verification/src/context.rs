//! What stands around a document's value: whitespace before and after it changes nothing of
//! what the document parses to.
use vstd::prelude::*;
use crate::value::JsonValue;
use crate::grammar::{
    is_ws, skip_ws, skip_line_comment, skip_block_comment, hex4,
    unicode_escape, escape, string_body, digit_run, is_exponent_mark, number_tail_end,
    number_end, word_at, value_at, array_open, array_items, object_open, object_members,
    without_bom, parse_document, lemma_skip_ws_bounds, lemma_string_body_bounds,
    MAX_NESTING_DEPTH, has_key,
};

verus! {

/// `t` stands in `s` from `k`, and only whitespace follows it there.
#[verifier::opaque]
pub open spec fn window(s: Seq<char>, k: int, t: Seq<char>) -> bool {
    &&& 0 <= k
    &&& k + t.len() <= s.len()
    &&& forall|i: int| 0 <= i < t.len() ==> s[k + i] == #[trigger] t[i]
    &&& forall|j: int| k + t.len() <= j < s.len() ==> is_ws(#[trigger] s[j])
}

/// What `window` says of one place.
proof fn lemma_window(s: Seq<char>, k: int, t: Seq<char>, i: int)
    requires
        window(s, k, t),
    ensures
        0 <= k,
        k + t.len() <= s.len(),
        0 <= i < t.len() ==> s[k + i] == t[i],
        k + t.len() <= i < s.len() ==> is_ws(s[i]),
{
    reveal(window);
}

/// A position of `t` seen in `s`: its end is the end of `s`, any other moves `k` on.
pub open spec fn ext_pos(r: Option<int>, k: int, n: int, m: int) -> Option<int> {
    match r {
        Some(q) => Some(if q == n { m } else { q + k }),
        None => None,
    }
}

/// A position moved `k` places on.
pub open spec fn shift_pos(r: Option<int>, k: int) -> Option<int> {
    match r {
        Some(q) => Some(q + k),
        None => None,
    }
}

/// A result whose end position is moved `k` places on.
pub open spec fn shift_end<A>(r: Option<(A, int)>, k: int) -> Option<(A, int)> {
    match r {
        Some((a, q)) => Some((a, q + k)),
        None => None,
    }
}

/// Skipping through the whitespace after `t` reaches the end of `s`.
proof fn lemma_tail_skip(s: Seq<char>, k: int, t: Seq<char>, p: int, cm: bool)
    requires
        window(s, k, t),
        k + t.len() <= p <= s.len(),
    ensures
        skip_ws(s, p, cm) == Some(s.len() as int),
        skip_line_comment(s, p, cm) == Some(s.len() as int),
        skip_block_comment(s, p, cm) is None,
    decreases s.len() - p,
{
    lemma_window(s, k, t, p);
    if p < s.len() {
        lemma_tail_skip(s, k, t, p + 1, cm);
    }
}

proof fn lemma_skip_ws_ext(s: Seq<char>, k: int, t: Seq<char>, p: int, cm: bool)
    requires
        window(s, k, t),
        0 <= p <= t.len(),
    ensures
        skip_ws(s, k + p, cm) == ext_pos(skip_ws(t, p, cm), k, t.len() as int, s.len() as int),
    decreases t.len() - p, 0int,
{
    lemma_window(s, k, t, p);
    lemma_window(s, k, t, p + 1);
    lemma_window(s, k, t, k + p + 1);
    if p == t.len() {
        lemma_tail_skip(s, k, t, k + p, cm);
    } else if is_ws(t[p]) {
        lemma_skip_ws_ext(s, k, t, p + 1, cm);
    } else if cm && t[p] == '/' && p + 1 < t.len() {
        lemma_skip_line_ext(s, k, t, p + 2, cm);
        lemma_skip_block_ext(s, k, t, p + 2, cm);
    }
}

proof fn lemma_skip_line_ext(s: Seq<char>, k: int, t: Seq<char>, p: int, cm: bool)
    requires
        window(s, k, t),
        0 <= p <= t.len(),
    ensures
        skip_line_comment(s, k + p, cm) == ext_pos(
            skip_line_comment(t, p, cm),
            k,
            t.len() as int,
            s.len() as int,
        ),
    decreases t.len() - p, 1int,
{
    lemma_window(s, k, t, p);
    if p == t.len() {
        lemma_tail_skip(s, k, t, k + p, cm);
    } else if t[p] == '\n' {
        lemma_skip_ws_ext(s, k, t, p + 1, cm);
    } else {
        lemma_skip_line_ext(s, k, t, p + 1, cm);
    }
}

proof fn lemma_skip_block_ext(s: Seq<char>, k: int, t: Seq<char>, p: int, cm: bool)
    requires
        window(s, k, t),
        0 <= p <= t.len(),
    ensures
        skip_block_comment(s, k + p, cm) == ext_pos(
            skip_block_comment(t, p, cm),
            k,
            t.len() as int,
            s.len() as int,
        ),
    decreases t.len() - p, 1int,
{
    lemma_window(s, k, t, p);
    lemma_window(s, k, t, p + 1);
    lemma_window(s, k, t, k + p + 1);
    if p == t.len() {
        lemma_tail_skip(s, k, t, k + p, cm);
    } else if t[p] == '*' && p + 1 < t.len() && t[p + 1] == '/' {
        lemma_skip_ws_ext(s, k, t, p + 2, cm);
    } else {
        lemma_skip_block_ext(s, k, t, p + 1, cm);
    }
}

/// A character read at `i` in `s` past the end of `t` is whitespace, or there is none.
proof fn lemma_at(s: Seq<char>, k: int, t: Seq<char>, i: int)
    requires
        window(s, k, t),
        0 <= i,
    ensures
        i < t.len() ==> s[k + i] == t[i],
        t.len() <= i && k + i < s.len() ==> is_ws(s[k + i]),
        k + t.len() <= s.len(),
        0 <= k,
{
    lemma_window(s, k, t, i);
    lemma_window(s, k, t, k + i);
}

proof fn lemma_hex4_ext(s: Seq<char>, k: int, t: Seq<char>, p: int)
    requires
        window(s, k, t),
        0 <= p,
    ensures
        hex4(s, k + p) == hex4(t, p),
{
    lemma_at(s, k, t, p);
    lemma_at(s, k, t, p + 1);
    lemma_at(s, k, t, p + 2);
    lemma_at(s, k, t, p + 3);
}

proof fn lemma_escape_ext(s: Seq<char>, k: int, t: Seq<char>, p: int)
    requires
        window(s, k, t),
        0 <= p,
    ensures
        escape(s, k + p) == escape(t, p),
{
    lemma_at(s, k, t, p);
    lemma_at(s, k, t, p + 5);
    lemma_at(s, k, t, p + 6);
    lemma_hex4_ext(s, k, t, p + 1);
    lemma_hex4_ext(s, k, t, p + 7);
    assert(unicode_escape(s, k + p + 1) == unicode_escape(t, p + 1));
}

/// A string body begun in the whitespace after `t` never closes.
proof fn lemma_tail_string(s: Seq<char>, k: int, t: Seq<char>, p: int)
    requires
        window(s, k, t),
        k + t.len() <= p,
    ensures
        string_body(s, p) is None,
    decreases s.len() - p,
{
    lemma_window(s, k, t, p);
    if p < s.len() {
        lemma_tail_string(s, k, t, p + 1);
    }
}

#[verifier::spinoff_prover]
#[verifier::rlimit(100)]
proof fn lemma_string_body_ext(s: Seq<char>, k: int, t: Seq<char>, p: int)
    requires
        window(s, k, t),
        0 <= p,
    ensures
        string_body(s, k + p) == shift_end(string_body(t, p), k),
    decreases t.len() - p,
{
    lemma_at(s, k, t, p);
    if p >= t.len() {
        lemma_tail_string(s, k, t, k + p);
    } else if t[p] == '\\' {
        lemma_escape_ext(s, k, t, p + 1);
        if let Some((c, n)) = escape(t, p + 1) {
            lemma_string_body_ext(s, k, t, p + 1 + n);
        }
    } else if t[p] != '"' {
        lemma_string_body_ext(s, k, t, p + 1);
    }
}

proof fn lemma_digit_run_ext(s: Seq<char>, k: int, t: Seq<char>, p: int)
    requires
        window(s, k, t),
        0 <= p,
    ensures
        digit_run(s, k + p) == digit_run(t, p),
    decreases t.len() - p,
{
    lemma_at(s, k, t, p);
    if p < t.len() {
        lemma_digit_run_ext(s, k, t, p + 1);
    }
}

proof fn lemma_number_tail_ext(s: Seq<char>, k: int, t: Seq<char>, b: int, bare_zero: bool)
    requires
        window(s, k, t),
        0 <= b,
    ensures
        number_tail_end(s, k + b, bare_zero) == shift_pos(number_tail_end(t, b, bare_zero), k),
{
    lemma_at(s, k, t, b);
    lemma_digit_run_ext(s, k, t, b + 1);
    let has_dot = 0 <= b < t.len() && t[b] == '.';
    let c = if has_dot {
        b + 1 + digit_run(t, b + 1)
    } else {
        b
    };
    lemma_at(s, k, t, c);
    lemma_at(s, k, t, c + 1);
    lemma_digit_run_ext(s, k, t, c + 1);
    lemma_digit_run_ext(s, k, t, c + 2);
    assert(is_exponent_mark(s, k + c) == is_exponent_mark(t, c));
}

proof fn lemma_number_end_ext(s: Seq<char>, k: int, t: Seq<char>, p: int)
    requires
        window(s, k, t),
        0 <= p,
    ensures
        number_end(s, k + p) == shift_pos(number_end(t, p), k),
{
    lemma_at(s, k, t, p);
    let a = if 0 <= p < t.len() && t[p] == '-' {
        p + 1
    } else {
        p
    };
    lemma_at(s, k, t, a);
    lemma_digit_run_ext(s, k, t, a + 1);
    lemma_number_tail_ext(s, k, t, a + 1, true);
    lemma_number_tail_ext(s, k, t, a + 1 + digit_run(t, a + 1), false);
}

/// A word of characters that are not whitespace stands at `k + p` in `s` exactly when it
/// stands at `p` in `t`.
proof fn lemma_word_at_ext(s: Seq<char>, k: int, t: Seq<char>, p: int, w: Seq<char>)
    requires
        window(s, k, t),
        0 <= p,
        w.len() > 0,
        forall|i: int| 0 <= i < w.len() ==> !is_ws(#[trigger] w[i]),
    ensures
        word_at(s, k + p, w) == word_at(t, p, w),
        p + w.len() <= t.len() ==> s.subrange(k + p, k + p + w.len()) == t.subrange(p, p + w.len()),
{
    lemma_at(s, k, t, 0);
    if p + w.len() <= t.len() {
        assert(s.subrange(k + p, k + p + w.len()) =~= t.subrange(p, p + w.len())) by {
            assert forall|i: int| 0 <= i < w.len() implies #[trigger] s.subrange(
                k + p,
                k + p + w.len(),
            )[i] == t.subrange(p, p + w.len())[i] by {
                lemma_at(s, k, t, p + i);
            }
        }
    } else if word_at(s, k + p, w) {
        let i = if p < t.len() {
            t.len() - p
        } else {
            0
        };
        lemma_at(s, k, t, p + i);
        assert(s.subrange(k + p, k + p + w.len())[i] == s[k + p + i]);
        assert(w[i] == s[k + p + i]);
    }
}

/// A stretch of `t` reads the same in `s`.
proof fn lemma_subrange_ext(s: Seq<char>, k: int, t: Seq<char>, a: int, b: int)
    requires
        window(s, k, t),
        0 <= a <= b <= t.len(),
    ensures
        s.subrange(k + a, k + b) == t.subrange(a, b),
{
    lemma_at(s, k, t, 0);
    assert(s.subrange(k + a, k + b) =~= t.subrange(a, b)) by {
        assert forall|i: int| 0 <= i < b - a implies #[trigger] s.subrange(k + a, k + b)[i]
            == t.subrange(a, b)[i] by {
            lemma_at(s, k, t, a + i);
        }
    }
}

/// A value read at `p` ends after `p`, within the input.
#[verifier::spinoff_prover]
#[verifier::rlimit(100)]
proof fn lemma_value_at_bounds(s: Seq<char>, p: int, d: nat, cm: bool)
    requires
        0 <= p,
    ensures
        value_at(s, p, d, cm) matches Some((v, q)) ==> p < q <= s.len(),
    decreases s.len() - p, 0int,
{
    if p <= s.len() {
        lemma_skip_ws_bounds(s, p, cm);
        if let Some(q) = skip_ws(s, p, cm) {
            if q < s.len() && d < MAX_NESTING_DEPTH {
                if s[q] == '"' {
                    lemma_string_body_bounds(s, q + 1);
                } else if s[q] == '[' {
                    lemma_array_open_bounds(s, q + 1, d + 1, cm);
                } else if s[q] == '{' {
                    lemma_object_open_bounds(s, q + 1, d + 1, cm);
                } else if s[q] != 'n' && s[q] != 't' && s[q] != 'f' {
                    crate::reread::lemma_number_end_bound(s, q);
                }
            }
        }
    }
}

proof fn lemma_array_open_bounds(s: Seq<char>, p: int, d: nat, cm: bool)
    requires
        0 <= p,
    ensures
        array_open(s, p, d, cm) matches Some((v, q)) ==> p < q <= s.len(),
    decreases s.len() - p, 2int,
{
    if p <= s.len() {
        lemma_skip_ws_bounds(s, p, cm);
        if let Some(q) = skip_ws(s, p, cm) {
            lemma_array_items_bounds(s, q, d, cm, Seq::empty());
        }
    }
}

proof fn lemma_array_items_bounds(s: Seq<char>, p: int, d: nat, cm: bool, acc: Seq<JsonValue>)
    requires
        0 <= p,
    ensures
        array_items(s, p, d, cm, acc) matches Some((v, q)) ==> p < q <= s.len(),
    decreases s.len() - p, 1int,
{
    if p <= s.len() {
        lemma_value_at_bounds(s, p, d, cm);
        if let Some((v, q)) = value_at(s, p, d, cm) {
            lemma_skip_ws_bounds(s, q, cm);
            if let Some(r) = skip_ws(s, q, cm) {
                if 0 <= r < s.len() {
                    lemma_skip_ws_bounds(s, r + 1, cm);
                    if let Some(u) = skip_ws(s, r + 1, cm) {
                        if p < u <= s.len() {
                            lemma_array_items_bounds(s, u, d, cm, acc.push(v));
                        }
                    }
                }
            }
        }
    }
}

proof fn lemma_object_open_bounds(s: Seq<char>, p: int, d: nat, cm: bool)
    requires
        0 <= p,
    ensures
        object_open(s, p, d, cm) matches Some((v, q)) ==> p < q <= s.len(),
    decreases s.len() - p, 2int,
{
    if p <= s.len() {
        lemma_skip_ws_bounds(s, p, cm);
        if let Some(q) = skip_ws(s, p, cm) {
            lemma_object_members_bounds(s, q, d, cm, Seq::empty());
        }
    }
}

#[verifier::spinoff_prover]
#[verifier::rlimit(50)]
proof fn lemma_object_members_bounds(
    s: Seq<char>,
    p: int,
    d: nat,
    cm: bool,
    acc: Seq<(Seq<char>, JsonValue)>,
)
    requires
        0 <= p,
    ensures
        object_members(s, p, d, cm, acc) matches Some((v, q)) ==> p < q <= s.len(),
    decreases s.len() - p, 1int,
{
    if p <= s.len() {
        lemma_skip_ws_bounds(s, p, cm);
        if let Some(q) = skip_ws(s, p, cm) {
            if q < s.len() {
                lemma_string_body_bounds(s, q + 1);
                if let Some((key, k2)) = string_body(s, q + 1) {
                    lemma_skip_ws_bounds(s, k2, cm);
                    if let Some(k3) = skip_ws(s, k2, cm) {
                        if k3 < s.len() {
                            lemma_value_at_bounds(s, k3 + 1, d, cm);
                            if let Some((v, q2)) = value_at(s, k3 + 1, d, cm) {
                                lemma_skip_ws_bounds(s, q2, cm);
                                if let Some(r) = skip_ws(s, q2, cm) {
                                    if 0 <= r < s.len() {
                                        lemma_skip_ws_bounds(s, r + 1, cm);
                                        if let Some(u) = skip_ws(s, r + 1, cm) {
                                            if p < u <= s.len() {
                                                lemma_object_members_bounds(
                                                    s,
                                                    u,
                                                    d,
                                                    cm,
                                                    acc.push((key, v)),
                                                );
                                            }
                                        }
                                    }
                                }
                            }
                        }
                    }
                }
            }
        }
    }
}

/// A value where skipping fails reads as nothing in either.
proof fn lemma_value_case_skipnone(s: Seq<char>, k: int, t: Seq<char>, p: int, d: nat, cm: bool)
    requires
        0 <= k,
        k + t.len() <= s.len(),
        0 <= p <= t.len(),
        skip_ws(t, p, cm) is None,
        skip_ws(s, k + p, cm) is None,
    ensures
        value_at(s, k + p, d, cm) == shift_end(value_at(t, p, d, cm), k),
{
}

/// A value where only whitespace is left reads as nothing in either.
proof fn lemma_value_case_end(s: Seq<char>, k: int, t: Seq<char>, p: int, d: nat, cm: bool)
    requires
        0 <= k,
        k + t.len() <= s.len(),
        0 <= p <= t.len(),
        skip_ws(t, p, cm) == Some(t.len() as int),
        skip_ws(s, k + p, cm) == Some(s.len() as int),
    ensures
        value_at(s, k + p, d, cm) == shift_end(value_at(t, p, d, cm), k),
{
}

/// A value too deep reads as nothing in either.
#[verifier::spinoff_prover]
#[verifier::rlimit(100)]
proof fn lemma_value_case_deep(s: Seq<char>, k: int, t: Seq<char>, p: int, q: int, d: nat, cm: bool)
    requires
        0 <= k,
        k + t.len() <= s.len(),
        0 <= p <= q < t.len(),
        skip_ws(t, p, cm) == Some(q),
        skip_ws(s, k + p, cm) == Some(k + q),
        s[k + q] == t[q],
        d >= MAX_NESTING_DEPTH,
    ensures
        value_at(s, k + p, d, cm) == shift_end(value_at(t, p, d, cm), k),
{
}

/// A string value reads the same way in `s`.
#[verifier::spinoff_prover]
#[verifier::rlimit(100)]
proof fn lemma_value_case_string(s: Seq<char>, k: int, t: Seq<char>, p: int, q: int, d: nat, cm: bool)
    requires
        0 <= k,
        k + t.len() <= s.len(),
        0 <= p <= q < t.len(),
        skip_ws(t, p, cm) == Some(q),
        skip_ws(s, k + p, cm) == Some(k + q),
        s[k + q] == t[q],
        d < MAX_NESTING_DEPTH,
        t[q] == '"',
        string_body(s, k + q + 1) == shift_end(string_body(t, q + 1), k),
    ensures
        value_at(s, k + p, d, cm) == shift_end(value_at(t, p, d, cm), k),
{
}

/// An array value reads the same way in `s`.
#[verifier::spinoff_prover]
#[verifier::rlimit(100)]
proof fn lemma_value_case_array(s: Seq<char>, k: int, t: Seq<char>, p: int, q: int, d: nat, cm: bool)
    requires
        0 <= k,
        k + t.len() <= s.len(),
        0 <= p <= q < t.len(),
        skip_ws(t, p, cm) == Some(q),
        skip_ws(s, k + p, cm) == Some(k + q),
        s[k + q] == t[q],
        d < MAX_NESTING_DEPTH,
        t[q] == '[',
        array_open(s, k + q + 1, d + 1, cm) == shift_end(array_open(t, q + 1, d + 1, cm), k),
    ensures
        value_at(s, k + p, d, cm) == shift_end(value_at(t, p, d, cm), k),
{
}

/// An object value reads the same way in `s`.
#[verifier::spinoff_prover]
#[verifier::rlimit(100)]
proof fn lemma_value_case_object(s: Seq<char>, k: int, t: Seq<char>, p: int, q: int, d: nat, cm: bool)
    requires
        0 <= k,
        k + t.len() <= s.len(),
        0 <= p <= q < t.len(),
        skip_ws(t, p, cm) == Some(q),
        skip_ws(s, k + p, cm) == Some(k + q),
        s[k + q] == t[q],
        d < MAX_NESTING_DEPTH,
        t[q] == '{',
        object_open(s, k + q + 1, d + 1, cm) == shift_end(object_open(t, q + 1, d + 1, cm), k),
    ensures
        value_at(s, k + p, d, cm) == shift_end(value_at(t, p, d, cm), k),
{
}

/// A `null` reads the same way in `s`.
#[verifier::spinoff_prover]
#[verifier::rlimit(100)]
proof fn lemma_value_case_null(s: Seq<char>, k: int, t: Seq<char>, p: int, q: int, d: nat, cm: bool)
    requires
        0 <= k,
        k + t.len() <= s.len(),
        0 <= p <= q < t.len(),
        skip_ws(t, p, cm) == Some(q),
        skip_ws(s, k + p, cm) == Some(k + q),
        s[k + q] == t[q],
        d < MAX_NESTING_DEPTH,
        t[q] == 'n',
        word_at(s, k + q, seq!['n', 'u', 'l', 'l']) == word_at(t, q, seq!['n', 'u', 'l', 'l']),
    ensures
        value_at(s, k + p, d, cm) == shift_end(value_at(t, p, d, cm), k),
{
}

/// A `true` reads the same way in `s`.
#[verifier::spinoff_prover]
#[verifier::rlimit(100)]
proof fn lemma_value_case_true(s: Seq<char>, k: int, t: Seq<char>, p: int, q: int, d: nat, cm: bool)
    requires
        0 <= k,
        k + t.len() <= s.len(),
        0 <= p <= q < t.len(),
        skip_ws(t, p, cm) == Some(q),
        skip_ws(s, k + p, cm) == Some(k + q),
        s[k + q] == t[q],
        d < MAX_NESTING_DEPTH,
        t[q] == 't',
        word_at(s, k + q, seq!['t', 'r', 'u', 'e']) == word_at(t, q, seq!['t', 'r', 'u', 'e']),
    ensures
        value_at(s, k + p, d, cm) == shift_end(value_at(t, p, d, cm), k),
{
}

/// A `false` reads the same way in `s`.
#[verifier::spinoff_prover]
#[verifier::rlimit(100)]
proof fn lemma_value_case_false(s: Seq<char>, k: int, t: Seq<char>, p: int, q: int, d: nat, cm: bool)
    requires
        0 <= k,
        k + t.len() <= s.len(),
        0 <= p <= q < t.len(),
        skip_ws(t, p, cm) == Some(q),
        skip_ws(s, k + p, cm) == Some(k + q),
        s[k + q] == t[q],
        d < MAX_NESTING_DEPTH,
        t[q] == 'f',
        word_at(s, k + q, seq!['f', 'a', 'l', 's', 'e']) == word_at(t, q, seq!['f', 'a', 'l', 's', 'e']),
    ensures
        value_at(s, k + p, d, cm) == shift_end(value_at(t, p, d, cm), k),
{
}

/// A number, or a character that starts no value, reads the same way in `s`.
#[verifier::spinoff_prover]
#[verifier::rlimit(100)]
proof fn lemma_value_case_number(s: Seq<char>, k: int, t: Seq<char>, p: int, q: int, d: nat, cm: bool)
    requires
        0 <= k,
        k + t.len() <= s.len(),
        0 <= p <= q < t.len(),
        skip_ws(t, p, cm) == Some(q),
        skip_ws(s, k + p, cm) == Some(k + q),
        s[k + q] == t[q],
        d < MAX_NESTING_DEPTH,
        t[q] != '"' && t[q] != '[' && t[q] != '{' && t[q] != 'n' && t[q] != 't' && t[q] != 'f',
        number_end(s, k + q) == shift_pos(number_end(t, q), k),
        number_end(t, q) matches Some(e) ==> s.subrange(k + q, k + e) == t.subrange(q, e),
    ensures
        value_at(s, k + p, d, cm) == shift_end(value_at(t, p, d, cm), k),
{
}

/// The elements from `p` of `t` read the same from `k + p` of `s`.
#[verifier::opaque]
spec fn items_agree(
    s: Seq<char>, k: int, t: Seq<char>, p: int, d: nat, cm: bool, acc: Seq<JsonValue>,
) -> bool {
    array_items(s, k + p, d, cm, acc) == shift_end(array_items(t, p, d, cm, acc), k)
}

/// The members from `p` of `t` read the same from `k + p` of `s`.
#[verifier::opaque]
spec fn members_agree(
    s: Seq<char>, k: int, t: Seq<char>, p: int, d: nat, cm: bool,
    acc: Seq<(Seq<char>, JsonValue)>,
) -> bool {
    object_members(s, k + p, d, cm, acc) == shift_end(object_members(t, p, d, cm, acc), k)
}

/// The first value from `p` of `t`, read in both.
#[verifier::opaque]
spec fn first_value(
    s: Seq<char>, k: int, t: Seq<char>, p: int, d: nat, cm: bool, v: JsonValue, q: int,
) -> bool {
    &&& value_at(t, p, d, cm) == Some((v, q))
    &&& value_at(s, k + p, d, cm) == Some((v, k + q))
    &&& p < q <= t.len()
}

proof fn lemma_first_value_bounds(
    s: Seq<char>, k: int, t: Seq<char>, p: int, d: nat, cm: bool, v: JsonValue, q: int,
)
    requires
        first_value(s, k, t, p, d, cm, v, q),
    ensures
        p < q <= t.len(),
{
    reveal(first_value);
}

proof fn lemma_first_value_elim(
    s: Seq<char>, k: int, t: Seq<char>, p: int, d: nat, cm: bool, v: JsonValue, q: int,
)
    requires
        first_value(s, k, t, p, d, cm, v, q),
    ensures
        value_at(t, p, d, cm) == Some((v, q)),
        value_at(s, k + p, d, cm) == Some((v, k + q)),
        p < q <= t.len(),
{
    reveal(first_value);
}

proof fn lemma_first_value_intro(
    s: Seq<char>, k: int, t: Seq<char>, p: int, d: nat, cm: bool, v: JsonValue, q: int,
)
    requires
        value_at(t, p, d, cm) == Some((v, q)),
        value_at(s, k + p, d, cm) == Some((v, k + q)),
        p < q <= t.len(),
    ensures
        first_value(s, k, t, p, d, cm, v, q),
{
    reveal(first_value);
}

/// No value reads from `p` of `t`, nor from `k + p` of `s`.
#[verifier::opaque]
spec fn value_none(s: Seq<char>, k: int, t: Seq<char>, p: int, d: nat, cm: bool) -> bool {
    &&& value_at(t, p, d, cm) is None
    &&& value_at(s, k + p, d, cm) is None
}

proof fn lemma_value_none_elim(s: Seq<char>, k: int, t: Seq<char>, p: int, d: nat, cm: bool)
    requires
        value_none(s, k, t, p, d, cm),
    ensures
        value_at(t, p, d, cm) is None,
        value_at(s, k + p, d, cm) is None,
{
    reveal(value_none);
}

/// The value from `p` of `t` either fails in both or is read in both.
proof fn lemma_value_split(s: Seq<char>, k: int, t: Seq<char>, p: int, d: nat, cm: bool)
    requires
        window(s, k, t),
        0 <= p <= t.len(),
    ensures
        value_none(s, k, t, p, d, cm) || exists|v: JsonValue, q: int|
            #[trigger] first_value(s, k, t, p, d, cm, v, q),
    decreases t.len() - p, 1int,
{
    lemma_value_at_ext(s, k, t, p, d, cm);
    lemma_value_at_bounds(t, p, d, cm);
    match value_at(t, p, d, cm) {
        None => reveal(value_none),
        Some((v, q)) => lemma_first_value_intro(s, k, t, p, d, cm, v, q),
    }
}

/// Elements read at the end of an input read as nothing.
proof fn lemma_items_at_end(x: Seq<char>, d: nat, cm: bool, acc: Seq<JsonValue>)
    ensures
        array_items(x, x.len() as int, d, cm, acc) is None,
{
    assert(skip_ws(x, x.len() as int, cm) == Some(x.len() as int));
    assert(value_at(x, x.len() as int, d, cm) is None);
}

/// Members read at the end of an input read as nothing.
proof fn lemma_members_at_end(x: Seq<char>, d: nat, cm: bool, acc: Seq<(Seq<char>, JsonValue)>)
    ensures
        object_members(x, x.len() as int, d, cm, acc) is None,
{
    assert(skip_ws(x, x.len() as int, cm) == Some(x.len() as int));
}

/// The value at `p` of `t` is read the same at `k + p` of `s`, with its end moved `k` on.
#[verifier::spinoff_prover]
#[verifier::rlimit(100)]
proof fn lemma_value_at_ext(s: Seq<char>, k: int, t: Seq<char>, p: int, d: nat, cm: bool)
    requires
        window(s, k, t),
        0 <= p <= t.len(),
    ensures
        value_at(s, k + p, d, cm) == shift_end(value_at(t, p, d, cm), k),
    decreases t.len() - p, 0int,
{
    lemma_at(s, k, t, 0);
    lemma_skip_ws_ext(s, k, t, p, cm);
    lemma_skip_ws_bounds(t, p, cm);
    match skip_ws(t, p, cm) {
        None => lemma_value_case_skipnone(s, k, t, p, d, cm),
        Some(q) => {
            if q == t.len() {
                lemma_value_case_end(s, k, t, p, d, cm);
            } else {
                lemma_at(s, k, t, q);
                if d >= MAX_NESTING_DEPTH {
                    lemma_value_case_deep(s, k, t, p, q, d, cm);
                } else if t[q] == '"' {
                    lemma_string_body_ext(s, k, t, q + 1);
                    lemma_value_case_string(s, k, t, p, q, d, cm);
                } else if t[q] == '[' {
                    lemma_array_open_ext(s, k, t, q + 1, d + 1, cm);
                    lemma_value_case_array(s, k, t, p, q, d, cm);
                } else if t[q] == '{' {
                    lemma_object_open_ext(s, k, t, q + 1, d + 1, cm);
                    lemma_value_case_object(s, k, t, p, q, d, cm);
                } else if t[q] == 'n' {
                    lemma_word_at_ext(s, k, t, q, seq!['n', 'u', 'l', 'l']);
                    lemma_value_case_null(s, k, t, p, q, d, cm);
                } else if t[q] == 't' {
                    lemma_word_at_ext(s, k, t, q, seq!['t', 'r', 'u', 'e']);
                    lemma_value_case_true(s, k, t, p, q, d, cm);
                } else if t[q] == 'f' {
                    lemma_word_at_ext(s, k, t, q, seq!['f', 'a', 'l', 's', 'e']);
                    lemma_value_case_false(s, k, t, p, q, d, cm);
                } else {
                    lemma_number_end_ext(s, k, t, q);
                    crate::reread::lemma_number_end_bound(t, q);
                    if let Some(e) = number_end(t, q) {
                        lemma_subrange_ext(s, k, t, q, e);
                    }
                    lemma_value_case_number(s, k, t, p, q, d, cm);
                }
            }
        },
    }
}

/// An array whose opening skip fails.
#[verifier::spinoff_prover]
#[verifier::rlimit(100)]
proof fn lemma_open_skipnone(s: Seq<char>, k: int, t: Seq<char>, p: int, d: nat, cm: bool)
    requires
        0 <= k,
        k + t.len() <= s.len(),
        0 <= p <= t.len(),
        skip_ws(t, p, cm) is None,
        skip_ws(s, k + p, cm) is None,
    ensures
        array_open(s, k + p, d, cm) == shift_end(array_open(t, p, d, cm), k),
{
}

/// An array opened at the end of `t`.
#[verifier::spinoff_prover]
#[verifier::rlimit(100)]
proof fn lemma_open_end(s: Seq<char>, k: int, t: Seq<char>, p: int, d: nat, cm: bool)
    requires
        0 <= k,
        k + t.len() <= s.len(),
        0 <= p <= t.len(),
        skip_ws(t, p, cm) == Some(t.len() as int),
        skip_ws(s, k + p, cm) == Some(s.len() as int),
        array_items(t, t.len() as int, d, cm, Seq::empty()) is None,
        array_items(s, s.len() as int, d, cm, Seq::empty()) is None,
    ensures
        array_open(s, k + p, d, cm) == shift_end(array_open(t, p, d, cm), k),
{
}

/// An empty array.
#[verifier::spinoff_prover]
#[verifier::rlimit(100)]
proof fn lemma_open_close(s: Seq<char>, k: int, t: Seq<char>, p: int, q: int, d: nat, cm: bool)
    requires
        0 <= k,
        k + t.len() <= s.len(),
        0 <= p <= q < t.len(),
        skip_ws(t, p, cm) == Some(q),
        skip_ws(s, k + p, cm) == Some(k + q),
        s[k + q] == t[q],
        t[q] == ']',
    ensures
        array_open(s, k + p, d, cm) == shift_end(array_open(t, p, d, cm), k),
{
}

/// An array with elements.
#[verifier::spinoff_prover]
#[verifier::rlimit(100)]
proof fn lemma_open_items(s: Seq<char>, k: int, t: Seq<char>, p: int, q: int, d: nat, cm: bool)
    requires
        0 <= k,
        k + t.len() <= s.len(),
        0 <= p <= q < t.len(),
        skip_ws(t, p, cm) == Some(q),
        skip_ws(s, k + p, cm) == Some(k + q),
        s[k + q] == t[q],
        t[q] != ']',
        array_items(s, k + q, d, cm, Seq::empty()) == shift_end(array_items(t, q, d, cm, Seq::empty()), k),
    ensures
        array_open(s, k + p, d, cm) == shift_end(array_open(t, p, d, cm), k),
{
}

/// Elements whose first value fails.
#[verifier::spinoff_prover]
#[verifier::rlimit(100)]
proof fn lemma_items_vnone(s: Seq<char>, k: int, t: Seq<char>, p: int, d: nat, cm: bool, acc: Seq<JsonValue>)
    requires
        0 <= k,
        k + t.len() <= s.len(),
        0 <= p < t.len(),
        value_at(t, p, d, cm) is None,
        value_at(s, k + p, d, cm) is None,
    ensures
        items_agree(s, k, t, p, d, cm, acc),
{
    reveal(items_agree);
}

/// Elements whose skip after a value fails.
#[verifier::spinoff_prover]
#[verifier::rlimit(100)]
proof fn lemma_items_snone(s: Seq<char>, k: int, t: Seq<char>, p: int, d: nat, cm: bool, acc: Seq<JsonValue>, v: JsonValue, q: int)
    requires
        0 <= k,
        k + t.len() <= s.len(),
        0 <= p < t.len(),
        first_value(s, k, t, p, d, cm, v, q),
        skip_ws(t, q, cm) is None,
        skip_ws(s, k + q, cm) is None,
    ensures
        items_agree(s, k, t, p, d, cm, acc),
{
    lemma_first_value_elim(s, k, t, p, d, cm, v, q);
    reveal(items_agree);
}

/// Elements that run to the end of `t`.
#[verifier::spinoff_prover]
#[verifier::rlimit(100)]
proof fn lemma_items_rend(s: Seq<char>, k: int, t: Seq<char>, p: int, d: nat, cm: bool, acc: Seq<JsonValue>, v: JsonValue, q: int)
    requires
        0 <= k,
        k + t.len() <= s.len(),
        0 <= p < t.len(),
        first_value(s, k, t, p, d, cm, v, q),
        skip_ws(t, q, cm) == Some(t.len() as int),
        skip_ws(s, k + q, cm) == Some(s.len() as int),
    ensures
        items_agree(s, k, t, p, d, cm, acc),
{
    lemma_first_value_elim(s, k, t, p, d, cm, v, q);
    reveal(items_agree);
}

/// The last element and the closing bracket.
#[verifier::spinoff_prover]
#[verifier::rlimit(100)]
proof fn lemma_items_close(s: Seq<char>, k: int, t: Seq<char>, p: int, d: nat, cm: bool, acc: Seq<JsonValue>, v: JsonValue, q: int, r: int)
    requires
        0 <= k,
        k + t.len() <= s.len(),
        0 <= p < t.len(),
        first_value(s, k, t, p, d, cm, v, q),
        skip_ws(t, q, cm) == Some(r),
        skip_ws(s, k + q, cm) == Some(k + r),
        q <= r < t.len(),
        s[k + r] == t[r],
        t[r] == ']',
    ensures
        items_agree(s, k, t, p, d, cm, acc),
{
    lemma_first_value_elim(s, k, t, p, d, cm, v, q);
    reveal(items_agree);
}

/// An element followed by something other than a comma or bracket.
#[verifier::spinoff_prover]
#[verifier::rlimit(100)]
proof fn lemma_items_bad(s: Seq<char>, k: int, t: Seq<char>, p: int, d: nat, cm: bool, acc: Seq<JsonValue>, v: JsonValue, q: int, r: int)
    requires
        0 <= k,
        k + t.len() <= s.len(),
        0 <= p < t.len(),
        first_value(s, k, t, p, d, cm, v, q),
        skip_ws(t, q, cm) == Some(r),
        skip_ws(s, k + q, cm) == Some(k + r),
        q <= r < t.len(),
        s[k + r] == t[r],
        t[r] != ']',
        t[r] != ',',
    ensures
        items_agree(s, k, t, p, d, cm, acc),
{
    lemma_first_value_elim(s, k, t, p, d, cm, v, q);
    reveal(items_agree);
}

/// A comma whose skip fails.
#[verifier::spinoff_prover]
#[verifier::rlimit(100)]
proof fn lemma_items_unone(s: Seq<char>, k: int, t: Seq<char>, p: int, d: nat, cm: bool, acc: Seq<JsonValue>, v: JsonValue, q: int, r: int)
    requires
        0 <= k,
        k + t.len() <= s.len(),
        0 <= p < t.len(),
        first_value(s, k, t, p, d, cm, v, q),
        skip_ws(t, q, cm) == Some(r),
        skip_ws(s, k + q, cm) == Some(k + r),
        q <= r < t.len(),
        s[k + r] == t[r],
        t[r] == ',',
        skip_ws(t, r + 1, cm) is None,
        skip_ws(s, k + r + 1, cm) is None,
    ensures
        items_agree(s, k, t, p, d, cm, acc),
{
    lemma_first_value_elim(s, k, t, p, d, cm, v, q);
    reveal(items_agree);
}

/// A comma followed by the end of `t`.
#[verifier::spinoff_prover]
#[verifier::rlimit(100)]
proof fn lemma_items_uend(s: Seq<char>, k: int, t: Seq<char>, p: int, d: nat, cm: bool, acc: Seq<JsonValue>, v: JsonValue, q: int, r: int)
    requires
        0 <= k,
        k + t.len() <= s.len(),
        0 <= p < t.len(),
        first_value(s, k, t, p, d, cm, v, q),
        skip_ws(t, q, cm) == Some(r),
        skip_ws(s, k + q, cm) == Some(k + r),
        q <= r < t.len(),
        s[k + r] == t[r],
        t[r] == ',',
        skip_ws(t, r + 1, cm) == Some(t.len() as int),
        skip_ws(s, k + r + 1, cm) == Some(s.len() as int),
        array_items(t, t.len() as int, d, cm, acc.push(v)) is None,
        array_items(s, s.len() as int, d, cm, acc.push(v)) is None,
    ensures
        items_agree(s, k, t, p, d, cm, acc),
{
    lemma_first_value_elim(s, k, t, p, d, cm, v, q);
    reveal(items_agree);
}

/// A trailing comma before the closing bracket.
#[verifier::spinoff_prover]
#[verifier::rlimit(100)]
proof fn lemma_items_trail(s: Seq<char>, k: int, t: Seq<char>, p: int, d: nat, cm: bool, acc: Seq<JsonValue>, v: JsonValue, q: int, r: int, u: int)
    requires
        0 <= k,
        k + t.len() <= s.len(),
        0 <= p < t.len(),
        first_value(s, k, t, p, d, cm, v, q),
        skip_ws(t, q, cm) == Some(r),
        skip_ws(s, k + q, cm) == Some(k + r),
        q <= r < t.len(),
        s[k + r] == t[r],
        t[r] == ',',
        skip_ws(t, r + 1, cm) == Some(u),
        skip_ws(s, k + r + 1, cm) == Some(k + u),
        r < u < t.len(),
        s[k + u] == t[u],
        t[u] == ']',
    ensures
        items_agree(s, k, t, p, d, cm, acc),
{
    lemma_first_value_elim(s, k, t, p, d, cm, v, q);
    reveal(items_agree);
}

/// An element followed by further elements.
#[verifier::spinoff_prover]
#[verifier::rlimit(100)]
proof fn lemma_items_next(s: Seq<char>, k: int, t: Seq<char>, p: int, d: nat, cm: bool, acc: Seq<JsonValue>, v: JsonValue, q: int, r: int, u: int)
    requires
        0 <= k,
        k + t.len() <= s.len(),
        0 <= p < t.len(),
        first_value(s, k, t, p, d, cm, v, q),
        skip_ws(t, q, cm) == Some(r),
        skip_ws(s, k + q, cm) == Some(k + r),
        q <= r < t.len(),
        s[k + r] == t[r],
        t[r] == ',',
        skip_ws(t, r + 1, cm) == Some(u),
        skip_ws(s, k + r + 1, cm) == Some(k + u),
        r < u < t.len(),
        s[k + u] == t[u],
        t[u] != ']',
        items_agree(s, k, t, u, d, cm, acc.push(v)),
    ensures
        items_agree(s, k, t, p, d, cm, acc),
{
    lemma_first_value_elim(s, k, t, p, d, cm, v, q);
    reveal(items_agree);
}

/// An array opened at `p` of `t` reads the same at `k + p` of `s`.
#[verifier::spinoff_prover]
#[verifier::rlimit(100)]
proof fn lemma_array_open_ext(s: Seq<char>, k: int, t: Seq<char>, p: int, d: nat, cm: bool)
    requires
        window(s, k, t),
        0 <= p <= t.len(),
    ensures
        array_open(s, k + p, d, cm) == shift_end(array_open(t, p, d, cm), k),
    decreases t.len() - p, 6int,
{
    lemma_at(s, k, t, 0);
    lemma_skip_ws_ext(s, k, t, p, cm);
    lemma_skip_ws_bounds(t, p, cm);
    match skip_ws(t, p, cm) {
        None => lemma_open_skipnone(s, k, t, p, d, cm),
        Some(q) => {
            if q == t.len() {
                lemma_items_at_end(t, d, cm, Seq::empty());
                lemma_items_at_end(s, d, cm, Seq::empty());
                lemma_open_end(s, k, t, p, d, cm);
            } else {
                lemma_at(s, k, t, q);
                if t[q] == ']' {
                    lemma_open_close(s, k, t, p, q, d, cm);
                } else {
                    lemma_array_items_ext(s, k, t, q, d, cm, Seq::empty());
                    reveal(items_agree);
                    lemma_open_items(s, k, t, p, q, d, cm);
                }
            }
        },
    }
}

/// The elements from `p` of `t` read the same from `k + p` of `s`.
#[verifier::spinoff_prover]
#[verifier::rlimit(100)]
proof fn lemma_array_items_ext(
    s: Seq<char>,
    k: int,
    t: Seq<char>,
    p: int,
    d: nat,
    cm: bool,
    acc: Seq<JsonValue>,
)
    requires
        window(s, k, t),
        0 <= p < t.len(),
    ensures
        items_agree(s, k, t, p, d, cm, acc),
    decreases t.len() - p, 3int,
{
    lemma_at(s, k, t, 0);
    lemma_value_at_ext(s, k, t, p, d, cm);
    lemma_value_at_bounds(t, p, d, cm);
    match value_at(t, p, d, cm) {
        None => lemma_items_vnone(s, k, t, p, d, cm, acc),
        Some((v, q)) => {
            lemma_first_value_intro(s, k, t, p, d, cm, v, q);
            lemma_items_after_ext(s, k, t, p, d, cm, acc, v, q);
        },
    }
}

/// The elements from `p` of `t`, once the first value is read in both.
#[verifier::spinoff_prover]
#[verifier::rlimit(100)]
proof fn lemma_items_after_ext(
    s: Seq<char>, k: int, t: Seq<char>, p: int, d: nat, cm: bool, acc: Seq<JsonValue>,
    v: JsonValue, q: int,
)
    requires
        window(s, k, t),
        0 <= p < t.len(),
        first_value(s, k, t, p, d, cm, v, q),
    ensures
        items_agree(s, k, t, p, d, cm, acc),
    decreases t.len() - p, 2int,
{
    lemma_first_value_bounds(s, k, t, p, d, cm, v, q);
    lemma_at(s, k, t, 0);
    lemma_skip_ws_ext(s, k, t, q, cm);
    lemma_skip_ws_bounds(t, q, cm);
    match skip_ws(t, q, cm) {
        None => lemma_items_snone(s, k, t, p, d, cm, acc, v, q),
        Some(r) => {
            if r == t.len() {
                lemma_items_rend(s, k, t, p, d, cm, acc, v, q);
            } else {
                lemma_at(s, k, t, r);
                if t[r] == ']' {
                    lemma_items_close(s, k, t, p, d, cm, acc, v, q, r);
                } else if t[r] != ',' {
                    lemma_items_bad(s, k, t, p, d, cm, acc, v, q, r);
                } else {
                    lemma_items_comma_ext(s, k, t, p, d, cm, acc, v, q, r);
                }
            }
        },
    }
}

/// The elements from `p` of `t`, once the first value and a comma after it are read.
#[verifier::spinoff_prover]
#[verifier::rlimit(100)]
proof fn lemma_items_comma_ext(
    s: Seq<char>, k: int, t: Seq<char>, p: int, d: nat, cm: bool, acc: Seq<JsonValue>,
    v: JsonValue, q: int, r: int,
)
    requires
        window(s, k, t),
        0 <= p < t.len(),
        first_value(s, k, t, p, d, cm, v, q),
        skip_ws(t, q, cm) == Some(r),
        skip_ws(s, k + q, cm) == Some(k + r),
        q <= r < t.len(),
        s[k + r] == t[r],
        t[r] == ',',
    ensures
        items_agree(s, k, t, p, d, cm, acc),
    decreases t.len() - p, 1int,
{
    lemma_first_value_bounds(s, k, t, p, d, cm, v, q);
    lemma_at(s, k, t, 0);
    lemma_skip_ws_ext(s, k, t, r + 1, cm);
    lemma_skip_ws_bounds(t, r + 1, cm);
    match skip_ws(t, r + 1, cm) {
        None => lemma_items_unone(s, k, t, p, d, cm, acc, v, q, r),
        Some(u) => {
            if u == t.len() {
                lemma_items_at_end(t, d, cm, acc.push(v));
                lemma_items_at_end(s, d, cm, acc.push(v));
                lemma_items_uend(s, k, t, p, d, cm, acc, v, q, r);
            } else {
                lemma_at(s, k, t, u);
                if t[u] == ']' {
                    lemma_items_trail(s, k, t, p, d, cm, acc, v, q, r, u);
                } else {
                    lemma_array_items_ext(s, k, t, u, d, cm, acc.push(v));
                    lemma_items_next(s, k, t, p, d, cm, acc, v, q, r, u);
                }
            }
        },
    }
}

/// A member's key read in `t` from `p`, and at `k` on in `s`.
#[verifier::opaque]
spec fn key_read(
    s: Seq<char>, k: int, t: Seq<char>, p: int, q: int, key: Seq<char>, k2: int, cm: bool,
) -> bool {
    &&& 0 <= k
    &&& k + t.len() <= s.len()
    &&& 0 <= p <= q < t.len()
    &&& skip_ws(t, p, cm) == Some(q)
    &&& skip_ws(s, k + p, cm) == Some(k + q)
    &&& s[k + q] == t[q]
    &&& t[q] == '"'
    &&& string_body(t, q + 1) == Some((key, k2))
    &&& string_body(s, k + q + 1) == Some((key, k + k2))
    &&& q + 1 < k2 <= t.len()
}

/// A member read in both up to its colon.
#[verifier::opaque]
spec fn colon_read(
    s: Seq<char>, k: int, t: Seq<char>, p: int, q: int, key: Seq<char>, k2: int, k3: int,
    cm: bool,
) -> bool {
    &&& key_read(s, k, t, p, q, key, k2, cm)
    &&& skip_ws(t, k2, cm) == Some(k3)
    &&& skip_ws(s, k + k2, cm) == Some(k + k3)
    &&& k2 <= k3 < t.len()
    &&& s[k + k3] == t[k3]
    &&& t[k3] == ':'
}

/// A member read in both up to the end of its value.
spec fn member_read(
    s: Seq<char>, k: int, t: Seq<char>, p: int, q: int, key: Seq<char>, k2: int, k3: int,
    v: JsonValue, q2: int, d: nat, cm: bool,
) -> bool {
    &&& colon_read(s, k, t, p, q, key, k2, k3, cm)
    &&& first_value(s, k, t, k3 + 1, d, cm, v, q2)
}

proof fn lemma_key_read_elim(
    s: Seq<char>, k: int, t: Seq<char>, p: int, q: int, key: Seq<char>, k2: int, cm: bool,
)
    requires
        key_read(s, k, t, p, q, key, k2, cm),
    ensures
        0 <= k,
        k + t.len() <= s.len(),
        0 <= p <= q < t.len(),
        skip_ws(t, p, cm) == Some(q),
        skip_ws(s, k + p, cm) == Some(k + q),
        s[k + q] == t[q],
        t[q] == '"',
        string_body(t, q + 1) == Some((key, k2)),
        string_body(s, k + q + 1) == Some((key, k + k2)),
        q + 1 < k2 <= t.len(),
{
    reveal(key_read);
}

proof fn lemma_colon_read_elim(
    s: Seq<char>, k: int, t: Seq<char>, p: int, q: int, key: Seq<char>, k2: int, k3: int,
    cm: bool,
)
    requires
        colon_read(s, k, t, p, q, key, k2, k3, cm),
    ensures
        key_read(s, k, t, p, q, key, k2, cm),
        skip_ws(t, k2, cm) == Some(k3),
        skip_ws(s, k + k2, cm) == Some(k + k3),
        k2 <= k3 < t.len(),
        s[k + k3] == t[k3],
        t[k3] == ':',
{
    reveal(colon_read);
}

proof fn lemma_key_read_bounds(
    s: Seq<char>, k: int, t: Seq<char>, p: int, q: int, key: Seq<char>, k2: int, cm: bool,
)
    requires
        key_read(s, k, t, p, q, key, k2, cm),
    ensures
        0 <= p <= q < t.len(),
        q + 1 < k2 <= t.len(),
{
    reveal(key_read);
}

proof fn lemma_colon_read_intro(
    s: Seq<char>, k: int, t: Seq<char>, p: int, q: int, key: Seq<char>, k2: int, k3: int,
    cm: bool,
)
    requires
        key_read(s, k, t, p, q, key, k2, cm),
        skip_ws(t, k2, cm) == Some(k3),
        skip_ws(s, k + k2, cm) == Some(k + k3),
        k2 <= k3 < t.len(),
        s[k + k3] == t[k3],
        t[k3] == ':',
    ensures
        colon_read(s, k, t, p, q, key, k2, k3, cm),
{
    reveal(colon_read);
}

proof fn lemma_colon_read_bounds(
    s: Seq<char>, k: int, t: Seq<char>, p: int, q: int, key: Seq<char>, k2: int, k3: int,
    cm: bool,
)
    requires
        colon_read(s, k, t, p, q, key, k2, k3, cm),
    ensures
        0 <= p < k3 < t.len(),
{
    reveal(colon_read);
    reveal(key_read);
}

proof fn lemma_member_read_bounds(
    s: Seq<char>, k: int, t: Seq<char>, p: int, q: int, key: Seq<char>, k2: int, k3: int,
    v: JsonValue, q2: int, d: nat, cm: bool,
)
    requires
        member_read(s, k, t, p, q, key, k2, k3, v, q2, d, cm),
    ensures
        0 <= p < q2 <= t.len(),
{
    lemma_colon_read_bounds(s, k, t, p, q, key, k2, k3, cm);
    lemma_first_value_bounds(s, k, t, k3 + 1, d, cm, v, q2);
}

/// A fresh member read in both, and the character after it.
spec fn member_after(
    s: Seq<char>, k: int, t: Seq<char>, p: int, q: int, key: Seq<char>, k2: int, k3: int,
    v: JsonValue, q2: int, r: int, d: nat, cm: bool, acc: Seq<(Seq<char>, JsonValue)>,
) -> bool {
    &&& member_read(s, k, t, p, q, key, k2, k3, v, q2, d, cm)
    &&& !(has_key(acc, key) || key.contains('\0'))
    &&& skip_ws(t, q2, cm) == Some(r)
    &&& skip_ws(s, k + q2, cm) == Some(k + r)
    &&& q2 <= r < t.len()
    &&& s[k + r] == t[r]
}

/// An object whose opening skip fails.
#[verifier::spinoff_prover]
#[verifier::rlimit(100)]
proof fn lemma_oopen_skipnone(s: Seq<char>, k: int, t: Seq<char>, p: int, d: nat, cm: bool)
    requires
        0 <= k,
        k + t.len() <= s.len(),
        0 <= p <= t.len(),
        skip_ws(t, p, cm) is None,
        skip_ws(s, k + p, cm) is None,
    ensures
        object_open(s, k + p, d, cm) == shift_end(object_open(t, p, d, cm), k),
{
}

/// An object opened at the end of `t`.
#[verifier::spinoff_prover]
#[verifier::rlimit(100)]
proof fn lemma_oopen_end(s: Seq<char>, k: int, t: Seq<char>, p: int, d: nat, cm: bool)
    requires
        0 <= k,
        k + t.len() <= s.len(),
        0 <= p <= t.len(),
        skip_ws(t, p, cm) == Some(t.len() as int),
        skip_ws(s, k + p, cm) == Some(s.len() as int),
        object_members(t, t.len() as int, d, cm, Seq::empty()) is None,
        object_members(s, s.len() as int, d, cm, Seq::empty()) is None,
    ensures
        object_open(s, k + p, d, cm) == shift_end(object_open(t, p, d, cm), k),
{
}

/// An empty object.
#[verifier::spinoff_prover]
#[verifier::rlimit(100)]
proof fn lemma_oopen_close(s: Seq<char>, k: int, t: Seq<char>, p: int, q: int, d: nat, cm: bool)
    requires
        0 <= k,
        k + t.len() <= s.len(),
        0 <= p <= q < t.len(),
        skip_ws(t, p, cm) == Some(q),
        skip_ws(s, k + p, cm) == Some(k + q),
        s[k + q] == t[q],
        t[q] == '}',
    ensures
        object_open(s, k + p, d, cm) == shift_end(object_open(t, p, d, cm), k),
{
}

/// An object with members.
#[verifier::spinoff_prover]
#[verifier::rlimit(100)]
proof fn lemma_oopen_members(s: Seq<char>, k: int, t: Seq<char>, p: int, q: int, d: nat, cm: bool)
    requires
        0 <= k,
        k + t.len() <= s.len(),
        0 <= p <= q < t.len(),
        skip_ws(t, p, cm) == Some(q),
        skip_ws(s, k + p, cm) == Some(k + q),
        s[k + q] == t[q],
        t[q] != '}',
        object_members(s, k + q, d, cm, Seq::empty()) == shift_end(
            object_members(t, q, d, cm, Seq::empty()),
            k,
        ),
    ensures
        object_open(s, k + p, d, cm) == shift_end(object_open(t, p, d, cm), k),
{
}

/// An object opened at `p` of `t` reads the same at `k + p` of `s`.
#[verifier::spinoff_prover]
#[verifier::rlimit(100)]
proof fn lemma_object_open_ext(s: Seq<char>, k: int, t: Seq<char>, p: int, d: nat, cm: bool)
    requires
        window(s, k, t),
        0 <= p <= t.len(),
    ensures
        object_open(s, k + p, d, cm) == shift_end(object_open(t, p, d, cm), k),
    decreases t.len() - p, 6int,
{
    lemma_at(s, k, t, 0);
    lemma_skip_ws_ext(s, k, t, p, cm);
    lemma_skip_ws_bounds(t, p, cm);
    match skip_ws(t, p, cm) {
        None => lemma_oopen_skipnone(s, k, t, p, d, cm),
        Some(q) => {
            if q == t.len() {
                lemma_members_at_end(t, d, cm, Seq::empty());
                lemma_members_at_end(s, d, cm, Seq::empty());
                lemma_oopen_end(s, k, t, p, d, cm);
            } else {
                lemma_at(s, k, t, q);
                if t[q] == '}' {
                    lemma_oopen_close(s, k, t, p, q, d, cm);
                } else {
                    lemma_object_members_ext(s, k, t, q, d, cm, Seq::empty());
                    reveal(members_agree);
                    lemma_oopen_members(s, k, t, p, q, d, cm);
                }
            }
        },
    }
}

/// Members whose first skip fails.
#[verifier::spinoff_prover]
#[verifier::rlimit(100)]
proof fn lemma_members_skipnone(
    s: Seq<char>, k: int, t: Seq<char>, p: int, d: nat, cm: bool,
    acc: Seq<(Seq<char>, JsonValue)>,
)
    requires
        0 <= k,
        k + t.len() <= s.len(),
        0 <= p <= t.len(),
        skip_ws(t, p, cm) is None,
        skip_ws(s, k + p, cm) is None,
    ensures
        members_agree(s, k, t, p, d, cm, acc),
{
    reveal(members_agree);
}

/// Members begun in the whitespace at the end.
#[verifier::spinoff_prover]
#[verifier::rlimit(100)]
proof fn lemma_members_end(
    s: Seq<char>, k: int, t: Seq<char>, p: int, d: nat, cm: bool,
    acc: Seq<(Seq<char>, JsonValue)>,
)
    requires
        0 <= k,
        k + t.len() <= s.len(),
        0 <= p <= t.len(),
        skip_ws(t, p, cm) == Some(t.len() as int),
        skip_ws(s, k + p, cm) == Some(s.len() as int),
    ensures
        members_agree(s, k, t, p, d, cm, acc),
{
    reveal(members_agree);
}

/// A member that does not begin with a quote.
#[verifier::spinoff_prover]
#[verifier::rlimit(100)]
proof fn lemma_members_noquote(
    s: Seq<char>, k: int, t: Seq<char>, p: int, q: int, d: nat, cm: bool,
    acc: Seq<(Seq<char>, JsonValue)>,
)
    requires
        0 <= k,
        k + t.len() <= s.len(),
        0 <= p <= q < t.len(),
        skip_ws(t, p, cm) == Some(q),
        skip_ws(s, k + p, cm) == Some(k + q),
        s[k + q] == t[q],
        t[q] != '"',
    ensures
        members_agree(s, k, t, p, d, cm, acc),
{
    reveal(members_agree);
}

/// A member whose key does not close.
#[verifier::spinoff_prover]
#[verifier::rlimit(100)]
proof fn lemma_members_keynone(
    s: Seq<char>, k: int, t: Seq<char>, p: int, q: int, d: nat, cm: bool,
    acc: Seq<(Seq<char>, JsonValue)>,
)
    requires
        0 <= k,
        k + t.len() <= s.len(),
        0 <= p <= q < t.len(),
        skip_ws(t, p, cm) == Some(q),
        skip_ws(s, k + p, cm) == Some(k + q),
        s[k + q] == t[q],
        t[q] == '"',
        string_body(t, q + 1) is None,
        string_body(s, k + q + 1) is None,
    ensures
        members_agree(s, k, t, p, d, cm, acc),
{
    reveal(members_agree);
}

/// A key whose following skip fails.
#[verifier::spinoff_prover]
#[verifier::rlimit(100)]
proof fn lemma_members_colskipnone(
    s: Seq<char>, k: int, t: Seq<char>, p: int, q: int, key: Seq<char>, k2: int, d: nat, cm: bool,
    acc: Seq<(Seq<char>, JsonValue)>,
)
    requires
        key_read(s, k, t, p, q, key, k2, cm),
        skip_ws(t, k2, cm) is None,
        skip_ws(s, k + k2, cm) is None,
    ensures
        members_agree(s, k, t, p, d, cm, acc),
{
    lemma_key_read_elim(s, k, t, p, q, key, k2, cm);
    reveal(members_agree);
}

/// A key followed by the end.
#[verifier::spinoff_prover]
#[verifier::rlimit(100)]
proof fn lemma_members_colend(
    s: Seq<char>, k: int, t: Seq<char>, p: int, q: int, key: Seq<char>, k2: int, d: nat, cm: bool,
    acc: Seq<(Seq<char>, JsonValue)>,
)
    requires
        key_read(s, k, t, p, q, key, k2, cm),
        skip_ws(t, k2, cm) == Some(t.len() as int),
        skip_ws(s, k + k2, cm) == Some(s.len() as int),
    ensures
        members_agree(s, k, t, p, d, cm, acc),
{
    lemma_key_read_elim(s, k, t, p, q, key, k2, cm);
    reveal(members_agree);
}

/// A key not followed by a colon.
#[verifier::spinoff_prover]
#[verifier::rlimit(100)]
proof fn lemma_members_nocolon(
    s: Seq<char>, k: int, t: Seq<char>, p: int, q: int, key: Seq<char>, k2: int, k3: int, d: nat, cm: bool,
    acc: Seq<(Seq<char>, JsonValue)>,
)
    requires
        key_read(s, k, t, p, q, key, k2, cm),
        skip_ws(t, k2, cm) == Some(k3),
        skip_ws(s, k + k2, cm) == Some(k + k3),
        k2 <= k3 < t.len(),
        s[k + k3] == t[k3],
        t[k3] != ':',
    ensures
        members_agree(s, k, t, p, d, cm, acc),
{
    lemma_key_read_elim(s, k, t, p, q, key, k2, cm);
    reveal(members_agree);
}

/// A member whose value fails.
#[verifier::spinoff_prover]
#[verifier::rlimit(100)]
proof fn lemma_members_valnone(
    s: Seq<char>, k: int, t: Seq<char>, p: int, q: int, key: Seq<char>, k2: int, k3: int, d: nat, cm: bool,
    acc: Seq<(Seq<char>, JsonValue)>,
)
    requires
        colon_read(s, k, t, p, q, key, k2, k3, cm),
        value_none(s, k, t, k3 + 1, d, cm),
    ensures
        members_agree(s, k, t, p, d, cm, acc),
{
    lemma_value_none_elim(s, k, t, k3 + 1, d, cm);
    lemma_colon_read_elim(s, k, t, p, q, key, k2, k3, cm);
    lemma_key_read_elim(s, k, t, p, q, key, k2, cm);
    reveal(members_agree);
}

/// A member whose key repeats an earlier one or holds a NUL character.
#[verifier::spinoff_prover]
#[verifier::rlimit(100)]
proof fn lemma_members_refused(
    s: Seq<char>, k: int, t: Seq<char>, p: int, q: int, key: Seq<char>, k2: int, k3: int, v: JsonValue, q2: int, d: nat, cm: bool,
    acc: Seq<(Seq<char>, JsonValue)>,
)
    requires
        member_read(s, k, t, p, q, key, k2, k3, v, q2, d, cm),
        has_key(acc, key) || key.contains('\0'),
    ensures
        members_agree(s, k, t, p, d, cm, acc),
{
    lemma_first_value_elim(s, k, t, k3 + 1, d, cm, v, q2);
    lemma_colon_read_elim(s, k, t, p, q, key, k2, k3, cm);
    lemma_key_read_elim(s, k, t, p, q, key, k2, cm);
    reveal(members_agree);
}

/// A member whose value runs to the end of the input reads as nothing.
#[verifier::spinoff_prover]
#[verifier::rlimit(100)]
proof fn lemma_members_run_out(
    x: Seq<char>, p: int, q: int, key: Seq<char>, k2: int, k3: int, v: JsonValue, q2: int,
    d: nat, cm: bool, acc: Seq<(Seq<char>, JsonValue)>,
)
    requires
        0 <= p <= q < x.len(),
        skip_ws(x, p, cm) == Some(q),
        x[q] == '"',
        string_body(x, q + 1) == Some((key, k2)),
        skip_ws(x, k2, cm) == Some(k3),
        k3 < x.len(),
        x[k3] == ':',
        value_at(x, k3 + 1, d, cm) == Some((v, q2)),
        !(has_key(acc, key) || key.contains('\0')),
        skip_ws(x, q2, cm) == Some(x.len() as int),
    ensures
        object_members(x, p, d, cm, acc) is None,
{
}

/// A member whose following skip fails.
#[verifier::spinoff_prover]
#[verifier::rlimit(100)]
proof fn lemma_members_afternone(
    s: Seq<char>, k: int, t: Seq<char>, p: int, q: int, key: Seq<char>, k2: int, k3: int, v: JsonValue, q2: int, d: nat, cm: bool,
    acc: Seq<(Seq<char>, JsonValue)>,
)
    requires
        member_read(s, k, t, p, q, key, k2, k3, v, q2, d, cm),
        !(has_key(acc, key) || key.contains('\0')),
        skip_ws(t, q2, cm) is None,
        skip_ws(s, k + q2, cm) is None,
    ensures
        members_agree(s, k, t, p, d, cm, acc),
{
    lemma_first_value_elim(s, k, t, k3 + 1, d, cm, v, q2);
    lemma_colon_read_elim(s, k, t, p, q, key, k2, k3, cm);
    lemma_key_read_elim(s, k, t, p, q, key, k2, cm);
    reveal(members_agree);
}

/// A member followed by the end.
#[verifier::spinoff_prover]
#[verifier::rlimit(100)]
proof fn lemma_members_afterend(
    s: Seq<char>, k: int, t: Seq<char>, p: int, q: int, key: Seq<char>, k2: int, k3: int, v: JsonValue, q2: int, d: nat, cm: bool,
    acc: Seq<(Seq<char>, JsonValue)>,
)
    requires
        member_read(s, k, t, p, q, key, k2, k3, v, q2, d, cm),
        !(has_key(acc, key) || key.contains('\0')),
        skip_ws(t, q2, cm) == Some(t.len() as int),
        skip_ws(s, k + q2, cm) == Some(s.len() as int),
    ensures
        members_agree(s, k, t, p, d, cm, acc),
{
    lemma_first_value_elim(s, k, t, k3 + 1, d, cm, v, q2);
    lemma_colon_read_elim(s, k, t, p, q, key, k2, k3, cm);
    lemma_key_read_elim(s, k, t, p, q, key, k2, cm);
    lemma_members_run_out(t, p, q, key, k2, k3, v, q2, d, cm, acc);
    lemma_members_run_out(s, k + p, k + q, key, k + k2, k + k3, v, k + q2, d, cm, acc);
    reveal(members_agree);
}

/// The last member and the closing brace.
#[verifier::spinoff_prover]
#[verifier::rlimit(100)]
proof fn lemma_members_close(
    s: Seq<char>, k: int, t: Seq<char>, p: int, q: int, key: Seq<char>, k2: int, k3: int, v: JsonValue, q2: int, r: int, d: nat, cm: bool,
    acc: Seq<(Seq<char>, JsonValue)>,
)
    requires
        member_after(s, k, t, p, q, key, k2, k3, v, q2, r, d, cm, acc),
        t[r] == '}',
    ensures
        members_agree(s, k, t, p, d, cm, acc),
{
    lemma_first_value_elim(s, k, t, k3 + 1, d, cm, v, q2);
    lemma_colon_read_elim(s, k, t, p, q, key, k2, k3, cm);
    lemma_key_read_elim(s, k, t, p, q, key, k2, cm);
    reveal(members_agree);
}

/// A member followed by something other than a comma or brace.
#[verifier::spinoff_prover]
#[verifier::rlimit(100)]
proof fn lemma_members_bad(
    s: Seq<char>, k: int, t: Seq<char>, p: int, q: int, key: Seq<char>, k2: int, k3: int, v: JsonValue, q2: int, r: int, d: nat, cm: bool,
    acc: Seq<(Seq<char>, JsonValue)>,
)
    requires
        member_after(s, k, t, p, q, key, k2, k3, v, q2, r, d, cm, acc),
        t[r] != '}',
        t[r] != ',',
    ensures
        members_agree(s, k, t, p, d, cm, acc),
{
    lemma_first_value_elim(s, k, t, k3 + 1, d, cm, v, q2);
    lemma_colon_read_elim(s, k, t, p, q, key, k2, k3, cm);
    lemma_key_read_elim(s, k, t, p, q, key, k2, cm);
    reveal(members_agree);
}

/// A comma whose skip fails.
#[verifier::spinoff_prover]
#[verifier::rlimit(100)]
proof fn lemma_members_commanone(
    s: Seq<char>, k: int, t: Seq<char>, p: int, q: int, key: Seq<char>, k2: int, k3: int, v: JsonValue, q2: int, r: int, d: nat, cm: bool,
    acc: Seq<(Seq<char>, JsonValue)>,
)
    requires
        member_after(s, k, t, p, q, key, k2, k3, v, q2, r, d, cm, acc),
        t[r] == ',',
        skip_ws(t, r + 1, cm) is None,
        skip_ws(s, k + r + 1, cm) is None,
    ensures
        members_agree(s, k, t, p, d, cm, acc),
{
    lemma_first_value_elim(s, k, t, k3 + 1, d, cm, v, q2);
    lemma_colon_read_elim(s, k, t, p, q, key, k2, k3, cm);
    lemma_key_read_elim(s, k, t, p, q, key, k2, cm);
    reveal(members_agree);
}

/// A comma followed by the end.
#[verifier::spinoff_prover]
#[verifier::rlimit(100)]
proof fn lemma_members_commaend(
    s: Seq<char>, k: int, t: Seq<char>, p: int, q: int, key: Seq<char>, k2: int, k3: int, v: JsonValue, q2: int, r: int, d: nat, cm: bool,
    acc: Seq<(Seq<char>, JsonValue)>,
)
    requires
        member_after(s, k, t, p, q, key, k2, k3, v, q2, r, d, cm, acc),
        t[r] == ',',
        skip_ws(t, r + 1, cm) == Some(t.len() as int),
        skip_ws(s, k + r + 1, cm) == Some(s.len() as int),
        object_members(t, t.len() as int, d, cm, acc.push((key, v))) is None,
        object_members(s, s.len() as int, d, cm, acc.push((key, v))) is None,
    ensures
        members_agree(s, k, t, p, d, cm, acc),
{
    lemma_first_value_elim(s, k, t, k3 + 1, d, cm, v, q2);
    lemma_colon_read_elim(s, k, t, p, q, key, k2, k3, cm);
    lemma_key_read_elim(s, k, t, p, q, key, k2, cm);
    reveal(members_agree);
}

/// A trailing comma before the closing brace.
#[verifier::spinoff_prover]
#[verifier::rlimit(100)]
proof fn lemma_members_trail(
    s: Seq<char>, k: int, t: Seq<char>, p: int, q: int, key: Seq<char>, k2: int, k3: int, v: JsonValue, q2: int, r: int, u: int, d: nat, cm: bool,
    acc: Seq<(Seq<char>, JsonValue)>,
)
    requires
        member_after(s, k, t, p, q, key, k2, k3, v, q2, r, d, cm, acc),
        t[r] == ',',
        skip_ws(t, r + 1, cm) == Some(u),
        skip_ws(s, k + r + 1, cm) == Some(k + u),
        r < u < t.len(),
        s[k + u] == t[u],
        t[u] == '}',
    ensures
        members_agree(s, k, t, p, d, cm, acc),
{
    lemma_first_value_elim(s, k, t, k3 + 1, d, cm, v, q2);
    lemma_colon_read_elim(s, k, t, p, q, key, k2, k3, cm);
    lemma_key_read_elim(s, k, t, p, q, key, k2, cm);
    reveal(members_agree);
}

/// A member followed by further members.
#[verifier::spinoff_prover]
#[verifier::rlimit(100)]
proof fn lemma_members_next(
    s: Seq<char>, k: int, t: Seq<char>, p: int, q: int, key: Seq<char>, k2: int, k3: int, v: JsonValue, q2: int, r: int, u: int, d: nat, cm: bool,
    acc: Seq<(Seq<char>, JsonValue)>,
)
    requires
        member_after(s, k, t, p, q, key, k2, k3, v, q2, r, d, cm, acc),
        t[r] == ',',
        skip_ws(t, r + 1, cm) == Some(u),
        skip_ws(s, k + r + 1, cm) == Some(k + u),
        r < u < t.len(),
        s[k + u] == t[u],
        t[u] != '}',
        members_agree(s, k, t, u, d, cm, acc.push((key, v))),
    ensures
        members_agree(s, k, t, p, d, cm, acc),
{
    lemma_first_value_elim(s, k, t, k3 + 1, d, cm, v, q2);
    lemma_colon_read_elim(s, k, t, p, q, key, k2, k3, cm);
    lemma_key_read_elim(s, k, t, p, q, key, k2, cm);
    reveal(members_agree);
}

/// The members from `p` of `t` read the same from `k + p` of `s`.
#[verifier::spinoff_prover]
#[verifier::rlimit(100)]
proof fn lemma_object_members_ext(
    s: Seq<char>,
    k: int,
    t: Seq<char>,
    p: int,
    d: nat,
    cm: bool,
    acc: Seq<(Seq<char>, JsonValue)>,
)
    requires
        window(s, k, t),
        0 <= p < t.len(),
    ensures
        members_agree(s, k, t, p, d, cm, acc),
    decreases t.len() - p, 5int,
{
    lemma_at(s, k, t, 0);
    lemma_skip_ws_ext(s, k, t, p, cm);
    lemma_skip_ws_bounds(t, p, cm);
    match skip_ws(t, p, cm) {
        None => lemma_members_skipnone(s, k, t, p, d, cm, acc),
        Some(q) => {
            if q == t.len() {
                lemma_members_end(s, k, t, p, d, cm, acc);
            } else {
                lemma_at(s, k, t, q);
                if t[q] != '"' {
                    lemma_members_noquote(s, k, t, p, q, d, cm, acc);
                } else {
                    lemma_string_body_ext(s, k, t, q + 1);
                    lemma_string_body_bounds(t, q + 1);
                    match string_body(t, q + 1) {
                        None => lemma_members_keynone(s, k, t, p, q, d, cm, acc),
                        Some((key, k2)) => {
                            reveal(key_read);
                            lemma_member_key_ext(s, k, t, p, q, key, k2, d, cm, acc);
                        },
                    }
                }
            }
        },
    }
}

/// The members from `p` of `t`, once the first key is read in both.
#[verifier::spinoff_prover]
#[verifier::rlimit(100)]
proof fn lemma_member_key_ext(
    s: Seq<char>, k: int, t: Seq<char>, p: int, q: int, key: Seq<char>, k2: int, d: nat,
    cm: bool, acc: Seq<(Seq<char>, JsonValue)>,
)
    requires
        window(s, k, t),
        key_read(s, k, t, p, q, key, k2, cm),
    ensures
        members_agree(s, k, t, p, d, cm, acc),
    decreases t.len() - p, 4int,
{
    lemma_key_read_bounds(s, k, t, p, q, key, k2, cm);
    lemma_at(s, k, t, 0);
    lemma_skip_ws_ext(s, k, t, k2, cm);
    lemma_skip_ws_bounds(t, k2, cm);
    match skip_ws(t, k2, cm) {
        None => lemma_members_colskipnone(s, k, t, p, q, key, k2, d, cm, acc),
        Some(k3) => {
            if k3 == t.len() {
                lemma_members_colend(s, k, t, p, q, key, k2, d, cm, acc);
            } else {
                lemma_at(s, k, t, k3);
                if t[k3] != ':' {
                    lemma_members_nocolon(s, k, t, p, q, key, k2, k3, d, cm, acc);
                } else {
                    lemma_colon_read_intro(s, k, t, p, q, key, k2, k3, cm);
                    lemma_member_colon_ext(s, k, t, p, q, key, k2, k3, d, cm, acc);
                }
            }
        },
    }
}

/// The members from `p` of `t`, once the first key and its colon are read in both.
#[verifier::spinoff_prover]
#[verifier::rlimit(100)]
proof fn lemma_member_colon_ext(
    s: Seq<char>, k: int, t: Seq<char>, p: int, q: int, key: Seq<char>, k2: int, k3: int,
    d: nat, cm: bool, acc: Seq<(Seq<char>, JsonValue)>,
)
    requires
        window(s, k, t),
        colon_read(s, k, t, p, q, key, k2, k3, cm),
    ensures
        members_agree(s, k, t, p, d, cm, acc),
    decreases t.len() - p, 3int,
{
    lemma_colon_read_bounds(s, k, t, p, q, key, k2, k3, cm);
    lemma_value_split(s, k, t, k3 + 1, d, cm);
    if value_none(s, k, t, k3 + 1, d, cm) {
        lemma_members_valnone(s, k, t, p, q, key, k2, k3, d, cm, acc);
    } else {
        let (v, q2): (JsonValue, int) = choose|v: JsonValue, q2: int|
            #[trigger] first_value(s, k, t, k3 + 1, d, cm, v, q2);
        lemma_member_after_ext(s, k, t, p, q, key, k2, k3, v, q2, d, cm, acc);
    }
}

/// The members from `p` of `t`, once the first member is read in both.
#[verifier::spinoff_prover]
#[verifier::rlimit(100)]
proof fn lemma_member_after_ext(
    s: Seq<char>, k: int, t: Seq<char>, p: int, q: int, key: Seq<char>, k2: int, k3: int,
    v: JsonValue, q2: int, d: nat, cm: bool, acc: Seq<(Seq<char>, JsonValue)>,
)
    requires
        window(s, k, t),
        member_read(s, k, t, p, q, key, k2, k3, v, q2, d, cm),
    ensures
        members_agree(s, k, t, p, d, cm, acc),
    decreases t.len() - p, 2int,
{
    lemma_member_read_bounds(s, k, t, p, q, key, k2, k3, v, q2, d, cm);
    lemma_at(s, k, t, 0);
    if has_key(acc, key) || key.contains('\0') {
        lemma_members_refused(s, k, t, p, q, key, k2, k3, v, q2, d, cm, acc);
    } else {
        lemma_skip_ws_ext(s, k, t, q2, cm);
        lemma_skip_ws_bounds(t, q2, cm);
        match skip_ws(t, q2, cm) {
            None => lemma_members_afternone(s, k, t, p, q, key, k2, k3, v, q2, d, cm, acc),
            Some(r) => {
                if r == t.len() {
                    lemma_members_afterend(s, k, t, p, q, key, k2, k3, v, q2, d, cm, acc);
                } else {
                    lemma_at(s, k, t, r);
                    if t[r] == '}' {
                        lemma_members_close(s, k, t, p, q, key, k2, k3, v, q2, r, d, cm, acc);
                    } else if t[r] != ',' {
                        lemma_members_bad(s, k, t, p, q, key, k2, k3, v, q2, r, d, cm, acc);
                    } else {
                        lemma_member_comma_ext(s, k, t, p, q, key, k2, k3, v, q2, r, d, cm, acc);
                    }
                }
            },
        }
    }
}

/// The members from `p` of `t`, once the first member and a comma after it are read.
#[verifier::spinoff_prover]
#[verifier::rlimit(100)]
proof fn lemma_member_comma_ext(
    s: Seq<char>, k: int, t: Seq<char>, p: int, q: int, key: Seq<char>, k2: int, k3: int,
    v: JsonValue, q2: int, r: int, d: nat, cm: bool, acc: Seq<(Seq<char>, JsonValue)>,
)
    requires
        window(s, k, t),
        member_after(s, k, t, p, q, key, k2, k3, v, q2, r, d, cm, acc),
        t[r] == ',',
    ensures
        members_agree(s, k, t, p, d, cm, acc),
    decreases t.len() - p, 1int,
{
    lemma_member_read_bounds(s, k, t, p, q, key, k2, k3, v, q2, d, cm);
    lemma_at(s, k, t, 0);
    lemma_skip_ws_ext(s, k, t, r + 1, cm);
    lemma_skip_ws_bounds(t, r + 1, cm);
    match skip_ws(t, r + 1, cm) {
        None => lemma_members_commanone(s, k, t, p, q, key, k2, k3, v, q2, r, d, cm, acc),
        Some(u) => {
            if u == t.len() {
                lemma_members_at_end(t, d, cm, acc.push((key, v)));
                lemma_members_at_end(s, d, cm, acc.push((key, v)));
                lemma_members_commaend(s, k, t, p, q, key, k2, k3, v, q2, r, d, cm, acc);
            } else {
                lemma_at(s, k, t, u);
                if t[u] == '}' {
                    lemma_members_trail(s, k, t, p, q, key, k2, k3, v, q2, r, u, d, cm, acc);
                } else {
                    lemma_object_members_ext(s, k, t, u, d, cm, acc.push((key, v)));
                    lemma_members_next(s, k, t, p, q, key, k2, k3, v, q2, r, u, d, cm, acc);
                }
            }
        },
    }
}

/// Skipping from `i` reaches what skipping from `k` does, when only whitespace lies between.
proof fn lemma_lead_skip(s: Seq<char>, k: int, i: int, cm: bool)
    requires
        0 <= i <= k <= s.len(),
        forall|j: int| i <= j < k ==> is_ws(#[trigger] s[j]),
    ensures
        skip_ws(s, i, cm) == skip_ws(s, k, cm),
    decreases k - i,
{
    if i < k {
        lemma_lead_skip(s, k, i + 1, cm);
    }
}

/// Whitespace around a document's value never changes what it parses to: with `w1` and
/// `w2` made of spaces, tabs, carriage returns and newlines alone, `w1 + t + w2` parses as
/// `t` does, whenever `t` does not itself begin with a byte order mark.
pub proof fn law_whitespace_around_value(w1: Seq<char>, t: Seq<char>, w2: Seq<char>, cm: bool)
    requires
        forall|i: int| 0 <= i < w1.len() ==> is_ws(#[trigger] w1[i]),
        forall|i: int| 0 <= i < w2.len() ==> is_ws(#[trigger] w2[i]),
        t.len() == 0 || t[0] != '\u{FEFF}',
    ensures
        parse_document(w1 + t + w2, cm) == parse_document(t, cm),
{
    let s = w1 + t + w2;
    let k = w1.len() as int;
    assert forall|i: int| 0 <= i < t.len() implies s[k + i] == #[trigger] t[i] by {}
    assert forall|j: int| k + t.len() <= j < s.len() implies is_ws(#[trigger] s[j]) by {
        assert(s[j] == w2[j - k - t.len()]);
    }
    assert forall|j: int| 0 <= j < k implies is_ws(#[trigger] s[j]) by {
        assert(s[j] == w1[j]);
    }
    assert(window(s, k, t)) by {
        reveal(window);
    }
    if s.len() > 0 {
        if k > 0 {
            assert(is_ws(s[0]));
        } else if t.len() > 0 {
            assert(s[0] == t[0]);
        } else {
            assert(s[0] == w2[0]);
        }
    }
    assert(without_bom(s) == s);
    assert(without_bom(t) == t);
    lemma_lead_skip(s, k, 0, cm);
    assert(value_at(s, 0, 0, cm) == value_at(s, k, 0, cm));
    lemma_value_at_ext(s, k, t, 0, 0, cm);
    lemma_value_at_bounds(t, 0, 0, cm);
    if let Some((v, q)) = value_at(t, 0, 0, cm) {
        lemma_skip_ws_ext(s, k, t, q, cm);
        lemma_skip_ws_bounds(t, q, cm);
    }
}

} // verus!
