//! Allowing comments only adds documents: what parses without comments parses the same
//! way with them allowed.
use vstd::prelude::*;
use crate::grammar::{
    is_ws, skip_ws, string_body, value_at, array_open, array_items, object_open,
    object_members, without_bom, parse_document, lemma_skip_ws_bounds,
    lemma_string_body_bounds,
};

verus! {

/// Skipping whitespace without comments stops at a character that is not whitespace, and
/// skipping with comments allowed stops there too unless that character is `/`.
proof fn lemma_skip_plain(s: Seq<char>, p: int)
    requires
        0 <= p <= s.len(),
    ensures
        skip_ws(s, p, false) is Some,
        p <= skip_ws(s, p, false)->0 <= s.len(),
        skip_ws(s, p, false)->0 == s.len() || !is_ws(s[skip_ws(s, p, false)->0]),
        (skip_ws(s, p, false)->0 == s.len() || s[skip_ws(s, p, false)->0] != '/') ==> skip_ws(
            s,
            p,
            true,
        ) == skip_ws(s, p, false),
    decreases s.len() - p,
{
    if p < s.len() && is_ws(s[p]) {
        lemma_skip_plain(s, p + 1);
    }
}

/// A value read without comments is read the same way with comments allowed.
proof fn lemma_value_at_comments(s: Seq<char>, p: int, d: nat)
    ensures
        value_at(s, p, d, false) is Some ==> value_at(s, p, d, true) == value_at(s, p, d, false),
    decreases s.len() - p, 0int,
{
    if 0 <= p <= s.len() {
        lemma_skip_plain(s, p);
        lemma_skip_ws_bounds(s, p, false);
        let q = skip_ws(s, p, false)->0;
        if q < s.len() {
            if s[q] == '[' {
                lemma_array_open_comments(s, q + 1, d + 1);
            } else if s[q] == '{' {
                lemma_object_open_comments(s, q + 1, d + 1);
            }
        }
    }
}

/// A value read at a place where skipping without comments leads nowhere further starts
/// there with a character other than `/`.
proof fn lemma_value_start(s: Seq<char>, p: int, d: nat)
    requires
        0 <= p <= s.len(),
        value_at(s, p, d, false) is Some,
        skip_ws(s, p, false) == Some(p),
    ensures
        p < s.len(),
        s[p] != '/',
{
}

/// An array read without comments is read the same way with comments allowed.
proof fn lemma_array_open_comments(s: Seq<char>, p: int, d: nat)
    ensures
        array_open(s, p, d, false) is Some ==> array_open(s, p, d, true) == array_open(
            s,
            p,
            d,
            false,
        ),
    decreases s.len() - p, 2int,
{
    if 0 <= p <= s.len() {
        lemma_skip_plain(s, p);
        let q = skip_ws(s, p, false)->0;
        if !(q < s.len() && s[q] == ']') {
            lemma_array_items_comments(s, q, d, Seq::empty());
            if array_open(s, p, d, false) is Some {
                lemma_skip_plain(s, q);
                lemma_value_start(s, q, d);
            }
        }
    }
}

/// The elements of an array read without comments are read the same way with comments
/// allowed.
proof fn lemma_array_items_comments(s: Seq<char>, p: int, d: nat, acc: Seq<crate::value::JsonValue>)
    ensures
        array_items(s, p, d, false, acc) is Some ==> array_items(s, p, d, true, acc)
            == array_items(s, p, d, false, acc),
    decreases s.len() - p, 1int,
{
    if 0 <= p <= s.len() {
        lemma_value_at_comments(s, p, d);
        if let Some((v, q)) = value_at(s, p, d, false) {
            if 0 <= q <= s.len() {
                lemma_skip_plain(s, q);
                let r = skip_ws(s, q, false)->0;
                if 0 <= r < s.len() && s[r] == ',' {
                    lemma_skip_plain(s, r + 1);
                    let t = skip_ws(s, r + 1, false)->0;
                    if !(0 <= t < s.len() && s[t] == ']') && p < t <= s.len() {
                        lemma_array_items_comments(s, t, d, acc.push(v));
                        if array_items(s, t, d, false, acc.push(v)) is Some {
                            lemma_skip_plain(s, t);
                            lemma_value_start(s, t, d);
                        }
                    }
                }
            }
        }
    }
}

/// An object read without comments is read the same way with comments allowed.
proof fn lemma_object_open_comments(s: Seq<char>, p: int, d: nat)
    ensures
        object_open(s, p, d, false) is Some ==> object_open(s, p, d, true) == object_open(
            s,
            p,
            d,
            false,
        ),
    decreases s.len() - p, 2int,
{
    if 0 <= p <= s.len() {
        lemma_skip_plain(s, p);
        let q = skip_ws(s, p, false)->0;
        if !(q < s.len() && s[q] == '}') {
            lemma_object_members_comments(s, q, d, Seq::empty());
        }
    }
}

/// The members of an object read without comments are read the same way with comments
/// allowed.
proof fn lemma_object_members_comments(
    s: Seq<char>,
    p: int,
    d: nat,
    acc: Seq<(Seq<char>, crate::value::JsonValue)>,
)
    ensures
        object_members(s, p, d, false, acc) is Some ==> object_members(s, p, d, true, acc)
            == object_members(s, p, d, false, acc),
    decreases s.len() - p, 1int,
{
    if 0 <= p <= s.len() {
        lemma_skip_plain(s, p);
        let q = skip_ws(s, p, false)->0;
        if q < s.len() && s[q] == '"' {
            lemma_string_body_bounds(s, q + 1);
            if let Some((key, k2)) = string_body(s, q + 1) {
                lemma_skip_plain(s, k2);
                let k3 = skip_ws(s, k2, false)->0;
                if k3 < s.len() && s[k3] == ':' {
                    lemma_value_at_comments(s, k3 + 1, d);
                    if let Some((v, q2)) = value_at(s, k3 + 1, d, false) {
                        if 0 <= q2 <= s.len() {
                            lemma_skip_plain(s, q2);
                            let r = skip_ws(s, q2, false)->0;
                            if 0 <= r < s.len() && s[r] == ',' {
                                lemma_skip_plain(s, r + 1);
                                let t = skip_ws(s, r + 1, false)->0;
                                if !(0 <= t < s.len() && s[t] == '}') && p < t <= s.len() {
                                    let acc2 = acc.push((key, v));
                                    lemma_object_members_comments(s, t, d, acc2);
                                    if object_members(s, t, d, false, acc2) is Some {
                                        lemma_skip_plain(s, t);
                                    }
                                }
                            }
                        }
                    }
                }
            }
        }
    }
}

/// Allowing comments only adds documents: every document that parses without comments
/// parses to the same value with comments allowed.
pub proof fn law_comments_extend(s: Seq<char>)
    requires
        parse_document(s, false) is Some,
    ensures
        parse_document(s, true) == parse_document(s, false),
{
    let t = without_bom(s);
    lemma_value_at_comments(t, 0, 0);
    if let Some((v, q)) = value_at(t, 0, 0, false) {
        if 0 <= q <= t.len() {
            lemma_skip_plain(t, q);
        }
    }
}

} // verus!
