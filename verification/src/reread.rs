//! Reading back what was read: every value the parser accepts is one that `serialized`
//! writes in a form the parser reads back as the same value.
use vstd::prelude::*;
use crate::value::JsonValue;
use crate::grammar::{
    skip_ws, string_body, number_end, number_tail_end, is_exponent_mark, starts_number,
    has_key, value_at, array_open, array_items, object_open, object_members, without_bom,
    parse_document, lemma_skip_ws_bounds, lemma_string_body_bounds, MAX_NESTING_DEPTH,
};
use crate::parser::{lemma_number_end_in_lexeme, lemma_digit_run_bound};
use crate::object::keys_distinct;
use crate::roundtrip::{readable_at, law_read_after_write};
use crate::serializer::serialized;

verus! {

/// A number lexeme ends after it starts, within the input.
pub proof fn lemma_number_end_bound(s: Seq<char>, p: int)
    requires
        0 <= p,
    ensures
        number_end(s, p) matches Some(e) ==> p < e <= s.len(),
{
    let a = if 0 <= p < s.len() && s[p] == '-' {
        p + 1
    } else {
        p
    };
    if 0 <= a < s.len() {
        lemma_digit_run_bound(s, a + 1);
        let b = if s[a] == '0' {
            a + 1
        } else {
            a + 1 + crate::grammar::digit_run(s, a + 1)
        };
        lemma_number_tail_end_bound(s, b, s[a] == '0');
    }
}

/// The end of a number's tail lies within the input and not before the tail.
proof fn lemma_number_tail_end_bound(s: Seq<char>, b: int, bare_zero: bool)
    requires
        0 <= b <= s.len(),
    ensures
        number_tail_end(s, b, bare_zero) matches Some(e) ==> b <= e <= s.len(),
{
    lemma_digit_run_bound(s, b + 1);
    let has_dot = 0 <= b < s.len() && s[b] == '.';
    let c = if has_dot {
        b + 1 + crate::grammar::digit_run(s, b + 1)
    } else {
        b
    };
    lemma_digit_run_bound(s, c + 1);
    lemma_digit_run_bound(s, c + 2);
}

/// Every value read at `p` inside `d` containers is readable at that depth.
proof fn lemma_value_at_readable(s: Seq<char>, p: int, d: nat, cm: bool)
    ensures
        value_at(s, p, d, cm) matches Some((v, q)) ==> readable_at(v, d),
    decreases s.len() - p, 0int,
{
    reveal(readable_at);
    if 0 <= p <= s.len() {
        lemma_skip_ws_bounds(s, p, cm);
        if let Some(q) = skip_ws(s, p, cm) {
            if d < MAX_NESTING_DEPTH && q < s.len() {
                if s[q] == '[' {
                    lemma_array_open_readable(s, q + 1, d + 1, cm);
                } else if s[q] == '{' {
                    lemma_object_open_readable(s, q + 1, d + 1, cm);
                } else if s[q] != '"' && s[q] != 'n' && s[q] != 't' && s[q] != 'f' && starts_number(
                    s[q],
                ) {
                    lemma_number_end_bound(s, q);
                    if let Some(e) = number_end(s, q) {
                        lemma_number_end_in_lexeme(s, q, e);
                    }
                }
            }
        }
    }
}

/// The elements of an array read from `p` are readable at depth `d`.
proof fn lemma_array_open_readable(s: Seq<char>, p: int, d: nat, cm: bool)
    ensures
        array_open(s, p, d, cm) matches Some((v, r)) ==> v is Array && forall|i: int|
            0 <= i < v->Array_0.len() ==> readable_at(#[trigger] v->Array_0[i], d),
    decreases s.len() - p, 2int,
{
    if 0 <= p <= s.len() {
        lemma_skip_ws_bounds(s, p, cm);
        if let Some(q) = skip_ws(s, p, cm) {
            if !(q < s.len() && s[q] == ']') {
                lemma_array_items_readable(s, q, d, cm, Seq::empty());
            }
        }
    }
}

/// The elements of an array read from `p`, after the readable elements `acc`, are readable.
proof fn lemma_array_items_readable(s: Seq<char>, p: int, d: nat, cm: bool, acc: Seq<JsonValue>)
    requires
        forall|i: int| 0 <= i < acc.len() ==> readable_at(#[trigger] acc[i], d),
    ensures
        array_items(s, p, d, cm, acc) matches Some((v, r)) ==> v is Array && forall|i: int|
            0 <= i < v->Array_0.len() ==> readable_at(#[trigger] v->Array_0[i], d),
    decreases s.len() - p, 1int,
{
    if 0 <= p <= s.len() {
        lemma_value_at_readable(s, p, d, cm);
        if let Some((v, q)) = value_at(s, p, d, cm) {
            let acc2 = acc.push(v);
            assert forall|i: int| 0 <= i < acc2.len() implies readable_at(#[trigger] acc2[i], d) by {
                if i < acc.len() {
                    assert(acc2[i] == acc[i]);
                }
            }
            if let Some(r) = skip_ws(s, q, cm) {
                if 0 <= r < s.len() && s[r] == ',' {
                    if let Some(t) = skip_ws(s, r + 1, cm) {
                        if !(0 <= t < s.len() && s[t] == ']') && p < t <= s.len() {
                            lemma_array_items_readable(s, t, d, cm, acc2);
                        }
                    }
                }
            }
        }
    }
}

/// What the members of an object read back need: distinct keys, none holding NUL, and
/// readable values.
pub open spec fn members_ok(ms: Seq<(Seq<char>, JsonValue)>, d: nat) -> bool {
    &&& keys_distinct(ms)
    &&& forall|i: int|
        0 <= i < ms.len() ==> !(#[trigger] ms[i]).0.contains('\0') && readable_at(ms[i].1, d)
}

/// The members of an object read from `p` are fit to be written and read back.
proof fn lemma_object_open_readable(s: Seq<char>, p: int, d: nat, cm: bool)
    ensures
        object_open(s, p, d, cm) matches Some((v, r)) ==> v is Object && members_ok(
            v->Object_0,
            d,
        ),
    decreases s.len() - p, 2int,
{
    if 0 <= p <= s.len() {
        lemma_skip_ws_bounds(s, p, cm);
        if let Some(q) = skip_ws(s, p, cm) {
            if !(q < s.len() && s[q] == '}') {
                lemma_object_members_readable(s, q, d, cm, Seq::empty());
            }
        }
    }
}

/// The members of an object read from `p`, after the members `acc`, are fit to be written
/// and read back when those are.
proof fn lemma_object_members_readable(
    s: Seq<char>,
    p: int,
    d: nat,
    cm: bool,
    acc: Seq<(Seq<char>, JsonValue)>,
)
    requires
        members_ok(acc, d),
    ensures
        object_members(s, p, d, cm, acc) matches Some((v, r)) ==> v is Object && members_ok(
            v->Object_0,
            d,
        ),
    decreases s.len() - p, 1int,
{
    if 0 <= p <= s.len() {
        lemma_skip_ws_bounds(s, p, cm);
        if let Some(q) = skip_ws(s, p, cm) {
            if q < s.len() && s[q] == '"' {
                lemma_string_body_bounds(s, q + 1);
                if let Some((key, k2)) = string_body(s, q + 1) {
                    lemma_skip_ws_bounds(s, k2, cm);
                    if let Some(k3) = skip_ws(s, k2, cm) {
                        if k3 < s.len() && s[k3] == ':' {
                            lemma_value_at_readable(s, k3 + 1, d, cm);
                            if let Some((v, q2)) = value_at(s, k3 + 1, d, cm) {
                                if !has_key(acc, key) && !key.contains('\0') {
                                    let acc2 = acc.push((key, v));
                                    assert(members_ok(acc2, d)) by {
                                        assert forall|i: int, j: int|
                                            0 <= i < j < acc2.len() implies #[trigger] acc2[i].0
                                            != #[trigger] acc2[j].0 by {
                                            if j == acc.len() {
                                                assert(acc2[i] == acc[i]);
                                                if acc[i].0 == key {
                                                    assert(has_key(acc, key));
                                                }
                                            } else {
                                                assert(acc2[i] == acc[i]);
                                                assert(acc2[j] == acc[j]);
                                            }
                                        }
                                        assert forall|i: int| 0 <= i < acc2.len() implies !(
                                        #[trigger] acc2[i]).0.contains('\0') && readable_at(
                                            acc2[i].1,
                                            d,
                                        ) by {
                                            if i < acc.len() {
                                                assert(acc2[i] == acc[i]);
                                            }
                                        }
                                    }
                                    if let Some(r) = skip_ws(s, q2, cm) {
                                        if 0 <= r < s.len() && s[r] == ',' {
                                            if let Some(t) = skip_ws(s, r + 1, cm) {
                                                if !(0 <= t < s.len() && s[t] == '}') && p < t
                                                    <= s.len() {
                                                    lemma_object_members_readable(
                                                        s,
                                                        t,
                                                        d,
                                                        cm,
                                                        acc2,
                                                    );
                                                }
                                            }
                                        }
                                    }
                                }
                            }
                        }
                    }
                }
            }
        }
    }
}

/// Every document the parser accepts can be written and read back: writing the value it
/// reads, compact or pretty, and reading that text, with or without comments allowed,
/// gives the same value.
pub proof fn law_write_after_read(s: Seq<char>, cm: bool, pretty: bool, cm2: bool)
    requires
        parse_document(s, cm) is Some,
    ensures
        readable_at(parse_document(s, cm)->0, 0),
        parse_document(serialized(parse_document(s, cm)->0, pretty, 0), cm2) == parse_document(
            s,
            cm,
        ),
{
    lemma_value_at_readable(without_bom(s), 0, 0, cm);
    law_read_after_write(parse_document(s, cm)->0, pretty, cm2);
}

} // verus!
