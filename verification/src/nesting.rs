//! The nesting limit: `n` nested empty arrays parse exactly when `n` is at most the limit.
use vstd::prelude::*;
use crate::value::JsonValue;
use crate::grammar::{skip_ws, value_at, array_open, array_items, parse_document, without_bom, MAX_NESTING_DEPTH};

verus! {

/// `n` opening brackets followed by `n` closing ones.
pub open spec fn brackets(n: nat) -> Seq<char> {
    Seq::new(2 * n, |i: int| if i < n { '[' } else { ']' })
}

/// `k` arrays nested inside one another around an empty array.
pub open spec fn nested_arrays(k: nat) -> JsonValue
    decreases k,
{
    if k == 0 {
        JsonValue::Array(Seq::empty())
    } else {
        JsonValue::Array(seq![nested_arrays((k - 1) as nat)])
    }
}

/// Within the limit, the array opened at position `i` holds the arrays opened after it.
proof fn lemma_brackets_read(n: nat, i: int, cm: bool)
    requires
        n <= MAX_NESTING_DEPTH,
        0 <= i < n,
    ensures
        value_at(brackets(n), i, i as nat, cm) == Some(
            (nested_arrays((n - 1 - i) as nat), 2 * n - i),
        ),
    decreases n - i,
{
    let s = brackets(n);
    assert(s[i] == '[');
    assert(skip_ws(s, i, cm) == Some(i));
    assert(value_at(s, i, i as nat, cm) == array_open(s, i + 1, (i + 1) as nat, cm));
    assert(skip_ws(s, i + 1, cm) == Some(i + 1));
    if i + 1 == n {
        assert(s[i + 1] == ']');
    } else {
        assert(s[i + 1] == '[');
        lemma_brackets_read(n, i + 1, cm);
        let q = 2 * n - i - 1;
        assert(s[q] == ']');
        assert(skip_ws(s, q, cm) == Some(q));
        assert(array_items(s, i + 1, (i + 1) as nat, cm, Seq::empty()) == Some(
            (JsonValue::Array(seq![nested_arrays((n - 2 - i) as nat)]), q + 1),
        ));
        assert(Seq::<JsonValue>::empty().push(nested_arrays((n - 2 - i) as nat)) =~= seq![
            nested_arrays((n - 2 - i) as nat),
        ]);
    }
}

/// Past the limit, no array opened at or before the limit closes.
proof fn lemma_brackets_refused(n: nat, i: int, cm: bool)
    requires
        n > MAX_NESTING_DEPTH,
        0 <= i <= MAX_NESTING_DEPTH,
    ensures
        value_at(brackets(n), i, i as nat, cm) is None,
    decreases MAX_NESTING_DEPTH - i,
{
    let s = brackets(n);
    assert(s[i] == '[');
    assert(skip_ws(s, i, cm) == Some(i));
    if i < MAX_NESTING_DEPTH {
        assert(s[i + 1] == '[');
        assert(skip_ws(s, i + 1, cm) == Some(i + 1));
        lemma_brackets_read_none(n, i, cm);
    }
}

/// The array opened at `i` fails when the one opened after it fails.
proof fn lemma_brackets_read_none(n: nat, i: int, cm: bool)
    requires
        n > MAX_NESTING_DEPTH,
        0 <= i < MAX_NESTING_DEPTH,
    ensures
        value_at(brackets(n), i, i as nat, cm) is None,
    decreases MAX_NESTING_DEPTH - i, 0int,
{
    let s = brackets(n);
    assert(s[i] == '[');
    assert(skip_ws(s, i, cm) == Some(i));
    assert(s[i + 1] == '[');
    assert(skip_ws(s, i + 1, cm) == Some(i + 1));
    lemma_brackets_refused(n, i + 1, cm);
    assert(array_items(s, i + 1, (i + 1) as nat, cm, Seq::empty()) is None);
}

/// `n` nested empty arrays, for `n` at least one, parse exactly when `n` is at most the
/// nesting limit; then they parse as `n` arrays nested inside one another.
pub proof fn law_nesting_limit(n: nat, cm: bool)
    requires
        n >= 1,
    ensures
        parse_document(brackets(n), cm) is Some <==> n <= MAX_NESTING_DEPTH,
        n <= MAX_NESTING_DEPTH ==> parse_document(brackets(n), cm) == Some(
            nested_arrays((n - 1) as nat),
        ),
{
    let s = brackets(n);
    assert(s[0] == '[');
    assert(without_bom(s) == s);
    if n <= MAX_NESTING_DEPTH {
        lemma_brackets_read(n, 0, cm);
        assert(skip_ws(s, 2 * n as int, cm) == Some(2 * n as int));
    } else {
        lemma_brackets_refused(n, 0, cm);
    }
}

} // verus!
