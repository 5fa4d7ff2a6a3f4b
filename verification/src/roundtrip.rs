//! Reading back what was written: the text `serialized` gives for a value parses to that
//! same value.
use vstd::prelude::*;
use crate::value::JsonValue;
use crate::grammar::{
    is_ws, is_digit, hex_digit_value, skip_ws, hex4, escape, unicode_escape, string_body,
    scalar_char, scalar_value, lemma_scalar_char, digit_run, is_exponent_mark, number_tail_end,
    number_end, starts_number, has_key, value_at, array_open, array_items, object_open,
    object_members, without_bom, parse_document, MAX_NESTING_DEPTH,
};
use crate::serializer::{
    indent, hex_lower, escape_char, escaped, quoted, item_lead, closing_lead, key_separator,
    serialized, elements_text, members_text,
};
use crate::number::is_number_text;
use crate::object::keys_distinct;

verus! {

/// `x` stands in `s` from position `p`.
#[verifier::opaque]
pub open spec fn text_at(s: Seq<char>, p: int, x: Seq<char>) -> bool {
    0 <= p && p + x.len() <= s.len() && s.subrange(p, p + x.len()) == x
}

/// Position `e` ends a value: the input ends there, or the character there cannot continue
/// a number.
pub open spec fn ends_value(s: Seq<char>, e: int) -> bool {
    e == s.len() || (0 <= e < s.len() && !is_digit(s[e]) && s[e] != '.' && s[e] != 'e' && s[e]
        != 'E')
}

/// A character that can begin a value.
pub open spec fn starts_value(c: char) -> bool {
    c == '"' || c == '[' || c == '{' || c == 'n' || c == 't' || c == 'f' || starts_number(c)
}

/// The characters of `x` stand at their places from `p`.
pub(crate) proof fn lemma_text_at_char(s: Seq<char>, p: int, x: Seq<char>, i: int)
    requires
        text_at(s, p, x),
        0 <= i < x.len(),
    ensures
        0 <= p,
        p + x.len() <= s.len(),
        s[p + i] == x[i],
{
    reveal(text_at);
    assert(s.subrange(p, p + x.len())[i] == s[p + i]);
}

/// Text that stands as `a + b` has `a` at its start and `b` after it.
pub(crate) proof fn lemma_text_at_split(s: Seq<char>, p: int, a: Seq<char>, b: Seq<char>)
    requires
        text_at(s, p, a + b),
    ensures
        text_at(s, p, a),
        text_at(s, p + a.len(), b),
{
    reveal(text_at);
    assert forall|i: int| 0 <= i < a.len() implies s.subrange(p, p + a.len())[i] == a[i] by {
        lemma_text_at_char(s, p, a + b, i);
    }
    assert(s.subrange(p, p + a.len()) =~= a);
    assert forall|i: int| 0 <= i < b.len() implies s.subrange(p + a.len(), p + a.len() + b.len())[i]
        == b[i] by {
        lemma_text_at_char(s, p, a + b, a.len() + i);
    }
    assert(s.subrange(p + a.len(), p + a.len() + b.len()) =~= b);
}

/// Text that stands somewhere lies within the input.
pub(crate) proof fn lemma_text_at_bounds(s: Seq<char>, p: int, x: Seq<char>)
    requires
        text_at(s, p, x),
    ensures
        0 <= p,
        p + x.len() <= s.len(),
{
    reveal(text_at);
}

/// Text that stands somewhere is the subrange of the input there.
pub(crate) proof fn lemma_text_at_subrange(s: Seq<char>, p: int, x: Seq<char>)
    requires
        text_at(s, p, x),
    ensures
        s.subrange(p, p + x.len()) == x,
{
    reveal(text_at);
}

/// Skipping over a run of whitespace leads where skipping from its end leads.
pub(crate) proof fn lemma_skip_ws_run(s: Seq<char>, p: int, k: int, cm: bool)
    requires
        0 <= p,
        0 <= k,
        p + k <= s.len(),
        forall|i: int| p <= i < p + k ==> is_ws(#[trigger] s[i]),
    ensures
        skip_ws(s, p, cm) == skip_ws(s, p + k, cm),
    decreases k,
{
    if k > 0 {
        assert(is_ws(s[p]));
        lemma_skip_ws_run(s, p + 1, k - 1, cm);
    }
}

/// Indentation is spaces, four per level.
proof fn lemma_indent(n: nat)
    ensures
        indent(n).len() == 4 * n,
        forall|i: int| 0 <= i < indent(n).len() ==> #[trigger] indent(n)[i] == ' ',
    decreases n,
{
    if n > 0 {
        lemma_indent((n - 1) as nat);
    }
}

/// Skipping whitespace over `lead`, which is whitespace, stops after it at a character that
/// is neither whitespace nor `/`.
proof fn lemma_skip_lead(s: Seq<char>, p: int, lead: Seq<char>, cm: bool)
    requires
        text_at(s, p, lead),
        p + lead.len() < s.len(),
        !is_ws(s[p + lead.len()]),
        s[p + lead.len()] != '/',
        forall|i: int| 0 <= i < lead.len() ==> is_ws(#[trigger] lead[i]),
    ensures
        skip_ws(s, p, cm) == Some(p + lead.len()),
{
    lemma_text_at_bounds(s, p, lead);
    assert forall|i: int| p <= i < p + lead.len() implies is_ws(#[trigger] s[i]) by {
        lemma_text_at_char(s, p, lead, i - p);
    }
    lemma_skip_ws_run(s, p, lead.len() as int, cm);
}

/// The lead before an element or member is whitespace.
proof fn lemma_item_lead(pretty: bool, level: nat)
    ensures
        forall|i: int|
            0 <= i < item_lead(pretty, level).len() ==> is_ws(#[trigger] item_lead(pretty, level)[i]),
{
    lemma_indent(level + 1);
    if pretty {
        assert forall|i: int| 0 <= i < item_lead(pretty, level).len() implies is_ws(
            #[trigger] item_lead(pretty, level)[i],
        ) by {
            if i > 0 {
                assert(item_lead(pretty, level)[i] == indent(level + 1)[i - 1]);
            }
        }
    }
}

/// The lead before a closing bracket is whitespace.
proof fn lemma_closing_lead(pretty: bool, level: nat, n: nat)
    ensures
        forall|i: int|
            0 <= i < closing_lead(pretty, level, n).len() ==> is_ws(
                #[trigger] closing_lead(pretty, level, n)[i],
            ),
{
    lemma_indent(level);
    if pretty && n > 0 {
        assert forall|i: int| 0 <= i < closing_lead(pretty, level, n).len() implies is_ws(
            #[trigger] closing_lead(pretty, level, n)[i],
        ) by {
            if i > 0 {
                assert(closing_lead(pretty, level, n)[i] == indent(level)[i - 1]);
            }
        }
    }
}

/// A lowercase hexadecimal digit reads back as its value.
proof fn lemma_hex_lower(d: int)
    requires
        0 <= d < 16,
    ensures
        hex_digit_value(hex_lower(d)) == d,
{
    let digits = seq!['0', '1', '2', '3', '4', '5', '6', '7', '8', '9', 'a', 'b', 'c', 'd', 'e', 'f'];
    assert(hex_lower(d) == digits[d]);
    if d == 0 {
    } else if d == 1 {
    } else if d == 2 {
    } else if d == 3 {
    } else if d == 4 {
    } else if d == 5 {
    } else if d == 6 {
    } else if d == 7 {
    } else if d == 8 {
    } else if d == 9 {
    } else if d == 10 {
    } else if d == 11 {
    } else if d == 12 {
    } else if d == 13 {
    } else if d == 14 {
    } else {
    }
}

/// Escaping a string that starts with `c` starts with the escape of `c`.
proof fn lemma_escaped_cons(c: char, t: Seq<char>)
    ensures
        escaped(seq![c] + t) == escape_char(c) + escaped(t),
    decreases t.len(),
{
    let u = seq![c] + t;
    if t.len() == 0 {
        assert(u.drop_last() =~= Seq::<char>::empty());
        assert(escaped(Seq::<char>::empty()) =~= Seq::<char>::empty());
        assert(escaped(u) =~= escape_char(c) + escaped(t));
    } else {
        assert(u.drop_last() =~= seq![c] + t.drop_last());
        lemma_escaped_cons(c, t.drop_last());
        assert(escaped(u) =~= escape_char(c) + escaped(t));
    }
}

/// The body of a string literal reads back as the characters that were escaped into it.
#[verifier::spinoff_prover]
pub(crate) proof fn lemma_string_read(s: Seq<char>, p: int, t: Seq<char>)
    requires
        text_at(s, p, escaped(t)),
        text_at(s, p + escaped(t).len(), seq!['"']),
    ensures
        string_body(s, p) == Some((t, p + escaped(t).len() + 1)),
    decreases t.len(),
{
    if t.len() == 0 {
        assert(escaped(t) =~= Seq::<char>::empty());
        lemma_text_at_char(s, p + escaped(t).len(), seq!['"'], 0);
        assert(t =~= Seq::<char>::empty());
    } else {
        let c = t[0];
        let rest = t.drop_first();
        assert(t =~= seq![c] + rest);
        lemma_escaped_cons(c, rest);
        let e = escape_char(c);
        lemma_text_at_split(s, p, e, escaped(rest));
        lemma_string_read(s, p + e.len(), rest);
        lemma_text_at_char(s, p, e, 0);
        if e.len() > 1 {
            lemma_text_at_char(s, p, e, 1);
        }
        if c == '"' || c == '\\' || c == '/' || c == '\x08' || c == '\x0C' || c == '\n' || c
            == '\r' || c == '\t' {
            assert(escape(s, p + 1) == Some((c, 1nat)));
        } else if (c as u32) < 0x20 {
            let u = (c as u32) as int;
            lemma_text_at_char(s, p, e, 2);
            lemma_text_at_char(s, p, e, 3);
            lemma_text_at_char(s, p, e, 4);
            lemma_text_at_char(s, p, e, 5);
            lemma_hex_lower(u / 16);
            lemma_hex_lower(u % 16);
            assert(hex4(s, p + 2) == Some(u));
            lemma_scalar_char(c);
            assert(scalar_char(u) == c);
            assert(unicode_escape(s, p + 2) == Some((c, 4nat)));
            assert(escape(s, p + 1) == Some((c, 5nat)));
        } else {
        }
        assert(seq![c] + rest == t);
    }
}

/// A run of digits inside a number text that stands in `s` reads the same in `s`.
proof fn lemma_digit_run_at(s: Seq<char>, q: int, t: Seq<char>, j: int)
    requires
        text_at(s, q, t),
        ends_value(s, q + t.len()),
        0 <= j <= t.len(),
    ensures
        digit_run(s, q + j) == digit_run(t, j),
    decreases t.len() - j,
{
    if j < t.len() {
        lemma_text_at_char(s, q, t, j);
        lemma_digit_run_at(s, q, t, j + 1);
    }
}

/// A digit run stays within the text.
proof fn lemma_digit_run_within(t: Seq<char>, j: int)
    requires
        0 <= j <= t.len(),
    ensures
        j + digit_run(t, j) <= t.len(),
    decreases t.len() - j,
{
    if j < t.len() {
        lemma_digit_run_within(t, j + 1);
    }
}

/// The rest of a number text after its integer part reads the same in `s`.
#[verifier::spinoff_prover]
proof fn lemma_number_tail_at(s: Seq<char>, q: int, t: Seq<char>, b: int, bare_zero: bool)
    requires
        text_at(s, q, t),
        ends_value(s, q + t.len()),
        0 <= b <= t.len(),
        number_tail_end(t, b, bare_zero) == Some(t.len() as int),
    ensures
        number_tail_end(s, q + b, bare_zero) == Some(q + t.len()),
{
    if b < t.len() {
        lemma_text_at_char(s, q, t, b);
    }
    let has_dot = 0 <= b < t.len() && t[b] == '.';
    if has_dot {
        lemma_digit_run_within(t, b + 1);
        lemma_digit_run_at(s, q, t, b + 1);
    }
    let c = if has_dot {
        b + 1 + digit_run(t, b + 1)
    } else {
        b
    };
    assert(c <= t.len());
    if c < t.len() {
        lemma_text_at_char(s, q, t, c);
    }
    if is_exponent_mark(t, c) {
        if c + 1 < t.len() {
            lemma_text_at_char(s, q, t, c + 1);
            let k = if t[c + 1] == '+' || t[c + 1] == '-' {
                c + 2
            } else {
                c + 1
            };
            lemma_digit_run_at(s, q, t, k);
        } else {
            assert(digit_run(t, c + 1) == 0);
        }
    }
}

/// A number text that stands in `s`, followed by a character that cannot continue it,
/// reads as a number lexeme of the same length.
#[verifier::spinoff_prover]
pub(crate) proof fn lemma_number_at(s: Seq<char>, q: int, t: Seq<char>)
    requires
        text_at(s, q, t),
        ends_value(s, q + t.len()),
        number_end(t, 0) == Some(t.len() as int),
    ensures
        number_end(s, q) == Some(q + t.len()),
{
    let a = if 0 < t.len() && t[0] == '-' {
        1int
    } else {
        0
    };
    assert(a < t.len());
    lemma_text_at_char(s, q, t, 0);
    lemma_text_at_char(s, q, t, a);
    if t[a] == '0' {
        lemma_number_tail_at(s, q, t, a + 1, true);
    } else {
        lemma_digit_run_within(t, a + 1);
        lemma_digit_run_at(s, q, t, a + 1);
        crate::parser::lemma_number_tail_end_after(t, a + 1 + digit_run(t, a + 1), false);
        lemma_number_tail_at(s, q, t, a + 1 + digit_run(t, a + 1), false);
    }
}

/// A value the reader takes back when it stands inside `d` containers: every value in it
/// sits within the nesting limit, every number is a whole number text that stays finite,
/// and the keys of every object are distinct and hold no NUL character.
#[verifier::opaque]
pub open spec fn readable_at(v: JsonValue, d: nat) -> bool
    decreases v,
{
    d < MAX_NESTING_DEPTH && match v {
        JsonValue::Number(t) => is_number_text(t),
        JsonValue::Array(items) => forall|i: int|
            0 <= i < items.len() ==> readable_at(#[trigger] items[i], d + 1),
        JsonValue::Object(ms) => keys_distinct(ms) && forall|i: int|
            0 <= i < ms.len() ==> !(#[trigger] ms[i]).0.contains('\0') && readable_at(
                ms[i].1,
                d + 1,
            ),
        _ => true,
    }
}

/// What `readable_at` asks of each kind of value.
proof fn lemma_readable(v: JsonValue, d: nat)
    requires
        readable_at(v, d),
    ensures
        d < MAX_NESTING_DEPTH,
        v matches JsonValue::Number(t) ==> is_number_text(t),
        v matches JsonValue::Array(items) ==> forall|i: int|
            0 <= i < items.len() ==> readable_at(#[trigger] items[i], d + 1),
        v matches JsonValue::Object(ms) ==> keys_distinct(ms) && forall|i: int|
            0 <= i < ms.len() ==> !(#[trigger] ms[i]).0.contains('\0') && readable_at(
                ms[i].1,
                d + 1,
            ),
{
    reveal(readable_at);
}

/// One member of an object: its key, the separator and its value.
pub open spec fn member_text(m: (Seq<char>, JsonValue), pretty: bool, level: nat) -> Seq<char> {
    quoted(m.0) + key_separator(pretty) + serialized(m.1, pretty, level + 1)
}

/// The elements from index `i` on, each after a comma and the lead.
pub open spec fn elements_tail(items: Seq<JsonValue>, pretty: bool, level: nat, i: int) -> Seq<
    char,
>
    decreases items.len() - i,
{
    if 0 <= i < items.len() {
        seq![','] + item_lead(pretty, level) + serialized(items[i], pretty, level + 1)
            + elements_tail(items, pretty, level, i + 1)
    } else {
        Seq::empty()
    }
}

/// The members from index `i` on, each after a comma and the lead.
pub open spec fn members_tail(ms: Seq<(Seq<char>, JsonValue)>, pretty: bool, level: nat, i: int) -> Seq<
    char,
>
    decreases ms.len() - i,
{
    if 0 <= i < ms.len() {
        seq![','] + item_lead(pretty, level) + member_text(ms[i], pretty, level) + members_tail(
            ms,
            pretty,
            level,
            i + 1,
        )
    } else {
        Seq::empty()
    }
}

/// The elements after `j` of all but the last element, followed by the last one, are the
/// elements after `j`.
proof fn lemma_elements_tail_snoc(items: Seq<JsonValue>, pretty: bool, level: nat, j: int)
    requires
        0 <= j < items.len(),
    ensures
        elements_tail(items.subrange(0, items.len() - 1), pretty, level, j) + (seq![',']
            + item_lead(pretty, level) + serialized(items[items.len() - 1], pretty, level + 1))
            == elements_tail(items, pretty, level, j),
    decreases items.len() - j,
{
    let pre = items.subrange(0, items.len() - 1);
    let last = seq![','] + item_lead(pretty, level) + serialized(
        items[items.len() - 1],
        pretty,
        level + 1,
    );
    if j == items.len() - 1 {
        assert(elements_tail(items, pretty, level, j + 1) =~= Seq::<char>::empty());
        assert(elements_tail(pre, pretty, level, j) + last =~= elements_tail(items, pretty, level, j));
    } else {
        lemma_elements_tail_snoc(items, pretty, level, j + 1);
        assert(pre[j] == items[j]);
        assert(elements_tail(pre, pretty, level, j) + last =~= elements_tail(items, pretty, level, j));
    }
}

/// The elements text, read from the front: the first element after its lead, then the rest.
#[verifier::spinoff_prover]
#[verifier::rlimit(50)]
proof fn lemma_elements_text_cons(items: Seq<JsonValue>, pretty: bool, level: nat)
    requires
        items.len() > 0,
    ensures
        elements_text(items, pretty, level) == item_lead(pretty, level) + serialized(
            items[0],
            pretty,
            level + 1,
        ) + elements_tail(items, pretty, level, 1),
    decreases items.len(),
{
    if items.len() == 1 {
        assert(elements_tail(items, pretty, level, 1) =~= Seq::<char>::empty());
        assert(elements_text(items, pretty, level) =~= item_lead(pretty, level) + serialized(
            items[0],
            pretty,
            level + 1,
        ) + elements_tail(items, pretty, level, 1));
    } else {
        let pre = items.subrange(0, items.len() - 1);
        lemma_elements_text_cons(pre, pretty, level);
        lemma_elements_tail_snoc(items, pretty, level, 1);
        assert(pre[0] == items[0]);
        assert(elements_text(items, pretty, level) =~= item_lead(pretty, level) + serialized(
            items[0],
            pretty,
            level + 1,
        ) + elements_tail(items, pretty, level, 1));
    }
}

/// The members after `j` of all but the last member, followed by the last one, are the
/// members after `j`.
proof fn lemma_members_tail_snoc(ms: Seq<(Seq<char>, JsonValue)>, pretty: bool, level: nat, j: int)
    requires
        0 <= j < ms.len(),
    ensures
        members_tail(ms.subrange(0, ms.len() - 1), pretty, level, j) + (seq![','] + item_lead(
            pretty,
            level,
        ) + member_text(ms[ms.len() - 1], pretty, level)) == members_tail(ms, pretty, level, j),
    decreases ms.len() - j,
{
    let pre = ms.subrange(0, ms.len() - 1);
    let last = seq![','] + item_lead(pretty, level) + member_text(ms[ms.len() - 1], pretty, level);
    if j == ms.len() - 1 {
        assert(members_tail(ms, pretty, level, j + 1) =~= Seq::<char>::empty());
        assert(members_tail(pre, pretty, level, j) + last =~= members_tail(ms, pretty, level, j));
    } else {
        lemma_members_tail_snoc(ms, pretty, level, j + 1);
        assert(pre[j] == ms[j]);
        assert(members_tail(pre, pretty, level, j) + last =~= members_tail(ms, pretty, level, j));
    }
}

/// The members text, read from the front: the first member after its lead, then the rest.
#[verifier::spinoff_prover]
#[verifier::rlimit(50)]
proof fn lemma_members_text_cons(ms: Seq<(Seq<char>, JsonValue)>, pretty: bool, level: nat)
    requires
        ms.len() > 0,
    ensures
        members_text(ms, pretty, level) == item_lead(pretty, level) + member_text(
            ms[0],
            pretty,
            level,
        ) + members_tail(ms, pretty, level, 1),
    decreases ms.len(),
{
    if ms.len() == 1 {
        assert(members_tail(ms, pretty, level, 1) =~= Seq::<char>::empty());
        assert(members_text(ms, pretty, level) =~= item_lead(pretty, level) + member_text(
            ms[0],
            pretty,
            level,
        ) + members_tail(ms, pretty, level, 1));
    } else {
        let pre = ms.subrange(0, ms.len() - 1);
        lemma_members_text_cons(pre, pretty, level);
        lemma_members_tail_snoc(ms, pretty, level, 1);
        assert(pre[0] == ms[0]);
        assert(members_text(ms, pretty, level) =~= item_lead(pretty, level) + member_text(
            ms[0],
            pretty,
            level,
        ) + members_tail(ms, pretty, level, 1));
    }
}

/// The text of a value is not empty and starts with a character that begins a value.
proof fn lemma_serialized_start(v: JsonValue, pretty: bool, level: nat, d: nat)
    requires
        readable_at(v, d),
    ensures
        serialized(v, pretty, level).len() > 0,
        starts_value(serialized(v, pretty, level)[0]),
{
    lemma_readable(v, d);
    match v {
        JsonValue::Number(t) => {
            let a = if 0 < t.len() && t[0] == '-' {
                1int
            } else {
                0
            };
            assert(a < t.len());
        },
        JsonValue::String(t) => {
            assert(quoted(t)[0] == '"');
        },
        JsonValue::Array(items) => {
            assert(serialized(v, pretty, level)[0] == '[');
        },
        JsonValue::Object(ms) => {
            assert(serialized(v, pretty, level)[0] == '{');
        },
        _ => {},
    }
}

/// Whitespace before a value is skipped.
pub(crate) proof fn lemma_value_at_ws(s: Seq<char>, p: int, d: nat, cm: bool)
    requires
        0 <= p < s.len(),
        is_ws(s[p]),
    ensures
        value_at(s, p, d, cm) == value_at(s, p + 1, d, cm),
{
    lemma_skip_ws_run(s, p, 1, cm);
}

/// A value where there is no whitespace to skip, by its first character.
pub(crate) proof fn step_value(s: Seq<char>, p: int, d: nat, cm: bool)
    requires
        0 <= p < s.len(),
        d < MAX_NESTING_DEPTH,
        skip_ws(s, p, cm) == Some(p),
    ensures
        s[p] == '[' ==> value_at(s, p, d, cm) == array_open(s, p + 1, d + 1, cm),
        s[p] == '{' ==> value_at(s, p, d, cm) == object_open(s, p + 1, d + 1, cm),
{
}

/// An array after its `[`: empty, or its elements from the first one.
pub(crate) proof fn step_array_open(s: Seq<char>, p: int, d: nat, cm: bool, q: int)
    requires
        0 <= p <= s.len(),
        skip_ws(s, p, cm) == Some(q),
        q < s.len(),
    ensures
        s[q] == ']' ==> array_open(s, p, d, cm) == Some(
            (JsonValue::Array(Seq::empty()), q + 1),
        ),
        s[q] != ']' ==> array_open(s, p, d, cm) == array_items(s, q, d, cm, Seq::empty()),
{
}

/// An element followed by a comma and a further element.
pub(crate) proof fn step_array_items_next(
    s: Seq<char>,
    p: int,
    d: nat,
    cm: bool,
    acc: Seq<JsonValue>,
    v: JsonValue,
    q1: int,
    t: int,
)
    requires
        0 <= p <= s.len(),
        value_at(s, p, d, cm) == Some((v, q1)),
        skip_ws(s, q1, cm) == Some(q1),
        0 <= q1 < s.len(),
        s[q1] == ',',
        skip_ws(s, q1 + 1, cm) == Some(t),
        p < t < s.len(),
        s[t] != ']',
    ensures
        array_items(s, p, d, cm, acc) == array_items(s, t, d, cm, acc.push(v)),
{
}

/// The last element, followed by the closing bracket.
pub(crate) proof fn step_array_items_last(
    s: Seq<char>,
    p: int,
    d: nat,
    cm: bool,
    acc: Seq<JsonValue>,
    v: JsonValue,
    q1: int,
    r: int,
)
    requires
        0 <= p <= s.len(),
        value_at(s, p, d, cm) == Some((v, q1)),
        skip_ws(s, q1, cm) == Some(r),
        0 <= r < s.len(),
        s[r] == ']',
    ensures
        array_items(s, p, d, cm, acc) == Some((JsonValue::Array(acc.push(v)), r + 1)),
{
}

/// An object after its `{`: empty, or its members from the first one.
pub(crate) proof fn step_object_open(s: Seq<char>, p: int, d: nat, cm: bool, q: int)
    requires
        0 <= p <= s.len(),
        skip_ws(s, p, cm) == Some(q),
        q < s.len(),
    ensures
        s[q] == '}' ==> object_open(s, p, d, cm) == Some(
            (JsonValue::Object(Seq::empty()), q + 1),
        ),
        s[q] != '}' ==> object_open(s, p, d, cm) == object_members(s, q, d, cm, Seq::empty()),
{
}

/// The parts of one member: its key, which is new and holds no NUL, the colon and the
/// value.
pub open spec fn member_parts(
    s: Seq<char>,
    p: int,
    d: nat,
    cm: bool,
    acc: Seq<(Seq<char>, JsonValue)>,
    key: Seq<char>,
    k2: int,
    v: JsonValue,
    q1: int,
) -> bool {
    &&& 0 <= p < s.len()
    &&& skip_ws(s, p, cm) == Some(p)
    &&& s[p] == '"'
    &&& string_body(s, p + 1) == Some((key, k2))
    &&& skip_ws(s, k2, cm) == Some(k2)
    &&& 0 <= k2 < s.len()
    &&& s[k2] == ':'
    &&& value_at(s, k2 + 1, d, cm) == Some((v, q1))
    &&& !has_key(acc, key)
    &&& !key.contains('\0')
}

/// A member followed by a comma and a further member.
pub(crate) proof fn step_object_members_next(
    s: Seq<char>,
    p: int,
    d: nat,
    cm: bool,
    acc: Seq<(Seq<char>, JsonValue)>,
    key: Seq<char>,
    k2: int,
    v: JsonValue,
    q1: int,
    t: int,
)
    requires
        member_parts(s, p, d, cm, acc, key, k2, v, q1),
        skip_ws(s, q1, cm) == Some(q1),
        0 <= q1 < s.len(),
        s[q1] == ',',
        skip_ws(s, q1 + 1, cm) == Some(t),
        p < t < s.len(),
        s[t] != '}',
    ensures
        object_members(s, p, d, cm, acc) == object_members(s, t, d, cm, acc.push((key, v))),
{
}

/// The last member, followed by the closing brace.
pub(crate) proof fn step_object_members_last(
    s: Seq<char>,
    p: int,
    d: nat,
    cm: bool,
    acc: Seq<(Seq<char>, JsonValue)>,
    key: Seq<char>,
    k2: int,
    v: JsonValue,
    q1: int,
    r: int,
)
    requires
        member_parts(s, p, d, cm, acc, key, k2, v, q1),
        skip_ws(s, q1, cm) == Some(r),
        0 <= r < s.len(),
        s[r] == '}',
    ensures
        object_members(s, p, d, cm, acc) == Some((JsonValue::Object(acc.push((key, v))), r + 1)),
{
}

/// The text of a value that is not a container reads back as that value.
proof fn lemma_scalar_read(
    v: JsonValue,
    pretty: bool,
    level: nat,
    s: Seq<char>,
    p: int,
    d: nat,
    cm: bool,
)
    requires
        !(v is Array),
        !(v is Object),
        readable_at(v, d),
        text_at(s, p, serialized(v, pretty, level)),
        ends_value(s, p + serialized(v, pretty, level).len()),
    ensures
        value_at(s, p, d, cm) == Some((v, p + serialized(v, pretty, level).len())),
{
    match v {
        JsonValue::Number(_) => lemma_number_read(v, pretty, level, s, p, d, cm),
        JsonValue::String(_) => lemma_string_value_read(v, pretty, level, s, p, d, cm),
        _ => lemma_word_read(v, pretty, level, s, p, d, cm),
    }
}

/// The text of a number reads back as that number.
#[verifier::spinoff_prover]
proof fn lemma_number_read(
    v: JsonValue,
    pretty: bool,
    level: nat,
    s: Seq<char>,
    p: int,
    d: nat,
    cm: bool,
)
    requires
        v is Number,
        readable_at(v, d),
        text_at(s, p, serialized(v, pretty, level)),
        ends_value(s, p + serialized(v, pretty, level).len()),
    ensures
        value_at(s, p, d, cm) == Some((v, p + serialized(v, pretty, level).len())),
{
    let t = v->Number_0;
    lemma_readable(v, d);
    lemma_serialized_start(v, pretty, level, d);
    lemma_text_at_char(s, p, t, 0);
    assert(skip_ws(s, p, cm) == Some(p));
    lemma_number_at(s, p, t);
    lemma_text_at_subrange(s, p, t);
}

/// The text of a string reads back as that string.
#[verifier::spinoff_prover]
proof fn lemma_string_value_read(
    v: JsonValue,
    pretty: bool,
    level: nat,
    s: Seq<char>,
    p: int,
    d: nat,
    cm: bool,
)
    requires
        v is String,
        readable_at(v, d),
        text_at(s, p, serialized(v, pretty, level)),
    ensures
        value_at(s, p, d, cm) == Some((v, p + serialized(v, pretty, level).len())),
{
    let t = v->String_0;
    lemma_readable(v, d);
    lemma_text_at_split(s, p, seq!['"'] + escaped(t), seq!['"']);
    lemma_text_at_split(s, p, seq!['"'], escaped(t));
    lemma_text_at_char(s, p, seq!['"'], 0);
    assert(skip_ws(s, p, cm) == Some(p));
    lemma_string_read(s, p + 1, t);
}

/// The text of `null`, `true` or `false` reads back as that value.
proof fn lemma_word_read(
    v: JsonValue,
    pretty: bool,
    level: nat,
    s: Seq<char>,
    p: int,
    d: nat,
    cm: bool,
)
    requires
        v is Null || v is Bool,
        readable_at(v, d),
        text_at(s, p, serialized(v, pretty, level)),
    ensures
        value_at(s, p, d, cm) == Some((v, p + serialized(v, pretty, level).len())),
{
    lemma_readable(v, d);
    let w = serialized(v, pretty, level);
    match v {
        JsonValue::Null => {
            assert(w == seq!['n', 'u', 'l', 'l']);
            lemma_literal_read(s, p, d, cm, w, v);
        },
        JsonValue::Bool(b) => {
            if b {
                assert(w == seq!['t', 'r', 'u', 'e']);
            } else {
                assert(w == seq!['f', 'a', 'l', 's', 'e']);
            }
            lemma_literal_read(s, p, d, cm, w, v);
        },
        _ => {},
    }
}

/// A literal word reads back as its value.
#[verifier::spinoff_prover]
#[verifier::rlimit(50)]
pub(crate) proof fn lemma_literal_read(s: Seq<char>, p: int, d: nat, cm: bool, w: Seq<char>, v: JsonValue)
    requires
        d < MAX_NESTING_DEPTH,
        text_at(s, p, w),
        (v == JsonValue::Null && w == seq!['n', 'u', 'l', 'l']) || (v == JsonValue::Bool(true) && w
            == seq!['t', 'r', 'u', 'e']) || (v == JsonValue::Bool(false) && w == seq![
            'f',
            'a',
            'l',
            's',
            'e',
        ]),
    ensures
        value_at(s, p, d, cm) == Some((v, p + w.len())),
{
    lemma_text_at_char(s, p, w, 0);
    lemma_text_at_subrange(s, p, w);
    assert(skip_ws(s, p, cm) == Some(p));
}

/// The text of a value, followed by a character that cannot continue it, reads back as
/// that value.
proof fn lemma_value_read(
    v: JsonValue,
    pretty: bool,
    level: nat,
    s: Seq<char>,
    p: int,
    d: nat,
    cm: bool,
)
    requires
        readable_at(v, d),
        text_at(s, p, serialized(v, pretty, level)),
        ends_value(s, p + serialized(v, pretty, level).len()),
    ensures
        value_at(s, p, d, cm) == Some((v, p + serialized(v, pretty, level).len())),
    decreases v, 3int,
{
    match v {
        JsonValue::Array(_) => lemma_array_read(v, pretty, level, s, p, d, cm),
        JsonValue::Object(_) => lemma_object_read(v, pretty, level, s, p, d, cm),
        _ => lemma_scalar_read(v, pretty, level, s, p, d, cm),
    }
}

/// A closing lead and bracket standing at `q`: skipping whitespace from `q` reaches the
/// bracket.
proof fn lemma_closing_read(s: Seq<char>, q: int, pretty: bool, level: nat, n: nat, b: char, cm: bool)
    requires
        text_at(s, q, closing_lead(pretty, level, n)),
        text_at(s, q + closing_lead(pretty, level, n).len(), seq![b]),
        b == ']' || b == '}',
    ensures
        skip_ws(s, q, cm) == Some(q + closing_lead(pretty, level, n).len()),
        0 <= q,
        q + closing_lead(pretty, level, n).len() < s.len(),
        s[q + closing_lead(pretty, level, n).len()] == b,
        ends_value(s, q),
{
    let c = closing_lead(pretty, level, n);
    lemma_text_at_char(s, q + c.len(), seq![b], 0);
    lemma_closing_lead(pretty, level, n);
    lemma_skip_lead(s, q, c, cm);
    if c.len() > 0 {
        lemma_text_at_char(s, q, c, 0);
    }
}

/// A comma and a lead standing at `q1`, before a value's text at `t`: skipping whitespace
/// after the comma reaches `t`.
proof fn lemma_comma_read(s: Seq<char>, q1: int, pretty: bool, level: nat, t: int, cm: bool)
    requires
        text_at(s, q1, seq![','] + item_lead(pretty, level)),
        t == q1 + 1 + item_lead(pretty, level).len(),
        t < s.len(),
        starts_value(s[t]),
    ensures
        skip_ws(s, q1, cm) == Some(q1),
        s[q1] == ',',
        skip_ws(s, q1 + 1, cm) == Some(t),
        ends_value(s, q1),
{
    let lead = item_lead(pretty, level);
    lemma_text_at_split(s, q1, seq![','], lead);
    lemma_text_at_char(s, q1, seq![','], 0);
    lemma_item_lead(pretty, level);
    lemma_skip_lead(s, q1 + 1, lead, cm);
}

/// The text of an array reads back as that array.
proof fn lemma_array_read(
    v: JsonValue,
    pretty: bool,
    level: nat,
    s: Seq<char>,
    p: int,
    d: nat,
    cm: bool,
)
    requires
        v is Array,
        readable_at(v, d),
        text_at(s, p, serialized(v, pretty, level)),
    ensures
        value_at(s, p, d, cm) == Some((v, p + serialized(v, pretty, level).len())),
    decreases v, 2int,
{
    if v->Array_0.len() == 0 {
        lemma_empty_array_read(v, pretty, level, s, p, d, cm);
    } else {
        lemma_nonempty_array_read(v, pretty, level, s, p, d, cm);
    }
}

/// The text of an empty array reads back as that array.
#[verifier::spinoff_prover]
proof fn lemma_empty_array_read(
    v: JsonValue,
    pretty: bool,
    level: nat,
    s: Seq<char>,
    p: int,
    d: nat,
    cm: bool,
)
    requires
        v is Array,
        v->Array_0.len() == 0,
        readable_at(v, d),
        text_at(s, p, serialized(v, pretty, level)),
    ensures
        value_at(s, p, d, cm) == Some((v, p + serialized(v, pretty, level).len())),
{
    lemma_readable(v, d);
    let items = v->Array_0;
    let e = elements_text(items, pretty, level);
    let c = closing_lead(pretty, level, 0);
    lemma_text_at_split(s, p, seq!['['] + e + c, seq![']']);
    lemma_text_at_split(s, p, seq!['['] + e, c);
    lemma_text_at_split(s, p, seq!['['], e);
    lemma_text_at_char(s, p, seq!['['], 0);
    lemma_text_at_bounds(s, p, serialized(v, pretty, level));
    assert(skip_ws(s, p, cm) == Some(p));
    step_value(s, p, d, cm);
    assert(e.len() == 0);
    lemma_closing_read(s, p + 1, pretty, level, 0, ']', cm);
    step_array_open(s, p + 1, d + 1, cm, p + 1);
    assert(items =~= Seq::<JsonValue>::empty());
}

/// The opening of an array with elements: the value at `p` is its elements, which stand
/// after the bracket and the lead.
#[verifier::rlimit(100)]
#[verifier::spinoff_prover]
proof fn lemma_array_opening_read(
    v: JsonValue,
    pretty: bool,
    level: nat,
    s: Seq<char>,
    p: int,
    d: nat,
    cm: bool,
)
    requires
        v is Array,
        v->Array_0.len() > 0,
        readable_at(v, d),
        text_at(s, p, serialized(v, pretty, level)),
    ensures
        value_at(s, p, d, cm) == array_items(
            s,
            p + 1 + item_lead(pretty, level).len(),
            d + 1,
            cm,
            Seq::empty(),
        ),
        forall|j: int| 0 <= j < v->Array_0.len() ==> readable_at(#[trigger] v->Array_0[j], d + 1),
        items_text_at(v->Array_0, 0, pretty, level, s, p + 1 + item_lead(pretty, level).len()),
        items_text_end(v->Array_0, 0, pretty, level, p + 1 + item_lead(pretty, level).len())
            == p + serialized(v, pretty, level).len(),
{
    lemma_readable(v, d);
    let items = v->Array_0;
    let n = items.len();
    let e = elements_text(items, pretty, level);
    let c = closing_lead(pretty, level, n);
    lemma_text_at_split(s, p, seq!['['] + e + c, seq![']']);
    lemma_text_at_split(s, p, seq!['['] + e, c);
    lemma_text_at_split(s, p, seq!['['], e);
    lemma_text_at_char(s, p, seq!['['], 0);
    lemma_text_at_bounds(s, p, serialized(v, pretty, level));
    assert(skip_ws(s, p, cm) == Some(p));
    step_value(s, p, d, cm);
    lemma_elements_text_cons(items, pretty, level);
    let lead = item_lead(pretty, level);
    let first = serialized(items[0], pretty, level + 1);
    let tail = elements_tail(items, pretty, level, 1);
    lemma_text_at_split(s, p + 1, lead + first, tail);
    lemma_text_at_split(s, p + 1, lead, first);
    lemma_item_lead(pretty, level);
    lemma_serialized_start(items[0], pretty, level + 1, d + 1);
    lemma_text_at_char(s, p + 1 + lead.len(), first, 0);
    lemma_skip_lead(s, p + 1, lead, cm);
    step_array_open(s, p + 1, d + 1, cm, p + 1 + lead.len());
}

/// The text of an array with elements reads back as that array.
#[verifier::spinoff_prover]
proof fn lemma_nonempty_array_read(
    v: JsonValue,
    pretty: bool,
    level: nat,
    s: Seq<char>,
    p: int,
    d: nat,
    cm: bool,
)
    requires
        v is Array,
        v->Array_0.len() > 0,
        readable_at(v, d),
        text_at(s, p, serialized(v, pretty, level)),
    ensures
        value_at(s, p, d, cm) == Some((v, p + serialized(v, pretty, level).len())),
    decreases v, 1int,
{
    let items = v->Array_0;
    lemma_array_opening_read(v, pretty, level, s, p, d, cm);
    assert(decreases_to!(v => items));
    lemma_items_read(items, 0, pretty, level, s, p + 1 + item_lead(pretty, level).len(), d + 1, cm);
    assert(items.take(0) =~= Seq::<JsonValue>::empty());
}

/// The elements from index `i` on, then the closing of the array, stand at `q`.
pub open spec fn items_text_at(
    items: Seq<JsonValue>,
    i: int,
    pretty: bool,
    level: nat,
    s: Seq<char>,
    q: int,
) -> bool {
    let x = serialized(items[i], pretty, level + 1);
    let tail = elements_tail(items, pretty, level, i + 1);
    let c = closing_lead(pretty, level, items.len());
    &&& text_at(s, q, x)
    &&& text_at(s, q + x.len(), tail)
    &&& text_at(s, q + x.len() + tail.len(), c)
    &&& text_at(s, q + x.len() + tail.len() + c.len(), seq![']'])
}

/// Where the text of `items_text_at` ends.
pub open spec fn items_text_end(items: Seq<JsonValue>, i: int, pretty: bool, level: nat, q: int) -> int {
    q + serialized(items[i], pretty, level + 1).len() + elements_tail(items, pretty, level, i + 1).len()
        + closing_lead(pretty, level, items.len()).len() + 1
}

/// The elements of an array from index `i` on, then its closing, read back as the array.
proof fn lemma_items_read(
    items: Seq<JsonValue>,
    i: int,
    pretty: bool,
    level: nat,
    s: Seq<char>,
    q: int,
    d: nat,
    cm: bool,
)
    requires
        0 <= i < items.len(),
        forall|j: int| 0 <= j < items.len() ==> readable_at(#[trigger] items[j], d),
        items_text_at(items, i, pretty, level, s, q),
    ensures
        array_items(s, q, d, cm, items.take(i)) == Some(
            (JsonValue::Array(items), items_text_end(items, i, pretty, level, q)),
        ),
    decreases items, 2 * (items.len() - i) + 1,
{
    if i + 1 < items.len() {
        lemma_items_read_next(items, i, pretty, level, s, q, d, cm);
    } else {
        lemma_items_read_last(items, i, pretty, level, s, q, d, cm);
    }
}

/// An element followed by a comma: where the comma stands, that the next element stands
/// after it, and that the text ends where it did.
#[verifier::rlimit(50)]
#[verifier::spinoff_prover]
proof fn lemma_items_next_parts(
    items: Seq<JsonValue>,
    i: int,
    pretty: bool,
    level: nat,
    s: Seq<char>,
    q: int,
    d: nat,
    cm: bool,
)
    requires
        0 <= i,
        i + 1 < items.len(),
        readable_at(items[i + 1], d),
        items_text_at(items, i, pretty, level, s, q),
    ensures
        ({
            let q1 = q + serialized(items[i], pretty, level + 1).len();
            let t = q1 + 1 + item_lead(pretty, level).len();
            &&& text_at(s, q, serialized(items[i], pretty, level + 1))
            &&& ends_value(s, q1)
            &&& skip_ws(s, q1, cm) == Some(q1)
            &&& 0 <= q1 < s.len()
            &&& s[q1] == ','
            &&& skip_ws(s, q1 + 1, cm) == Some(t)
            &&& q < t < s.len()
            &&& s[t] != ']'
            &&& items_text_at(items, i + 1, pretty, level, s, t)
            &&& items_text_end(items, i + 1, pretty, level, t) == items_text_end(
                items,
                i,
                pretty,
                level,
                q,
            )
        }),
{
    let x = serialized(items[i], pretty, level + 1);
    let q1 = q + x.len();
    let lead = item_lead(pretty, level);
    let nx = serialized(items[i + 1], pretty, level + 1);
    let t = q1 + 1 + lead.len();
    lemma_text_at_bounds(s, q, x);
    lemma_text_at_split(s, q1, seq![','] + lead + nx, elements_tail(items, pretty, level, i + 2));
    lemma_text_at_split(s, q1, seq![','] + lead, nx);
    lemma_serialized_start(items[i + 1], pretty, level + 1, d);
    lemma_text_at_char(s, t, nx, 0);
    lemma_comma_read(s, q1, pretty, level, t, cm);
}

/// An element followed by further elements reads back, and so do they.
#[verifier::spinoff_prover]
proof fn lemma_items_read_next(
    items: Seq<JsonValue>,
    i: int,
    pretty: bool,
    level: nat,
    s: Seq<char>,
    q: int,
    d: nat,
    cm: bool,
)
    requires
        0 <= i,
        i + 1 < items.len(),
        forall|j: int| 0 <= j < items.len() ==> readable_at(#[trigger] items[j], d),
        items_text_at(items, i, pretty, level, s, q),
    ensures
        array_items(s, q, d, cm, items.take(i)) == Some(
            (JsonValue::Array(items), items_text_end(items, i, pretty, level, q)),
        ),
    decreases items, 2 * (items.len() - i),
{
    let q1 = q + serialized(items[i], pretty, level + 1).len();
    let t = q1 + 1 + item_lead(pretty, level).len();
    lemma_items_next_parts(items, i, pretty, level, s, q, d, cm);
    lemma_value_read(items[i], pretty, level + 1, s, q, d, cm);
    step_array_items_next(s, q, d, cm, items.take(i), items[i], q1, t);
    assert(items.take(i).push(items[i]) =~= items.take(i + 1));
    lemma_items_read(items, i + 1, pretty, level, s, t, d, cm);
}

/// The last element and the closing bracket read back as the array.
#[verifier::spinoff_prover]
proof fn lemma_items_read_last(
    items: Seq<JsonValue>,
    i: int,
    pretty: bool,
    level: nat,
    s: Seq<char>,
    q: int,
    d: nat,
    cm: bool,
)
    requires
        0 <= i,
        i + 1 == items.len(),
        forall|j: int| 0 <= j < items.len() ==> readable_at(#[trigger] items[j], d),
        items_text_at(items, i, pretty, level, s, q),
    ensures
        array_items(s, q, d, cm, items.take(i)) == Some(
            (JsonValue::Array(items), items_text_end(items, i, pretty, level, q)),
        ),
    decreases items, 2 * (items.len() - i),
{
    let n = items.len();
    let x = serialized(items[i], pretty, level + 1);
    let c = closing_lead(pretty, level, n);
    let q1 = q + x.len();
    assert(elements_tail(items, pretty, level, i + 1).len() == 0);
    lemma_text_at_bounds(s, q, x);
    lemma_closing_read(s, q1, pretty, level, n, ']', cm);
    lemma_value_read(items[i], pretty, level + 1, s, q, d, cm);
    step_array_items_last(s, q, d, cm, items.take(i), items[i], q1, q1 + c.len());
    assert(items.take(i).push(items[i]) =~= items);
}

/// The text of an object reads back as that object.
proof fn lemma_object_read(
    v: JsonValue,
    pretty: bool,
    level: nat,
    s: Seq<char>,
    p: int,
    d: nat,
    cm: bool,
)
    requires
        v is Object,
        readable_at(v, d),
        text_at(s, p, serialized(v, pretty, level)),
    ensures
        value_at(s, p, d, cm) == Some((v, p + serialized(v, pretty, level).len())),
    decreases v, 2int,
{
    if v->Object_0.len() == 0 {
        lemma_empty_object_read(v, pretty, level, s, p, d, cm);
    } else {
        lemma_nonempty_object_read(v, pretty, level, s, p, d, cm);
    }
}

/// The text of an empty object reads back as that object.
#[verifier::spinoff_prover]
proof fn lemma_empty_object_read(
    v: JsonValue,
    pretty: bool,
    level: nat,
    s: Seq<char>,
    p: int,
    d: nat,
    cm: bool,
)
    requires
        v is Object,
        v->Object_0.len() == 0,
        readable_at(v, d),
        text_at(s, p, serialized(v, pretty, level)),
    ensures
        value_at(s, p, d, cm) == Some((v, p + serialized(v, pretty, level).len())),
{
    lemma_readable(v, d);
    let ms = v->Object_0;
    let e = members_text(ms, pretty, level);
    let c = closing_lead(pretty, level, 0);
    lemma_text_at_split(s, p, seq!['{'] + e + c, seq!['}']);
    lemma_text_at_split(s, p, seq!['{'] + e, c);
    lemma_text_at_split(s, p, seq!['{'], e);
    lemma_text_at_char(s, p, seq!['{'], 0);
    lemma_text_at_bounds(s, p, serialized(v, pretty, level));
    assert(skip_ws(s, p, cm) == Some(p));
    step_value(s, p, d, cm);
    assert(e.len() == 0);
    lemma_closing_read(s, p + 1, pretty, level, 0, '}', cm);
    step_object_open(s, p + 1, d + 1, cm, p + 1);
    assert(ms =~= Seq::<(Seq<char>, JsonValue)>::empty());
}

/// The opening of an object with members: the value at `p` is its members, which stand
/// after the brace and the lead.
#[verifier::rlimit(100)]
#[verifier::spinoff_prover]
proof fn lemma_object_opening_read(
    v: JsonValue,
    pretty: bool,
    level: nat,
    s: Seq<char>,
    p: int,
    d: nat,
    cm: bool,
)
    requires
        v is Object,
        v->Object_0.len() > 0,
        readable_at(v, d),
        text_at(s, p, serialized(v, pretty, level)),
    ensures
        value_at(s, p, d, cm) == object_members(
            s,
            p + 1 + item_lead(pretty, level).len(),
            d + 1,
            cm,
            Seq::empty(),
        ),
        members_readable(v->Object_0, d + 1),
        members_text_at(v->Object_0, 0, pretty, level, s, p + 1 + item_lead(pretty, level).len()),
        members_text_end(v->Object_0, 0, pretty, level, p + 1 + item_lead(pretty, level).len())
            == p + serialized(v, pretty, level).len(),
{
    lemma_readable(v, d);
    let ms = v->Object_0;
    let n = ms.len();
    let e = members_text(ms, pretty, level);
    let c = closing_lead(pretty, level, n);
    lemma_text_at_split(s, p, seq!['{'] + e + c, seq!['}']);
    lemma_text_at_split(s, p, seq!['{'] + e, c);
    lemma_text_at_split(s, p, seq!['{'], e);
    lemma_text_at_char(s, p, seq!['{'], 0);
    lemma_text_at_bounds(s, p, serialized(v, pretty, level));
    assert(skip_ws(s, p, cm) == Some(p));
    step_value(s, p, d, cm);
    lemma_members_text_cons(ms, pretty, level);
    let lead = item_lead(pretty, level);
    let first = member_text(ms[0], pretty, level);
    let tail = members_tail(ms, pretty, level, 1);
    lemma_text_at_split(s, p + 1, lead + first, tail);
    lemma_text_at_split(s, p + 1, lead, first);
    lemma_item_lead(pretty, level);
    assert(first[0] == '"');
    lemma_text_at_char(s, p + 1 + lead.len(), first, 0);
    lemma_skip_lead(s, p + 1, lead, cm);
    step_object_open(s, p + 1, d + 1, cm, p + 1 + lead.len());
}

/// The text of an object with members reads back as that object.
#[verifier::spinoff_prover]
proof fn lemma_nonempty_object_read(
    v: JsonValue,
    pretty: bool,
    level: nat,
    s: Seq<char>,
    p: int,
    d: nat,
    cm: bool,
)
    requires
        v is Object,
        v->Object_0.len() > 0,
        readable_at(v, d),
        text_at(s, p, serialized(v, pretty, level)),
    ensures
        value_at(s, p, d, cm) == Some((v, p + serialized(v, pretty, level).len())),
    decreases v, 1int,
{
    let ms = v->Object_0;
    lemma_object_opening_read(v, pretty, level, s, p, d, cm);
    assert(decreases_to!(v => ms));
    lemma_members_read(ms, 0, pretty, level, s, p + 1 + item_lead(pretty, level).len(), d + 1, cm);
    assert(ms.take(0) =~= Seq::<(Seq<char>, JsonValue)>::empty());
}

/// The key, separator and value of one member read back, with the member's key new.
#[verifier::rlimit(100)]
#[verifier::spinoff_prover]
proof fn lemma_member_read(
    ms: Seq<(Seq<char>, JsonValue)>,
    i: int,
    pretty: bool,
    level: nat,
    s: Seq<char>,
    q: int,
    d: nat,
    cm: bool,
)
    requires
        0 <= i < ms.len(),
        keys_distinct(ms),
        !ms[i].0.contains('\0'),
        readable_at(ms[i].1, d),
        text_at(s, q, member_text(ms[i], pretty, level)),
        ends_value(s, q + member_text(ms[i], pretty, level).len()),
    ensures
        member_parts(
            s,
            q,
            d,
            cm,
            ms.take(i),
            ms[i].0,
            q + quoted(ms[i].0).len(),
            ms[i].1,
            q + member_text(ms[i], pretty, level).len(),
        ),
    decreases ms, 4 * (ms.len() - i) + 1,
{
    let key = ms[i].0;
    let val = ms[i].1;
    let sep = key_separator(pretty);
    let x = serialized(val, pretty, level + 1);
    let k2 = q + quoted(key).len();
    lemma_text_at_split(s, q, quoted(key) + sep, x);
    lemma_text_at_split(s, q, quoted(key), sep);
    lemma_text_at_split(s, q, seq!['"'] + escaped(key), seq!['"']);
    lemma_text_at_split(s, q, seq!['"'], escaped(key));
    lemma_text_at_char(s, q, seq!['"'], 0);
    lemma_text_at_bounds(s, q, member_text(ms[i], pretty, level));
    assert(skip_ws(s, q, cm) == Some(q));
    lemma_string_read(s, q + 1, key);
    lemma_text_at_char(s, k2, sep, 0);
    assert(skip_ws(s, k2, cm) == Some(k2));
    assert(decreases_to!(ms => ms[i]));
    assert(decreases_to!(ms[i] => ms[i].1));
    lemma_value_read(val, pretty, level + 1, s, k2 + sep.len(), d, cm);
    if pretty {
        lemma_text_at_char(s, k2, sep, 1);
        lemma_value_at_ws(s, k2 + 1, d, cm);
    }
    assert(!has_key(ms.take(i), key)) by {
        if has_key(ms.take(i), key) {
            let j = choose|j: int| 0 <= j < ms.take(i).len() && (#[trigger] ms.take(i)[j]).0 == key;
            assert(ms.take(i)[j] == ms[j]);
            assert(ms[j].0 != ms[i].0);
        }
    }
}

/// The members from index `i` on, then the closing of the object, stand at `q`.
pub open spec fn members_text_at(
    ms: Seq<(Seq<char>, JsonValue)>,
    i: int,
    pretty: bool,
    level: nat,
    s: Seq<char>,
    q: int,
) -> bool {
    let m = member_text(ms[i], pretty, level);
    let tail = members_tail(ms, pretty, level, i + 1);
    let c = closing_lead(pretty, level, ms.len());
    &&& text_at(s, q, m)
    &&& text_at(s, q + m.len(), tail)
    &&& text_at(s, q + m.len() + tail.len(), c)
    &&& text_at(s, q + m.len() + tail.len() + c.len(), seq!['}'])
}

/// Where the text of `members_text_at` ends.
pub open spec fn members_text_end(
    ms: Seq<(Seq<char>, JsonValue)>,
    i: int,
    pretty: bool,
    level: nat,
    q: int,
) -> int {
    q + member_text(ms[i], pretty, level).len() + members_tail(ms, pretty, level, i + 1).len()
        + closing_lead(pretty, level, ms.len()).len() + 1
}

/// What the members of an object need to read back: distinct keys without NUL, and values
/// that read back.
pub open spec fn members_readable(ms: Seq<(Seq<char>, JsonValue)>, d: nat) -> bool {
    &&& keys_distinct(ms)
    &&& forall|j: int|
        0 <= j < ms.len() ==> !(#[trigger] ms[j]).0.contains('\0') && readable_at(ms[j].1, d)
}

/// The members of an object from index `i` on, then its closing, read back as the object.
proof fn lemma_members_read(
    ms: Seq<(Seq<char>, JsonValue)>,
    i: int,
    pretty: bool,
    level: nat,
    s: Seq<char>,
    q: int,
    d: nat,
    cm: bool,
)
    requires
        0 <= i < ms.len(),
        members_readable(ms, d),
        members_text_at(ms, i, pretty, level, s, q),
    ensures
        object_members(s, q, d, cm, ms.take(i)) == Some(
            (JsonValue::Object(ms), members_text_end(ms, i, pretty, level, q)),
        ),
    decreases ms, 4 * (ms.len() - i) + 3,
{
    if i + 1 < ms.len() {
        lemma_members_read_next(ms, i, pretty, level, s, q, d, cm);
    } else {
        lemma_members_read_last(ms, i, pretty, level, s, q, d, cm);
    }
}

/// A member followed by a comma: where the comma stands, that the next member stands after
/// it, and that the text ends where it did.
#[verifier::rlimit(50)]
#[verifier::spinoff_prover]
proof fn lemma_members_next_parts(
    ms: Seq<(Seq<char>, JsonValue)>,
    i: int,
    pretty: bool,
    level: nat,
    s: Seq<char>,
    q: int,
    cm: bool,
)
    requires
        0 <= i,
        i + 1 < ms.len(),
        members_text_at(ms, i, pretty, level, s, q),
    ensures
        ({
            let q1 = q + member_text(ms[i], pretty, level).len();
            let t = q1 + 1 + item_lead(pretty, level).len();
            &&& text_at(s, q, member_text(ms[i], pretty, level))
            &&& ends_value(s, q1)
            &&& skip_ws(s, q1, cm) == Some(q1)
            &&& 0 <= q1 < s.len()
            &&& s[q1] == ','
            &&& skip_ws(s, q1 + 1, cm) == Some(t)
            &&& q < t < s.len()
            &&& s[t] != '}'
            &&& members_text_at(ms, i + 1, pretty, level, s, t)
            &&& members_text_end(ms, i + 1, pretty, level, t) == members_text_end(
                ms,
                i,
                pretty,
                level,
                q,
            )
        }),
{
    let m = member_text(ms[i], pretty, level);
    let q1 = q + m.len();
    let lead = item_lead(pretty, level);
    let nx = member_text(ms[i + 1], pretty, level);
    let t = q1 + 1 + lead.len();
    lemma_text_at_bounds(s, q, m);
    lemma_text_at_split(s, q1, seq![','] + lead + nx, members_tail(ms, pretty, level, i + 2));
    lemma_text_at_split(s, q1, seq![','] + lead, nx);
    assert(nx[0] == '"');
    lemma_text_at_char(s, t, nx, 0);
    lemma_comma_read(s, q1, pretty, level, t, cm);
}

/// A member followed by further members reads back, and so do they.
#[verifier::spinoff_prover]
proof fn lemma_members_read_next(
    ms: Seq<(Seq<char>, JsonValue)>,
    i: int,
    pretty: bool,
    level: nat,
    s: Seq<char>,
    q: int,
    d: nat,
    cm: bool,
)
    requires
        0 <= i,
        i + 1 < ms.len(),
        members_readable(ms, d),
        members_text_at(ms, i, pretty, level, s, q),
    ensures
        object_members(s, q, d, cm, ms.take(i)) == Some(
            (JsonValue::Object(ms), members_text_end(ms, i, pretty, level, q)),
        ),
    decreases ms, 4 * (ms.len() - i) + 2,
{
    let key = ms[i].0;
    let val = ms[i].1;
    let q1 = q + member_text(ms[i], pretty, level).len();
    let k2 = q + quoted(key).len();
    let t = q1 + 1 + item_lead(pretty, level).len();
    lemma_members_next_parts(ms, i, pretty, level, s, q, cm);
    lemma_member_read(ms, i, pretty, level, s, q, d, cm);
    step_object_members_next(s, q, d, cm, ms.take(i), key, k2, val, q1, t);
    assert(ms.take(i).push((key, val)) =~= ms.take(i + 1));
    lemma_members_read(ms, i + 1, pretty, level, s, t, d, cm);
}

/// The last member and the closing brace read back as the object.
#[verifier::spinoff_prover]
proof fn lemma_members_read_last(
    ms: Seq<(Seq<char>, JsonValue)>,
    i: int,
    pretty: bool,
    level: nat,
    s: Seq<char>,
    q: int,
    d: nat,
    cm: bool,
)
    requires
        0 <= i,
        i + 1 == ms.len(),
        members_readable(ms, d),
        members_text_at(ms, i, pretty, level, s, q),
    ensures
        object_members(s, q, d, cm, ms.take(i)) == Some(
            (JsonValue::Object(ms), members_text_end(ms, i, pretty, level, q)),
        ),
    decreases ms, 4 * (ms.len() - i) + 2,
{
    let n = ms.len();
    let key = ms[i].0;
    let val = ms[i].1;
    let m = member_text(ms[i], pretty, level);
    let c = closing_lead(pretty, level, n);
    let q1 = q + m.len();
    let k2 = q + quoted(key).len();
    assert(members_tail(ms, pretty, level, i + 1).len() == 0);
    lemma_text_at_bounds(s, q, m);
    lemma_closing_read(s, q1, pretty, level, n, '}', cm);
    lemma_member_read(ms, i, pretty, level, s, q, d, cm);
    step_object_members_last(s, q, d, cm, ms.take(i), key, k2, val, q1, q1 + c.len());
    assert(ms.take(i).push((key, val)) =~= ms);
}

/// Writing a value and reading the text back gives the same value, in compact and in
/// pretty form, whether comments are allowed or not: for every value whose numbers are
/// whole number texts that stay finite, whose objects have distinct keys without NUL
/// characters, and whose nesting stays within the limit.
pub proof fn law_read_after_write(v: JsonValue, pretty: bool, cm: bool)
    requires
        readable_at(v, 0),
    ensures
        parse_document(serialized(v, pretty, 0), cm) == Some(v),
{
    let s = serialized(v, pretty, 0);
    lemma_serialized_start(v, pretty, 0, 0);
    assert(text_at(s, 0, s)) by {
        reveal(text_at);
        assert(s.subrange(0, s.len() as int) =~= s);
    }
    assert(without_bom(s) == s);
    lemma_value_read(v, pretty, 0, s, 0, 0, cm);
}

} // verus!
