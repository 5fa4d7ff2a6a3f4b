//! Writing values as JSON text, proved against the spec `serialized`.
use vstd::prelude::*;
use crate::value::{Value, JsonValue};
use crate::array::Array;
use crate::object::Object;
use crate::text::{push_char, chars_of, push_text};

verus! {

/// `n` levels of indentation, four spaces each.
pub open spec fn indent(n: nat) -> Seq<char>
    decreases n,
{
    if n == 0 {
        Seq::empty()
    } else {
        indent((n - 1) as nat) + seq![' ', ' ', ' ', ' ']
    }
}

/// The lowercase hexadecimal digit for `d` (below 16).
pub open spec fn hex_lower(d: int) -> char {
    seq!['0', '1', '2', '3', '4', '5', '6', '7', '8', '9', 'a', 'b', 'c', 'd', 'e', 'f'][d]
}

/// How one character of a string is written inside quotes.
pub open spec fn escape_char(c: char) -> Seq<char> {
    if c == '"' {
        seq!['\\', '"']
    } else if c == '\\' {
        seq!['\\', '\\']
    } else if c == '/' {
        seq!['\\', '/']
    } else if c == '\x08' {
        seq!['\\', 'b']
    } else if c == '\x0C' {
        seq!['\\', 'f']
    } else if c == '\n' {
        seq!['\\', 'n']
    } else if c == '\r' {
        seq!['\\', 'r']
    } else if c == '\t' {
        seq!['\\', 't']
    } else if (c as u32) < 0x20 {
        seq!['\\', 'u', '0', '0', hex_lower((c as u32) as int / 16), hex_lower((c as u32) as int % 16)]
    } else {
        seq![c]
    }
}

/// The characters of a string, each written as `escape_char` says.
pub open spec fn escaped(t: Seq<char>) -> Seq<char>
    decreases t.len(),
{
    if t.len() == 0 {
        Seq::empty()
    } else {
        escaped(t.drop_last()) + escape_char(t.last())
    }
}

/// A string literal.
pub open spec fn quoted(t: Seq<char>) -> Seq<char> {
    seq!['"'] + escaped(t) + seq!['"']
}

/// What stands before an element or member: in pretty form, a new line and the indentation
/// of the level inside the container.
pub open spec fn item_lead(pretty: bool, level: nat) -> Seq<char> {
    if pretty {
        seq!['\n'] + indent(level + 1)
    } else {
        Seq::empty()
    }
}

/// What stands before the closing bracket of a non-empty container in pretty form.
pub open spec fn closing_lead(pretty: bool, level: nat, n: nat) -> Seq<char> {
    if pretty && n > 0 {
        seq!['\n'] + indent(level)
    } else {
        Seq::empty()
    }
}

/// The separator between a key and its value.
pub open spec fn key_separator(pretty: bool) -> Seq<char> {
    if pretty {
        seq![':', ' ']
    } else {
        seq![':']
    }
}

/// The JSON text of `v` at nesting `level`, compact or pretty (four spaces per level).
pub open spec fn serialized(v: JsonValue, pretty: bool, level: nat) -> Seq<char>
    decreases v,
{
    match v {
        JsonValue::Null => seq!['n', 'u', 'l', 'l'],
        JsonValue::Bool(b) => if b {
            seq!['t', 'r', 'u', 'e']
        } else {
            seq!['f', 'a', 'l', 's', 'e']
        },
        JsonValue::Number(t) => t,
        JsonValue::String(t) => quoted(t),
        JsonValue::Array(items) => seq!['['] + elements_text(items, pretty, level) + closing_lead(
            pretty,
            level,
            items.len(),
        ) + seq![']'],
        JsonValue::Object(ms) => seq!['{'] + members_text(ms, pretty, level) + closing_lead(
            pretty,
            level,
            ms.len(),
        ) + seq!['}'],
    }
}

/// The elements of an array, separated by commas.
pub open spec fn elements_text(items: Seq<JsonValue>, pretty: bool, level: nat) -> Seq<char>
    decreases items,
{
    if items.len() == 0 {
        Seq::empty()
    } else if items.len() == 1 {
        item_lead(pretty, level) + serialized(items[0], pretty, level + 1)
    } else {
        elements_text(items.subrange(0, items.len() - 1), pretty, level) + seq![','] + item_lead(
            pretty,
            level,
        ) + serialized(items[items.len() - 1], pretty, level + 1)
    }
}

/// The members of an object, separated by commas.
pub open spec fn members_text(ms: Seq<(Seq<char>, JsonValue)>, pretty: bool, level: nat) -> Seq<
    char,
>
    decreases ms,
{
    if ms.len() == 0 {
        Seq::empty()
    } else if ms.len() == 1 {
        item_lead(pretty, level) + quoted(ms[0].0) + key_separator(pretty) + serialized(
            ms[0].1,
            pretty,
            level + 1,
        )
    } else {
        members_text(ms.subrange(0, ms.len() - 1), pretty, level) + seq![','] + item_lead(
            pretty,
            level,
        ) + quoted(ms[ms.len() - 1].0) + key_separator(pretty) + serialized(
            ms[ms.len() - 1].1,
            pretty,
            level + 1,
        )
    }
}

/// Appends the characters of `t`.
fn push_chars(out: &mut String, t: &[char])
    ensures
        final(out)@ == old(out)@ + t@,
{
    let ghost start = out@;
    for i in 0..t.len()
        invariant
            out@ == start + t@.take(i as int),
    {
        push_char(out, t[i]);
        assert(out@ =~= start + t@.take(i + 1));
    }
    assert(t@.take(t@.len() as int) =~= t@);
}

/// The lowercase hexadecimal digit for `d`.
fn hex_digit(d: u32) -> (c: char)
    requires
        d < 16,
    ensures
        c == hex_lower(d as int),
{
    let digits = ['0', '1', '2', '3', '4', '5', '6', '7', '8', '9', 'a', 'b', 'c', 'd', 'e', 'f'];
    assert(digits@ =~= seq!['0', '1', '2', '3', '4', '5', '6', '7', '8', '9', 'a', 'b', 'c', 'd', 'e', 'f']);
    digits[d as usize]
}

/// Appends a string literal for `t`.
fn push_quoted(out: &mut String, t: &str)
    ensures
        final(out)@ == old(out)@ + quoted(t@),
{
    let ghost start = out@;
    let cs = chars_of(t);
    push_char(out, '"');
    for i in 0..cs.len()
        invariant
            cs@ == t@,
            out@ == start + seq!['"'] + escaped(cs@.take(i as int)),
    {
        let ghost before = out@;
        let c = cs[i];
        if c == '"' {
            push_chars(out, &['\\', '"']);
        } else if c == '\\' {
            push_chars(out, &['\\', '\\']);
        } else if c == '/' {
            push_chars(out, &['\\', '/']);
        } else if c == '\x08' {
            push_chars(out, &['\\', 'b']);
        } else if c == '\x0C' {
            push_chars(out, &['\\', 'f']);
        } else if c == '\n' {
            push_chars(out, &['\\', 'n']);
        } else if c == '\r' {
            push_chars(out, &['\\', 'r']);
        } else if c == '\t' {
            push_chars(out, &['\\', 't']);
        } else if (c as u32) < 0x20 {
            let v = c as u32;
            push_chars(out, &['\\', 'u', '0', '0', hex_digit(v / 16), hex_digit(v % 16)]);
        } else {
            push_char(out, c);
        }
        proof {
            assert(cs@.take(i + 1).drop_last() =~= cs@.take(i as int));
            assert(out@ =~= before + escape_char(c));
        }
    }
    assert(cs@.take(cs@.len() as int) =~= cs@);
    push_char(out, '"');
}

/// The indentation one level deeper than `ind`.
fn deeper(ind: &Vec<char>) -> (r: Vec<char>)
    ensures
        r@ == ind@ + seq![' ', ' ', ' ', ' '],
{
    let mut r: Vec<char> = Vec::new();
    for i in 0..ind.len()
        invariant
            r@ == ind@.take(i as int),
    {
        r.push(ind[i]);
        assert(r@ =~= ind@.take(i + 1));
    }
    r.push(' ');
    r.push(' ');
    r.push(' ');
    r.push(' ');
    assert(ind@.take(ind@.len() as int) =~= ind@);
    assert(r@ =~= ind@ + seq![' ', ' ', ' ', ' ']);
    r
}

/// Appends the JSON text of `value` at nesting `level`, whose indentation is `ind`.
fn serialize_into(
    value: &Value,
    out: &mut String,
    pretty: bool,
    ind: &Vec<char>,
    Ghost(level): Ghost<nat>,
)
    requires
        ind@ == indent(level),
    ensures
        final(out)@ == old(out)@ + serialized(value@, pretty, level),
    decreases value@, 1int,
{
    match value {
        Value::Null => push_chars(out, &['n', 'u', 'l', 'l']),
        Value::Bool(b) => if *b {
            push_chars(out, &['t', 'r', 'u', 'e']);
        } else {
            push_chars(out, &['f', 'a', 'l', 's', 'e']);
        },
        Value::Number(n) => push_text(out, n.as_text()),
        Value::String(t) => push_quoted(out, t.as_str()),
        Value::Array(arr) => serialize_array(arr, out, pretty, ind, Ghost(level)),
        Value::Object(obj) => serialize_object(obj, out, pretty, ind, Ghost(level)),
    }
}

/// Appends the JSON text of the array `arr` at nesting `level`.
#[verifier::spinoff_prover]
#[verifier::rlimit(100)]
fn serialize_array(
    arr: &Array,
    out: &mut String,
    pretty: bool,
    ind: &Vec<char>,
    Ghost(level): Ghost<nat>,
)
    requires
        ind@ == indent(level),
    ensures
        final(out)@ == old(out)@ + serialized(JsonValue::Array(arr.model()), pretty, level),
    decreases JsonValue::Array(arr.model()), 0int,
{
    let ghost start = out@;
    let ghost items = arr.model();
    let ghost whole = JsonValue::Array(items);
    push_char(out, '[');
    let inner = deeper(ind);
    assert(inner@ == indent(level + 1));
    let n = arr.len();
    for i in 0..n
        invariant
            n == items.len(),
            items == arr.model(),
            whole == JsonValue::Array(items),
            inner@ == indent(level + 1),
            ind@ == indent(level),
            out@ == start + seq!['['] + elements_text(items.take(i as int), pretty, level) + if 0
                < i < n {
                seq![',']
            } else {
                Seq::empty()
            },
    {
        let ghost before = out@;
        if pretty {
            push_char(out, '\n');
            push_chars(out, inner.as_slice());
        }
        assert(out@ == before + item_lead(pretty, level));
        let item = match arr.get(i) {
            Some(x) => x,
            None => {
                assert(false);
                return;
            },
        };
        assert(decreases_to!(whole => item@)) by {
            assert(decreases_to!(whole => whole->Array_0));
            assert(decreases_to!(items => items[i as int]));
        }
        serialize_into(item, out, pretty, &inner, Ghost(level + 1));
        if i < n - 1 {
            push_char(out, ',');
        }
        proof {
            let t1 = items.take(i + 1);
            if i > 0 {
                assert(t1.subrange(0, t1.len() - 1) =~= items.take(i as int));
            }
        }
    }
    assert(items.take(n as int) =~= items);
    if pretty && n > 0 {
        push_char(out, '\n');
        push_chars(out, ind.as_slice());
    }
    push_char(out, ']');
}

/// Appends one member of an object at nesting `level`: its key, the separator and its
/// value.
fn serialize_member(
    key: &str,
    item: &Value,
    out: &mut String,
    pretty: bool,
    inner: &Vec<char>,
    Ghost(level): Ghost<nat>,
)
    requires
        inner@ == indent(level + 1),
    ensures
        final(out)@ == old(out)@ + quoted(key@) + key_separator(pretty) + serialized(
            item@,
            pretty,
            level + 1,
        ),
    decreases item@, 2int,
{
    push_quoted(out, key);
    if pretty {
        push_chars(out, &[':', ' ']);
    } else {
        push_char(out, ':');
    }
    serialize_into(item, out, pretty, inner, Ghost(level + 1));
}

/// Appends the JSON text of the object `obj` at nesting `level`.
#[verifier::spinoff_prover]
#[verifier::rlimit(100)]
fn serialize_object(
    obj: &Object,
    out: &mut String,
    pretty: bool,
    ind: &Vec<char>,
    Ghost(level): Ghost<nat>,
)
    requires
        ind@ == indent(level),
    ensures
        final(out)@ == old(out)@ + serialized(JsonValue::Object(obj.model()), pretty, level),
    decreases JsonValue::Object(obj.model()), 0int,
{
    let ghost start = out@;
    let ghost ms = obj.model();
    let ghost whole = JsonValue::Object(ms);
    push_char(out, '{');
    let inner = deeper(ind);
    assert(inner@ == indent(level + 1));
    let n = obj.len();
    for i in 0..n
        invariant
            n == ms.len(),
            ms == obj.model(),
            whole == JsonValue::Object(ms),
            inner@ == indent(level + 1),
            ind@ == indent(level),
            out@ == start + seq!['{'] + members_text(ms.take(i as int), pretty, level) + if 0 < i
                < n {
                seq![',']
            } else {
                Seq::empty()
            },
    {
        let ghost before = out@;
        if pretty {
            push_char(out, '\n');
            push_chars(out, inner.as_slice());
        }
        assert(out@ == before + item_lead(pretty, level));
        let key = match obj.get_key_at(i) {
            Some(k) => k,
            None => {
                assert(false);
                return;
            },
        };
        let item = match obj.get_value_at(i) {
            Some(x) => x,
            None => {
                assert(false);
                return;
            },
        };
        assert(decreases_to!(whole => item@)) by {
            assert(decreases_to!(whole => whole->Object_0));
            assert(decreases_to!(ms => ms[i as int]));
            assert(decreases_to!(ms[i as int] => ms[i as int].1));
        }
        assert(key@ == ms[i as int].0 && item@ == ms[i as int].1);
        serialize_member(key, item, out, pretty, &inner, Ghost(level));
        proof {
            lemma_members_text_step(ms, i as int, pretty, level);
            assert(out@ == before + item_lead(pretty, level) + quoted(ms[i as int].0)
                + key_separator(pretty) + serialized(ms[i as int].1, pretty, level + 1));
        }
        if i < n - 1 {
            push_char(out, ',');
        }
    }
    assert(ms.take(n as int) =~= ms);
    if pretty && n > 0 {
        push_char(out, '\n');
        push_chars(out, ind.as_slice());
    }
    push_char(out, '}');
}

/// The text of the first `i + 1` members extends that of the first `i` by a comma (when
/// there were any) and the member at `i`.
pub proof fn lemma_members_text_step(
    ms: Seq<(Seq<char>, JsonValue)>,
    i: int,
    pretty: bool,
    level: nat,
)
    requires
        0 <= i < ms.len(),
    ensures
        members_text(ms.take(i + 1), pretty, level) == members_text(ms.take(i), pretty, level)
            + (if i > 0 {
            seq![',']
        } else {
            Seq::empty()
        }) + item_lead(pretty, level) + quoted(ms[i].0) + key_separator(pretty) + serialized(
            ms[i].1,
            pretty,
            level + 1,
        ),
{
    let t1 = ms.take(i + 1);
    if i > 0 {
        assert(t1.subrange(0, t1.len() - 1) =~= ms.take(i));
    } else {
        assert(ms.take(i) =~= Seq::<(Seq<char>, JsonValue)>::empty());
    }
}

/// Appends the JSON text of `value` at nesting `level` to `out`: what `out` held stays, and
/// the text appended depends on the value, the form and the level alone.
pub fn serialize_internal(value: &Value, out: &mut String, pretty: bool, level: usize)
    ensures
        final(out)@ == old(out)@ + serialized(value@, pretty, level as nat),
{
    let mut ind: Vec<char> = Vec::new();
    assert(ind@ =~= indent(0));
    for i in 0..level
        invariant
            ind@ == indent(i as nat),
    {
        ind = deeper(&ind);
    }
    serialize_into(value, out, pretty, &ind, Ghost(level as nat));
}

/// The compact JSON text of `value`.
pub fn serialize_to_string(value: &Value) -> (r: String)
    ensures
        r@ == serialized(value@, false, 0),
{
    let mut result = String::new();
    serialize_internal(value, &mut result, false, 0);
    result
}

/// The JSON text of `value` with one member or element per line, indented by four spaces
/// per level.
pub fn serialize_to_string_pretty(value: &Value) -> (r: String)
    ensures
        r@ == serialized(value@, true, 0),
{
    let mut result = String::new();
    serialize_internal(value, &mut result, true, 0);
    result
}

} // verus!
