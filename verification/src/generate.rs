//! Random inputs for differential testing: printable noise, sequences of JSON tokens, and
//! valid documents of a bounded depth.
use vstd::prelude::*;
use rand::Rng;
use rand::rngs::ThreadRng;
use crate::text::{push_char, push_text, char_from_scalar};
use crate::value::JsonValue;
use crate::grammar::{
    is_ws, is_digit, digit_run, number_end, number_tail_end, skip_ws, value_at, array_items,
    object_members, has_key, parse_document, MAX_NESTING_DEPTH,
};
use crate::roundtrip::{
    text_at, lemma_text_at_char, lemma_text_at_split, lemma_text_at_bounds,
    lemma_text_at_subrange, lemma_skip_ws_run, lemma_string_read, lemma_number_at, step_value,
    step_array_open, step_array_items_next, step_array_items_last, step_object_open,
    step_object_members_next, step_object_members_last, lemma_literal_read, lemma_value_at_ws,
    member_parts,
};
use crate::serializer::{escape_char, escaped};
use crate::number::{
    is_number_text, rounds_to_infinity, digits_value, int_end, has_fraction, mantissa_digits,
    written_exponent, threshold_digits, fraction_len, overflow_threshold, magnitude_at_least, lemma_threshold_digits, lemma_digits_value_lower,
};
use vstd::arithmetic::power::{pow, lemma_pow_increases};

verus! {

#[verifier::external_type_specification]
#[verifier::external_body]
pub struct ExThreadRng(ThreadRng);

/// rand's `Rng::gen_range` on the half-open range `lo..hi`: the result lies in the range
/// (which value it is, is up to chance). rand panics on an empty range, hence `lo < hi`.
#[verifier::external_body]
fn random_in(rng: &mut ThreadRng, lo: i64, hi: i64) -> (r: i64)
    requires
        lo < hi,
    ensures
        lo <= r < hi,
{
    rng.gen_range(lo..hi)
}

/// A printable ASCII character (space to `~`) other than `/`, which would start a comment.
pub open spec fn printable_no_slash(c: char) -> bool {
    32 <= (c as u32) <= 126 && (c as u32) != 47
}

/// `len` random printable ASCII characters, none of them `/`.
pub fn fuzz_random_ascii(rng: &mut ThreadRng, len: usize) -> (s: String)
    ensures
        s@.len() == len,
        forall|i: int| 0 <= i < s@.len() ==> printable_no_slash(#[trigger] s@[i]),
{
    let mut chars: Vec<char> = Vec::new();
    let mut b: u32 = 32;
    while b < 127
        invariant
            32 <= b <= 127,
            chars@.len() == if b > 47 { b - 33 } else { b - 32 },
            forall|i: int| 0 <= i < chars@.len() ==> printable_no_slash(#[trigger] chars@[i]),
        decreases 127 - b,
    {
        if b != 47 {
            match char_from_scalar(b) {
                Some(c) => {
                    let ghost before = chars@;
                    assert(printable_no_slash(c));
                    chars.push(c);
                    assert forall|i: int| 0 <= i < chars@.len() implies printable_no_slash(
                        #[trigger] chars@[i],
                    ) by {
                        if i < before.len() {
                            assert(chars@[i] == before[i]);
                        }
                    }
                },
                None => {},
            }
        }
        b += 1;
    }
    let mut s = String::new();
    let mut k: usize = 0;
    while k < len
        invariant
            k <= len,
            s@.len() == k,
            chars@.len() == 94,
            forall|i: int| 0 <= i < chars@.len() ==> printable_no_slash(#[trigger] chars@[i]),
            forall|i: int| 0 <= i < s@.len() ==> printable_no_slash(#[trigger] s@[i]),
        decreases len - k,
    {
        let j = random_in(rng, 0, 94);
        let c = chars[j as usize];
        let ghost before = s@;
        push_char(&mut s, c);
        assert forall|i: int| 0 <= i < s@.len() implies printable_no_slash(#[trigger] s@[i]) by {
            if i < before.len() {
                assert(s@[i] == before[i]);
            }
        }
        k += 1;
    }
    s
}

/// The tokens that structured noise is made of, by index.
pub open spec fn structured_token(k: int) -> Seq<char> {
    if k == 0 {
        "{"@
    } else if k == 1 {
        "}"@
    } else if k == 2 {
        "["@
    } else if k == 3 {
        "]"@
    } else if k == 4 {
        ":"@
    } else if k == 5 {
        ","@
    } else if k == 6 {
        "\""@
    } else if k == 7 {
        "a"@
    } else if k == 8 {
        "1"@
    } else if k == 9 {
        "-0"@
    } else if k == 10 {
        "true"@
    } else if k == 11 {
        "false"@
    } else if k == 12 {
        "null"@
    } else if k == 13 {
        "\\u0020"@
    } else if k == 14 {
        " "@
    } else if k == 15 {
        "\n"@
    } else if k == 16 {
        "\\\""@
    } else {
        "0.125"@
    }
}

/// The token with index `k`.
fn structured_choice(k: i64) -> (t: &'static str)
    requires
        0 <= k < 18,
    ensures
        t@ == structured_token(k as int),
{
    if k == 0 {
        "{"
    } else if k == 1 {
        "}"
    } else if k == 2 {
        "["
    } else if k == 3 {
        "]"
    } else if k == 4 {
        ":"
    } else if k == 5 {
        ","
    } else if k == 6 {
        "\""
    } else if k == 7 {
        "a"
    } else if k == 8 {
        "1"
    } else if k == 9 {
        "-0"
    } else if k == 10 {
        "true"
    } else if k == 11 {
        "false"
    } else if k == 12 {
        "null"
    } else if k == 13 {
        "\\u0020"
    } else if k == 14 {
        " "
    } else if k == 15 {
        "\n"
    } else if k == 16 {
        "\\\""
    } else {
        "0.125"
    }
}

/// The tokens with indices `ix`, one after another.
pub open spec fn tokens_text(ix: Seq<int>) -> Seq<char>
    decreases ix.len(),
{
    if ix.len() == 0 {
        Seq::empty()
    } else {
        tokens_text(ix.drop_last()) + structured_token(ix.last())
    }
}

/// Between five and seventy-nine random JSON tokens, one after another.
pub fn fuzz_structured(rng: &mut ThreadRng) -> (s: String)
    ensures
        exists|ix: Seq<int>|
            5 <= ix.len() < 80 && (forall|i: int| 0 <= i < ix.len() ==> 0 <= #[trigger] ix[i] < 18)
                && s@ == tokens_text(ix),
{
    let mut s = String::new();
    let n = random_in(rng, 5, 80);
    let ghost mut ix: Seq<int> = Seq::empty();
    let mut k: i64 = 0;
    while k < n
        invariant
            0 <= k <= n < 80,
            ix.len() == k,
            forall|i: int| 0 <= i < ix.len() ==> 0 <= #[trigger] ix[i] < 18,
            s@ == tokens_text(ix),
        decreases n - k,
    {
        let j = random_in(rng, 0, 18);
        push_text(&mut s, structured_choice(j));
        proof {
            let old_ix = ix;
            ix = ix.push(j as int);
            assert(ix.drop_last() =~= old_ix);
        }
        k += 1;
    }
    s
}

/// The decimal digit for `n` (below ten).
pub open spec fn digit_char(n: nat) -> char {
    if n == 0 {
        '0'
    } else if n == 1 {
        '1'
    } else if n == 2 {
        '2'
    } else if n == 3 {
        '3'
    } else if n == 4 {
        '4'
    } else if n == 5 {
        '5'
    } else if n == 6 {
        '6'
    } else if n == 7 {
        '7'
    } else if n == 8 {
        '8'
    } else {
        '9'
    }
}

/// The decimal digits of `n`, with no leading zero.
pub open spec fn decimal(n: nat) -> Seq<char>
    decreases n,
{
    if n < 10 {
        seq![digit_char(n)]
    } else {
        decimal(n / 10).push(digit_char(n % 10))
    }
}

/// The decimal text of the whole number `i`, with a `-` before a negative one.
pub open spec fn int_text(i: int) -> Seq<char> {
    if i < 0 {
        seq!['-'] + decimal((-i) as nat)
    } else {
        decimal(i as nat)
    }
}

/// The text of `v` as the generator writes it: elements and members after `, `, and
/// `": "` between a key and its value.
pub open spec fn spaced_text(v: JsonValue) -> Seq<char>
    decreases v,
{
    match v {
        JsonValue::Null => seq!['n', 'u', 'l', 'l'],
        JsonValue::Bool(b) => if b {
            seq!['t', 'r', 'u', 'e']
        } else {
            seq!['f', 'a', 'l', 's', 'e']
        },
        JsonValue::Number(t) => t,
        JsonValue::String(t) => seq!['"'] + t + seq!['"'],
        JsonValue::Array(items) => seq!['['] + spaced_items(items) + seq![']'],
        JsonValue::Object(ms) => seq!['{'] + spaced_members(ms) + seq!['}'],
    }
}

/// The elements of an array as the generator writes them, separated by `, `.
pub open spec fn spaced_items(items: Seq<JsonValue>) -> Seq<char>
    decreases items,
{
    if items.len() == 0 {
        Seq::empty()
    } else if items.len() == 1 {
        spaced_text(items[0])
    } else {
        spaced_text(items[0]) + seq![',', ' '] + spaced_items(items.subrange(1, items.len() as int))
    }
}

/// The members of an object as the generator writes them, separated by `, `.
pub open spec fn spaced_members(ms: Seq<(Seq<char>, JsonValue)>) -> Seq<char>
    decreases ms,
{
    if ms.len() == 0 {
        Seq::empty()
    } else if ms.len() == 1 {
        seq!['"'] + ms[0].0 + seq!['"', ':', ' '] + spaced_text(ms[0].1)
    } else {
        seq!['"'] + ms[0].0 + seq!['"', ':', ' '] + spaced_text(ms[0].1) + seq![',', ' ']
            + spaced_members(ms.subrange(1, ms.len() as int))
    }
}

/// Appending an element to at least one adds `, ` and its text.
proof fn lemma_spaced_items_push(items: Seq<JsonValue>, x: JsonValue)
    requires
        items.len() >= 1,
    ensures
        spaced_items(items.push(x)) == spaced_items(items) + seq![',', ' '] + spaced_text(x),
    decreases items.len(),
{
    let all = items.push(x);
    if items.len() == 1 {
        assert(all.subrange(1, all.len() as int) =~= seq![x]);
        assert(spaced_items(seq![x]) == spaced_text(x));
    } else {
        let rest = items.subrange(1, items.len() as int);
        assert(all.subrange(1, all.len() as int) =~= rest.push(x));
        lemma_spaced_items_push(rest, x);
    }
}

/// Appending a member to at least one adds `, ` and its text.
proof fn lemma_spaced_members_push(ms: Seq<(Seq<char>, JsonValue)>, m: (Seq<char>, JsonValue))
    requires
        ms.len() >= 1,
    ensures
        spaced_members(ms.push(m)) == spaced_members(ms) + seq![',', ' '] + (seq!['"'] + m.0
            + seq!['"', ':', ' '] + spaced_text(m.1)),
    decreases ms.len(),
{
    let all = ms.push(m);
    let mt = seq!['"'] + m.0 + seq!['"', ':', ' '] + spaced_text(m.1);
    if ms.len() == 1 {
        assert(all.subrange(1, all.len() as int) =~= seq![m]);
        assert(seq![m][0] == m);
        assert(spaced_members(seq![m]) == mt);
        assert(spaced_members(all) =~= spaced_members(ms) + seq![',', ' '] + mt);
    } else {
        let rest = ms.subrange(1, ms.len() as int);
        assert(all.subrange(1, all.len() as int) =~= rest.push(m));
        lemma_spaced_members_push(rest, m);
        assert(spaced_members(all) =~= spaced_members(ms) + seq![',', ' '] + mt);
    }
}

/// The key of the `i`-th member of a generated object: `key` and the index.
pub open spec fn generated_key(i: nat) -> Seq<char> {
    seq!['k', 'e', 'y'] + decimal(i)
}

/// A value the generator can give at `depth`. At depth 0: null, a boolean, a whole number
/// from -1000 up to 999, or a string `val` and a number below 100. Deeper: an array of at
/// most four values, or an object of at most three members keyed `key0`, `key1`, `key2` in
/// order, each value one level down.
pub open spec fn generable(v: JsonValue, depth: nat) -> bool
    decreases v,
{
    if depth == 0 {
        match v {
            JsonValue::Null => true,
            JsonValue::Bool(_) => true,
            JsonValue::Number(t) => exists|i: int| -1000 <= i < 1000 && t == int_text(i),
            JsonValue::String(t) => exists|n: nat| n < 100 && t == seq!['v', 'a', 'l'] + decimal(n),
            _ => false,
        }
    } else {
        match v {
            JsonValue::Array(items) => items.len() < 5 && forall|i: int|
                0 <= i < items.len() ==> generable(#[trigger] items[i], (depth - 1) as nat),
            JsonValue::Object(ms) => ms.len() < 4 && forall|i: int|
                0 <= i < ms.len() ==> (#[trigger] ms[i]).0 == generated_key(i as nat)
                    && generable(ms[i].1, (depth - 1) as nat),
            _ => false,
        }
    }
}

/// The digit for `n`.
fn digit(n: u64) -> (c: char)
    requires
        n < 10,
    ensures
        c == digit_char(n as nat),
{
    if n == 0 {
        '0'
    } else if n == 1 {
        '1'
    } else if n == 2 {
        '2'
    } else if n == 3 {
        '3'
    } else if n == 4 {
        '4'
    } else if n == 5 {
        '5'
    } else if n == 6 {
        '6'
    } else if n == 7 {
        '7'
    } else if n == 8 {
        '8'
    } else {
        '9'
    }
}

/// Appends the decimal digits of `n`.
fn push_decimal(out: &mut String, n: u64)
    ensures
        final(out)@ == old(out)@ + decimal(n as nat),
    decreases n,
{
    if n < 10 {
        push_char(out, digit(n));
        assert(decimal(n as nat) =~= seq![digit_char(n as nat)]);
    } else {
        let ghost start = out@;
        push_decimal(out, n / 10);
        push_char(out, digit(n % 10));
        assert(out@ =~= start + decimal(n as nat));
    }
}

/// `s` parses as a document, with comments allowed and without.
#[verifier::opaque]
pub open spec fn parses_either_way(s: Seq<char>) -> bool {
    parse_document(s, false) is Some && parse_document(s, true) is Some
}

/// A random valid JSON document nested `depth` levels deep, written as the generator writes
/// it: at depth 0 a literal, a whole number or a short string; above that an array or an
/// object of values one level down. Below the nesting limit it always parses.
pub fn fuzz_valid_json(rng: &mut ThreadRng, depth: usize) -> (s: String)
    ensures
        exists|v: JsonValue| generable(v, depth as nat) && s@ == spaced_text(v),
        depth < MAX_NESTING_DEPTH ==> parses_either_way(s@),
    decreases depth,
{
    let mut s = String::new();
    let ghost mut w = JsonValue::Null;
    if depth == 0 {
        let k = random_in(rng, 0, 5);
        if k == 0 {
            push_char(&mut s, 'n');
            push_char(&mut s, 'u');
            push_char(&mut s, 'l');
            push_char(&mut s, 'l');
            proof {
                let v = JsonValue::Null;
                assert(s@ =~= spaced_text(v));
                assert(generable(v, 0));
                w = v;
            }
        } else if k == 1 {
            push_char(&mut s, 't');
            push_char(&mut s, 'r');
            push_char(&mut s, 'u');
            push_char(&mut s, 'e');
            proof {
                let v = JsonValue::Bool(true);
                assert(s@ =~= spaced_text(v));
                assert(generable(v, 0));
                w = v;
            }
        } else if k == 2 {
            push_char(&mut s, 'f');
            push_char(&mut s, 'a');
            push_char(&mut s, 'l');
            push_char(&mut s, 's');
            push_char(&mut s, 'e');
            proof {
                let v = JsonValue::Bool(false);
                assert(s@ =~= spaced_text(v));
                assert(generable(v, 0));
                w = v;
            }
        } else if k == 3 {
            let i = random_in(rng, -1000, 1000);
            if i < 0 {
                push_char(&mut s, '-');
                push_decimal(&mut s, (-i) as u64);
            } else {
                push_decimal(&mut s, i as u64);
            }
            proof {
                let v = JsonValue::Number(int_text(i as int));
                assert(s@ =~= int_text(i as int));
                assert(generable(v, 0));
                w = v;
            }
        } else {
            let n = random_in(rng, 0, 100);
            push_char(&mut s, '"');
            push_char(&mut s, 'v');
            push_char(&mut s, 'a');
            push_char(&mut s, 'l');
            push_decimal(&mut s, n as u64);
            push_char(&mut s, '"');
            proof {
                let t = seq!['v', 'a', 'l'] + decimal(n as nat);
                let v = JsonValue::String(t);
                assert(s@ =~= spaced_text(v));
                assert(generable(v, 0));
                w = v;
            }
        }
    } else if random_in(rng, 0, 2) == 0 {
        let len = random_in(rng, 0, 5);
        push_char(&mut s, '[');
        let ghost mut items: Seq<JsonValue> = Seq::empty();
        let mut j: i64 = 0;
        while j < len
            invariant
                0 <= j <= len < 5,
                depth > 0,
                items.len() == j,
                forall|i: int| 0 <= i < items.len() ==> generable(#[trigger] items[i], (depth - 1) as nat),
                s@ == seq!['['] + spaced_items(items),
            decreases len - j,
        {
            let ghost start = s@;
            if j > 0 {
                push_char(&mut s, ',');
                push_char(&mut s, ' ');
            }
            let t = fuzz_valid_json(rng, depth - 1);
            let ghost v = choose|v: JsonValue| generable(v, (depth - 1) as nat) && t@ == spaced_text(v);
            push_text(&mut s, t.as_str());
            proof {
                let old_items = items;
                items = items.push(v);
                if j > 0 {
                    lemma_spaced_items_push(old_items, v);
                }
                assert(s@ =~= seq!['['] + spaced_items(items));
            }
            j += 1;
        }
        push_char(&mut s, ']');
        proof {
            let v = JsonValue::Array(items);
            assert(s@ =~= spaced_text(v));
            assert(generable(v, depth as nat));
            w = v;
        }
    } else {
        let len = random_in(rng, 0, 4);
        push_char(&mut s, '{');
        let ghost mut ms: Seq<(Seq<char>, JsonValue)> = Seq::empty();
        let mut j: i64 = 0;
        while j < len
            invariant
                0 <= j <= len < 4,
                depth > 0,
                ms.len() == j,
                forall|i: int| 0 <= i < ms.len() ==> (#[trigger] ms[i]).0 == generated_key(i as nat)
                    && generable(ms[i].1, (depth - 1) as nat),
                s@ == seq!['{'] + spaced_members(ms),
            decreases len - j,
        {
            if j > 0 {
                push_char(&mut s, ',');
                push_char(&mut s, ' ');
            }
            push_char(&mut s, '"');
            push_char(&mut s, 'k');
            push_char(&mut s, 'e');
            push_char(&mut s, 'y');
            push_decimal(&mut s, j as u64);
            push_char(&mut s, '"');
            push_char(&mut s, ':');
            push_char(&mut s, ' ');
            let t = fuzz_valid_json(rng, depth - 1);
            let ghost v = choose|v: JsonValue| generable(v, (depth - 1) as nat) && t@ == spaced_text(v);
            push_text(&mut s, t.as_str());
            proof {
                let old_ms = ms;
                ms = ms.push((generated_key(j as nat), v));
                if j > 0 {
                    lemma_spaced_members_push(old_ms, (generated_key(j as nat), v));
                }
                assert(s@ =~= seq!['{'] + spaced_members(ms));
            }
            j += 1;
        }
        push_char(&mut s, '}');
        proof {
            let v = JsonValue::Object(ms);
            assert(s@ =~= spaced_text(v));
            assert(generable(v, depth as nat));
            w = v;
        }
    }
    assert(generable(w, depth as nat) && s@ == spaced_text(w));
    if depth < MAX_NESTING_DEPTH {
        proof {
            law_generated_documents_parse(w, depth as nat, false);
            law_generated_documents_parse(w, depth as nat, true);
            reveal(parses_either_way);
        }
    }
    s
}

/// A decimal digit, spelled out.
pub open spec fn is_decimal_char(c: char) -> bool {
    c == '0' || c == '1' || c == '2' || c == '3' || c == '4' || c == '5' || c == '6' || c == '7'
        || c == '8' || c == '9'
}

/// A character the generated text of a value can begin with.
pub open spec fn opens_generated(c: char) -> bool {
    c == 'n' || c == 't' || c == 'f' || c == '"' || c == '[' || c == '{' || c == '-'
        || is_decimal_char(c)
}

proof fn lemma_digit_char(k: nat)
    requires
        k < 10,
    ensures
        is_decimal_char(digit_char(k)),
        (digit_char(k) as nat - '0' as nat) == k,
        k > 0 ==> digit_char(k) != '0',
{
}

proof fn lemma_decimal_char(c: char)
    requires
        is_decimal_char(c),
    ensures
        is_digit(c),
        escape_char(c) == seq![c],
        c != '\0',
{
}

proof fn lemma_opens(c: char)
    requires
        opens_generated(c),
    ensures
        !is_ws(c),
        c != '/',
        c != ']',
        c != '}',
        c != '\u{FEFF}',
{
}

/// The digits of `n`: what they are, and their value.
proof fn lemma_decimal(n: nat)
    ensures
        decimal(n).len() >= 1,
        forall|i: int| 0 <= i < decimal(n).len() ==> is_decimal_char(#[trigger] decimal(n)[i]),
        n > 0 ==> decimal(n)[0] != '0',
        n == 0 ==> decimal(n) == seq!['0'],
        n < 10 ==> decimal(n) == seq![digit_char(n)],
        digits_value(decimal(n)) == n,
    decreases n,
{
    if n < 10 {
        lemma_digit_char(n);
        let one = seq![digit_char(n)];
        assert(one.drop_last() =~= Seq::<char>::empty());
        assert(one.last() == digit_char(n));
        assert(digits_value(one) == digits_value(one.drop_last()) * 10 + (one.last() as nat
            - '0' as nat) as nat);
    } else {
        lemma_decimal(n / 10);
        lemma_digit_char(n % 10);
        let t = decimal(n / 10);
        assert(decimal(n).drop_last() =~= t);
        assert(decimal(n)[0] == t[0]);
        assert forall|i: int| 0 <= i < decimal(n).len() implies is_decimal_char(
            #[trigger] decimal(n)[i],
        ) by {
            if i < t.len() {
                assert(decimal(n)[i] == t[i]);
            }
        }
        assert(decimal(n).last() == digit_char(n % 10));
        assert(n == (n / 10) * 10 + n % 10);
        assert(digits_value(decimal(n)) == digits_value(t) * 10 + (digit_char(n % 10) as nat
            - '0' as nat) as nat);
    }
}

/// Characters each written as themselves are escaped as themselves.
proof fn lemma_escaped_plain(t: Seq<char>)
    requires
        forall|i: int| 0 <= i < t.len() ==> escape_char(#[trigger] t[i]) == seq![t[i]],
    ensures
        escaped(t) == t,
    decreases t.len(),
{
    if t.len() > 0 {
        let u = t.drop_last();
        assert forall|i: int| 0 <= i < u.len() implies escape_char(#[trigger] u[i]) == seq![u[i]] by {
            assert(u[i] == t[i]);
        }
        lemma_escaped_plain(u);
        assert(escape_char(t[t.len() - 1]) == seq![t[t.len() - 1]]);
        assert(escaped(t) =~= t);
    }
}

/// A run of digits to the end of `t` is counted whole.
proof fn lemma_digit_run_to_end(t: Seq<char>, a: int)
    requires
        0 <= a <= t.len(),
        forall|j: int| a <= j < t.len() ==> is_digit(#[trigger] t[j]),
    ensures
        digit_run(t, a) == t.len() - a,
    decreases t.len() - a,
{
    if a < t.len() {
        lemma_digit_run_to_end(t, a + 1);
    }
}

/// The text of a whole number from -1000 up to 999 is a valid number text, beginning with
/// `-` or a digit.
proof fn lemma_int_text(i: int)
    requires
        -1000 <= i < 1000,
    ensures
        is_number_text(int_text(i)),
        int_text(i).len() >= 1,
        int_text(i)[0] == '-' || is_decimal_char(int_text(i)[0]),
{
    let n: nat = if i < 0 { (-i) as nat } else { i as nat };
    let ds = decimal(n);
    let t = int_text(i);
    let a: int = if i < 0 { 1 } else { 0 };
    lemma_decimal(n);
    assert(t == if i < 0 { seq!['-'] + ds } else { ds });
    assert(t.subrange(a, t.len() as int) =~= ds);
    assert forall|j: int| a <= j < t.len() implies is_digit(#[trigger] t[j]) by {
        assert(t[j] == ds[j - a]);
        lemma_decimal_char(ds[j - a]);
    }
    assert(t[a] == ds[0]);
    lemma_decimal_char(ds[0]);
    if i < 0 {
        assert(t[0] == '-');
        assert(n > 0);
    }
    if n == 0 {
        assert(t =~= seq!['0']);
        assert(number_end(t, 0) == number_tail_end(t, 1, true));
    } else {
        lemma_digit_run_to_end(t, a + 1);
        assert(number_end(t, 0) == number_tail_end(t, t.len() as int, false));
    }
    assert(number_end(t, 0) == Some(t.len() as int));
    assert(int_end(t) == t.len());
    assert(!has_fraction(t));
    assert(mantissa_digits(t) =~= ds);
    assert(written_exponent(t) == 0);
    lemma_threshold_digits();
    lemma_digits_value_lower(threshold_digits());
    lemma_pow_increases(10, 3, 308);
    reveal_with_fuel(pow, 4);
    assert(pow(10, 0) == 1);
    assert(pow(10, 3) == 1000);
    assert(fraction_len(t) == 0);
    assert(digits_value(mantissa_digits(t)) == n);
    let thr = overflow_threshold() as int;
    assert(thr >= pow(10, 308));
    assert(n < thr);
    assert(!magnitude_at_least(n as int, 0, thr));
    assert(written_exponent(t) - fraction_len(t) == 0);
    reveal(rounds_to_infinity);
}

/// The text of a generated member.
pub open spec fn spaced_member(m: (Seq<char>, JsonValue)) -> Seq<char> {
    seq!['"'] + m.0 + seq!['"', ':', ' '] + spaced_text(m.1)
}

/// The generated text of a value ends at `e`: at the end of the input, or before a comma or
/// a closing bracket or brace.
pub open spec fn ends_generated(s: Seq<char>, e: int) -> bool {
    e == s.len() || (0 <= e < s.len() && (s[e] == ',' || s[e] == ']' || s[e] == '}'))
}

/// The key of a generated member, spelled out; it is written as itself.
proof fn lemma_key(j: nat)
    requires
        j < 10,
    ensures
        generated_key(j) == seq!['k', 'e', 'y', digit_char(j)],
        escaped(generated_key(j)) == generated_key(j),
        !generated_key(j).contains('\0'),
{
    lemma_decimal(j);
    lemma_digit_char(j);
    let k = generated_key(j);
    assert(k =~= seq!['k', 'e', 'y', digit_char(j)]);
    lemma_decimal_char(digit_char(j));
    assert forall|i: int| 0 <= i < k.len() implies escape_char(#[trigger] k[i]) == seq![k[i]] by {}
    lemma_escaped_plain(k);
    assert forall|i: int| 0 <= i < k.len() implies k[i] != '\0' by {}
}

/// Generated keys with different indices differ.
proof fn lemma_keys_differ(i: nat, j: nat)
    requires
        i < 10,
        j < 10,
        i != j,
    ensures
        generated_key(i) != generated_key(j),
{
    lemma_key(i);
    lemma_key(j);
    assert(generated_key(i)[3] != generated_key(j)[3]);
}

/// The text of a generated string, `val` and a number, is written as itself.
proof fn lemma_val_text(n: nat)
    ensures
        escaped(seq!['v', 'a', 'l'] + decimal(n)) == seq!['v', 'a', 'l'] + decimal(n),
{
    let t = seq!['v', 'a', 'l'] + decimal(n);
    lemma_decimal(n);
    assert forall|i: int| 0 <= i < t.len() implies escape_char(#[trigger] t[i]) == seq![t[i]] by {
        if i >= 3 {
            assert(t[i] == decimal(n)[i - 3]);
            lemma_decimal_char(decimal(n)[i - 3]);
        }
    }
    lemma_escaped_plain(t);
}

/// The generated text of a value is not empty, and its first character says what follows.
proof fn lemma_generated_start(v: JsonValue, depth: nat)
    requires
        generable(v, depth),
    ensures
        spaced_text(v).len() >= 1,
        opens_generated(spaced_text(v)[0]),
{
    match v {
        JsonValue::Number(t) => {
            let i = choose|i: int| -1000 <= i < 1000 && t == int_text(i);
            lemma_int_text(i);
        },
        _ => {},
    }
}

/// The generated elements of a non-empty array are not empty, and begin as their first does.
proof fn lemma_items_start(items: Seq<JsonValue>, depth: nat)
    requires
        items.len() >= 1,
        generable(items[0], depth),
    ensures
        spaced_items(items).len() >= 1,
        opens_generated(spaced_items(items)[0]),
{
    lemma_generated_start(items[0], depth);
    if items.len() > 1 {
        let x = spaced_text(items[0]);
        assert((x + seq![',', ' '] + spaced_items(items.subrange(1, items.len() as int)))[0] == x[0]);
    }
}

/// A literal, number or string that was generated reads back as itself.
#[verifier::spinoff_prover]
#[verifier::rlimit(100)]
proof fn lemma_generated_leaf_read(v: JsonValue, s: Seq<char>, p: int, d: nat, cm: bool)
    requires
        generable(v, 0),
        d < MAX_NESTING_DEPTH,
        text_at(s, p, spaced_text(v)),
        ends_generated(s, p + spaced_text(v).len()),
    ensures
        value_at(s, p, d, cm) == Some((v, p + spaced_text(v).len())),
{
    let x = spaced_text(v);
    lemma_generated_start(v, 0);
    lemma_text_at_char(s, p, x, 0);
    lemma_opens(x[0]);
    assert(skip_ws(s, p, cm) == Some(p));
    match v {
        JsonValue::Number(t) => {
            let i = choose|i: int| -1000 <= i < 1000 && t == int_text(i);
            lemma_int_text(i);
            lemma_number_at(s, p, t);
            lemma_text_at_subrange(s, p, t);
            if t[0] != '-' {
                lemma_decimal_char(t[0]);
            }
        },
        JsonValue::String(t) => {
            let n = choose|n: nat| n < 100 && t == seq!['v', 'a', 'l'] + decimal(n);
            lemma_val_text(n);
            lemma_text_at_split(s, p, seq!['"'] + t, seq!['"']);
            lemma_text_at_split(s, p, seq!['"'], t);
            lemma_string_read(s, p + 1, t);
        },
        JsonValue::Null => {
            lemma_literal_read(s, p, d, cm, x, v);
        },
        JsonValue::Bool(b) => {
            lemma_literal_read(s, p, d, cm, x, v);
        },
        _ => {},
    }
}

/// A generated value, standing at `p` and followed by what can follow a value in a
/// generated document, reads back as itself.
proof fn lemma_generated_read(v: JsonValue, depth: nat, s: Seq<char>, p: int, d: nat, cm: bool)
    requires
        generable(v, depth),
        d + depth < MAX_NESTING_DEPTH,
        text_at(s, p, spaced_text(v)),
        ends_generated(s, p + spaced_text(v).len()),
    ensures
        value_at(s, p, d, cm) == Some((v, p + spaced_text(v).len())),
    decreases v, 3int,
{
    if depth == 0 {
        lemma_generated_leaf_read(v, s, p, d, cm);
    } else {
        match v {
            JsonValue::Array(_) => lemma_generated_array_read(v, depth, s, p, d, cm),
            JsonValue::Object(_) => lemma_generated_object_read(v, depth, s, p, d, cm),
            _ => {},
        }
    }
}

/// A generated array reads back as itself.
#[verifier::spinoff_prover]
#[verifier::rlimit(100)]
proof fn lemma_generated_array_read(v: JsonValue, depth: nat, s: Seq<char>, p: int, d: nat, cm: bool)
    requires
        v is Array,
        depth > 0,
        generable(v, depth),
        d + depth < MAX_NESTING_DEPTH,
        text_at(s, p, spaced_text(v)),
    ensures
        value_at(s, p, d, cm) == Some((v, p + spaced_text(v).len())),
    decreases v, 2int,
{
    let items = v->Array_0;
    let body = spaced_items(items);
    lemma_text_at_split(s, p, seq!['['] + body, seq![']']);
    lemma_text_at_split(s, p, seq!['['], body);
    lemma_text_at_char(s, p, seq!['['], 0);
    lemma_text_at_char(s, p + 1 + body.len(), seq![']'], 0);
    lemma_text_at_bounds(s, p + 1 + body.len(), seq![']']);
    assert(skip_ws(s, p, cm) == Some(p));
    step_value(s, p, d, cm);
    if items.len() == 0 {
        assert(body.len() == 0);
        assert(skip_ws(s, p + 1, cm) == Some(p + 1));
        step_array_open(s, p + 1, d + 1, cm, p + 1);
        assert(items =~= Seq::<JsonValue>::empty());
    } else {
        lemma_items_start(items, (depth - 1) as nat);
        lemma_text_at_char(s, p + 1, body, 0);
        lemma_opens(body[0]);
        assert(skip_ws(s, p + 1, cm) == Some(p + 1));
        step_array_open(s, p + 1, d + 1, cm, p + 1);
        assert(decreases_to!(v => items));
        assert(text_at(s, p + 1, body + seq![']'])) by {
            reveal(text_at);
            lemma_text_at_subrange(s, p + 1, body);
            lemma_text_at_subrange(s, p + 1 + body.len(), seq![']']);
            assert(s.subrange(p + 1, p + 1 + body.len() + 1) =~= body + seq![']']);
        }
        lemma_generated_items_read(items, (depth - 1) as nat, s, p + 1, d + 1, cm, Seq::empty());
        assert(Seq::<JsonValue>::empty() + items =~= items);
    }
}

/// The generated elements of an array and its closing bracket, standing at `q`, read back
/// as the elements `acc` already read followed by these.
#[verifier::spinoff_prover]
#[verifier::rlimit(100)]
proof fn lemma_generated_items_read(
    items: Seq<JsonValue>,
    depth: nat,
    s: Seq<char>,
    q: int,
    d: nat,
    cm: bool,
    acc: Seq<JsonValue>,
)
    requires
        items.len() >= 1,
        forall|i: int| 0 <= i < items.len() ==> generable(#[trigger] items[i], depth),
        d + depth < MAX_NESTING_DEPTH,
        text_at(s, q, spaced_items(items) + seq![']']),
    ensures
        array_items(s, q, d, cm, acc) == Some(
            (JsonValue::Array(acc + items), q + spaced_items(items).len() + 1),
        ),
    decreases items, 1int,
{
    let x = spaced_text(items[0]);
    let q1 = q + x.len();
    assert(generable(items[0], depth));
    lemma_text_at_bounds(s, q, spaced_items(items) + seq![']']);
    if items.len() == 1 {
        assert(spaced_items(items) == x);
        lemma_text_at_split(s, q, x, seq![']']);
        lemma_text_at_char(s, q1, seq![']'], 0);
        lemma_generated_read(items[0], depth, s, q, d, cm);
        assert(skip_ws(s, q1, cm) == Some(q1));
        step_array_items_last(s, q, d, cm, acc, items[0], q1, q1);
        assert(acc.push(items[0]) =~= acc + items);
    } else {
        let rest = items.subrange(1, items.len() as int);
        let r = spaced_items(rest);
        assert(spaced_items(items) + seq![']'] =~= x + (seq![',', ' '] + (r + seq![']'])));
        lemma_text_at_split(s, q, x, seq![',', ' '] + (r + seq![']']));
        lemma_text_at_split(s, q1, seq![',', ' '], r + seq![']']);
        lemma_text_at_char(s, q1, seq![',', ' '], 0);
        lemma_text_at_char(s, q1, seq![',', ' '], 1);
        assert(generable(rest[0], depth));
        lemma_items_start(rest, depth);
        lemma_text_at_split(s, q1 + 2, r, seq![']']);
        lemma_text_at_char(s, q1 + 2, r, 0);
        lemma_opens(r[0]);
        lemma_generated_read(items[0], depth, s, q, d, cm);
        assert(skip_ws(s, q1, cm) == Some(q1));
        lemma_skip_ws_run(s, q1 + 1, 1, cm);
        assert(skip_ws(s, q1 + 2, cm) == Some(q1 + 2));
        step_array_items_next(s, q, d, cm, acc, items[0], q1, q1 + 2);
        assert forall|i: int| 0 <= i < rest.len() implies generable(#[trigger] rest[i], depth) by {
            assert(rest[i] == items[i + 1]);
        }
        lemma_generated_items_read(rest, depth, s, q1 + 2, d, cm, acc.push(items[0]));
        assert(acc.push(items[0]) + rest =~= acc + items);
    }
}

/// A generated object reads back as itself.
#[verifier::spinoff_prover]
#[verifier::rlimit(100)]
proof fn lemma_generated_object_read(v: JsonValue, depth: nat, s: Seq<char>, p: int, d: nat, cm: bool)
    requires
        v is Object,
        depth > 0,
        generable(v, depth),
        d + depth < MAX_NESTING_DEPTH,
        text_at(s, p, spaced_text(v)),
    ensures
        value_at(s, p, d, cm) == Some((v, p + spaced_text(v).len())),
    decreases v, 2int,
{
    let ms = v->Object_0;
    let body = spaced_members(ms);
    lemma_text_at_split(s, p, seq!['{'] + body, seq!['}']);
    lemma_text_at_split(s, p, seq!['{'], body);
    lemma_text_at_char(s, p, seq!['{'], 0);
    lemma_text_at_char(s, p + 1 + body.len(), seq!['}'], 0);
    lemma_text_at_bounds(s, p + 1 + body.len(), seq!['}']);
    assert(skip_ws(s, p, cm) == Some(p));
    step_value(s, p, d, cm);
    if ms.len() == 0 {
        assert(body.len() == 0);
        assert(skip_ws(s, p + 1, cm) == Some(p + 1));
        step_object_open(s, p + 1, d + 1, cm, p + 1);
        assert(ms =~= Seq::<(Seq<char>, JsonValue)>::empty());
    } else {
        assert(body[0] == '"') by {
            if ms.len() > 1 {
                assert(body == spaced_member(ms[0]) + seq![',', ' '] + spaced_members(
                    ms.subrange(1, ms.len() as int),
                ));
            }
        }
        lemma_text_at_char(s, p + 1, body, 0);
        assert(skip_ws(s, p + 1, cm) == Some(p + 1));
        step_object_open(s, p + 1, d + 1, cm, p + 1);
        assert(decreases_to!(v => ms));
        assert(text_at(s, p + 1, body + seq!['}'])) by {
            reveal(text_at);
            lemma_text_at_subrange(s, p + 1, body);
            lemma_text_at_subrange(s, p + 1 + body.len(), seq!['}']);
            assert(s.subrange(p + 1, p + 1 + body.len() + 1) =~= body + seq!['}']);
        }
        assert forall|i: int| 0 <= i < ms.len() implies (#[trigger] ms[i]).0 == generated_key(
            (0 + i) as nat,
        ) && generable(ms[i].1, (depth - 1) as nat) by {}
        lemma_generated_members_read(ms, (depth - 1) as nat, s, p + 1, d + 1, cm, Seq::empty());
        assert(Seq::<(Seq<char>, JsonValue)>::empty() + ms =~= ms);
    }
}

/// A generated member standing at `q`, before `tail`: its key, which is new and holds no
/// NUL character, its colon and its value read back.
#[verifier::spinoff_prover]
#[verifier::rlimit(100)]
proof fn lemma_member_head(
    m: (Seq<char>, JsonValue),
    depth: nat,
    s: Seq<char>,
    q: int,
    d: nat,
    cm: bool,
    acc: Seq<(Seq<char>, JsonValue)>,
    tail: Seq<char>,
)
    requires
        acc.len() < 10,
        m.0 == generated_key(acc.len()),
        forall|i: int| 0 <= i < acc.len() ==> (#[trigger] acc[i]).0 == generated_key(i as nat),
        generable(m.1, depth),
        d + depth < MAX_NESTING_DEPTH,
        text_at(s, q, spaced_member(m) + tail),
        tail.len() >= 1,
        tail[0] == ',' || tail[0] == '}',
    ensures
        member_parts(
            s,
            q,
            d,
            cm,
            acc,
            m.0,
            q + m.0.len() + 2,
            m.1,
            q + m.0.len() + 4 + spaced_text(m.1).len(),
        ),
        text_at(s, q + m.0.len() + 4 + spaced_text(m.1).len(), tail),
    decreases m, 0int,
{
    assert(decreases_to!(m => m.1));
    let key = m.0;
    let x = spaced_text(m.1);
    let k2 = q + key.len() + 2;
    let q1 = k2 + 2 + x.len();
    lemma_key(acc.len());
    assert(spaced_member(m) + tail =~= seq!['"'] + (key + (seq!['"'] + (seq![':', ' '] + (x
        + tail)))));
    lemma_text_at_split(s, q, seq!['"'], key + (seq!['"'] + (seq![':', ' '] + (x + tail))));
    lemma_text_at_split(s, q + 1, key, seq!['"'] + (seq![':', ' '] + (x + tail)));
    lemma_text_at_split(s, k2 - 1, seq!['"'], seq![':', ' '] + (x + tail));
    lemma_text_at_split(s, k2, seq![':', ' '], x + tail);
    lemma_text_at_split(s, k2 + 2, x, tail);
    lemma_text_at_char(s, q, seq!['"'], 0);
    lemma_text_at_char(s, k2, seq![':', ' '], 0);
    lemma_text_at_char(s, k2, seq![':', ' '], 1);
    lemma_text_at_char(s, q1, tail, 0);
    lemma_string_read(s, q + 1, key);
    assert(skip_ws(s, q, cm) == Some(q));
    assert(skip_ws(s, k2, cm) == Some(k2));
    lemma_value_at_ws(s, k2 + 1, d, cm);
    lemma_generated_read(m.1, depth, s, k2 + 2, d, cm);
    assert(!has_key(acc, key)) by {
        assert forall|i: int| 0 <= i < acc.len() implies (#[trigger] acc[i]).0 != key by {
            lemma_keys_differ(i as nat, acc.len());
        }
    }
}

/// The generated members of an object and its closing brace, standing at `q`, read back as
/// the members `acc` already read followed by these.
#[verifier::spinoff_prover]
#[verifier::rlimit(100)]
proof fn lemma_generated_members_read(
    ms: Seq<(Seq<char>, JsonValue)>,
    depth: nat,
    s: Seq<char>,
    q: int,
    d: nat,
    cm: bool,
    acc: Seq<(Seq<char>, JsonValue)>,
)
    requires
        ms.len() >= 1,
        acc.len() + ms.len() < 10,
        forall|i: int| 0 <= i < acc.len() ==> (#[trigger] acc[i]).0 == generated_key(i as nat),
        forall|i: int| 0 <= i < ms.len() ==> (#[trigger] ms[i]).0 == generated_key(
            (acc.len() + i) as nat,
        ) && generable(ms[i].1, depth),
        d + depth < MAX_NESTING_DEPTH,
        text_at(s, q, spaced_members(ms) + seq!['}']),
    ensures
        object_members(s, q, d, cm, acc) == Some(
            (JsonValue::Object(acc + ms), q + spaced_members(ms).len() + 1),
        ),
    decreases ms, 2int,
{
    let m = ms[0];
    let mt = spaced_member(m);
    assert(m.0 == generated_key((acc.len() + 0) as nat));
    assert(generable(m.1, depth));
    assert(decreases_to!(ms => m));
    assert(decreases_to!(m => m.1));
    let k2 = q + m.0.len() + 2;
    let q1 = q + m.0.len() + 4 + spaced_text(m.1).len();
    assert(q1 == q + mt.len());
    lemma_text_at_bounds(s, q, spaced_members(ms) + seq!['}']);
    if ms.len() == 1 {
        assert(spaced_members(ms) == mt);
        lemma_member_head(m, depth, s, q, d, cm, acc, seq!['}']);
        lemma_text_at_char(s, q1, seq!['}'], 0);
        assert(skip_ws(s, q1, cm) == Some(q1));
        step_object_members_last(s, q, d, cm, acc, m.0, k2, m.1, q1, q1);
        assert(acc.push((m.0, m.1)) =~= acc + ms);
    } else {
        let rest = ms.subrange(1, ms.len() as int);
        let r = spaced_members(rest);
        let tail = seq![',', ' '] + (r + seq!['}']);
        assert(spaced_members(ms) + seq!['}'] =~= mt + tail);
        lemma_member_head(m, depth, s, q, d, cm, acc, tail);
        lemma_text_at_split(s, q1, seq![',', ' '], r + seq!['}']);
        lemma_text_at_char(s, q1, seq![',', ' '], 0);
        lemma_text_at_char(s, q1, seq![',', ' '], 1);
        assert(r[0] == '"') by {
            if rest.len() > 1 {
                assert(r == spaced_member(rest[0]) + seq![',', ' '] + spaced_members(
                    rest.subrange(1, rest.len() as int),
                ));
            }
        }
        lemma_text_at_split(s, q1 + 2, r, seq!['}']);
        lemma_text_at_char(s, q1 + 2, r, 0);
        assert(skip_ws(s, q1, cm) == Some(q1));
        lemma_skip_ws_run(s, q1 + 1, 1, cm);
        assert(skip_ws(s, q1 + 2, cm) == Some(q1 + 2));
        step_object_members_next(s, q, d, cm, acc, m.0, k2, m.1, q1, q1 + 2);
        let acc2 = acc.push((m.0, m.1));
        assert forall|i: int| 0 <= i < acc2.len() implies (#[trigger] acc2[i]).0 == generated_key(
            i as nat,
        ) by {
            if i < acc.len() {
                assert(acc2[i] == acc[i]);
            }
        }
        assert forall|i: int| 0 <= i < rest.len() implies (#[trigger] rest[i]).0 == generated_key(
            (acc2.len() + i) as nat,
        ) && generable(rest[i].1, depth) by {
            assert(rest[i] == ms[i + 1]);
        }
        lemma_generated_members_read(rest, depth, s, q1 + 2, d, cm, acc2);
        assert(acc2 + rest =~= acc + ms);
    }
}

/// Every document the generator can give parses back to the value it was generated from,
/// with or without comments allowed, when it is nested less deeply than the limit.
pub proof fn law_generated_documents_parse(v: JsonValue, depth: nat, cm: bool)
    requires
        generable(v, depth),
        depth < MAX_NESTING_DEPTH,
    ensures
        parse_document(spaced_text(v), cm) == Some(v),
{
    let s = spaced_text(v);
    lemma_generated_start(v, depth);
    lemma_opens(s[0]);
    assert(text_at(s, 0, s)) by {
        reveal(text_at);
        assert(s.subrange(0, s.len() as int) =~= s);
    }
    lemma_generated_read(v, depth, s, 0, 0, cm);
    assert(skip_ws(s, s.len() as int, cm) == Some(s.len() as int));
}

} // verus!
