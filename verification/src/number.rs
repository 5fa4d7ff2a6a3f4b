//! JSON numbers, held as their decimal text.
use vstd::prelude::*;
use vstd::arithmetic::power::pow;
use crate::grammar::{digit_run, is_digit, number_end, number_tail_end, is_exponent_mark};
use crate::text::{push_char, chars_of};

verus! {

/// The value of a sequence of decimal digits.
pub open spec fn digits_value(ds: Seq<char>) -> nat
    decreases ds.len(),
{
    if ds.len() == 0 {
        0
    } else {
        digits_value(ds.drop_last()) * 10 + (ds.last() as nat - '0' as nat) as nat
    }
}

/// Where the integer digits of the number lexeme `t` start.
pub open spec fn int_start(t: Seq<char>) -> int {
    if t.len() > 0 && t[0] == '-' {
        1
    } else {
        0
    }
}

/// Where the integer digits of `t` end.
pub open spec fn int_end(t: Seq<char>) -> int {
    let a = int_start(t);
    if a < t.len() && t[a] == '0' {
        a + 1
    } else {
        a + 1 + digit_run(t, a + 1)
    }
}

/// Whether `t` has a fraction.
pub open spec fn has_fraction(t: Seq<char>) -> bool {
    int_end(t) < t.len() && t[int_end(t)] == '.'
}

/// The number of fraction digits of `t`.
pub open spec fn fraction_len(t: Seq<char>) -> nat {
    if has_fraction(t) {
        digit_run(t, int_end(t) + 1)
    } else {
        0
    }
}

/// Where the exponent of `t` starts (at its `e` or `E`), or the end of `t`.
pub open spec fn exponent_start(t: Seq<char>) -> int {
    if has_fraction(t) {
        int_end(t) + 1 + fraction_len(t)
    } else {
        int_end(t)
    }
}

/// The digits of `t` before its exponent, without the decimal point.
pub open spec fn mantissa_digits(t: Seq<char>) -> Seq<char> {
    if has_fraction(t) {
        t.subrange(int_start(t), int_end(t)) + t.subrange(int_end(t) + 1, exponent_start(t))
    } else {
        t.subrange(int_start(t), int_end(t))
    }
}

/// The exponent written in `t` (0 when there is none).
pub open spec fn written_exponent(t: Seq<char>) -> int {
    let c = exponent_start(t);
    if is_exponent_mark(t, c) {
        let signed = c + 1 < t.len() && (t[c + 1] == '+' || t[c + 1] == '-');
        let k = if signed {
            c + 2
        } else {
            c + 1
        };
        let v = digits_value(t.subrange(k, t.len() as int)) as int;
        if signed && t[c + 1] == '-' {
            -v
        } else {
            v
        }
    } else {
        0
    }
}

/// The smallest magnitude that rounds to infinity in binary64 round-to-nearest-even
/// arithmetic: halfway between the largest finite value and `2^1024`, that is
/// `2^1024 - 2^970`, written out in decimal.
pub open spec fn overflow_threshold() -> nat {
    digits_value(threshold_digits())
}

/// Whether the magnitude of the number lexeme `t`, `mantissa * 10^(exponent - fraction
/// digits)`, is at least `overflow_threshold()`: then it reads as an infinite binary64.
#[verifier::opaque]
pub open spec fn rounds_to_infinity(t: Seq<char>) -> bool {
    magnitude_at_least(
        digits_value(mantissa_digits(t)) as int,
        written_exponent(t) - fraction_len(t),
        overflow_threshold() as int,
    )
}

/// Whether `m * 10^e >= bound`.
pub open spec fn magnitude_at_least(m: int, e: int, bound: int) -> bool {
    if e >= 0 {
        m * pow(10, e as nat) >= bound
    } else {
        m >= bound * pow(10, (-e) as nat)
    }
}

/// A valid JSON number text: the whole of `t` is one number lexeme, and it does not round
/// to infinity.
pub open spec fn is_number_text(t: Seq<char>) -> bool {
    number_end(t, 0) == Some(t.len() as int) && !rounds_to_infinity(t)
}

/// Length of the run of decimal digits at `p`.
pub(crate) fn digit_run_at(s: &Vec<char>, p: usize) -> (n: usize)
    requires
        p <= s@.len(),
    ensures
        n == digit_run(s@, p as int),
        p + n <= s@.len(),
{
    let mut i = p;
    while i < s.len() && '0' <= s[i] && s[i] <= '9'
        invariant
            p <= i <= s@.len(),
            digit_run(s@, p as int) == (i - p) + digit_run(s@, i as int),
        decreases s@.len() - i,
    {
        i += 1;
    }
    i - p
}

fn is_mark_at(s: &Vec<char>, p: usize) -> (b: bool)
    ensures
        b == is_exponent_mark(s@, p as int),
{
    p < s.len() && (s[p] == 'e' || s[p] == 'E')
}

/// `number_tail_end` on an executable sequence.
fn number_tail_end_at(s: &Vec<char>, b: usize, bare_zero: bool) -> (r: Option<usize>)
    requires
        b <= s@.len(),
    ensures
        r matches Some(e) ==> number_tail_end(s@, b as int, bare_zero) == Some(e as int) && b <= e
            <= s@.len(),
        r is None ==> number_tail_end(s@, b as int, bare_zero) is None,
{
    let has_dot = b < s.len() && s[b] == '.';
    let c = if has_dot {
        let d = digit_run_at(s, b + 1);
        if d == 0 {
            return None;
        }
        b + 1 + d
    } else {
        b
    };
    if bare_zero && !has_dot && is_mark_at(s, c) {
        None
    } else if is_mark_at(s, c) {
        let k = if c + 1 < s.len() && (s[c + 1] == '+' || s[c + 1] == '-') {
            c + 2
        } else {
            c + 1
        };
        let d = digit_run_at(s, k);
        if d == 0 {
            None
        } else {
            Some(k + d)
        }
    } else {
        Some(c)
    }
}

/// End of the number lexeme at `p`, as `number_end` says.
pub(crate) fn number_end_at(s: &Vec<char>, p: usize) -> (r: Option<usize>)
    requires
        p <= s@.len(),
    ensures
        r matches Some(e) ==> number_end(s@, p as int) == Some(e as int) && p < e <= s@.len(),
        r is None ==> number_end(s@, p as int) is None,
{
    let a = if p < s.len() && s[p] == '-' {
        p + 1
    } else {
        p
    };
    if a >= s.len() {
        None
    } else if s[a] == '0' {
        number_tail_end_at(s, a + 1, true)
    } else if '1' <= s[a] && s[a] <= '9' {
        let d = digit_run_at(s, a + 1);
        number_tail_end_at(s, a + 1 + d, false)
    } else {
        None
    }
}

/// The decimal digits of `overflow_threshold()`.
#[verifier::opaque]
pub open spec fn threshold_digits() -> Seq<char> {
    seq![
        '1', '7', '9', '7', '6', '9', '3', '1', '3', '4', '8', '6', '2', '3', '1', '5', '8', '0', '7',
        '9', '3', '7', '2', '8', '9', '7', '1', '4', '0', '5', '3', '0', '3', '4', '1', '5', '0', '7',
        '9', '9', '3', '4', '1', '3', '2', '7', '1', '0', '0', '3', '7', '8', '2', '6', '9', '3', '6',
        '1', '7', '3', '7', '7', '8', '9', '8', '0', '4', '4', '4', '9', '6', '8', '2', '9', '2', '7',
        '6', '4', '7', '5', '0', '9', '4', '6', '6', '4', '9', '0', '1', '7', '9', '7', '7', '5', '8',
        '7', '2', '0', '7', '0', '9', '6', '3', '3', '0', '2', '8', '6', '4', '1', '6', '6', '9', '2',
        '8', '8', '7', '9', '1', '0', '9', '4', '6', '5', '5', '5', '5', '4', '7', '8', '5', '1', '9',
        '4', '0', '4', '0', '2', '6', '3', '0', '6', '5', '7', '4', '8', '8', '6', '7', '1', '5', '0',
        '5', '8', '2', '0', '6', '8', '1', '9', '0', '8', '9', '0', '2', '0', '0', '0', '7', '0', '8',
        '3', '8', '3', '6', '7', '6', '2', '7', '3', '8', '5', '4', '8', '4', '5', '8', '1', '7', '7',
        '1', '1', '5', '3', '1', '7', '6', '4', '4', '7', '5', '7', '3', '0', '2', '7', '0', '0', '6',
        '9', '8', '5', '5', '5', '7', '1', '3', '6', '6', '9', '5', '9', '6', '2', '2', '8', '4', '2',
        '9', '1', '4', '8', '1', '9', '8', '6', '0', '8', '3', '4', '9', '3', '6', '4', '7', '5', '2',
        '9', '2', '7', '1', '9', '0', '7', '4', '1', '6', '8', '4', '4', '4', '3', '6', '5', '5', '1',
        '0', '7', '0', '4', '3', '4', '2', '7', '1', '1', '5', '5', '9', '6', '9', '9', '5', '0', '8',
        '0', '9', '3', '0', '4', '2', '8', '8', '0', '1', '7', '7', '9', '0', '4', '1', '7', '4', '4',
        '9', '7', '7', '9', '2'
    ]
}

/// The threshold's digits: 309 of them, the first one nonzero.
pub proof fn lemma_threshold_digits()
    ensures
        threshold_digits().len() == 309,
        threshold_digits()[0] == '1',
        all_digits(threshold_digits()),
{
    reveal(threshold_digits);
    assert(threshold_digits().len() == 309);
    assert(threshold_digits()[0] == '1');
    assert forall|i: int| 0 <= i < 309 implies is_digit(#[trigger] threshold_digits()[i]) by {
        assert(threshold_digits()[i] == threshold_digits()[i]);
    }
}

/// Every element is a decimal digit.
pub open spec fn all_digits(s: Seq<char>) -> bool {
    forall|i: int| 0 <= i < s.len() ==> is_digit(#[trigger] s[i])
}

/// `n` zero digits.
pub open spec fn zeros(n: nat) -> Seq<char> {
    Seq::new(n, |_i: int| '0')
}

/// The value of two digit sequences written one after the other.
pub proof fn lemma_digits_value_concat(a: Seq<char>, b: Seq<char>)
    ensures
        digits_value(a + b) == digits_value(a) * pow(10, b.len()) + digits_value(b),
    decreases b.len(),
{
    reveal(pow);
    if b.len() == 0 {
        assert(a + b =~= a);
    } else {
        let b1 = b.drop_last();
        lemma_digits_value_concat(a, b1);
        assert((a + b).drop_last() =~= a + b1);
        assert((a + b).last() == b.last());
        let x = digits_value(a) as int;
        let p1 = pow(10, b1.len());
        let y = digits_value(b1) as int;
        let d = (b.last() as nat - '0' as nat) as nat as int;
        assert(digits_value(a + b) == digits_value(a + b1) * 10 + d);
        assert(digits_value(b) == y * 10 + d);
        assert(pow(10, b.len()) == 10 * p1);
        assert((x * p1 + y) * 10 + d == x * (10 * p1) + (y * 10 + d)) by (nonlinear_arith);
    }
}

/// Digits have a value below `10^len`.
pub proof fn lemma_digits_value_upper(a: Seq<char>)
    requires
        all_digits(a),
    ensures
        digits_value(a) < pow(10, a.len()),
    decreases a.len(),
{
    reveal(pow);
    if a.len() > 0 {
        let a1 = a.drop_last();
        assert(is_digit(a[a.len() - 1]));
        lemma_digits_value_upper(a1);
        let y = digits_value(a1) as int;
        let p1 = pow(10, a1.len());
        let d = (a.last() as nat - '0' as nat) as nat as int;
        assert(y * 10 + d < 10 * p1) by (nonlinear_arith)
            requires
                y < p1,
                0 <= d < 10,
        ;
    }
}

/// Digits with a nonzero first digit have a value of at least `10^(len - 1)`.
pub proof fn lemma_digits_value_lower(a: Seq<char>)
    requires
        all_digits(a),
        a.len() > 0,
        a[0] != '0',
    ensures
        digits_value(a) >= pow(10, (a.len() - 1) as nat),
{
    let head = a.take(1);
    let rest = a.skip(1);
    assert(head + rest =~= a);
    lemma_digits_value_concat(head, rest);
    assert(head.drop_last() =~= Seq::<char>::empty());
    assert(is_digit(a[0]));
    assert(digits_value(head) >= 1);
    let p = pow(10, rest.len());
    vstd::arithmetic::power::lemma_pow_positive(10, rest.len());
    let h = digits_value(head) as int;
    let r = digits_value(rest) as int;
    assert(h * p + r >= p) by (nonlinear_arith)
        requires
            h >= 1,
            p > 0,
            r >= 0,
    ;
}

/// Zero digits have value zero.
pub proof fn lemma_zeros_value(n: nat)
    ensures
        digits_value(zeros(n)) == 0,
    decreases n,
{
    if n > 0 {
        assert(zeros(n).drop_last() =~= zeros((n - 1) as nat));
        lemma_zeros_value((n - 1) as nat);
    }
}

/// Of two digit sequences of one length, the one with the larger digit at the first
/// place where they differ has the larger value.
pub proof fn lemma_digits_first_difference(a: Seq<char>, b: Seq<char>, i: int)
    requires
        a.len() == b.len(),
        all_digits(a),
        all_digits(b),
        0 <= i < a.len(),
        a.take(i) == b.take(i),
        a[i] > b[i],
    ensures
        digits_value(a) > digits_value(b),
{
    let a1 = a.take(i + 1);
    let b1 = b.take(i + 1);
    let ra = a.skip(i + 1);
    let rb = b.skip(i + 1);
    assert(a1 + ra =~= a);
    assert(b1 + rb =~= b);
    lemma_digits_value_concat(a1, ra);
    lemma_digits_value_concat(b1, rb);
    assert(a1.drop_last() =~= a.take(i));
    assert(b1.drop_last() =~= b.take(i));
    assert(all_digits(rb)) by {
        assert forall|j: int| 0 <= j < rb.len() implies is_digit(#[trigger] rb[j]) by {
            assert(rb[j] == b[i + 1 + j]);
        }
    }
    lemma_digits_value_upper(rb);
    assert(is_digit(a[i]) && is_digit(b[i]));
    let x = digits_value(a.take(i)) as int;
    let da = (a[i] as nat - '0' as nat) as nat as int;
    let db = (b[i] as nat - '0' as nat) as nat as int;
    let p = pow(10, ra.len());
    let va = digits_value(ra) as int;
    let vb = digits_value(rb) as int;
    assert((x * 10 + da) * p + va > (x * 10 + db) * p + vb) by (nonlinear_arith)
        requires
            da >= db + 1,
            0 <= vb < p,
            va >= 0,
    ;
}

/// How a number `m * 10^e`, whose digits `d` start with a nonzero one, compares with the
/// threshold: by where its decimal point falls, `d.len() + e`, and when that is the
/// threshold's, by its digits against the threshold's, both padded with zeros to one
/// length.
pub proof fn lemma_magnitude(d: Seq<char>, e: int)
    requires
        all_digits(d),
        d.len() > 0,
        d[0] != '0',
    ensures
        magnitude_at_least(digits_value(d) as int, e, overflow_threshold() as int) <==> (d.len()
            + e > 309 || (d.len() + e == 309 && digits_value(padded(d, threshold_len(d)))
            >= digits_value(padded(threshold_digits(), threshold_len(d))))),
{
    lemma_threshold_digits();
    let n = d.len();
    let k = n + e;
    let m = digits_value(d) as int;
    let t = overflow_threshold() as int;
    lemma_digits_value_lower(d);
    lemma_digits_value_upper(d);
    lemma_digits_value_lower(threshold_digits());
    lemma_digits_value_upper(threshold_digits());
    reveal(pow);
    if k > 309 {
        if e >= 0 {
            vstd::arithmetic::power::lemma_pow_adds(10, (n - 1) as nat, e as nat);
            vstd::arithmetic::power::lemma_pow_increases(10, 309, (k - 1) as nat);
            let pe = pow(10, e as nat);
            vstd::arithmetic::power::lemma_pow_positive(10, e as nat);
            let lo = pow(10, (n - 1) as nat);
            assert(m * pe >= lo * pe) by (nonlinear_arith)
                requires
                    m >= lo,
                    pe > 0,
            ;
        } else {
            vstd::arithmetic::power::lemma_pow_adds(10, (k - 1) as nat, (-e) as nat);
            vstd::arithmetic::power::lemma_pow_increases(10, 309, (k - 1) as nat);
            let q = pow(10, (-e) as nat);
            vstd::arithmetic::power::lemma_pow_positive(10, (-e) as nat);
            let big = pow(10, (k - 1) as nat);
            assert(big * q >= t * q) by (nonlinear_arith)
                requires
                    big >= t,
                    q > 0,
            ;
        }
    } else if k < 309 {
        if e >= 0 {
            vstd::arithmetic::power::lemma_pow_adds(10, n, e as nat);
            vstd::arithmetic::power::lemma_pow_increases(10, k as nat, 308);
            let pe = pow(10, e as nat);
            vstd::arithmetic::power::lemma_pow_positive(10, e as nat);
            let hi = pow(10, n);
            assert(m * pe < hi * pe) by (nonlinear_arith)
                requires
                    m < hi,
                    pe > 0,
            ;
        } else {
            vstd::arithmetic::power::lemma_pow_adds(10, 308, (-e) as nat);
            vstd::arithmetic::power::lemma_pow_increases(10, n, (308 - e) as nat);
            let q = pow(10, (-e) as nat);
            vstd::arithmetic::power::lemma_pow_positive(10, (-e) as nat);
            let low = pow(10, 308);
            assert(low * q <= t * q) by (nonlinear_arith)
                requires
                    low <= t,
                    q > 0,
            ;
        }
    } else {
        let len = threshold_len(d);
        if n <= 309 {
            lemma_digits_value_concat(d, zeros((len - n) as nat));
            lemma_zeros_value((len - n) as nat);
            assert(padded(threshold_digits(), len) =~= threshold_digits());
        } else {
            assert(padded(d, len) =~= d);
            lemma_digits_value_concat(threshold_digits(), zeros((len - 309) as nat));
            lemma_zeros_value((len - 309) as nat);
        }
    }
}

/// The length to which a number's digits and the threshold's are padded for comparison.
pub open spec fn threshold_len(d: Seq<char>) -> nat {
    if d.len() > 309 {
        d.len()
    } else {
        309
    }
}

/// `d` followed by zeros up to length `len`.
pub open spec fn padded(d: Seq<char>, len: nat) -> Seq<char> {
    d + zeros((len - d.len()) as nat)
}

/// A digit run consists of digits.
pub proof fn lemma_digit_run_digits(s: Seq<char>, i: int)
    requires
        0 <= i,
    ensures
        forall|j: int| i <= j < i + digit_run(s, i) ==> is_digit(#[trigger] s[j]),
        digit_run(s, i) == 0 || i + digit_run(s, i) <= s.len(),
    decreases s.len() - i,
{
    if 0 <= i < s.len() && is_digit(s[i]) {
        lemma_digit_run_digits(s, i + 1);
    }
}

/// Copies `s[from..to]` onto the end of `out`.
fn append_range(out: &mut Vec<char>, s: &Vec<char>, from: usize, to: usize)
    requires
        from <= to <= s@.len(),
    ensures
        final(out)@ == old(out)@ + s@.subrange(from as int, to as int),
{
    let ghost start = out@;
    for i in from..to
        invariant
            to <= s@.len(),
            out@ == start + s@.subrange(from as int, i as int),
    {
        out.push(s[i]);
        assert(out@ =~= start + s@.subrange(from as int, i + 1));
    }
}

/// The value of the digits `s[from..to]`, or `None` once it exceeds `cap`.
fn capped_digits_value(s: &Vec<char>, from: usize, to: usize, cap: u128) -> (r: Option<u128>)
    requires
        from <= to <= s@.len(),
        all_digits(s@.subrange(from as int, to as int)),
        cap <= 0xffff_ffff_ffff_ffff_ffff_ffff,
    ensures
        r matches Some(v) ==> v == digits_value(s@.subrange(from as int, to as int)) && v <= cap,
        r is None ==> digits_value(s@.subrange(from as int, to as int)) > cap,
{
    let mut v: u128 = 0;
    for i in from..to
        invariant
            from <= to <= s@.len(),
            all_digits(s@.subrange(from as int, to as int)),
            cap <= 0xffff_ffff_ffff_ffff_ffff_ffff,
            v == digits_value(s@.subrange(from as int, i as int)),
            v <= cap,
    {
        assert(is_digit(s@.subrange(from as int, to as int)[i - from]));
        let d = (s[i] as u32 - '0' as u32) as u128;
        let ghost pre = s@.subrange(from as int, i as int);
        assert(s@.subrange(from as int, i + 1).drop_last() =~= pre);
        v = v * 10 + d;
        if v > cap {
            proof {
                let rest = s@.subrange(i + 1, to as int);
                assert(s@.subrange(from as int, i + 1) + rest =~= s@.subrange(from as int, to as int));
                lemma_digits_value_concat(s@.subrange(from as int, i + 1), rest);
                vstd::arithmetic::power::lemma_pow_positive(10, rest.len());
                let p = pow(10, rest.len());
                let x = digits_value(s@.subrange(from as int, i + 1)) as int;
                let y = digits_value(rest) as int;
                assert(x * p + y >= x) by (nonlinear_arith)
                    requires
                        p >= 1,
                        x >= 0,
                        y >= 0,
                ;
            }
            return None;
        }
    }
    Some(v)
}

/// The mantissa digits of the number lexeme `t`.
fn lexeme_mantissa(t: &Vec<char>) -> (m: Vec<char>)
    requires
        number_end(t@, 0) == Some(t@.len() as int),
    ensures
        m@ == mantissa_digits(t@),
        all_digits(m@),
{
    let ghost ts = t@;
    let len = t.len();
    let a: usize = if len > 0 && t[0] == '-' {
        1
    } else {
        0
    };
    let b: usize = if t[a] == '0' {
        a + 1
    } else {
        let r = digit_run_at(t, a + 1);
        a + 1 + r
    };
    proof {
        lemma_digit_run_digits(ts, a + 1);
        lemma_digit_run_digits(ts, b + 1);
    }
    let has_frac = b < len && t[b] == '.';
    let mut m: Vec<char> = Vec::new();
    append_range(&mut m, t, a, b);
    if has_frac {
        let f = digit_run_at(t, b + 1);
        append_range(&mut m, t, b + 1, b + 1 + f);
    }
    assert(all_digits(m@)) by {
        assert forall|j: int| 0 <= j < m@.len() implies is_digit(#[trigger] m@[j]) by {
            if j < b - a {
                assert(m@[j] == ts[a + j]);
            } else {
                assert(m@[j] == ts[b + 1 + (j - (b - a))]);
            }
        }
    }
    m
}

/// The exponent written in the number lexeme `t`, when its magnitude is at most `cap`;
/// else whether it is positive.
#[verifier::rlimit(50)]
fn lexeme_exponent(t: &Vec<char>, cap: u128) -> (r: Result<i128, bool>)
    requires
        number_end(t@, 0) == Some(t@.len() as int),
        cap <= 0xffff_ffff_ffff_ffff_ffff_ffff,
    ensures
        r matches Ok(e) ==> e == written_exponent(t@) && -cap <= e <= cap,
        r matches Err(positive) ==> (positive <==> written_exponent(t@) > cap) && (!positive
            <==> written_exponent(t@) < -cap),
{
    let ghost ts = t@;
    let len = t.len();
    let a: usize = if len > 0 && t[0] == '-' {
        1
    } else {
        0
    };
    let b: usize = if t[a] == '0' {
        a + 1
    } else {
        let r = digit_run_at(t, a + 1);
        a + 1 + r
    };
    let has_frac = b < len && t[b] == '.';
    let c: usize = if has_frac {
        let f = digit_run_at(t, b + 1);
        b + 1 + f
    } else {
        b
    };
    assert(c == exponent_start(ts));
    if c >= len {
        return Ok(0);
    }
    let signed = c + 1 < len && (t[c + 1] == '+' || t[c + 1] == '-');
    let negative = signed && t[c + 1] == '-';
    let k = if signed {
        c + 2
    } else {
        c + 1
    };
    proof {
        lemma_digit_run_digits(ts, k as int);
        assert(all_digits(ts.subrange(k as int, len as int))) by {
            assert forall|j: int| 0 <= j < len - k implies is_digit(
                #[trigger] ts.subrange(k as int, len as int)[j],
            ) by {
                assert(ts.subrange(k as int, len as int)[j] == ts[k + j]);
            }
        }
    }
    match capped_digits_value(t, k, len, cap) {
        Some(v) => if negative {
            Ok(-(v as i128))
        } else {
            Ok(v as i128)
        },
        None => Err(!negative),
    }
}

/// Whether the digits `dd`, whose decimal point falls where the threshold's does, are at
/// least the threshold's digits: both padded with zeros to one length, compared from the
/// first digit on.
fn digits_at_least_threshold(m: &Vec<char>, z: usize) -> (r: bool)
    requires
        z <= m@.len(),
        all_digits(m@.skip(z as int)),
    ensures
        r == (digits_value(padded(m@.skip(z as int), threshold_len(m@.skip(z as int))))
            >= digits_value(padded(threshold_digits(), threshold_len(m@.skip(z as int))))),
{
    let ghost dd = m@.skip(z as int);
    let n = m.len() - z;
    let td = [
        '1', '7', '9', '7', '6', '9', '3', '1', '3', '4', '8', '6', '2', '3', '1', '5', '8', '0',
        '7', '9', '3', '7', '2', '8', '9', '7', '1', '4', '0', '5', '3', '0', '3', '4', '1', '5',
        '0', '7', '9', '9', '3', '4', '1', '3', '2', '7', '1', '0', '0', '3', '7', '8', '2', '6',
        '9', '3', '6', '1', '7', '3', '7', '7', '8', '9', '8', '0', '4', '4', '4', '9', '6', '8',
        '2', '9', '2', '7', '6', '4', '7', '5', '0', '9', '4', '6', '6', '4', '9', '0', '1', '7',
        '9', '7', '7', '5', '8', '7', '2', '0', '7', '0', '9', '6', '3', '3', '0', '2', '8', '6',
        '4', '1', '6', '6', '9', '2', '8', '8', '7', '9', '1', '0', '9', '4', '6', '5', '5', '5',
        '5', '4', '7', '8', '5', '1', '9', '4', '0', '4', '0', '2', '6', '3', '0', '6', '5', '7',
        '4', '8', '8', '6', '7', '1', '5', '0', '5', '8', '2', '0', '6', '8', '1', '9', '0', '8',
        '9', '0', '2', '0', '0', '0', '7', '0', '8', '3', '8', '3', '6', '7', '6', '2', '7', '3',
        '8', '5', '4', '8', '4', '5', '8', '1', '7', '7', '1', '1', '5', '3', '1', '7', '6', '4',
        '4', '7', '5', '7', '3', '0', '2', '7', '0', '0', '6', '9', '8', '5', '5', '5', '7', '1',
        '3', '6', '6', '9', '5', '9', '6', '2', '2', '8', '4', '2', '9', '1', '4', '8', '1', '9',
        '8', '6', '0', '8', '3', '4', '9', '3', '6', '4', '7', '5', '2', '9', '2', '7', '1', '9',
        '0', '7', '4', '1', '6', '8', '4', '4', '4', '3', '6', '5', '5', '1', '0', '7', '0', '4',
        '3', '4', '2', '7', '1', '1', '5', '5', '9', '6', '9', '9', '5', '0', '8', '0', '9', '3',
        '0', '4', '2', '8', '8', '0', '1', '7', '7', '9', '0', '4', '1', '7', '4', '4', '9', '7',
        '7', '9', '2'
    ];
    assert(td@ =~= threshold_digits()) by {
        reveal(threshold_digits);
    }
    let total: usize = if n > 309 {
        n
    } else {
        309
    };
    let ghost pa = padded(dd, threshold_len(dd));
    let ghost pb = padded(threshold_digits(), threshold_len(dd));
    proof {
        lemma_threshold_digits();
        assert(all_digits(pa)) by {
            assert forall|j: int| 0 <= j < pa.len() implies is_digit(#[trigger] pa[j]) by {
                if j < dd.len() {
                    assert(pa[j] == dd[j]);
                }
            }
        }
        assert(all_digits(pb)) by {
            assert forall|j: int| 0 <= j < pb.len() implies is_digit(#[trigger] pb[j]) by {
                if j < 309 {
                    assert(pb[j] == threshold_digits()[j]);
                }
            }
        }
    }
    for i in 0..total
        invariant
            total == pa.len(),
            total == pb.len(),
            n == dd.len(),
            z + n == m@.len(),
            m@.len() <= usize::MAX,
            dd == m@.skip(z as int),
            td@ == threshold_digits(),
            pa == padded(dd, threshold_len(dd)),
            pb == padded(threshold_digits(), threshold_len(dd)),
            all_digits(pa),
            all_digits(pb),
            pa.take(i as int) == pb.take(i as int),
    {
        let x = if i < n {
            m[z + i]
        } else {
            '0'
        };
        let y = if i < 309 {
            td[i]
        } else {
            '0'
        };
        assert(x == pa[i as int]);
        assert(y == pb[i as int]);
        if x > y {
            proof {
                lemma_digits_first_difference(pa, pb, i as int);
            }
            return true;
        }
        if x < y {
            proof {
                lemma_digits_first_difference(pb, pa, i as int);
            }
            return false;
        }
        assert(pa.take(i + 1) =~= pb.take(i + 1));
    }
    assert(pa =~= pb) by {
        assert(pa.take(total as int) =~= pa);
        assert(pb.take(total as int) =~= pb);
    }
    true
}

/// A magnitude of zero never reaches the threshold.
proof fn lemma_zero_below_threshold(e: int)
    ensures
        !magnitude_at_least(0, e, overflow_threshold() as int),
{
    lemma_threshold_digits();
    lemma_digits_value_lower(threshold_digits());
    reveal(pow);
    vstd::arithmetic::power::lemma_pow_positive(10, 308);
    if e < 0 {
        vstd::arithmetic::power::lemma_pow_positive(10, (-e) as nat);
        let q = pow(10, (-e) as nat);
        let th = overflow_threshold() as int;
        assert(th * q > 0) by (nonlinear_arith)
            requires
                th > 0,
                q > 0,
        ;
    }
}

/// Whether the number lexeme `t` rounds to infinity.
pub(crate) fn lexeme_rounds_to_infinity(t: &Vec<char>) -> (b: bool)
    requires
        number_end(t@, 0) == Some(t@.len() as int),
    ensures
        b == rounds_to_infinity(t@),
{
    reveal(rounds_to_infinity);
    let ghost ts = t@;
    let m = lexeme_mantissa(t);
    let mut z: usize = 0;
    while z < m.len() && m[z] == '0'
        invariant
            z <= m@.len(),
            forall|j: int| 0 <= j < z ==> #[trigger] m@[j] == '0',
        decreases m@.len() - z,
    {
        z += 1;
    }
    let n = m.len() - z;
    let ghost dd = m@.skip(z as int);
    let ghost e = written_exponent(ts) - fraction_len(ts);
    proof {
        assert(m@.take(z as int) =~= zeros(z as nat));
        assert(m@.take(z as int) + dd =~= m@);
        lemma_digits_value_concat(m@.take(z as int), dd);
        lemma_zeros_value(z as nat);
        assert(all_digits(dd)) by {
            assert forall|j: int| 0 <= j < dd.len() implies is_digit(#[trigger] dd[j]) by {
                assert(dd[j] == m@[z + j]);
            }
        }
    }
    if n == 0 {
        proof {
            lemma_zero_below_threshold(e);
        }
        return false;
    }
    proof {
        lemma_magnitude(dd, e);
    }
    let f = fraction_length(t);
    let cap: u128 = 10_000_000_000_000_000_000_000;
    let exp = match lexeme_exponent(t, cap) {
        Ok(x) => x,
        Err(positive) => {
            return positive;
        },
    };
    let point: i128 = n as i128 + exp - f as i128;
    if point > 309 {
        true
    } else if point < 309 {
        false
    } else {
        digits_at_least_threshold(&m, z)
    }
}

/// The number of fraction digits of the number lexeme `t`.
fn fraction_length(t: &Vec<char>) -> (f: usize)
    requires
        number_end(t@, 0) == Some(t@.len() as int),
    ensures
        f == fraction_len(t@),
{
    let len = t.len();
    let a: usize = if len > 0 && t[0] == '-' {
        1
    } else {
        0
    };
    let b: usize = if t[a] == '0' {
        a + 1
    } else {
        let r = digit_run_at(t, a + 1);
        a + 1 + r
    };
    if b < len && t[b] == '.' {
        digit_run_at(t, b + 1)
    } else {
        0
    }
}

/// A JSON number, held as its decimal text; the text is always a valid number.
#[derive(Debug, PartialEq)]
pub struct JsonNumber {
    text: String,
}

impl View for JsonNumber {
    type V = Seq<char>;

    closed spec fn view(&self) -> Seq<char> {
        self.text@
    }
}

impl JsonNumber {
    #[verifier::type_invariant]
    spec fn inv(self) -> bool {
        is_number_text(self.text@)
    }

    /// The number written by `t`.
    pub(crate) fn from_lexeme(t: &Vec<char>) -> (n: JsonNumber)
        requires
            is_number_text(t@),
        ensures
            n@ == t@,
    {
        let mut text = String::new();
        for i in 0..t.len()
            invariant
                text@ == t@.take(i as int),
        {
            push_char(&mut text, t[i]);
            assert(text@ =~= t@.take(i + 1));
        }
        assert(t@.take(t@.len() as int) =~= t@);
        JsonNumber { text }
    }

    /// The number written by `text`, or `None` when `text` is not a JSON number or reads as
    /// an infinite binary64.
    pub fn from_text(text: &str) -> (r: Option<JsonNumber>)
        ensures
            r is Some <==> is_number_text(text@),
            r matches Some(n) ==> n@ == text@,
    {
        let t = chars_of(text);
        match number_end_at(&t, 0) {
            Some(e) => {
                if e == t.len() && !lexeme_rounds_to_infinity(&t) {
                    Some(JsonNumber::from_lexeme(&t))
                } else {
                    None
                }
            },
            None => None,
        }
    }

    /// The decimal text of the number.
    pub fn as_text(&self) -> (t: &str)
        ensures
            t@ == self@,
            is_number_text(t@),
    {
        proof {
            use_type_invariant(self);
        }
        self.text.as_str()
    }
}

impl Clone for JsonNumber {
    fn clone(&self) -> (r: Self)
        ensures
            r@ == self@,
    {
        proof {
            use_type_invariant(self);
        }
        JsonNumber { text: self.text.clone() }
    }
}

} // verus!
