//! Character-level helpers on `str` and `String`.
use vstd::prelude::*;

verus! {

broadcast use vstd::string::group_string_axioms;

/// Appends one character to a `String` (std's `String::push`).
#[verifier::external_body]
pub(crate) fn push_char(s: &mut String, c: char)
    ensures
        final(s)@ == old(s)@.push(c),
{
    s.push(c);
}

/// The character with the given scalar value (std's `char::from_u32`): `None` exactly for
/// surrogates and values above `0x10FFFF`.
#[verifier::external_body]
pub(crate) fn char_from_scalar(cp: u32) -> (r: Option<char>)
    ensures
        r is Some <==> (cp < 0xD800 || (0xE000 <= cp && cp <= 0x10FFFF)),
        r matches Some(c) ==> c as u32 == cp,
{
    char::from_u32(cp)
}

/// Whether two string slices hold the same characters.
pub(crate) fn str_eq(a: &str, b: &str) -> (r: bool)
    ensures
        r == (a@ == b@),
{
    let ca = chars_of(a);
    let cb = chars_of(b);
    if ca.len() != cb.len() {
        return false;
    }
    for i in 0..ca.len()
        invariant
            ca@ == a@,
            cb@ == b@,
            ca@.len() == cb@.len(),
            forall|j: int| 0 <= j < i ==> ca@[j] == cb@[j],
    {
        if ca[i] != cb[i] {
            assert(a@[i as int] != b@[i as int]);
            return false;
        }
    }
    assert(ca@ =~= cb@);
    true
}

/// The characters of `s`, in order.
pub fn chars_of(s: &str) -> (r: Vec<char>)
    ensures
        r@ == s@,
{
    let mut out: Vec<char> = Vec::new();
    for c in it: s.chars()
        invariant
            out@ == it.seq().take(it.index() as int),
            it.seq() == s@,
    {
        out.push(c);
    }
    out
}

/// Appends the characters of `t`.
pub(crate) fn push_text(out: &mut String, t: &str)
    ensures
        final(out)@ == old(out)@ + t@,
{
    let ghost start = out@;
    let cs = chars_of(t);
    for i in 0..cs.len()
        invariant
            cs@ == t@,
            out@ == start + cs@.take(i as int),
    {
        push_char(out, cs[i]);
        assert(out@ =~= start + cs@.take(i + 1));
    }
    assert(cs@.take(cs@.len() as int) =~= cs@);
}

} // verus!
