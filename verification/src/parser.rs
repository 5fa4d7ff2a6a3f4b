//! The recursive-descent parser, proved against the grammar in `grammar`.
use vstd::prelude::*;
use crate::grammar::{
    is_ws, MAX_NESTING_DEPTH, skip_ws, skip_line_comment, skip_block_comment, hex4, hex_digit_value,
    string_body, escape, value_at, array_open, array_items, object_open, object_members,
    number_end, word_at, has_key, parse_document, without_bom, lemma_skip_ws_bounds,
    lemma_string_body_bounds, starts_number, is_high_surrogate, is_low_surrogate,
    combine_surrogates, digit_run, is_digit, is_exponent_mark, number_tail_end, scalar_char, scalar_value, unicode_escape, lemma_scalar_char,
};
use crate::value::{Value, JsonValue, ParsonError};
use crate::array::Array;
use crate::object::{Object, lookup, lemma_key_index};
use crate::number::{JsonNumber, number_end_at, lexeme_rounds_to_infinity, is_number_text, rounds_to_infinity};
use crate::text::{chars_of, push_char, char_from_scalar};

verus! {

/// A parser over the characters of one input.
pub struct Parser {
    chars: Vec<char>,
    pos: usize,
    depth: usize,
    allow_comments: bool,
}

/// The value of a hexadecimal digit, or -1.
fn hex_value(c: char) -> (r: i32)
    ensures
        r == hex_digit_value(c),
{
    if '0' <= c && c <= '9' {
        (c as u32 - '0' as u32) as i32
    } else if 'a' <= c && c <= 'f' {
        (c as u32 - 'a' as u32 + 10) as i32
    } else if 'A' <= c && c <= 'F' {
        (c as u32 - 'A' as u32 + 10) as i32
    } else {
        -1
    }
}

impl Parser {
    /// The characters being parsed.
    pub closed spec fn input(&self) -> Seq<char> {
        self.chars@
    }

    /// Where the parser stands in the input.
    pub closed spec fn position(&self) -> int {
        self.pos as int
    }

    /// How many containers are open at the current position.
    pub closed spec fn nesting(&self) -> nat {
        self.depth as nat
    }

    /// Whether comments count as whitespace.
    pub closed spec fn comments(&self) -> bool {
        self.allow_comments
    }

    /// The position is within the input and the nesting within its bound.
    pub closed spec fn wf(&self) -> bool {
        self.pos <= self.chars@.len() && self.chars@.len() <= usize::MAX && self.depth
            <= MAX_NESTING_DEPTH
    }

    /// A well-formed parser stands within its input, with at most the nesting limit of
    /// containers open.
    pub proof fn lemma_within_input(&self)
        requires
            self.wf(),
        ensures
            0 <= self.position() <= self.input().len(),
            self.nesting() <= MAX_NESTING_DEPTH,
    {
    }

    /// A parser at the start of `input`, at nesting 0.
    pub fn new(input: &str, allow_comments: bool) -> (p: Parser)
        ensures
            p.wf(),
            p.input() == input@,
            p.position() == 0,
            p.nesting() == 0,
            p.comments() == allow_comments,
    {
        let chars = chars_of(input);
        let _n = chars.len();
        Parser { chars, pos: 0, depth: 0, allow_comments }
    }

    /// Skips whitespace, and comments when they are allowed; a malformed comment is an
    /// error.
    pub fn skip_whitespace_and_comments(&mut self) -> (r: Result<(), ParsonError>)
        requires
            old(self).wf(),
        ensures
            final(self).wf(),
            final(self).input() == old(self).input(),
            final(self).comments() == old(self).comments(),
            final(self).nesting() == old(self).nesting(),
            old(self).position() <= final(self).position(),
            match skip_ws(old(self).input(), old(self).position(), old(self).comments()) {
                Some(q) => r is Ok && final(self).position() == q,
                None => r == Err::<(), ParsonError>(ParsonError::Parse),
            },
    {
        let ghost s = self.chars@;
        let ghost p0 = self.pos as int;
        let ghost cm = self.allow_comments;
        loop
            invariant
                self.wf(),
                self.chars@ == s,
                s == old(self).chars@,
                p0 == old(self).pos,
                cm == old(self).allow_comments,
                self.allow_comments == cm,
                self.depth == old(self).depth,
                p0 <= self.pos,
                skip_ws(s, p0, cm) == skip_ws(s, self.pos as int, cm),
            decreases s.len() - self.pos,
        {
            if self.pos >= self.chars.len() {
                return Ok(());
            }
            let c = self.chars[self.pos];
            if c == ' ' || c == '\t' || c == '\r' || c == '\n' {
                self.pos += 1;
            } else if c == '/' && self.allow_comments {
                if self.pos + 1 < self.chars.len() && self.chars[self.pos + 1] == '/' {
                    self.pos += 2;
                    let ghost start = self.pos;
                    while self.pos < self.chars.len() && self.chars[self.pos] != '\n'
                        invariant
                            start <= self.pos,
                            self.wf(),
                            self.chars@ == s,
                            s == old(self).chars@,
                            p0 == old(self).pos,
                            cm == old(self).allow_comments,
                            self.allow_comments == cm,
                            self.depth == old(self).depth,
                            p0 <= self.pos,
                            skip_ws(s, p0, cm) == skip_line_comment(s, self.pos as int, cm),
                        decreases s.len() - self.pos,
                    {
                        self.pos += 1;
                    }
                    if self.pos < self.chars.len() {
                        self.pos += 1;
                    }
                } else if self.pos + 1 < self.chars.len() && self.chars[self.pos + 1] == '*' {
                    self.pos += 2;
                    let ghost start = self.pos;
                    while self.pos < self.chars.len() && !(self.chars[self.pos] == '*' && self.pos
                        + 1 < self.chars.len() && self.chars[self.pos + 1] == '/')
                        invariant
                            start <= self.pos,
                            self.wf(),
                            self.chars@ == s,
                            s == old(self).chars@,
                            p0 == old(self).pos,
                            cm == old(self).allow_comments,
                            self.allow_comments == cm,
                            self.depth == old(self).depth,
                            p0 <= self.pos,
                            skip_ws(s, p0, cm) == skip_block_comment(s, self.pos as int, cm),
                        decreases s.len() - self.pos,
                    {
                        self.pos += 1;
                    }
                    if self.pos >= self.chars.len() {
                        return Err(ParsonError::Parse);
                    }
                    self.pos += 2;
                } else {
                    return Err(ParsonError::Parse);
                }
            } else {
                return Ok(());
            }
        }
    }

    /// Four hexadecimal digits, as a number.
    pub fn parse_hex4(&mut self) -> (r: Result<u16, ParsonError>)
        requires
            old(self).wf(),
        ensures
            final(self).wf(),
            final(self).input() == old(self).input(),
            final(self).comments() == old(self).comments(),
            final(self).nesting() == old(self).nesting(),
            match hex4(old(self).input(), old(self).position()) {
                Some(u) => r == Ok::<u16, ParsonError>(u as u16) && final(self).position()
                    == old(self).position() + 4,
                None => r == Err::<u16, ParsonError>(ParsonError::Parse),
            },
    {
        let ghost s = self.chars@;
        let ghost p0 = self.pos as int;
        let mut val: u32 = 0;
        let mut i: usize = 0;
        while i < 4
            invariant
                self.wf(),
                self.chars@ == s,
                s == old(self).chars@,
                p0 == old(self).pos,
                self.allow_comments == old(self).allow_comments,
                self.depth == old(self).depth,
                i <= 4,
                self.pos == p0 + i,
                val < pow16(i as nat),
                forall|j: int| 0 <= j < i ==> hex_digit_value(#[trigger] s[p0 + j]) >= 0,
                val == hex_prefix_value(s, p0, i as nat),
            decreases 4 - i,
        {
            if self.pos >= self.chars.len() {
                return Err(ParsonError::Parse);
            }
            let d = hex_value(self.chars[self.pos]);
            if d < 0 {
                return Err(ParsonError::Parse);
            }
            self.pos += 1;
            assert(pow16(i as nat) <= 4096) by {
                reveal_with_fuel(pow16, 5);
            }
            val = val * 16 + d as u32;
            i += 1;
        }
        assert(pow16(4) == 65536) by {
            reveal_with_fuel(pow16, 5);
        }
        assert(hex_digit_value(s[p0 + 0]) >= 0);
        assert(hex_digit_value(s[p0 + 1]) >= 0);
        assert(hex_digit_value(s[p0 + 2]) >= 0);
        assert(hex_digit_value(s[p0 + 3]) >= 0);
        assert(p0 + 0 == p0);
        assert(hex_prefix_value(s, p0, 4) == hex4(s, p0)->0) by {
            reveal_with_fuel(hex_prefix_value, 5);
        }
        Ok(val as u16)
    }

    /// Reads a string literal whose opening quote is at the position: its characters, and
    /// whether one of them is NUL.
    fn read_string(&mut self) -> (r: Result<(String, bool), ParsonError>)
        requires
            old(self).wf(),
            old(self).position() < old(self).input().len(),
            old(self).input()[old(self).position()] == '"',
        ensures
            final(self).wf(),
            final(self).input() == old(self).input(),
            final(self).comments() == old(self).comments(),
            final(self).nesting() == old(self).nesting(),
            match string_body(old(self).input(), old(self).position() + 1) {
                Some((t, q)) => r matches Ok((x, nul)) && x@ == t && nul == t.contains('\0')
                    && final(self).position() == q,
                None => r == Err::<(String, bool), ParsonError>(ParsonError::Parse),
            },
    {
        let ghost s = self.chars@;
        let ghost p0 = self.pos as int;
        self.pos += 1;
        let mut res = String::new();
        let mut nul = false;
        loop
            invariant
                self.wf(),
                self.chars@ == s,
                s == old(self).chars@,
                p0 == old(self).pos,
                self.allow_comments == old(self).allow_comments,
                self.depth == old(self).depth,
                p0 < self.pos,
                nul == res@.contains('\0'),
                string_body(s, p0 + 1) == match string_body(s, self.pos as int) {
                    Some((t, q)) => Some((res@ + t, q)),
                    None => None::<(Seq<char>, int)>,
                },
            decreases s.len() - self.pos,
        {
            if self.pos >= self.chars.len() {
                return Err(ParsonError::Parse);
            }
            let ghost p = self.pos as int;
            let ghost before = res@;
            let c = self.chars[self.pos];
            self.pos += 1;
            if c == '"' {
                assert(before + Seq::<char>::empty() =~= before);
                return Ok((res, nul));
            } else if c == '\\' {
                let ch = self.read_escape()?;
                push_char(&mut res, ch);
                if ch == '\0' {
                    nul = true;
                }
                proof {
                    if let Some((t, q)) = string_body(s, self.pos as int) {
                        assert(before + (seq![ch] + t) =~= res@ + t);
                    }
                }
            } else if (c as u32) < 0x20 {
                return Err(ParsonError::Parse);
            } else {
                push_char(&mut res, c);
                if c == '\0' {
                    nul = true;
                }
                proof {
                    if let Some((t, q)) = string_body(s, self.pos as int) {
                        assert(before + (seq![c] + t) =~= res@ + t);
                    }
                }
            }
            proof {
                lemma_push_contains(before, res@.last(), '\0');
            }
        }
    }

    /// Reads the escape sequence whose letter is at the position (just after a backslash).
    fn read_escape(&mut self) -> (r: Result<char, ParsonError>)
        requires
            old(self).wf(),
        ensures
            final(self).wf(),
            final(self).input() == old(self).input(),
            final(self).comments() == old(self).comments(),
            final(self).nesting() == old(self).nesting(),
            match escape(old(self).input(), old(self).position()) {
                Some((c, n)) => r == Ok::<char, ParsonError>(c) && final(self).position()
                    == old(self).position() + n,
                None => r == Err::<char, ParsonError>(ParsonError::Parse),
            },
    {
        if self.pos >= self.chars.len() {
            return Err(ParsonError::Parse);
        }
        let e = self.chars[self.pos];
        self.pos += 1;
        if e == '"' {
            Ok('"')
        } else if e == '\\' {
            Ok('\\')
        } else if e == '/' {
            Ok('/')
        } else if e == 'b' {
            Ok('\x08')
        } else if e == 'f' {
            Ok('\x0C')
        } else if e == 'n' {
            Ok('\n')
        } else if e == 'r' {
            Ok('\r')
        } else if e == 't' {
            Ok('\t')
        } else if e == 'u' {
            self.read_unicode_escape()
        } else {
            Err(ParsonError::Parse)
        }
    }

    /// Reads the four hexadecimal digits of a `\u` escape at the position, and the low
    /// surrogate escape that must follow a high surrogate.
    #[verifier::spinoff_prover]
    #[verifier::rlimit(100)]
    fn read_unicode_escape(&mut self) -> (r: Result<char, ParsonError>)
        requires
            old(self).wf(),
        ensures
            final(self).wf(),
            final(self).input() == old(self).input(),
            final(self).comments() == old(self).comments(),
            final(self).nesting() == old(self).nesting(),
            match unicode_escape(old(self).input(), old(self).position()) {
                Some((c, n)) => r == Ok::<char, ParsonError>(c) && final(self).position()
                    == old(self).position() + n,
                None => r == Err::<char, ParsonError>(ParsonError::Parse),
            },
    {
        let u1 = self.parse_hex4()?;
        if 0xD800 <= u1 && u1 <= 0xDBFF {
            if !(self.chars.len() - self.pos >= 2 && self.chars[self.pos] == '\\'
                && self.chars[self.pos + 1] == 'u') {
                return Err(ParsonError::Parse);
            }
            self.pos += 2;
            let u2 = self.parse_hex4()?;
            if !(0xDC00 <= u2 && u2 <= 0xDFFF) {
                return Err(ParsonError::Parse);
            }
            let cp: u32 = 0x10000 + (u1 as u32 - 0xD800) * 1024 + (u2 as u32 - 0xDC00);
            let ghost u = combine_surrogates(u1 as int, u2 as int);
            assert(cp == u);
            match char_from_scalar(cp) {
                Some(ch) => {
                    assert(scalar_value(ch) == u);
                    proof {
                        lemma_scalar_char(ch);
                    }
                    Ok(ch)
                },
                None => Err(ParsonError::Parse),
            }
        } else {
            match char_from_scalar(u1 as u32) {
                Some(ch) => {
                    assert(scalar_value(ch) == u1 as int);
                    proof {
                        lemma_scalar_char(ch);
                    }
                    Ok(ch)
                },
                None => Err(ParsonError::Parse),
            }
        }
    }

    /// Reads a string literal whose opening quote is at the position; a missing opening
    /// quote is an error.
    pub fn parse_string_raw(&mut self) -> (r: Result<String, ParsonError>)
        requires
            old(self).wf(),
        ensures
            final(self).wf(),
            final(self).input() == old(self).input(),
            final(self).comments() == old(self).comments(),
            final(self).nesting() == old(self).nesting(),
            old(self).position() < old(self).input().len() && old(self).input()[old(
                self,
            ).position()] == '"' ==> match string_body(
                old(self).input(),
                old(self).position() + 1,
            ) {
                Some((t, q)) => r matches Ok(x) && x@ == t && final(self).position() == q,
                None => r == Err::<String, ParsonError>(ParsonError::Parse),
            },
            !(old(self).position() < old(self).input().len() && old(self).input()[old(
                self,
            ).position()] == '"') ==> r == Err::<String, ParsonError>(ParsonError::Parse),
    {
        if self.pos >= self.chars.len() || self.chars[self.pos] != '"' {
            return Err(ParsonError::Parse);
        }
        let (t, _nul) = self.read_string()?;
        Ok(t)
    }

    /// Reads a string literal whose opening quote is at the position.
    pub fn parse_string_value(&mut self) -> (r: Result<String, ParsonError>)
        requires
            old(self).wf(),
        ensures
            final(self).wf(),
            final(self).input() == old(self).input(),
            final(self).comments() == old(self).comments(),
            final(self).nesting() == old(self).nesting(),
            old(self).position() < old(self).input().len() && old(self).input()[old(
                self,
            ).position()] == '"' ==> match string_body(
                old(self).input(),
                old(self).position() + 1,
            ) {
                Some((t, q)) => r matches Ok(x) && x@ == t && final(self).position() == q,
                None => r == Err::<String, ParsonError>(ParsonError::Parse),
            },
            !(old(self).position() < old(self).input().len() && old(self).input()[old(
                self,
            ).position()] == '"') ==> r == Err::<String, ParsonError>(ParsonError::Parse),
    {
        self.parse_string_raw()
    }

    /// Reads the word `w` at the position.
    fn parse_literal(&mut self, w: &[char]) -> (r: Result<(), ParsonError>)
        requires
            old(self).wf(),
        ensures
            final(self).wf(),
            final(self).input() == old(self).input(),
            final(self).comments() == old(self).comments(),
            final(self).nesting() == old(self).nesting(),
            word_at(old(self).input(), old(self).position(), w@) ==> r is Ok
                && final(self).position() == old(self).position() + w@.len(),
            !word_at(old(self).input(), old(self).position(), w@) ==> r == Err::<(), ParsonError>(
                ParsonError::Parse,
            ),
    {
        let ghost s = self.chars@;
        let ghost p0 = self.pos as int;
        for i in 0..w.len()
            invariant
                self.wf(),
                self.chars@ == s,
                s == old(self).chars@,
                p0 == old(self).pos,
                self.allow_comments == old(self).allow_comments,
                self.depth == old(self).depth,
                self.pos == p0 + i,
                p0 + i <= s.len(),
                s.subrange(p0, p0 + i) == w@.subrange(0, i as int),
        {
            if self.pos >= self.chars.len() || self.chars[self.pos] != w[i] {
                proof {
                    if word_at(s, p0, w@) {
                        assert(s.subrange(p0, p0 + w@.len())[i as int] == w@[i as int]);
                    }
                }
                return Err(ParsonError::Parse);
            }
            self.pos += 1;
            assert(s.subrange(p0, p0 + i + 1) =~= w@.subrange(0, i + 1));
        }
        assert(w@.subrange(0, w@.len() as int) =~= w@);
        Ok(())
    }

    /// Reads the number at the position.
    fn parse_number(&mut self) -> (r: Result<Value, ParsonError>)
        requires
            old(self).wf(),
        ensures
            final(self).wf(),
            final(self).input() == old(self).input(),
            final(self).comments() == old(self).comments(),
            final(self).nesting() == old(self).nesting(),
            r is Ok ==> final(self).position() > old(self).position(),
            match number_end(old(self).input(), old(self).position()) {
                None => r == Err::<Value, ParsonError>(ParsonError::Parse),
                Some(e) => if rounds_to_infinity(old(self).input().subrange(old(self).position(), e)) {
                    r == Err::<Value, ParsonError>(ParsonError::Parse)
                } else {
                    r matches Ok(v) && v@ == JsonValue::Number(
                        old(self).input().subrange(old(self).position(), e),
                    ) && final(self).position() == e
                },
            },
    {
        let ghost s = self.chars@;
        let ghost p0 = self.pos as int;
        match number_end_at(&self.chars, self.pos) {
            None => Err(ParsonError::Parse),
            Some(e) => {
                let mut lexeme: Vec<char> = Vec::new();
                let start = self.pos;
                for i in start..e
                    invariant
                        self.chars@ == s,
                        start == p0,
                        e <= s.len(),
                        lexeme@ == s.subrange(p0, i as int),
                {
                    lexeme.push(self.chars[i]);
                    assert(lexeme@ =~= s.subrange(p0, i + 1));
                }
                proof {
                    lemma_number_end_in_lexeme(s, p0, e as int);
                }
                if lexeme_rounds_to_infinity(&lexeme) {
                    Err(ParsonError::Parse)
                } else {
                    let n = JsonNumber::from_lexeme(&lexeme);
                    self.pos = e;
                    Ok(Value::Number(n))
                }
            },
        }
    }

    /// Reads the value at the position, after whitespace.
    #[verifier::spinoff_prover]
    #[verifier::rlimit(100)]
    pub fn parse_value(&mut self) -> (r: Result<Value, ParsonError>)
        requires
            old(self).wf(),
        ensures
            final(self).wf(),
            final(self).input() == old(self).input(),
            final(self).comments() == old(self).comments(),
            r is Ok ==> final(self).nesting() == old(self).nesting() && final(self).position()
                > old(self).position(),
            match value_at(
                old(self).input(),
                old(self).position(),
                old(self).nesting(),
                old(self).comments(),
            ) {
                Some((v, q)) => r matches Ok(x) && x@ == v && final(self).position() == q,
                None => r == Err::<Value, ParsonError>(ParsonError::Parse),
            },
        decreases MAX_NESTING_DEPTH - old(self).nesting(), 2int,
    {
        let ghost s = self.chars@;
        let ghost p0 = self.pos as int;
        let ghost cm = self.allow_comments;
        proof {
            lemma_skip_ws_bounds(s, p0, cm);
        }
        self.skip_whitespace_and_comments()?;
        if self.depth >= MAX_NESTING_DEPTH || self.pos >= self.chars.len() {
            return Err(ParsonError::Parse);
        }
        let c = self.chars[self.pos];
        if c == '"' {
            proof {
                lemma_string_body_bounds(s, self.pos + 1);
            }
            let t = self.parse_string_value()?;
            Ok(Value::String(t))
        } else if c == '{' {
            let o = self.parse_object()?;
            Ok(Value::Object(o))
        } else if c == '[' {
            let a = self.parse_array()?;
            Ok(Value::Array(a))
        } else if c == 'n' {
            self.parse_literal(&['n', 'u', 'l', 'l'])?;
            Ok(Value::Null)
        } else if c == 't' {
            self.parse_literal(&['t', 'r', 'u', 'e'])?;
            Ok(Value::Bool(true))
        } else if c == 'f' {
            self.parse_literal(&['f', 'a', 'l', 's', 'e'])?;
            Ok(Value::Bool(false))
        } else if c == '-' || ('0' <= c && c <= '9') {
            self.parse_number()
        } else {
            Err(ParsonError::Parse)
        }
    }

    /// Reads the array whose `[` is at the position.
    #[verifier::spinoff_prover]
    #[verifier::rlimit(100)]
    fn parse_array(&mut self) -> (r: Result<Array, ParsonError>)
        requires
            old(self).wf(),
            old(self).position() < old(self).input().len(),
            old(self).input()[old(self).position()] == '[',
            old(self).nesting() < MAX_NESTING_DEPTH,
        ensures
            final(self).wf(),
            final(self).input() == old(self).input(),
            final(self).comments() == old(self).comments(),
            r is Ok ==> final(self).nesting() == old(self).nesting() && final(self).position()
                > old(self).position(),
            match array_open(
                old(self).input(),
                old(self).position() + 1,
                old(self).nesting() + 1,
                old(self).comments(),
            ) {
                Some((v, q)) => r matches Ok(a) && JsonValue::Array(a.model()) == v
                    && final(self).position() == q,
                None => r == Err::<Array, ParsonError>(ParsonError::Parse),
            },
        decreases MAX_NESTING_DEPTH - old(self).nesting(), 1int,
    {
        let ghost s = self.chars@;
        let ghost p0 = self.pos as int;
        let ghost cm = self.allow_comments;
        let ghost d = self.depth as nat;
        self.pos += 1;
        self.depth += 1;
        let mut arr = Array::new();
        proof {
            lemma_skip_ws_bounds(s, p0 + 1, cm);
        }
        self.skip_whitespace_and_comments()?;
        if self.pos < self.chars.len() && self.chars[self.pos] == ']' {
            self.pos += 1;
            self.depth -= 1;
            return Ok(arr);
        }
        loop
            invariant
                self.wf(),
                self.chars@ == s,
                s == old(self).chars@,
                p0 == old(self).pos,
                d == old(self).depth,
                cm == old(self).allow_comments,
                self.allow_comments == cm,
                self.depth == d + 1,
                d < MAX_NESTING_DEPTH,
                p0 < self.pos <= s.len(),
                array_items(s, self.pos as int, d + 1, cm, arr.model()) == array_open(
                    s,
                    p0 + 1,
                    d + 1,
                    cm,
                ),
            decreases s.len() - self.pos,
        {
            let ghost p = self.pos as int;
            let ghost acc = arr.model();
            let val = self.parse_value()?;
            let ghost q = self.pos as int;
            arr.push(val);
            proof {
                lemma_skip_ws_bounds(s, q, cm);
            }
            self.skip_whitespace_and_comments()?;
            if self.pos >= self.chars.len() {
                return Err(ParsonError::Parse);
            }
            let c = self.chars[self.pos];
            self.pos += 1;
            if c == ',' {
                let ghost r1 = self.pos as int;
                proof {
                    lemma_skip_ws_bounds(s, r1, cm);
                }
                self.skip_whitespace_and_comments()?;
                if self.pos < self.chars.len() && self.chars[self.pos] == ']' {
                    self.pos += 1;
                    self.depth -= 1;
                    return Ok(arr);
                }
            } else if c == ']' {
                self.depth -= 1;
                return Ok(arr);
            } else {
                return Err(ParsonError::Parse);
            }
        }
    }

    /// Reads the object whose `{` is at the position.
    #[verifier::spinoff_prover]
    #[verifier::rlimit(100)]
    fn parse_object(&mut self) -> (r: Result<Object, ParsonError>)
        requires
            old(self).wf(),
            old(self).position() < old(self).input().len(),
            old(self).input()[old(self).position()] == '{',
            old(self).nesting() < MAX_NESTING_DEPTH,
        ensures
            final(self).wf(),
            final(self).input() == old(self).input(),
            final(self).comments() == old(self).comments(),
            r is Ok ==> final(self).nesting() == old(self).nesting() && final(self).position()
                > old(self).position(),
            match object_open(
                old(self).input(),
                old(self).position() + 1,
                old(self).nesting() + 1,
                old(self).comments(),
            ) {
                Some((v, q)) => r matches Ok(o) && JsonValue::Object(o.model()) == v
                    && final(self).position() == q,
                None => r == Err::<Object, ParsonError>(ParsonError::Parse),
            },
        decreases MAX_NESTING_DEPTH - old(self).nesting(), 1int,
    {
        let ghost s = self.chars@;
        let ghost p0 = self.pos as int;
        let ghost cm = self.allow_comments;
        let ghost d = self.depth as nat;
        self.pos += 1;
        self.depth += 1;
        let mut obj = Object::new();
        proof {
            lemma_skip_ws_bounds(s, p0 + 1, cm);
        }
        self.skip_whitespace_and_comments()?;
        if self.pos < self.chars.len() && self.chars[self.pos] == '}' {
            self.pos += 1;
            self.depth -= 1;
            return Ok(obj);
        }
        loop
            invariant
                self.wf(),
                self.chars@ == s,
                s == old(self).chars@,
                p0 == old(self).pos,
                d == old(self).depth,
                cm == old(self).allow_comments,
                self.allow_comments == cm,
                self.depth == d + 1,
                d < MAX_NESTING_DEPTH,
                p0 < self.pos <= s.len(),
                object_members(s, self.pos as int, d + 1, cm, obj.model()) == object_open(
                    s,
                    p0 + 1,
                    d + 1,
                    cm,
                ),
            decreases s.len() - self.pos,
        {
            let ghost p = self.pos as int;
            proof {
                lemma_skip_ws_bounds(s, p, cm);
            }
            self.skip_whitespace_and_comments()?;
            if self.pos >= self.chars.len() || self.chars[self.pos] != '"' {
                return Err(ParsonError::Parse);
            }
            let ghost q = self.pos as int;
            proof {
                lemma_string_body_bounds(s, q + 1);
            }
            let (key, nul) = self.read_string()?;
            let ghost k2 = self.pos as int;
            proof {
                lemma_skip_ws_bounds(s, k2, cm);
            }
            self.skip_whitespace_and_comments()?;
            if self.pos >= self.chars.len() || self.chars[self.pos] != ':' {
                return Err(ParsonError::Parse);
            }
            self.pos += 1;
            let val = self.parse_value()?;
            let ghost q2 = self.pos as int;
            let found = obj.get(key.as_str()).is_some();
            proof {
                lemma_lookup_has_key(obj.model(), key@);
            }
            if found || nul {
                return Err(ParsonError::Parse);
            }
            obj.set(key, val);
            proof {
                lemma_skip_ws_bounds(s, q2, cm);
            }
            self.skip_whitespace_and_comments()?;
            if self.pos >= self.chars.len() {
                return Err(ParsonError::Parse);
            }
            let c = self.chars[self.pos];
            self.pos += 1;
            if c == ',' {
                let ghost r1 = self.pos as int;
                proof {
                    lemma_skip_ws_bounds(s, r1, cm);
                }
                self.skip_whitespace_and_comments()?;
                if self.pos < self.chars.len() && self.chars[self.pos] == '}' {
                    self.pos += 1;
                    self.depth -= 1;
                    return Ok(obj);
                }
            } else if c == '}' {
                self.depth -= 1;
                return Ok(obj);
            } else {
                return Err(ParsonError::Parse);
            }
        }
    }
}

/// Parses a whole document: one value, with only whitespace (and comments when
/// `allow_comments` is set) around it; a leading byte order mark is skipped.
fn parse_document_text(s: &str, allow_comments: bool) -> (r: Result<Value, ParsonError>)
    ensures
        match parse_document(s@, allow_comments) {
            Some(v) => r matches Ok(x) && x@ == v,
            None => r == Err::<Value, ParsonError>(ParsonError::Parse),
        },
{
    let all = chars_of(s);
    let start: usize = if all.len() > 0 && all[0] == '\u{FEFF}' {
        1
    } else {
        0
    };
    let mut chars: Vec<char> = Vec::new();
    for i in start..all.len()
        invariant
            start <= all@.len(),
            chars@ == all@.subrange(start as int, i as int),
    {
        chars.push(all[i]);
        assert(chars@ =~= all@.subrange(start as int, i + 1));
    }
    let ghost t = chars@;
    assert(t =~= without_bom(s@));
    let mut parser = Parser { chars, pos: 0, depth: 0, allow_comments };
    let value = parser.parse_value()?;
    let ghost q = parser.pos as int;
    proof {
        lemma_skip_ws_bounds(t, q, allow_comments);
    }
    parser.skip_whitespace_and_comments()?;
    if parser.pos < parser.chars.len() {
        return Err(ParsonError::Parse);
    }
    Ok(value)
}

/// Parses a JSON document.
pub fn parse_string(s: &str) -> (r: Result<Value, ParsonError>)
    ensures
        match parse_document(s@, false) {
            Some(v) => r matches Ok(x) && x@ == v,
            None => r == Err::<Value, ParsonError>(ParsonError::Parse),
        },
{
    parse_document_text(s, false)
}

/// Parses a JSON document in which line (`//`) and block (`/* */`) comments count as
/// whitespace.
pub fn parse_string_with_comments(s: &str) -> (r: Result<Value, ParsonError>)
    ensures
        match parse_document(s@, true) {
            Some(v) => r matches Ok(x) && x@ == v,
            None => r == Err::<Value, ParsonError>(ParsonError::Parse),
        },
{
    parse_document_text(s, true)
}

/// `lookup` finds a member exactly when `has_key` says there is one.
pub proof fn lemma_lookup_has_key(m: Seq<(Seq<char>, JsonValue)>, k: Seq<char>)
    ensures
        lookup(m, k) is Some <==> has_key(m, k),
{
    lemma_key_index(m, k);
    if has_key(m, k) {
        let i = choose|i: int| 0 <= i < m.len() && (#[trigger] m[i]).0 == k;
        assert(m[i].0 == k);
    }
}

/// Where a number lexeme ends when it is read on its own.
pub proof fn lemma_number_end_in_lexeme(s: Seq<char>, p: int, e: int)
    requires
        0 <= p,
        e <= s.len(),
        number_end(s, p) == Some(e),
    ensures
        number_end(s.subrange(p, e), 0) == Some(e - p),
{
    let t = s.subrange(p, e);
    let a = if 0 <= p < s.len() && s[p] == '-' {
        p + 1
    } else {
        p
    };
    assert(a < e) by {
        if s[a] == '0' {
            lemma_number_tail_end_after(s, a + 1, true);
        } else {
            lemma_number_tail_end_after(s, a + 1 + digit_run(s, a + 1), false);
        }
    }
    assert(t[a - p] == s[a]);
    assert(t[0] == s[p]);
    if s[a] == '0' {
        lemma_number_tail_end_in_lexeme(s, p, a + 1, true, e);
    } else {
        lemma_digit_run_bound(s, a + 1);
        lemma_number_tail_end_after(s, a + 1 + digit_run(s, a + 1), false);
        lemma_digit_run_subrange(s, p, e, a + 1);
        lemma_number_tail_end_in_lexeme(s, p, a + 1 + digit_run(s, a + 1), false, e);
    }
}

/// A number tail ends at or after where it starts.
pub proof fn lemma_number_tail_end_after(s: Seq<char>, b: int, bare_zero: bool)
    ensures
        number_tail_end(s, b, bare_zero) matches Some(e) ==> b <= e,
{
}

/// A number tail read inside `s[p..e]`, where it ends at `e`, ends at the same place.
pub proof fn lemma_number_tail_end_in_lexeme(s: Seq<char>, p: int, b: int, bare_zero: bool, e: int)
    requires
        0 <= p <= b,
        e <= s.len(),
        number_tail_end(s, b, bare_zero) == Some(e),
    ensures
        number_tail_end(s.subrange(p, e), b - p, bare_zero) == Some(e - p),
{
    let t = s.subrange(p, e);
    let has_dot = 0 <= b < s.len() && s[b] == '.';
    let c = if has_dot {
        b + 1 + digit_run(s, b + 1)
    } else {
        b
    };
    lemma_digit_run_bound(s, b + 1);
    assert(c <= e);
    if b < e {
        assert(t[b - p] == s[b]);
    }
    if has_dot {
        lemma_digit_run_subrange(s, p, e, b + 1);
    }
    if c < e {
        assert(t[c - p] == s[c]);
    }
    if is_exponent_mark(s, c) {
        let k = if c + 1 < s.len() && (s[c + 1] == '+' || s[c + 1] == '-') {
            c + 2
        } else {
            c + 1
        };
        if c + 1 < e {
            assert(t[c + 1 - p] == s[c + 1]);
        }
        lemma_digit_run_bound(s, k);
        lemma_digit_run_subrange(s, p, e, k);
    }
}

/// A digit run stays within the input.
pub proof fn lemma_digit_run_bound(s: Seq<char>, i: int)
    requires
        0 <= i,
    ensures
        digit_run(s, i) == 0 || i + digit_run(s, i) <= s.len(),
    decreases s.len() - i,
{
    if 0 <= i < s.len() && is_digit(s[i]) {
        lemma_digit_run_bound(s, i + 1);
    }
}

/// A digit run that ends by `e` is the same within `s[p..e]`.
pub proof fn lemma_digit_run_subrange(s: Seq<char>, p: int, e: int, i: int)
    requires
        0 <= p <= i,
        i + digit_run(s, i) <= e <= s.len(),
    ensures
        digit_run(s.subrange(p, e), i - p) == digit_run(s, i),
    decreases s.len() - i,
{
    if 0 <= i < s.len() && is_digit(s[i]) {
        lemma_digit_run_subrange(s, p, e, i + 1);
    }
}

/// Pushing a character onto a sequence adds exactly that character to what it contains.
pub proof fn lemma_push_contains(s: Seq<char>, c: char, x: char)
    ensures
        s.push(c).contains(x) == (s.contains(x) || c == x),
{
    if s.contains(x) {
        let k = choose|k: int| 0 <= k < s.len() && s[k] == x;
        assert(s.push(c)[k] == x);
    }
    if c == x {
        assert(s.push(c)[s.len() as int] == x);
    }
    if s.push(c).contains(x) {
        let k = choose|k: int| 0 <= k < s.push(c).len() && s.push(c)[k] == x;
        if k < s.len() {
            assert(s[k] == x);
        }
    }
}

/// `16^n`.
pub open spec fn pow16(n: nat) -> nat
    decreases n,
{
    if n == 0 {
        1
    } else {
        16 * pow16((n - 1) as nat)
    }
}

/// The value of the first `n` hexadecimal digits at `p`.
pub open spec fn hex_prefix_value(s: Seq<char>, p: int, n: nat) -> int
    decreases n,
{
    if n == 0 {
        0
    } else {
        hex_prefix_value(s, p, (n - 1) as nat) * 16 + hex_digit_value(s[p + n - 1])
    }
}

} // verus!
