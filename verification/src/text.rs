//! Characters, character classes and a cursor over decoded input.
//!
//! Both parsers walk a vector of characters. Positions are character
//! indices; a diagnostic reports the corresponding byte offset in the UTF-8
//! source text.

use vstd::prelude::*;
use vstd::utf8::*;

verus! {

/// Trusted: `String::push` of the standard library appends the given
/// character to the end of the string and changes nothing else.
pub assume_specification[ String::push ](s: &mut String, ch: char)
    ensures
        final(s)@ == old(s)@.push(ch),
;

/// Whether two string slices hold the same characters.
pub fn str_eq(a: &str, b: &str) -> (r: bool)
    ensures
        r == (a@ == b@),
{
    broadcast use encode_utf8_decode_utf8;

    let x = a.as_bytes();
    let y = b.as_bytes();
    if x.len() != y.len() {
        return false;
    }
    let mut i: usize = 0;
    while i < x.len()
        invariant
            i <= x.len(),
            x.len() == y.len(),
            x@ == encode_utf8(a@),
            y@ == encode_utf8(b@),
            forall|j: int| 0 <= j < i ==> x@[j] == y@[j],
        decreases x.len() - i,
    {
        if x[i] != y[i] {
            return false;
        }
        i += 1;
    }
    assert(x@ =~= y@);
    assert(decode_utf8(encode_utf8(a@)) == a@);
    assert(decode_utf8(encode_utf8(b@)) == b@);
    true
}

/// The characters of `s`, in order.
pub fn chars_of(s: &str) -> (v: Vec<char>)
    ensures
        v@ == s@,
{
    let mut v: Vec<char> = Vec::new();
    for c in it: s.chars()
        invariant
            v@ == it.seq().take(it.index()),
            it.seq() == s@,
    {
        v.push(c);
    }
    v
}

/// The string made of `chars[from..to]`.
pub fn string_of(chars: &Vec<char>, from: usize, to: usize) -> (s: String)
    requires
        from <= to <= chars.len(),
    ensures
        s@ == chars@.subrange(from as int, to as int),
{
    let mut s = String::new();
    let mut i: usize = from;
    while i < to
        invariant
            from <= i <= to <= chars.len(),
            s@ == chars@.subrange(from as int, i as int),
        decreases to - i,
    {
        s.push(chars[i]);
        assert(chars@.subrange(from as int, i as int).push(chars@[i as int])
            =~= chars@.subrange(from as int, i + 1));
        i += 1;
    }
    s
}

/// The texts of a sequence of strings.
pub open spec fn string_views(v: Seq<String>) -> Seq<Seq<char>> {
    v.map_values(|s: String| s@)
}

/// Characters with the Unicode `White_Space` property.
pub open spec fn whitespace(c: char) -> bool {
    let n = c as u32;
    ||| 0x09 <= n <= 0x0d
    ||| n == 0x20
    ||| n == 0x85
    ||| n == 0xa0
    ||| n == 0x1680
    ||| 0x2000 <= n <= 0x200a
    ||| n == 0x2028
    ||| n == 0x2029
    ||| n == 0x202f
    ||| n == 0x205f
    ||| n == 0x3000
}

/// Whether `c` is white space.
pub fn is_whitespace(c: char) -> (r: bool)
    ensures
        r == whitespace(c),
{
    let n: u32 = c as u32;
    (0x09 <= n && n <= 0x0d) || n == 0x20 || n == 0x85 || n == 0xa0 || n == 0x1680 || (0x2000 <= n
        && n <= 0x200a) || n == 0x2028 || n == 0x2029 || n == 0x202f || n == 0x205f || n == 0x3000
}

/// ASCII decimal digits.
pub open spec fn digit(c: char) -> bool {
    '0' <= c <= '9'
}

/// Whether `c` is a decimal digit.
pub fn is_digit(c: char) -> (r: bool)
    ensures
        r == digit(c),
{
    '0' <= c && c <= '9'
}

/// The value of a decimal digit.
pub open spec fn digit_value(c: char) -> int
    recommends
        digit(c),
{
    c as u32 - '0' as u32
}

/// The value of the decimal digit `c`.
pub fn digit_of(c: char) -> (r: u8)
    requires
        digit(c),
    ensures
        r == digit_value(c),
        r <= 9,
{
    let n: u32 = c as u32;
    (n - 0x30) as u8
}

/// Hexadecimal digits, in either case.
pub open spec fn hex_digit(c: char) -> bool {
    ||| '0' <= c <= '9'
    ||| 'a' <= c <= 'f'
    ||| 'A' <= c <= 'F'
}

/// The value of a hexadecimal digit.
pub open spec fn hex_value(c: char) -> int
    recommends
        hex_digit(c),
{
    if '0' <= c <= '9' {
        c as u32 - '0' as u32
    } else if 'a' <= c <= 'f' {
        c as u32 - 'a' as u32 + 10
    } else {
        c as u32 - 'A' as u32 + 10
    }
}

/// The value of `c` as a hexadecimal digit, if it is one.
pub fn hex_of(c: char) -> (r: Option<u8>)
    ensures
        r == if hex_digit(c) {
            Some(hex_value(c) as u8)
        } else {
            None
        },
{
    let n: u32 = c as u32;
    if '0' <= c && c <= '9' {
        Some((n - 0x30) as u8)
    } else if 'a' <= c && c <= 'f' {
        Some((n - 0x61 + 10) as u8)
    } else if 'A' <= c && c <= 'F' {
        Some((n - 0x41 + 10) as u8)
    } else {
        None
    }
}

/// ASCII letters and digits: what a tag or attribute name is made of.
pub open spec fn name_char(c: char) -> bool {
    ||| 'a' <= c <= 'z'
    ||| 'A' <= c <= 'Z'
    ||| '0' <= c <= '9'
}

/// Whether `c` is a letter or a digit.
pub fn is_name_char(c: char) -> (r: bool)
    ensures
        r == name_char(c),
{
    ('a' <= c && c <= 'z') || ('A' <= c && c <= 'Z') || ('0' <= c && c <= '9')
}

/// Name characters, hyphen and underscore: what a style sheet identifier is
/// made of.
pub open spec fn identifier_char(c: char) -> bool {
    name_char(c) || c == '-' || c == '_'
}

/// A set of characters that a run may be made of.
#[derive(Clone, Copy, Debug, PartialEq, Eq)]
pub enum CharClass {
    /// White space.
    Whitespace,
    /// Letters and digits.
    Name,
    /// Letters, digits, `-` and `_`.
    Identifier,
    /// Decimal digits.
    Digit,
    /// Every character but the given one.
    Except(char),
}

impl CharClass {
    /// Whether `c` belongs to the class.
    pub open spec fn holds(self, c: char) -> bool {
        match self {
            CharClass::Whitespace => whitespace(c),
            CharClass::Name => name_char(c),
            CharClass::Identifier => identifier_char(c),
            CharClass::Digit => digit(c),
            CharClass::Except(stop) => c != stop,
        }
    }

    /// Whether `c` belongs to the class.
    pub fn test(&self, c: char) -> (r: bool)
        ensures
            r == self.holds(c),
    {
        match self {
            CharClass::Whitespace => is_whitespace(c),
            CharClass::Name => is_name_char(c),
            CharClass::Identifier => is_name_char(c) || c == '-' || c == '_',
            CharClass::Digit => is_digit(c),
            CharClass::Except(stop) => c != *stop,
        }
    }
}

/// How many characters of `s` stand at `pos` and behind it.
pub open spec fn remaining(s: Seq<char>, pos: int) -> nat {
    if pos <= s.len() {
        (s.len() - pos) as nat
    } else {
        0
    }
}

/// The length of the longest run of `class` characters that starts at
/// `pos`.
pub open spec fn run_len(s: Seq<char>, pos: int, class: CharClass) -> nat
    decreases s.len() - pos,
{
    if 0 <= pos < s.len() && class.holds(s[pos]) {
        1 + run_len(s, pos + 1, class)
    } else {
        0
    }
}

/// Where the longest run of `class` characters that starts at `pos` ends.
pub open spec fn run_end(s: Seq<char>, pos: int, class: CharClass) -> int {
    pos + run_len(s, pos, class)
}

/// A run ends inside the input, holds only characters of its class, and is
/// followed by the end of input or by a character outside the class.
pub proof fn lemma_run_end(s: Seq<char>, pos: int, class: CharClass)
    requires
        0 <= pos <= s.len(),
    ensures
        pos <= run_end(s, pos, class) <= s.len(),
        forall|i: int| pos <= i < run_end(s, pos, class) ==> class.holds(#[trigger] s[i]),
        run_end(s, pos, class) < s.len() ==> !class.holds(s[run_end(s, pos, class)]),
    decreases s.len() - pos,
{
    if pos < s.len() && class.holds(s[pos]) {
        lemma_run_end(s, pos + 1, class);
    }
}

/// A run that is known to reach `mid` ends where the run from `mid` ends.
pub proof fn lemma_run_end_step(s: Seq<char>, pos: int, mid: int, class: CharClass)
    requires
        0 <= pos <= mid <= s.len(),
        forall|i: int| pos <= i < mid ==> class.holds(#[trigger] s[i]),
    ensures
        run_end(s, pos, class) == run_end(s, mid, class),
    decreases mid - pos,
{
    if pos < mid {
        lemma_run_end_step(s, pos + 1, mid, class);
    }
}

/// Whether `pat` stands in `s` at `pos`.
pub open spec fn has_prefix_at(s: Seq<char>, pos: int, pat: Seq<char>) -> bool {
    &&& 0 <= pos
    &&& pos + pat.len() <= s.len()
    &&& s.subrange(pos, pos + pat.len()) == pat
}

/// The number of bytes that the UTF-8 encoding of `c` takes.
pub open spec fn utf8_width(c: char) -> nat {
    let n = c as u32;
    if n < 0x80 {
        1
    } else if n < 0x800 {
        2
    } else if n < 0x10000 {
        3
    } else {
        4
    }
}

/// The number of bytes that the UTF-8 encoding of `s` takes.
pub open spec fn byte_len(s: Seq<char>) -> nat
    decreases s.len(),
{
    if s.len() == 0 {
        0
    } else {
        byte_len(s.drop_last()) + utf8_width(s.last())
    }
}

/// The byte offset of character position `pos` in the UTF-8 encoding of
/// `s`, clamped to what a `usize` holds.
pub open spec fn byte_offset(s: Seq<char>, pos: int) -> usize {
    let n = byte_len(s.take(pos));
    if n > usize::MAX {
        usize::MAX
    } else {
        n as usize
    }
}

/// What went wrong while reading a source text.
#[derive(Clone, Copy, Debug, PartialEq, Eq)]
pub enum ParseErrorKind {
    /// A character, or the end of the input, stands where the grammar
    /// allows neither.
    UnexpectedCharacter,
    /// A literal that the grammar requires is absent.
    ExpectedLiteral,
    /// A length has a unit other than `px`.
    UnrecognizedUnit,
    /// A colour is not `#` followed by six hexadecimal digits.
    MalformedColor,
    /// A length is too large to be represented.
    LengthOutOfRange,
}

/// A syntax error, with the byte offset at which it was found.
#[derive(Clone, Copy, Debug, PartialEq, Eq)]
pub struct ParseError {
    pub kind: ParseErrorKind,
    pub offset: usize,
}

/// The error of the given kind at character position `pos` of `s`.
pub open spec fn error_at(s: Seq<char>, pos: int, kind: ParseErrorKind) -> ParseError {
    ParseError { kind, offset: byte_offset(s, pos) }
}

/// What a piece of grammar gives at a position: its value and the number
/// of characters that it takes, or the error that it fails with.
pub type Parsed<T> = Result<(T, nat), ParseError>;

/// A result that starts `k` characters further on.
pub open spec fn later<T>(r: Parsed<T>, k: int) -> Parsed<T> {
    match r {
        Ok((v, n)) => Ok((v, (n + k) as nat)),
        Err(e) => Err(e),
    }
}

/// A reading position in a text.
pub struct Cursor {
    pub pos: usize,
    pub input: Vec<char>,
}

impl Cursor {
    /// The position lies inside the input or at its end.
    pub open spec fn wf(&self) -> bool {
        self.pos <= self.input.len()
    }

    /// A cursor at the start of `source`.
    pub fn new(source: &str) -> (c: Cursor)
        ensures
            c.wf(),
            c.pos == 0,
            c.input@ == source@,
    {
        Cursor { pos: 0, input: chars_of(source) }
    }

    /// Whether all input is consumed.
    pub fn eof(&self) -> (r: bool)
        ensures
            r == (self.pos >= self.input.len()),
    {
        self.pos >= self.input.len()
    }

    /// The current character, if there is one, without consuming it.
    pub fn next_char(&self) -> (r: Option<char>)
        ensures
            r == if self.pos < self.input.len() {
                Some(self.input@[self.pos as int])
            } else {
                None
            },
    {
        if self.pos < self.input.len() {
            Some(self.input[self.pos])
        } else {
            None
        }
    }

    /// The current character, if there is one; the cursor moves past it.
    pub fn consume_char(&mut self) -> (r: Option<char>)
        requires
            old(self).wf(),
        ensures
            final(self).wf(),
            final(self).input == old(self).input,
            old(self).pos < old(self).input.len() ==> r == Some(old(self).input@[old(self).pos as int])
                && final(self).pos == old(self).pos + 1,
            old(self).pos >= old(self).input.len() ==> r.is_none() && final(self).pos == old(self).pos,
    {
        if self.pos < self.input.len() {
            let c = self.input[self.pos];
            self.pos = self.pos + 1;
            Some(c)
        } else {
            None
        }
    }

    /// Whether the input at the current position starts with `s`.
    pub fn starts_with(&self, s: &str) -> (r: bool)
        requires
            self.wf(),
        ensures
            r == has_prefix_at(self.input@, self.pos as int, s@),
    {
        let pat = chars_of(s);
        if pat.len() > self.input.len() - self.pos {
            return false;
        }
        let mut i: usize = 0;
        while i < pat.len()
            invariant
                i <= pat.len(),
                self.pos + pat.len() <= self.input.len(),
                pat@ == s@,
                forall|j: int| 0 <= j < i ==> self.input@[self.pos + j] == pat@[j],
            decreases pat.len() - i,
        {
            if self.input[self.pos + i] != pat[i] {
                assert(self.input@.subrange(self.pos as int, self.pos + pat.len())[i as int]
                    != pat@[i as int]);
                return false;
            }
            i += 1;
        }
        assert(self.input@.subrange(self.pos as int, self.pos + pat.len()) =~= pat@);
        true
    }

    /// The error of the given kind at the current position.
    pub fn error(&self, kind: ParseErrorKind) -> (e: ParseError)
        requires
            self.wf(),
        ensures
            e == error_at(self.input@, self.pos as int, kind),
    {
        self.error_at(self.pos, kind)
    }

    /// The error of the given kind at position `pos`.
    pub fn error_at(&self, pos: usize, kind: ParseErrorKind) -> (e: ParseError)
        requires
            pos <= self.input.len(),
        ensures
            e == error_at(self.input@, pos as int, kind),
    {
        let mut offset: usize = 0;
        let mut i: usize = 0;
        while i < pos
            invariant
                i <= pos <= self.input.len(),
                offset == byte_offset(self.input@, i as int),
            decreases pos - i,
        {
            let n: u32 = self.input[i] as u32;
            let w: usize = if n < 0x80 {
                1
            } else if n < 0x800 {
                2
            } else if n < 0x10000 {
                3
            } else {
                4
            };
            proof {
                let s = self.input@;
                assert(s.take(i + 1).drop_last() =~= s.take(i as int));
                assert(s.take(i + 1).last() == s[i as int]);
            }
            offset = offset.saturating_add(w);
            i += 1;
        }
        ParseError { kind, offset }
    }

    /// Moves past `s` if it stands at the current position; fails, without
    /// moving, if it does not.
    pub fn expect(&mut self, s: &str) -> (r: Result<(), ParseError>)
        requires
            old(self).wf(),
        ensures
            final(self).wf(),
            final(self).input == old(self).input,
            has_prefix_at(old(self).input@, old(self).pos as int, s@) ==> r.is_ok() && final(self).pos == old(self).pos + s@.len(),
            !has_prefix_at(old(self).input@, old(self).pos as int, s@) ==> r == Err::<
                (),
                ParseError,
            >(error_at(old(self).input@, old(self).pos as int, ParseErrorKind::ExpectedLiteral))
                && final(self).pos == old(self).pos,
    {
        if self.starts_with(s) {
            let n = chars_of(s).len();
            self.pos = self.pos + n;
            Ok(())
        } else {
            Err(self.error(ParseErrorKind::ExpectedLiteral))
        }
    }

    /// Moves past the character `c` if it stands at the current position;
    /// fails, without moving, if it does not.
    pub fn expect_char(&mut self, c: char) -> (r: Result<(), ParseError>)
        requires
            old(self).wf(),
        ensures
            final(self).wf(),
            final(self).input == old(self).input,
            match r {
                Ok(_) => old(self).pos < old(self).input.len() && old(self).input@[old(self).pos as int] == c && final(self).pos == old(self).pos + 1,
                Err(e) => !(old(self).pos < old(self).input.len() && old(self).input@[old(self).pos as int] == c) && final(self).pos == old(self).pos && e == error_at(
                    old(self).input@,
                    old(self).pos as int,
                    ParseErrorKind::ExpectedLiteral,
                ),
            },
    {
        if self.pos < self.input.len() && self.input[self.pos] == c {
            self.pos = self.pos + 1;
            Ok(())
        } else {
            Err(self.error(ParseErrorKind::ExpectedLiteral))
        }
    }

    /// Consumes the longest run of `class` characters at the current
    /// position and returns it.
    pub fn consume_while(&mut self, class: CharClass) -> (r: String)
        requires
            old(self).wf(),
        ensures
            final(self).wf(),
            final(self).input == old(self).input,
            final(self).pos == run_end(old(self).input@, old(self).pos as int, class),
            r@ == old(self).input@.subrange(old(self).pos as int, final(self).pos as int),
    {
        let start = self.pos;
        let mut end: usize = self.pos;
        while end < self.input.len() && class.test(self.input[end])
            invariant
                start <= end <= self.input.len(),
                forall|i: int| start <= i < end ==> class.holds(#[trigger] self.input@[i]),
            decreases self.input.len() - end,
        {
            end += 1;
        }
        proof {
            lemma_run_end_step(self.input@, start as int, end as int, class);
        }
        self.pos = end;
        string_of(&self.input, start, end)
    }

    /// Consumes and discards white space.
    pub fn consume_whitespace(&mut self)
        requires
            old(self).wf(),
        ensures
            final(self).wf(),
            final(self).input == old(self).input,
            final(self).pos == run_end(
                old(self).input@,
                old(self).pos as int,
                CharClass::Whitespace,
            ),
    {
        let mut end: usize = self.pos;
        while end < self.input.len() && is_whitespace(self.input[end])
            invariant
                self.pos <= end <= self.input.len(),
                forall|i: int|
                    self.pos <= i < end ==> CharClass::Whitespace.holds(#[trigger] self.input@[i]),
            decreases self.input.len() - end,
        {
            end += 1;
        }
        proof {
            lemma_run_end_step(self.input@, self.pos as int, end as int, CharClass::Whitespace);
        }
        self.pos = end;
    }
}

} // verus!
