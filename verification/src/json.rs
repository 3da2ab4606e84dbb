//! Zero-copy JSON tokenizer and the string escape codec.

use vstd::prelude::*;

verus! {

/// One token of the JSON input. Slices borrow from the tokenized buffer;
/// string tokens keep their surrounding quotes, with escapes undecoded.
#[derive(Debug)]
pub enum Token<'a> {
    Invalid(&'a [u8]),
    Null,
    False,
    True,
    Number(&'a [u8]),
    Str(&'a [u8]),
    Comma,
    Colon,
    Object,
    ObjectClose,
    Array,
    ArrayClose,
}

/// The specification-level shape of a token: slices are named by their
/// bounds in the input.
pub enum SpecToken {
    Invalid { from: int, to: int },
    Null,
    False,
    True,
    Number { from: int, to: int },
    Str { from: int, to: int },
    Comma,
    Colon,
    Object,
    ObjectClose,
    Array,
    ArrayClose,
    End,
}

/// Whitespace skipped between tokens: space, tab, CR, LF.
pub open spec fn is_ws(c: u8) -> bool {
    c == 0x20 || c == 0x09 || c == 0x0d || c == 0x0a
}

/// Bytes that may continue a number token.
pub open spec fn is_num_byte(c: u8) -> bool {
    (0x30 <= c <= 0x39) || c == 0x2e || c == 0x2d || c == 0x65 || c == 0x45
}

/// First non-whitespace position at or after `i`.
pub open spec fn spec_skip_ws(s: Seq<u8>, i: int) -> int
    decreases s.len() - i,
{
    if 0 <= i < s.len() && is_ws(s[i]) {
        spec_skip_ws(s, i + 1)
    } else {
        i
    }
}

/// Position of the closing quote at or after `j`: the first `"` whose
/// predecessor is not a backslash.
pub open spec fn spec_str_end(s: Seq<u8>, j: int) -> Option<int>
    decreases s.len() - j,
{
    if j < 0 || j >= s.len() {
        None
    } else if s[j] == 0x22 && s[j - 1] != 0x5c {
        Some(j)
    } else {
        spec_str_end(s, j + 1)
    }
}

/// First position at or after `j` that cannot continue a number.
pub open spec fn spec_num_end(s: Seq<u8>, j: int) -> int
    decreases s.len() - j,
{
    if 0 <= j < s.len() && is_num_byte(s[j]) {
        spec_num_end(s, j + 1)
    } else {
        j
    }
}

/// A keyword advances by its fixed length; a short buffer yields `Invalid`
/// without moving.
pub open spec fn spec_fixed(s: Seq<u8>, i: int, n: int, t: SpecToken) -> (SpecToken, int) {
    if i + n > s.len() {
        (SpecToken::Invalid { from: i, to: s.len() as int }, i)
    } else {
        (t, i + n)
    }
}

/// The next token starting at `i` and the position after it.
pub open spec fn spec_next(s: Seq<u8>, i0: int) -> (SpecToken, int) {
    let i = spec_skip_ws(s, i0);
    if i >= s.len() {
        (SpecToken::End, i)
    } else {
        let c = s[i];
        if c == 0x6e {  // 'n'
            spec_fixed(s, i, 4, SpecToken::Null)
        } else if c == 0x74 {  // 't'
            spec_fixed(s, i, 4, SpecToken::True)
        } else if c == 0x66 {  // 'f'
            spec_fixed(s, i, 5, SpecToken::False)
        } else if c == 0x7b {  // '{'
            (SpecToken::Object, i + 1)
        } else if c == 0x7d {  // '}'
            (SpecToken::ObjectClose, i + 1)
        } else if c == 0x5b {  // '['
            (SpecToken::Array, i + 1)
        } else if c == 0x5d {  // ']'
            (SpecToken::ArrayClose, i + 1)
        } else if c == 0x2c {  // ','
            (SpecToken::Comma, i + 1)
        } else if c == 0x3a {  // ':'
            (SpecToken::Colon, i + 1)
        } else if c == 0x22 {  // '"'
            match spec_str_end(s, i + 1) {
                Some(j) => (SpecToken::Str { from: i, to: j + 1 }, j + 1),
                None => (SpecToken::Invalid { from: i, to: s.len() as int }, i),
            }
        } else if (0x30 <= c <= 0x39) || c == 0x2d {
            let j = spec_num_end(s, i + 1);
            (SpecToken::Number { from: i, to: j }, j)
        } else {
            (SpecToken::Invalid { from: i, to: i + 1 }, i)
        }
    }
}

/// How an executable token answers for a specification token over input `s`.
pub open spec fn token_matches(r: Option<Token>, t: SpecToken, s: Seq<u8>) -> bool {
    match (r, t) {
        (None, SpecToken::End) => true,
        (Some(Token::Null), SpecToken::Null) => true,
        (Some(Token::False), SpecToken::False) => true,
        (Some(Token::True), SpecToken::True) => true,
        (Some(Token::Comma), SpecToken::Comma) => true,
        (Some(Token::Colon), SpecToken::Colon) => true,
        (Some(Token::Object), SpecToken::Object) => true,
        (Some(Token::ObjectClose), SpecToken::ObjectClose) => true,
        (Some(Token::Array), SpecToken::Array) => true,
        (Some(Token::ArrayClose), SpecToken::ArrayClose) => true,
        (Some(Token::Invalid(d)), SpecToken::Invalid { from, to }) => d@ == s.subrange(from, to),
        (Some(Token::Number(d)), SpecToken::Number { from, to }) => d@ == s.subrange(from, to),
        (Some(Token::Str(d)), SpecToken::Str { from, to }) => d@ == s.subrange(from, to),
        _ => false,
    }
}

/// Skipping whitespace never moves backwards nor past the end.
pub proof fn lemma_skip_ws_bounds(s: Seq<u8>, i: int)
    requires
        0 <= i <= s.len(),
    ensures
        i <= spec_skip_ws(s, i) <= s.len(),
    decreases s.len() - i,
{
    if i < s.len() && is_ws(s[i]) {
        lemma_skip_ws_bounds(s, i + 1);
    }
}

/// A found closing quote lies within the buffer, at or after the scan start.
pub proof fn lemma_str_end_bounds(s: Seq<u8>, j: int)
    requires
        0 <= j,
    ensures
        spec_str_end(s, j) matches Some(e) ==> j <= e < s.len() && s[e] == 0x22,
    decreases s.len() - j,
{
    if 0 <= j < s.len() {
        if !(s[j] == 0x22 && s[j - 1] != 0x5c) {
            lemma_str_end_bounds(s, j + 1);
        }
    }
}

/// The end of a number never lies before the scan start nor past the end.
pub proof fn lemma_num_end_bounds(s: Seq<u8>, j: int)
    requires
        0 <= j <= s.len(),
    ensures
        j <= spec_num_end(s, j) <= s.len(),
    decreases s.len() - j,
{
    if j < s.len() && is_num_byte(s[j]) {
        lemma_num_end_bounds(s, j + 1);
    }
}

/// Bounds of the next token: the position never moves backwards, stays in the
/// buffer, and strictly advances for every token but `End` and `Invalid`.
/// Slice bounds of string and number tokens are within the buffer, and a
/// string token is at least two bytes, quote-delimited.
pub proof fn lemma_spec_next(s: Seq<u8>, i: int)
    requires
        0 <= i <= s.len(),
    ensures
        ({
            let (t, p) = spec_next(s, i);
            i <= p <= s.len() && match t {
                SpecToken::End => p == s.len(),
                SpecToken::Invalid { from, to } => i <= from <= to <= s.len(),
                SpecToken::Str { from, to } => i < p && i <= from && from + 2 <= to <= s.len() && p
                    == to && s[from] == 0x22 && s[to - 1] == 0x22,
                SpecToken::Number { from, to } => i < p && i <= from < to <= s.len() && p == to,
                _ => i < p,
            }
        }),
{
    lemma_skip_ws_bounds(s, i);
    let j = spec_skip_ws(s, i);
    if j < s.len() {
        let c = s[j];
        if c == 0x22 {
            lemma_str_end_bounds(s, j + 1);
        } else if (0x30 <= c <= 0x39) || c == 0x2d {
            lemma_num_end_bounds(s, j + 1);
        }
    }
}

/// A forward-only tokenizer holding a borrow of its input.
pub struct Iter<'a> {
    s: &'a [u8],
    i: usize,
}

impl<'a> Iter<'a> {
    /// The buffer being tokenized.
    pub closed spec fn input(&self) -> Seq<u8> {
        self.s@
    }

    /// The cursor position.
    pub closed spec fn pos(&self) -> int {
        self.i as int
    }

    /// The cursor never passes the end of the input.
    pub open spec fn wf(&self) -> bool {
        0 <= self.pos() <= self.input().len()
    }

    /// A tokenizer at the start of `s`.
    pub fn new(s: &'a [u8]) -> (r: Self)
        ensures
            r.input() == s@,
            r.pos() == 0,
            r.wf(),
    {
        Self { s, i: 0 }
    }

    /// True when the cursor has reached the end of the input.
    pub fn eof(&self) -> (r: bool)
        ensures
            r == (self.pos() >= self.input().len()),
    {
        self.i >= self.s.len()
    }

    /// Restarts the tokenizer over a new buffer.
    pub fn reset(&mut self, s: &'a [u8])
        ensures
            final(self).input() == s@,
            final(self).pos() == 0,
            final(self).wf(),
    {
        self.s = s;
        self.i = 0;
    }

    /// Moves the cursor past any whitespace.
    fn skip_whitespace(&mut self)
        requires
            old(self).wf(),
        ensures
            final(self).input() == old(self).input(),
            final(self).pos() == spec_skip_ws(old(self).input(), old(self).pos()),
            final(self).wf(),
    {
        let ghost s = self.s@;
        let ghost p0 = self.i as int;
        let mut i: usize = self.i;
        while i < self.s.len() && (self.s[i] == 0x20 || self.s[i] == 0x09 || self.s[i] == 0x0d
            || self.s[i] == 0x0a)
            invariant
                self == old(self),
                s == self.s@,
                p0 <= i <= s.len(),
                spec_skip_ws(s, p0) == spec_skip_ws(s, i as int),
            decreases s.len() - i,
        {
            i = i + 1;
        }
        self.i = i;
    }

    /// Scans a quoted string starting at the cursor. The token carries the
    /// whole slice, quotes included; without a closing quote the rest of the
    /// buffer is `Invalid` and the cursor does not move.
    fn read_string(&mut self) -> (r: Token<'a>)
        requires
            old(self).wf(),
            old(self).pos() < old(self).input().len(),
            old(self).input()[old(self).pos()] == 0x22,
        ensures
            final(self).input() == old(self).input(),
            final(self).wf(),
            ({
                let s = old(self).input();
                let b = old(self).pos();
                match spec_str_end(s, b + 1) {
                    Some(j) => final(self).pos() == j + 1 && token_matches(
                        Some(r),
                        SpecToken::Str { from: b, to: j + 1 },
                        s,
                    ),
                    None => final(self).pos() == b && token_matches(
                        Some(r),
                        SpecToken::Invalid { from: b, to: s.len() as int },
                        s,
                    ),
                }
            }),
    {
        let ghost s = self.s@;
        let n: usize = self.s.len();
        let b: usize = self.i;
        let mut j: usize = b + 1;
        while j < n
            invariant
                n == s.len(),
                self == old(self),
                s == self.s@,
                b == old(self).pos(),
                b + 1 <= j <= s.len(),
                spec_str_end(s, b + 1) == spec_str_end(s, j as int),
            decreases s.len() - j,
        {
            if self.s[j] == 0x22 && self.s[j - 1] != 0x5c {
                self.i = j + 1;
                let d: &[u8] = vstd::slice::slice_subrange(self.s, b, j + 1);
                return Token::Str(d);
            }
            j = j + 1;
        }
        let d: &[u8] = vstd::slice::slice_subrange(self.s, b, self.s.len());
        Token::Invalid(d)
    }

    /// Scans a number token: the leading byte is taken as given, then any of
    /// the digit, dot, sign and exponent bytes are consumed greedily.
    fn read_number(&mut self) -> (r: Token<'a>)
        requires
            old(self).wf(),
            old(self).pos() < old(self).input().len(),
        ensures
            final(self).input() == old(self).input(),
            final(self).wf(),
            ({
                let s = old(self).input();
                let b = old(self).pos();
                let j = spec_num_end(s, b + 1);
                final(self).pos() == j && token_matches(
                    Some(r),
                    SpecToken::Number { from: b, to: j },
                    s,
                )
            }),
    {
        let ghost s = self.s@;
        let n: usize = self.s.len();
        let b: usize = self.i;
        let mut j: usize = b + 1;
        while j < n && ((0x30 <= self.s[j] && self.s[j] <= 0x39) || self.s[j] == 0x2e
            || self.s[j] == 0x2d || self.s[j] == 0x65 || self.s[j] == 0x45)
            invariant
                n == s.len(),
                self == old(self),
                s == self.s@,
                b == old(self).pos(),
                b + 1 <= j <= s.len(),
                spec_num_end(s, b + 1) == spec_num_end(s, j as int),
            decreases s.len() - j,
        {
            j = j + 1;
        }
        self.i = j;
        Token::Number(vstd::slice::slice_subrange(self.s, b, j))
    }

    /// Consumes one byte and hands back the given token.
    fn consume(&mut self, tok: Token<'a>) -> (r: Token<'a>)
        requires
            old(self).wf(),
            old(self).pos() < old(self).input().len(),
        ensures
            final(self).input() == old(self).input(),
            final(self).pos() == old(self).pos() + 1,
            final(self).wf(),
            r == tok,
    {
        if self.i < self.s.len() {
            self.i = self.i + 1;
        }
        tok
    }

    /// Advances over a keyword of the given length, or yields the rest of
    /// the buffer as `Invalid` when it is too short.
    fn fixed(&mut self, expected: usize, tok: Token<'a>) -> (r: Token<'a>)
        requires
            old(self).wf(),
        ensures
            final(self).input() == old(self).input(),
            final(self).wf(),
            ({
                let s = old(self).input();
                let i = old(self).pos();
                if i + expected > s.len() {
                    final(self).pos() == i && token_matches(
                        Some(r),
                        SpecToken::Invalid { from: i, to: s.len() as int },
                        s,
                    )
                } else {
                    final(self).pos() == i + expected && r == tok
                }
            }),
    {
        if expected > self.s.len() || self.i > self.s.len() - expected {
            Token::Invalid(vstd::slice::slice_subrange(self.s, self.i, self.s.len()))
        } else {
            self.i = self.i + expected;
            tok
        }
    }

    /// Produces the next token, or `None` at the end of the input.
    pub fn next_token(&mut self) -> (r: Option<Token<'a>>)
        requires
            old(self).wf(),
        ensures
            final(self).input() == old(self).input(),
            final(self).wf(),
            ({
                let (t, p) = spec_next(old(self).input(), old(self).pos());
                final(self).pos() == p && token_matches(r, t, old(self).input())
            }),
    {
        self.skip_whitespace();
        if self.i >= self.s.len() {
            return None;
        }
        let c: u8 = self.s[self.i];
        let r: Token<'a> = if c == 0x6e {
            self.fixed(4, Token::Null)
        } else if c == 0x74 {
            self.fixed(4, Token::True)
        } else if c == 0x66 {
            self.fixed(5, Token::False)
        } else if c == 0x7b {
            self.consume(Token::Object)
        } else if c == 0x7d {
            self.consume(Token::ObjectClose)
        } else if c == 0x5b {
            self.consume(Token::Array)
        } else if c == 0x5d {
            self.consume(Token::ArrayClose)
        } else if c == 0x2c {
            self.consume(Token::Comma)
        } else if c == 0x3a {
            self.consume(Token::Colon)
        } else if c == 0x22 {
            self.read_string()
        } else if (0x30 <= c && c <= 0x39) || c == 0x2d {
            self.read_number()
        } else {
            Token::Invalid(vstd::slice::slice_subrange(self.s, self.i, self.i + 1))
        };
        Some(r)
    }
}

/// The escape written for byte `c` in a JSON string body, if it needs one.
pub open spec fn spec_escape_byte(c: u8) -> Option<u8> {
    if c == 0x08 {
        Some(0x62u8)  // \b
    } else if c == 0x09 {
        Some(0x74u8)  // \t
    } else if c == 0x0a {
        Some(0x6eu8)  // \n
    } else if c == 0x0c {
        Some(0x66u8)  // \f
    } else if c == 0x0d {
        Some(0x72u8)  // \r
    } else if c == 0x22 {
        Some(0x22u8)  // \"
    } else if c == 0x2f {
        Some(0x2fu8)  // \/
    } else if c == 0x5c {
        Some(0x5cu8)  // \\
    } else {
        None
    }
}

/// The escaped form of the bytes from position `i` on.
pub open spec fn spec_escape_from(s: Seq<u8>, i: int) -> Seq<u8>
    decreases s.len() - i,
{
    if i < 0 || i >= s.len() {
        Seq::empty()
    } else {
        let head = match spec_escape_byte(s[i]) {
            Some(e) => seq![0x5cu8, e],
            None => seq![s[i]],
        };
        head + spec_escape_from(s, i + 1)
    }
}

/// The escaped form of a whole string body.
pub open spec fn spec_escape(s: Seq<u8>) -> Seq<u8> {
    spec_escape_from(s, 0)
}

/// The byte written for the escape letter `c`, if the letter is recognized.
pub open spec fn spec_unescape_byte(c: u8) -> Option<u8> {
    if c == 0x22 {
        Some(0x22u8)  // \"
    } else if c == 0x2f {
        Some(0x2fu8)  // \/
    } else if c == 0x5c {
        Some(0x5cu8)  // \\
    } else if c == 0x62 {
        Some(0x08u8)  // \b
    } else if c == 0x66 {
        Some(0x0cu8)  // \f
    } else if c == 0x6e {
        Some(0x0au8)  // \n
    } else if c == 0x72 {
        Some(0x0du8)  // \r
    } else if c == 0x74 {
        Some(0x09u8)  // \t
    } else {
        None
    }
}

/// The value of a hexadecimal digit, either case.
pub open spec fn spec_hex_val(c: u8) -> Option<u32> {
    if 0x30 <= c <= 0x39 {
        Some((c - 0x30) as u32)
    } else if 0x41 <= c <= 0x46 {
        Some((c - 0x41 + 10) as u32)
    } else if 0x61 <= c <= 0x66 {
        Some((c - 0x61 + 10) as u32)
    } else {
        None
    }
}

/// The UTF-8 encoding of a scalar value up to `0xFFFF`.
pub open spec fn spec_utf8_enc(uc: u32) -> Seq<u8> {
    if uc < 0x80 {
        seq![uc as u8]
    } else if uc < 0x800 {
        seq![(0xc0 | (uc >> 6)) as u8, (0x80 | (uc & 0x3f)) as u8]
    } else {
        seq![
            (0xe0 | (uc >> 12)) as u8,
            (0x80 | ((uc >> 6) & 0x3f)) as u8,
            (0x80 | (uc & 0x3f)) as u8,
        ]
    }
}

/// The unescaped form of the bytes from position `i` on, or an error for an
/// unknown escape, a truncated escape, a bad hex digit or a surrogate code
/// point.
pub open spec fn spec_unescape_from(s: Seq<u8>, i: int) -> Result<Seq<u8>, ()>
    decreases s.len() - i,
{
    if i < 0 || i >= s.len() {
        Ok(Seq::empty())
    } else if s[i] != 0x5c {
        match spec_unescape_from(s, i + 1) {
            Ok(r) => Ok(seq![s[i]] + r),
            Err(e) => Err(e),
        }
    } else if i + 1 >= s.len() {
        Err(())
    } else {
        let c = s[i + 1];
        if c == 0x75 {  // 'u'
            if i + 5 >= s.len() {
                Err(())
            } else {
                match (spec_hex_val(s[i + 2]), spec_hex_val(s[i + 3]), spec_hex_val(s[i + 4]),
                spec_hex_val(s[i + 5])) {
                    (Some(h0), Some(h1), Some(h2), Some(h3)) => {
                        let uc = (h0 << 12) | (h1 << 8) | (h2 << 4) | h3;
                        if 0xd800 <= uc <= 0xdfff {
                            Err(())
                        } else {
                            match spec_unescape_from(s, i + 6) {
                                Ok(r) => Ok(spec_utf8_enc(uc) + r),
                                Err(e) => Err(e),
                            }
                        }
                    },
                    _ => Err(()),
                }
            }
        } else {
            match spec_unescape_byte(c) {
                Some(d) => match spec_unescape_from(s, i + 2) {
                    Ok(r) => Ok(seq![d] + r),
                    Err(e) => Err(e),
                },
                None => Err(()),
            }
        }
    }
}

/// The unescaped form of a whole string body.
pub open spec fn spec_unescape(s: Seq<u8>) -> Result<Seq<u8>, ()> {
    spec_unescape_from(s, 0)
}

/// Appends the JSON-escaped form of `s` to `z`: control characters, quote,
/// slash and backslash become two-byte escapes; everything else, bytes above
/// `0x7f` included, passes through unchanged.
pub fn escape_string(s: &[u8], z: &mut Vec<u8>)
    ensures
        final(z)@ == old(z)@ + spec_escape(s@),
{
    let mut i: usize = 0;
    while i < s.len()
        invariant
            0 <= i <= s@.len(),
            old(z)@ + spec_escape(s@) == z@ + spec_escape_from(s@, i as int),
        decreases s@.len() - i,
    {
        let c: u8 = s[i];
        let ghost pre = z@;
        if c == 0x08 {
            z.push(0x5c);
            z.push(0x62);
        } else if c == 0x09 {
            z.push(0x5c);
            z.push(0x74);
        } else if c == 0x0a {
            z.push(0x5c);
            z.push(0x6e);
        } else if c == 0x0c {
            z.push(0x5c);
            z.push(0x66);
        } else if c == 0x0d {
            z.push(0x5c);
            z.push(0x72);
        } else if c == 0x22 || c == 0x2f || c == 0x5c {
            z.push(0x5c);
            z.push(c);
        } else {
            z.push(c);
        }
        proof {
            let head = match spec_escape_byte(s@[i as int]) {
                Some(e) => seq![0x5cu8, e],
                None => seq![s@[i as int]],
            };
            assert(z@ =~= pre + head);
            assert(pre + (head + spec_escape_from(s@, i + 1)) =~= (pre + head)
                + spec_escape_from(s@, i + 1));
        }
        i = i + 1;
    }
    proof {
        assert(old(z)@ + spec_escape(s@) =~= z@);
    }
}

/// Appends the unescaped form of `s` to `z`, expanding the two-byte escapes
/// and `\u` scalar escapes; fails on an unknown or truncated escape, a bad
/// hex digit, or a surrogate code point. On failure, bytes already expanded
/// remain appended.
pub fn unescape_string(s: &[u8], z: &mut Vec<u8>) -> (r: Result<(), ()>)
    ensures
        old(z)@.is_prefix_of(final(z)@),
        match r {
            Ok(()) => spec_unescape(s@) matches Ok(u) && final(z)@ == old(z)@ + u,
            Err(()) => spec_unescape(s@) is Err,
        },
{
    let mut i: usize = 0;
    while i < s.len()
        invariant
            0 <= i <= s@.len(),
            old(z)@.is_prefix_of(z@),
            match spec_unescape_from(s@, i as int) {
                Ok(rest) => spec_unescape(s@) matches Ok(u) && old(z)@ + u == z@ + rest,
                Err(e) => spec_unescape(s@) is Err,
            },
        decreases s@.len() - i,
    {
        let c: u8 = s[i];
        let ghost pre = z@;
        if c != 0x5c {
            z.push(c);
            proof {
                lemma_unescape_step(s@, i as int, pre, old(z)@, seq![c], i + 1);
            }
            i = i + 1;
        } else {
            if s.len() - i <= 1 {
                return Err(());
            }
            let c2: u8 = s[i + 1];
            if c2 == 0x75 {
                if s.len() - i <= 5 {
                    return Err(());
                }
                let h0: u32 = match hex_val(s[i + 2]) {
                    Some(h) => h,
                    None => { return Err(()); },
                };
                let h1: u32 = match hex_val(s[i + 3]) {
                    Some(h) => h,
                    None => { return Err(()); },
                };
                let h2: u32 = match hex_val(s[i + 4]) {
                    Some(h) => h,
                    None => { return Err(()); },
                };
                let h3: u32 = match hex_val(s[i + 5]) {
                    Some(h) => h,
                    None => { return Err(()); },
                };
                let uc: u32 = (h0 << 12) | (h1 << 8) | (h2 << 4) | h3;
                proof {
                    assert(h0 < 16 && h1 < 16 && h2 < 16 && h3 < 16 ==> ((h0 << 12) | (h1 << 8) | (
                    h2 << 4) | h3) < 0x10000) by (bit_vector);
                }
                if 0xd800 <= uc && uc <= 0xdfff {
                    return Err(());
                }
                if uc < 0x80 {
                    z.push(uc as u8);
                } else if uc < 0x800 {
                    z.push((0xc0 | (uc >> 6)) as u8);
                    z.push((0x80 | (uc & 0x3f)) as u8);
                } else {
                    z.push((0xe0 | (uc >> 12)) as u8);
                    z.push((0x80 | ((uc >> 6) & 0x3f)) as u8);
                    z.push((0x80 | (uc & 0x3f)) as u8);
                }
                proof {
                    assert(z@ =~= pre + spec_utf8_enc(uc));
                    lemma_unescape_step(s@, i as int, pre, old(z)@, spec_utf8_enc(uc), i + 6);
                }
                i = i + 6;
            } else {
                let d: u8 = match unescape_byte(c2) {
                    Some(d) => d,
                    None => { return Err(()); },
                };
                z.push(d);
                proof {
                    lemma_unescape_step(s@, i as int, pre, old(z)@, seq![d], i + 2);
                }
                i = i + 2;
            }
        }
    }
    Ok(())
}

/// One peeled step of the unescape loop: when the unit produced at `i` is
/// `head` and the scan resumes at `next`, the loop invariant carries over.
proof fn lemma_unescape_step(s: Seq<u8>, i: int, pre: Seq<u8>, z0: Seq<u8>, head: Seq<u8>, next: int)
    requires
        spec_unescape_from(s, i) == (match spec_unescape_from(s, next) {
            Ok(r) => Ok::<Seq<u8>, ()>(head + r),
            Err(e) => Err::<Seq<u8>, ()>(e),
        }),
        match spec_unescape_from(s, i) {
            Ok(rest) => spec_unescape_from(s, 0) matches Ok(u) && z0 + u == pre + rest,
            Err(e) => spec_unescape_from(s, 0) is Err,
        },
    ensures
        match spec_unescape_from(s, next) {
            Ok(rest) => spec_unescape_from(s, 0) matches Ok(u) && z0 + u == (pre + head) + rest,
            Err(e) => spec_unescape_from(s, 0) is Err,
        },
{
    match spec_unescape_from(s, next) {
        Ok(rest) => {
            assert(pre + (head + rest) =~= (pre + head) + rest);
        },
        Err(e) => {},
    }
}

/// The value of a hexadecimal digit byte, either case.
fn hex_val(c: u8) -> (r: Option<u32>)
    ensures
        r == spec_hex_val(c),
        r matches Some(h) ==> h < 16,
{
    if 0x30 <= c && c <= 0x39 {
        Some((c - 0x30) as u32)
    } else if 0x41 <= c && c <= 0x46 {
        Some((c - 0x41 + 10) as u32)
    } else if 0x61 <= c && c <= 0x66 {
        Some((c - 0x61 + 10) as u32)
    } else {
        None
    }
}

/// The byte for a recognized escape letter.
fn unescape_byte(c: u8) -> (r: Option<u8>)
    ensures
        r == spec_unescape_byte(c),
{
    if c == 0x22 || c == 0x2f || c == 0x5c {
        Some(c)
    } else if c == 0x62 {
        Some(0x08)
    } else if c == 0x66 {
        Some(0x0c)
    } else if c == 0x6e {
        Some(0x0a)
    } else if c == 0x72 {
        Some(0x0d)
    } else if c == 0x74 {
        Some(0x09)
    } else {
        None
    }
}


/// Dropping the bytes before the scan position does not change what the
/// unescape yields.
proof fn lemma_unescape_drop(a: Seq<u8>, k: int)
    requires
        0 <= k <= a.len(),
    ensures
        spec_unescape_from(a, k) == spec_unescape_from(a.subrange(k, a.len() as int), 0),
    decreases a.len(), a.len() - k,
{
    let sub = a.subrange(k, a.len() as int);
    if k >= a.len() {
    } else {
        assert(sub[0] == a[k]);
        if a[k] != 0x5c {
            lemma_unescape_drop(a, k + 1);
            if sub.len() >= 1 {
                lemma_unescape_drop(sub, 1);
                assert(sub.subrange(1, sub.len() as int) =~= a.subrange(k + 1, a.len() as int));
            }
        } else if k + 1 >= a.len() {
        } else {
            assert(sub[1] == a[k + 1]);
            let c = a[k + 1];
            if c == 0x75 {
                if k + 5 >= a.len() {
                } else {
                    assert(sub[2] == a[k + 2]);
                    assert(sub[3] == a[k + 3]);
                    assert(sub[4] == a[k + 4]);
                    assert(sub[5] == a[k + 5]);
                    lemma_unescape_drop(a, k + 6);
                    lemma_unescape_drop(sub, 6);
                    assert(sub.subrange(6, sub.len() as int) =~= a.subrange(
                        k + 6,
                        a.len() as int,
                    ));
                }
            } else {
                lemma_unescape_drop(a, k + 2);
                lemma_unescape_drop(sub, 2);
                assert(sub.subrange(2, sub.len() as int) =~= a.subrange(k + 2, a.len() as int));
            }
        }
    }
}

/// Unescaping an escaped suffix recovers the suffix.
proof fn lemma_escape_unescape(s: Seq<u8>, i: int)
    requires
        0 <= i <= s.len(),
    ensures
        spec_unescape(spec_escape_from(s, i)) == Ok::<Seq<u8>, ()>(s.subrange(i, s.len() as int)),
    decreases s.len() - i,
{
    let x = spec_escape_from(s, i);
    if i >= s.len() {
        assert(s.subrange(i, s.len() as int) =~= Seq::<u8>::empty());
    } else {
        let c = s[i];
        let rest = spec_escape_from(s, i + 1);
        lemma_escape_unescape(s, i + 1);
        match spec_escape_byte(c) {
            Some(e) => {
                assert(x == seq![0x5cu8, e] + rest);
                assert(x[0] == 0x5c);
                assert(x[1] == e);
                assert(e != 0x75);
                assert(spec_unescape_byte(e) == Some(c));
                lemma_unescape_drop(x, 2);
                assert(x.subrange(2, x.len() as int) =~= rest);
                assert(seq![c] + s.subrange(i + 1, s.len() as int) =~= s.subrange(
                    i,
                    s.len() as int,
                ));
            },
            None => {
                assert(x == seq![c] + rest);
                assert(x[0] == c);
                assert(c != 0x5c);
                lemma_unescape_drop(x, 1);
                assert(x.subrange(1, x.len() as int) =~= rest);
                assert(seq![c] + s.subrange(i + 1, s.len() as int) =~= s.subrange(
                    i,
                    s.len() as int,
                ));
            },
        }
    }
}

/// Escaping never loses information: unescaping an escaped string body
/// recovers exactly the bytes that were escaped.
pub proof fn lemma_escape_roundtrip(s: Seq<u8>)
    ensures
        spec_unescape(spec_escape(s)) == Ok::<Seq<u8>, ()>(s),
{
    lemma_escape_unescape(s, 0);
    assert(s.subrange(0, s.len() as int) =~= s);
}

} // verus!
