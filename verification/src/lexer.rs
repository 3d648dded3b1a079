//! The tokenizer: an immutable byte buffer with a cursor.

use vstd::prelude::*;

verus! {

/// A primitive token. Numbers are maximal runs of decimal digits, symbols
/// maximal runs of alphanumeric characters; a lone apostrophe stands for the
/// quote operator's symbol.
#[derive(Debug)]
pub enum Token {
    LeftParen,
    RightParen,
    Dot,
    Number(Vec<u8>),
    Symbol(Vec<u8>),
}

/// A byte that no token may start with.
#[derive(Copy, Clone, Debug, PartialEq, Eq, Structural)]
pub enum LexError {
    UnrecognizedChar,
}

/// The character classes the tokenizer scans maximal runs of.
#[derive(Copy, Clone, Debug, PartialEq, Eq, Structural)]
pub enum CharClass {
    Whitespace,
    Digit,
    Alnum,
}

/// Whitespace, classifying each byte as the character with that code point
/// (so the next line and no-break space bytes count too).
pub open spec fn is_ws(b: u8) -> bool {
    (9 <= b <= 13) || b == 32 || b == 133 || b == 160
}

pub open spec fn is_digit(b: u8) -> bool {
    48 <= b <= 57
}

/// Alphanumeric, classifying each byte as the character with that code
/// point: ASCII letters and digits, and the letters, ordinal indicators,
/// superscripts and fractions of the top half (multiplication and division
/// signs excluded).
pub open spec fn is_alnum(b: u8) -> bool {
    is_digit(b) || (65 <= b <= 90) || (97 <= b <= 122) || b == 170 || b == 178 || b == 179
        || b == 181 || b == 185 || b == 186 || (188 <= b <= 190) || (192 <= b <= 214) || (216 <= b
        <= 246) || b >= 248
}

pub open spec fn in_class(b: u8, c: CharClass) -> bool {
    match c {
        CharClass::Whitespace => is_ws(b),
        CharClass::Digit => is_digit(b),
        CharClass::Alnum => is_alnum(b),
    }
}

/// Decides membership in a character class.
pub fn class_test(b: u8, c: CharClass) -> (r: bool)
    ensures
        r == in_class(b, c),
{
    match c {
        CharClass::Whitespace => (9 <= b && b <= 13) || b == 32 || b == 133 || b == 160,
        CharClass::Digit => 48 <= b && b <= 57,
        CharClass::Alnum => (48 <= b && b <= 57) || (65 <= b && b <= 90) || (97 <= b && b <= 122)
            || b == 170 || b == 178 || b == 179 || b == 181 || b == 185 || b == 186 || (188 <= b
            && b <= 190) || (192 <= b && b <= 214) || (216 <= b && b <= 246) || b >= 248,
    }
}

/// The end of the maximal run of class-`c` bytes starting at `pos`.
pub open spec fn run_end(s: Seq<u8>, pos: int, c: CharClass) -> int
    decreases s.len() - pos,
{
    if 0 <= pos < s.len() && in_class(s[pos], c) {
        run_end(s, pos + 1, c)
    } else {
        pos
    }
}

/// The position of the first non-whitespace byte at or after `pos`.
pub open spec fn skip_ws(s: Seq<u8>, pos: int) -> int {
    run_end(s, pos, CharClass::Whitespace)
}

pub proof fn lemma_skip_ws_bounds(s: Seq<u8>, pos: int)
    requires
        0 <= pos <= s.len(),
    ensures
        pos <= skip_ws(s, pos) <= s.len(),
{
    lemma_run_end_bounds(s, pos, CharClass::Whitespace);
}

pub proof fn lemma_run_end_bounds(s: Seq<u8>, pos: int, c: CharClass)
    requires
        0 <= pos <= s.len(),
    ensures
        pos <= run_end(s, pos, c) <= s.len(),
        forall|k: int| pos <= k < run_end(s, pos, c) ==> in_class(s[k], c),
        pos < s.len() && in_class(s[pos], c) ==> run_end(s, pos, c) >= pos + 1,
    decreases s.len() - pos,
{
    if pos < s.len() && in_class(s[pos], c) {
        lemma_run_end_bounds(s, pos + 1, c);
    }
}

/// The ghost mirror of `Token`.
pub enum SpecToken {
    LeftParen,
    RightParen,
    Dot,
    Number(Seq<u8>),
    Symbol(Seq<u8>),
}

/// What tokenizing at `pos` yields: the end of input, an unrecognized byte,
/// or one token together with the cursor position after it.
pub enum SpecScan {
    End,
    Bad,
    Tok(SpecToken, int),
}

/// The token the buffer spells out at `pos`, after leading whitespace.
pub open spec fn token_at(s: Seq<u8>, pos: int) -> SpecScan {
    let p = skip_ws(s, pos);
    if p >= s.len() {
        SpecScan::End
    } else {
        let b = s[p];
        if b == 40 {
            SpecScan::Tok(SpecToken::LeftParen, p + 1)
        } else if b == 41 {
            SpecScan::Tok(SpecToken::RightParen, p + 1)
        } else if b == 46 {
            SpecScan::Tok(SpecToken::Dot, p + 1)
        } else if b == 39 {
            SpecScan::Tok(SpecToken::Symbol(seq![39u8]), p + 1)
        } else if is_digit(b) {
            SpecScan::Tok(
                SpecToken::Number(s.subrange(p, run_end(s, p, CharClass::Digit))),
                run_end(s, p, CharClass::Digit),
            )
        } else if is_alnum(b) {
            SpecScan::Tok(
                SpecToken::Symbol(s.subrange(p, run_end(s, p, CharClass::Alnum))),
                run_end(s, p, CharClass::Alnum),
            )
        } else {
            SpecScan::Bad
        }
    }
}

/// The exec token matches the ghost one.
pub open spec fn token_matches(t: Token, st: SpecToken) -> bool {
    match st {
        SpecToken::LeftParen => t is LeftParen,
        SpecToken::RightParen => t is RightParen,
        SpecToken::Dot => t is Dot,
        SpecToken::Number(d) => t matches Token::Number(v) && v@ == d,
        SpecToken::Symbol(d) => t matches Token::Symbol(v) && v@ == d,
    }
}

/// The cursor over an input buffer.
pub struct TokenStream {
    pub input: Vec<u8>,
    pub pos: usize,
}

impl TokenStream {
    pub open spec fn wf(&self) -> bool {
        self.pos <= self.input@.len()
    }

    /// Takes its own copy of the input line.
    pub fn new(input: &Vec<u8>) -> (t: TokenStream)
        ensures
            t.wf(),
            t.input@ == input@,
            t.pos == 0,
    {
        let mut buf: Vec<u8> = Vec::new();
        let n = input.len();
        let mut i: usize = 0;
        while i < n
            invariant
                i <= n,
                n == input@.len(),
                buf@ == input@.subrange(0, i as int),
            decreases n - i,
        {
            buf.push(input[i]);
            proof {
                assert(buf@ =~= input@.subrange(0, i + 1));
            }
            i = i + 1;
        }
        proof {
            assert(buf@ =~= input@);
        }
        TokenStream { input: buf, pos: 0 }
    }

    /// Whether the cursor has passed the last byte.
    pub fn eol(&self) -> (r: bool)
        ensures
            r == (self.pos >= self.input@.len()),
    {
        self.pos >= self.input.len()
    }

    pub fn peek_ch(&self) -> (b: u8)
        requires
            self.pos < self.input@.len(),
        ensures
            b == self.input@[self.pos as int],
    {
        self.input[self.pos]
    }

    pub fn next_ch(&mut self) -> (b: u8)
        requires
            old(self).pos < old(self).input@.len(),
        ensures
            b == old(self).input@[old(self).pos as int],
            final(self).input@ == old(self).input@,
            final(self).pos == old(self).pos + 1,
    {
        let n = self.input.len();
        let b = self.input[self.pos];
        proof {
            assert(self.pos < n);
        }
        self.pos = self.pos + 1;
        b
    }

    /// Advances the cursor past leading whitespace.
    pub fn consume_whitespace(&mut self)
        requires
            old(self).wf(),
        ensures
            final(self).wf(),
            final(self).input@ == old(self).input@,
            final(self).pos as int == skip_ws(old(self).input@, old(self).pos as int),
    {
        self.consume_class(CharClass::Whitespace);
    }

    /// Advances the cursor over the maximal run of class-`c` bytes and
    /// returns the run.
    pub fn consume_while(&mut self, c: CharClass) -> (r: Vec<u8>)
        requires
            old(self).wf(),
        ensures
            final(self).wf(),
            final(self).input@ == old(self).input@,
            final(self).pos as int == run_end(old(self).input@, old(self).pos as int, c),
            r@ == old(self).input@.subrange(
                old(self).pos as int,
                run_end(old(self).input@, old(self).pos as int, c),
            ),
    {
        let ghost s = self.input@;
        let ghost p0 = self.pos as int;
        let mut r: Vec<u8> = Vec::new();
        proof {
            assert(r@ =~= s.subrange(p0, p0));
        }
        while !self.eol() && class_test(self.peek_ch(), c)
            invariant
                self.wf(),
                self.input@ == s,
                0 <= p0 <= self.pos as int,
                run_end(s, p0, c) == run_end(s, self.pos as int, c),
                r@ == s.subrange(p0, self.pos as int),
            decreases s.len() - self.pos,
        {
            let b = self.next_ch();
            r.push(b);
            proof {
                assert(r@ =~= s.subrange(p0, self.pos as int));
            }
        }
        r
    }

    /// Advances as `consume_while` does, dropping the run.
    fn consume_class(&mut self, c: CharClass)
        requires
            old(self).wf(),
        ensures
            final(self).wf(),
            final(self).input@ == old(self).input@,
            final(self).pos as int == run_end(old(self).input@, old(self).pos as int, c),
    {
        let _ = self.consume_while(c);
    }

    /// Reads the next token. Yields `Ok(None)` at the end of input, the
    /// token the buffer spells out otherwise, or fails on a byte no token
    /// may start with.
    pub fn next_token(&mut self) -> (r: Result<Option<Token>, LexError>)
        requires
            old(self).wf(),
        ensures
            final(self).wf(),
            final(self).input@ == old(self).input@,
            final(self).pos >= old(self).pos,
            match r {
                Ok(None) => token_at(old(self).input@, old(self).pos as int) is End
                    && final(self).pos == old(self).input@.len(),
                Ok(Some(t)) => token_at(old(self).input@, old(self).pos as int) matches
                    SpecScan::Tok(st, end) && token_matches(t, st)
                    && final(self).pos as int == end && final(self).pos > old(self).pos,
                Err(_) => token_at(old(self).input@, old(self).pos as int) is Bad,
            },
    {
        let ghost s = self.input@;
        let ghost p0 = self.pos as int;
        proof {
            lemma_skip_ws_bounds(s, p0);
        }
        self.consume_whitespace();
        if self.eol() {
            return Ok(None);
        }
        let ghost p = self.pos as int;
        proof {
            lemma_run_end_bounds(s, p, CharClass::Digit);
            lemma_run_end_bounds(s, p, CharClass::Alnum);
        }
        let ch = self.peek_ch();
        if ch == 40 {
            let _ = self.next_ch();
            Ok(Some(Token::LeftParen))
        } else if ch == 41 {
            let _ = self.next_ch();
            Ok(Some(Token::RightParen))
        } else if ch == 46 {
            let _ = self.next_ch();
            Ok(Some(Token::Dot))
        } else if ch == 39 {
            let _ = self.next_ch();
            let quote_name = vec![39u8];
            proof {
                assert(quote_name@ =~= seq![39u8]);
            }
            Ok(Some(Token::Symbol(quote_name)))
        } else if class_test(ch, CharClass::Digit) {
            let digits = self.consume_while(CharClass::Digit);
            Ok(Some(Token::Number(digits)))
        } else if class_test(ch, CharClass::Alnum) {
            let name = self.consume_while(CharClass::Alnum);
            Ok(Some(Token::Symbol(name)))
        } else {
            Err(LexError::UnrecognizedChar)
        }
    }

    /// Looks one token ahead without moving the cursor.
    pub fn peek_token(&mut self) -> (r: Result<Option<Token>, LexError>)
        requires
            old(self).wf(),
        ensures
            final(self).wf(),
            final(self).input@ == old(self).input@,
            final(self).pos == old(self).pos,
            match r {
                Ok(None) => token_at(old(self).input@, old(self).pos as int) is End,
                Ok(Some(t)) => token_at(old(self).input@, old(self).pos as int) matches
                    SpecScan::Tok(st, _) && token_matches(t, st),
                Err(_) => token_at(old(self).input@, old(self).pos as int) is Bad,
            },
    {
        let old_pos = self.pos;
        let tok = self.next_token();
        self.pos = old_pos;
        tok
    }
}

} // verus!
