//! The lexical scanner: turns the input text into one token at a time, on
//! demand. The scanner owns the current scan offset and the single decoded
//! lookahead character; the offset always points at the start of the next
//! undecoded character.
//!
//! Every scanning step is specified against a functional model
//! ([`spec_token_at`]) that says, for an input and a start offset, exactly
//! which token is produced, where scanning resumes, or which error is raised
//! and at which offset.

use vstd::prelude::*;
use vstd::string::StringExecFns;

use crate::chars::{chars_to_string, is_alnum_char, is_alpha_char, is_digit, is_digit_char,
    is_ws_char, push_chars, push_str_chars};
use crate::error::{located, ParseError};
use crate::json::{wf_number, JsonNumber, SpecNumber};

verus! {

/// One lexical unit of JSON text.
#[derive(Debug, Clone, PartialEq)]
pub enum Token {
    LeftBrace,
    RightBrace,
    LeftBracket,
    RightBracket,
    Comma,
    Colon,
    String(String),
    Number(JsonNumber),
    Boolean(bool),
    Null,
    Eof,
}

/// Mathematical model of a token.
pub enum SpecToken {
    LeftBrace,
    RightBrace,
    LeftBracket,
    RightBracket,
    Comma,
    Colon,
    Str(Seq<char>),
    Num(SpecNumber),
    Bool(bool),
    Null,
    Eof,
}

impl View for Token {
    type V = SpecToken;

    open spec fn view(&self) -> SpecToken {
        match self {
            Token::LeftBrace => SpecToken::LeftBrace,
            Token::RightBrace => SpecToken::RightBrace,
            Token::LeftBracket => SpecToken::LeftBracket,
            Token::RightBracket => SpecToken::RightBracket,
            Token::Comma => SpecToken::Comma,
            Token::Colon => SpecToken::Colon,
            Token::String(s) => SpecToken::Str(s@),
            Token::Number(n) => SpecToken::Num(n@),
            Token::Boolean(b) => SpecToken::Bool(*b),
            Token::Null => SpecToken::Null,
            Token::Eof => SpecToken::Eof,
        }
    }
}

/// A scanning failure: the diagnostic text and the offset it points at.
pub struct SpecLexErr {
    pub msg: Seq<char>,
    pub pos: int,
}

/// The first offset at or after `i` that does not hold a whitespace character.
pub open spec fn ws_end(s: Seq<char>, i: int) -> int
    decreases s.len() - i when 0 <= i <= s.len()
{
    if i < s.len() && is_ws_char(s[i]) {
        ws_end(s, i + 1)
    } else {
        i
    }
}

/// The first offset at or after `i` that does not hold an ASCII digit.
pub open spec fn digits_end(s: Seq<char>, i: int) -> int
    decreases s.len() - i when 0 <= i <= s.len()
{
    if i < s.len() && is_digit(s[i]) {
        digits_end(s, i + 1)
    } else {
        i
    }
}

/// The first offset at or after `i` that does not hold an alphanumeric
/// character.
pub open spec fn alnum_end(s: Seq<char>, i: int) -> int
    decreases s.len() - i when 0 <= i <= s.len()
{
    if i < s.len() && is_alnum_char(s[i]) {
        alnum_end(s, i + 1)
    } else {
        i
    }
}

/// String scanning from offset `i`, with the opening quote at `start` already
/// consumed, `acc` the content gathered so far and `escaped` whether the last
/// character was an unconsumed backslash. Yields the content and the offset
/// just past the closing quote, or the error the scanner raises.
pub open spec fn scan_string(s: Seq<char>, start: int, i: int, acc: Seq<char>, escaped: bool) -> Result<
    (Seq<char>, int),
    SpecLexErr,
>
    decreases s.len() - i when 0 <= i <= s.len()
{
    if i >= s.len() {
        Err(SpecLexErr { msg: "Unterminated string"@, pos: start })
    } else {
        let c = s[i];
        if escaped {
            if c == '"' {
                scan_string(s, start, i + 1, acc.push('"'), false)
            } else if c == '\\' {
                scan_string(s, start, i + 1, acc.push('\\'), false)
            } else if c == 'n' {
                scan_string(s, start, i + 1, acc.push('\n'), false)
            } else if c == 'r' {
                scan_string(s, start, i + 1, acc.push('\r'), false)
            } else if c == 't' {
                scan_string(s, start, i + 1, acc.push('\t'), false)
            } else {
                Err(SpecLexErr { msg: "Invalid escape sequence: \\"@ + seq![c], pos: i })
            }
        } else if c == '\\' {
            scan_string(s, start, i + 1, acc, true)
        } else if c == '"' {
            Ok((acc, i + 1))
        } else {
            scan_string(s, start, i + 1, acc.push(c), false)
        }
    }
}

/// Number scanning from offset `i`: an optional minus, digits, then at most
/// one point followed by more digits. A number with no digit at all is the
/// "Invalid number" error at the token's start.
pub open spec fn scan_number(s: Seq<char>, i: int) -> Result<(SpecToken, int), SpecLexErr>
    recommends
        0 <= i <= s.len(),
{
    let j = if i < s.len() && s[i] == '-' {
        i + 1
    } else {
        i
    };
    let negative = j != i;
    let int_end = digits_end(s, j);
    let int_digits = s.subrange(j, int_end);
    if int_end < s.len() && s[int_end] == '.' {
        let frac_end = digits_end(s, int_end + 1);
        let frac_digits = s.subrange(int_end + 1, frac_end);
        if int_digits.len() + frac_digits.len() == 0 {
            Err(SpecLexErr { msg: "Invalid number"@, pos: i })
        } else {
            Ok(
                (
                    SpecToken::Num(SpecNumber { negative, int_digits, frac_digits }),
                    frac_end,
                ),
            )
        }
    } else {
        if int_digits.len() == 0 {
            Err(SpecLexErr { msg: "Invalid number"@, pos: i })
        } else {
            Ok(
                (
                    SpecToken::Num(
                        SpecNumber { negative, int_digits, frac_digits: Seq::empty() },
                    ),
                    int_end,
                ),
            )
        }
    }
}

/// Keyword scanning from offset `i`: the run of alphanumeric characters must
/// be exactly `true`, `false` or `null`.
pub open spec fn scan_keyword(s: Seq<char>, i: int) -> Result<(SpecToken, int), SpecLexErr>
    recommends
        0 <= i <= s.len(),
{
    let end = alnum_end(s, i);
    let w = s.subrange(i, end);
    if w == "true"@ {
        Ok((SpecToken::Bool(true), end))
    } else if w == "false"@ {
        Ok((SpecToken::Bool(false), end))
    } else if w == "null"@ {
        Ok((SpecToken::Null, end))
    } else {
        Err(SpecLexErr { msg: "Unexpected keyword: "@ + w, pos: i })
    }
}

/// The token produced by one `next_token` call starting at offset `i0`:
/// whitespace is skipped, then the next character decides.
pub open spec fn spec_token_at(s: Seq<char>, i0: int) -> Result<(SpecToken, int), SpecLexErr>
    recommends
        0 <= i0 <= s.len(),
{
    let i = ws_end(s, i0);
    if i >= s.len() {
        Ok((SpecToken::Eof, i))
    } else {
        let c = s[i];
        if c == '{' {
            Ok((SpecToken::LeftBrace, i + 1))
        } else if c == '}' {
            Ok((SpecToken::RightBrace, i + 1))
        } else if c == '[' {
            Ok((SpecToken::LeftBracket, i + 1))
        } else if c == ']' {
            Ok((SpecToken::RightBracket, i + 1))
        } else if c == ',' {
            Ok((SpecToken::Comma, i + 1))
        } else if c == ':' {
            Ok((SpecToken::Colon, i + 1))
        } else if c == '"' {
            match scan_string(s, i, i + 1, Seq::empty(), false) {
                Ok((content, j)) => Ok((SpecToken::Str(content), j)),
                Err(e) => Err(e),
            }
        } else if is_digit(c) || c == '-' {
            scan_number(s, i)
        } else if is_alpha_char(c) {
            scan_keyword(s, i)
        } else {
            Err(SpecLexErr { msg: "Unexpected character: \'"@ + seq![c, '\''], pos: i })
        }
    }
}

pub proof fn lemma_ws_end_bounds(s: Seq<char>, i: int)
    requires
        0 <= i <= s.len(),
    ensures
        i <= ws_end(s, i) <= s.len(),
    decreases s.len() - i,
{
    if i < s.len() && is_ws_char(s[i]) {
        lemma_ws_end_bounds(s, i + 1);
    }
}

pub proof fn lemma_digits_end_bounds(s: Seq<char>, i: int)
    requires
        0 <= i <= s.len(),
    ensures
        i <= digits_end(s, i) <= s.len(),
    decreases s.len() - i,
{
    if i < s.len() && is_digit(s[i]) {
        lemma_digits_end_bounds(s, i + 1);
    }
}

pub proof fn lemma_alnum_end_bounds(s: Seq<char>, i: int)
    requires
        0 <= i <= s.len(),
    ensures
        i <= alnum_end(s, i) <= s.len(),
    decreases s.len() - i,
{
    if i < s.len() && is_alnum_char(s[i]) {
        lemma_alnum_end_bounds(s, i + 1);
    }
}

pub proof fn lemma_scan_string_bounds(s: Seq<char>, start: int, i: int, acc: Seq<char>, escaped: bool)
    requires
        0 <= i <= s.len(),
    ensures
        scan_string(s, start, i, acc, escaped) matches Ok((content, j)) ==> i < j <= s.len(),
    decreases s.len() - i,
{
    if i < s.len() {
        lemma_scan_string_bounds(s, start, i + 1, acc.push('"'), false);
        lemma_scan_string_bounds(s, start, i + 1, acc.push('\\'), false);
        lemma_scan_string_bounds(s, start, i + 1, acc.push('\n'), false);
        lemma_scan_string_bounds(s, start, i + 1, acc.push('\r'), false);
        lemma_scan_string_bounds(s, start, i + 1, acc.push('\t'), false);
        lemma_scan_string_bounds(s, start, i + 1, acc, true);
        lemma_scan_string_bounds(s, start, i + 1, acc.push(s[i]), false);
    }
}

/// A well-formed token: a number payload holds digits, at least one of them.
pub open spec fn wf_token(t: SpecToken) -> bool {
    match t {
        SpecToken::Num(n) => wf_number(n),
        _ => true,
    }
}

proof fn lemma_digits_run(s: Seq<char>, i: int)
    requires
        0 <= i <= s.len(),
    ensures
        forall|k: int| i <= k < digits_end(s, i) ==> is_digit(#[trigger] s[k]),
    decreases s.len() - i,
{
    if i < s.len() && is_digit(s[i]) {
        lemma_digits_run(s, i + 1);
    }
}

/// Every token the scanner yields is well formed.
pub proof fn lemma_token_at_wf(s: Seq<char>, i0: int)
    requires
        0 <= i0 <= s.len(),
    ensures
        spec_token_at(s, i0) matches Ok((t, j)) ==> wf_token(t),
{
    lemma_ws_end_bounds(s, i0);
    let i = ws_end(s, i0);
    if i < s.len() {
        let c = s[i];
        if !(c == '{' || c == '}' || c == '[' || c == ']' || c == ',' || c == ':' || c == '"') && (
        is_digit(c) || c == '-') {
            let j = if s[i] == '-' {
                i + 1
            } else {
                i
            };
            lemma_digits_end_bounds(s, j);
            lemma_digits_run(s, j);
            let int_end = digits_end(s, j);
            if int_end < s.len() && s[int_end] == '.' {
                lemma_digits_end_bounds(s, int_end + 1);
                lemma_digits_run(s, int_end + 1);
            }
        }
    }
}

/// Scanning a token never moves backwards, never leaves the input, and any
/// token but the end-of-input marker consumes at least one character.
pub proof fn lemma_token_at_bounds(s: Seq<char>, i0: int)
    requires
        0 <= i0 <= s.len(),
    ensures
        spec_token_at(s, i0) matches Ok((t, j)) ==> {
            &&& i0 <= j <= s.len()
            &&& (!(t is Eof) ==> j >= i0 + 1)
            &&& (t is Eof ==> j == s.len())
        },
{
    lemma_ws_end_bounds(s, i0);
    let i = ws_end(s, i0);
    if i < s.len() {
        let c = s[i];
        if c == '{' || c == '}' || c == '[' || c == ']' || c == ',' || c == ':' {
        } else if c == '"' {
            lemma_scan_string_bounds(s, i, i + 1, Seq::empty(), false);
        } else if is_digit(c) || c == '-' {
            let j = if s[i] == '-' {
                i + 1
            } else {
                i
            };
            lemma_digits_end_bounds(s, j);
            let int_end = digits_end(s, j);
            if int_end < s.len() && s[int_end] == '.' {
                lemma_digits_end_bounds(s, int_end + 1);
            }
            if !(s[i] == '-') {
                assert(digits_end(s, j) >= j + 1 || s.subrange(j, digits_end(s, j)).len() == 0);
            }
        } else if is_alpha_char(c) {
            lemma_alnum_end_bounds(s, i);
            let end = alnum_end(s, i);
            let w = s.subrange(i, end);
            if w == "true"@ || w == "false"@ || w == "null"@ {
                reveal_strlit("true");
                reveal_strlit("false");
                reveal_strlit("null");
                assert(w.len() >= 1);
            }
        }
    }
}

/// The scanner: the input text, the scan offset, and the decoded character
/// just before that offset (none once the input is exhausted).
pub struct Lexer<'a> {
    pub input: &'a str,
    pub position: usize,
    pub current_char: Option<char>,
}

impl<'a> Lexer<'a> {
    /// The offset points at the next undecoded character; the decoded
    /// character, when there is one, is the one just before the offset.
    pub open spec fn wf(&self) -> bool {
        &&& self.input@.len() < usize::MAX
        &&& self.position <= self.input@.len()
        &&& match self.current_char {
            Some(c) => self.position >= 1 && self.input@[self.position - 1] == c,
            None => self.position == self.input@.len(),
        }
    }

    /// The offset of the character the scanner currently looks at: the one
    /// decoded into `current_char`, or the input length at end of input.
    pub open spec fn cursor(&self) -> int {
        match self.current_char {
            Some(_) => self.position - 1,
            None => self.input@.len() as int,
        }
    }

    pub fn new(input: &'a str) -> (l: Lexer<'a>)
        requires
            input@.len() < usize::MAX,
        ensures
            l.wf(),
            l.input@ == input@,
            l.cursor() == 0,
    {
        if input.unicode_len() == 0 {
            Lexer { input, position: 0, current_char: None }
        } else {
            let c = input.get_char(0);
            Lexer { input, position: 1, current_char: Some(c) }
        }
    }

    /// Decodes the next character, or records the end of input.
    pub fn advance(&mut self)
        requires
            old(self).wf(),
        ensures
            final(self).wf(),
            final(self).input == old(self).input,
            final(self).cursor() == if old(self).cursor() + 1 <= old(self).input@.len() {
                old(self).cursor() + 1
            } else {
                old(self).input@.len() as int
            },
    {
        if self.position < self.input.unicode_len() {
            self.current_char = Some(self.input.get_char(self.position));
            self.position = self.position + 1;
        } else {
            self.current_char = None;
        }
    }

    /// Whether the scanner currently looks at a whitespace character.
    fn at_ws(&self) -> (r: bool)
        requires
            self.wf(),
        ensures
            r == (self.cursor() < self.input@.len() && is_ws_char(
                self.input@[self.cursor()],
            )),
    {
        match self.current_char {
            Some(c) => c.is_whitespace(),
            None => false,
        }
    }

    /// Whether the scanner currently looks at an ASCII digit.
    fn at_digit(&self) -> (r: bool)
        requires
            self.wf(),
        ensures
            r == (self.cursor() < self.input@.len() && is_digit(self.input@[self.cursor()])),
    {
        match self.current_char {
            Some(c) => is_digit_char(c),
            None => false,
        }
    }

    /// Whether the scanner currently looks at an alphanumeric character.
    fn at_alnum(&self) -> (r: bool)
        requires
            self.wf(),
        ensures
            r == (self.cursor() < self.input@.len() && is_alnum_char(
                self.input@[self.cursor()],
            )),
    {
        match self.current_char {
            Some(c) => c.is_alphanumeric(),
            None => false,
        }
    }

    /// Scans a quoted string starting at the scan position, which must hold
    /// the opening quote.
    #[verifier::loop_isolation(false)]
    fn read_string(&mut self) -> (r: Result<Token, ParseError>)
        requires
            old(self).wf(),
            old(self).cursor() < old(self).input@.len(),
            old(self).input@[old(self).cursor()] == '"',
        ensures
            final(self).wf(),
            final(self).input == old(self).input,
            final(self).cursor() >= old(self).cursor(),
            (match scan_string(
                old(self).input@,
                old(self).cursor(),
                old(self).cursor() + 1,
                Seq::empty(),
                false,
            ) {
                Ok((content, j)) => r matches Ok(tok) && tok@ == SpecToken::Str(content)
                    && final(self).cursor() == j,
                Err(e) => r matches Err(pe) && pe.message@ == e.msg && pe.position == e.pos
                    && located(pe, old(self).input@),
            }),
    {
        let ghost s = self.input@;
        let ghost q = self.cursor();
        let start_pos = self.position - 1;
        self.advance();
        let mut content: Vec<char> = Vec::new();
        let mut escaped = false;
        while self.current_char.is_some()
            invariant
                self.wf(),
                self.input == old(self).input,
                q + 1 <= self.cursor() <= s.len(),
                scan_string(s, q, q + 1, Seq::empty(), false) == scan_string(
                    s,
                    q,
                    self.cursor(),
                    content@,
                    escaped,
                ),
            decreases s.len() - self.cursor(),
        {
            let ch = self.current_char.unwrap();
            if escaped {
                if ch == '"' {
                    content.push('"');
                } else if ch == '\\' {
                    content.push('\\');
                } else if ch == 'n' {
                    content.push('\n');
                } else if ch == 'r' {
                    content.push('\r');
                } else if ch == 't' {
                    content.push('\t');
                } else {
                    let pos = self.position - 1;
                    let mut msg: Vec<char> = Vec::new();
                    push_str_chars(&mut msg, "Invalid escape sequence: \\");
                    msg.push(ch);
                    return Err(ParseError::new(chars_to_string(&msg), pos, self.input));
                }
                escaped = false;
                self.advance();
            } else if ch == '\\' {
                escaped = true;
                self.advance();
            } else if ch == '"' {
                self.advance();
                return Ok(Token::String(chars_to_string(&content)));
            } else {
                content.push(ch);
                self.advance();
            }
        }
        Err(ParseError::new(String::from_str("Unterminated string"), start_pos, self.input))
    }

    /// Scans a number starting at the scan position, which must hold a digit
    /// or a minus sign.
    #[verifier::loop_isolation(false)]
    fn read_number(&mut self) -> (r: Result<Token, ParseError>)
        requires
            old(self).wf(),
            old(self).cursor() < old(self).input@.len(),
            is_digit(old(self).input@[old(self).cursor()]) || old(self).input@[old(
                self,
            ).cursor()] == '-',
        ensures
            final(self).wf(),
            final(self).input == old(self).input,
            final(self).cursor() >= old(self).cursor(),
            (match scan_number(old(self).input@, old(self).cursor()) {
                Ok((t, j)) => r matches Ok(tok) && tok@ == t && final(self).cursor() == j,
                Err(e) => r matches Err(pe) && pe.message@ == e.msg && pe.position == e.pos
                    && located(pe, old(self).input@),
            }),
    {
        let ghost s = self.input@;
        let ghost i0 = self.cursor();
        let start_pos = self.position - 1;
        let negative = match self.current_char {
            Some(c) => c == '-',
            None => false,
        };
        if negative {
            self.advance();
        }
        let ghost j = self.cursor();
        let mut int_digits: Vec<char> = Vec::new();
        while self.at_digit()
            invariant
                self.wf(),
                self.input == old(self).input,
                j <= self.cursor() <= s.len(),
                digits_end(s, j) == digits_end(s, self.cursor()),
                int_digits@ == s.subrange(j, self.cursor()),
            decreases s.len() - self.cursor(),
        {
            let c = self.current_char.unwrap();
            int_digits.push(c);
            proof {
                assert(int_digits@ =~= s.subrange(j, self.cursor() + 1));
            }
            self.advance();
        }
        let ghost int_end = self.cursor();
        let at_dot = match self.current_char {
            Some(c) => c == '.',
            None => false,
        };
        let mut frac_digits: Vec<char> = Vec::new();
        if at_dot {
            self.advance();
            let ghost f0 = self.cursor();
            while self.at_digit()
                invariant
                    self.wf(),
                    self.input == old(self).input,
                    f0 == int_end + 1,
                    f0 <= self.cursor() <= s.len(),
                    digits_end(s, f0) == digits_end(s, self.cursor()),
                    frac_digits@ == s.subrange(f0, self.cursor()),
                decreases s.len() - self.cursor(),
            {
                let c = self.current_char.unwrap();
                frac_digits.push(c);
                proof {
                    assert(frac_digits@ =~= s.subrange(f0, self.cursor() + 1));
                }
                self.advance();
            }
        }
        if int_digits.len() == 0 && frac_digits.len() == 0 {
            return Err(ParseError::new(String::from_str("Invalid number"), start_pos, self.input));
        }
        proof {
            if !at_dot {
                assert(frac_digits@ =~= Seq::<char>::empty());
            }
        }
        let num = JsonNumber {
            negative,
            int_digits: chars_to_string(&int_digits),
            frac_digits: chars_to_string(&frac_digits),
        };
        Ok(Token::Number(num))
    }

    /// Scans a keyword starting at the scan position; only `true`, `false`
    /// and `null` are accepted.
    #[verifier::loop_isolation(false)]
    fn read_keyword(&mut self) -> (r: Result<Token, ParseError>)
        requires
            old(self).wf(),
            old(self).cursor() < old(self).input@.len(),
        ensures
            final(self).wf(),
            final(self).input == old(self).input,
            final(self).cursor() >= old(self).cursor(),
            (match scan_keyword(old(self).input@, old(self).cursor()) {
                Ok((t, j)) => r matches Ok(tok) && tok@ == t && final(self).cursor() == j,
                Err(e) => r matches Err(pe) && pe.message@ == e.msg && pe.position == e.pos
                    && located(pe, old(self).input@),
            }),
    {
        let ghost s = self.input@;
        let ghost i0 = self.cursor();
        let start_pos = self.position - 1;
        let mut kw: Vec<char> = Vec::new();
        while self.at_alnum()
            invariant
                self.wf(),
                self.input == old(self).input,
                i0 <= self.cursor() <= s.len(),
                alnum_end(s, i0) == alnum_end(s, self.cursor()),
                kw@ == s.subrange(i0, self.cursor()),
            decreases s.len() - self.cursor(),
        {
            let c = self.current_char.unwrap();
            kw.push(c);
            proof {
                assert(kw@ =~= s.subrange(i0, self.cursor() + 1));
            }
            self.advance();
        }
        proof {
            reveal_strlit("true");
            reveal_strlit("false");
            reveal_strlit("null");
        }
        let is_kw_true = kw.len() == 4 && kw[0] == 't' && kw[1] == 'r' && kw[2] == 'u' && kw[3]
            == 'e';
        let is_kw_false = kw.len() == 5 && kw[0] == 'f' && kw[1] == 'a' && kw[2] == 'l' && kw[3]
            == 's' && kw[4] == 'e';
        let is_kw_null = kw.len() == 4 && kw[0] == 'n' && kw[1] == 'u' && kw[2] == 'l' && kw[3]
            == 'l';
        if is_kw_true {
            proof {
                assert(kw@ =~= "true"@);
            }
            Ok(Token::Boolean(true))
        } else if is_kw_false {
            proof {
                assert(kw@ =~= "false"@);
            }
            Ok(Token::Boolean(false))
        } else if is_kw_null {
            proof {
                assert(kw@ =~= "null"@);
            }
            Ok(Token::Null)
        } else {
            proof {
                assert(kw@ != "true"@);
                assert(kw@ != "false"@);
                assert(kw@ != "null"@);
            }
            let mut msg: Vec<char> = Vec::new();
            push_str_chars(&mut msg, "Unexpected keyword: ");
            push_chars(&mut msg, &kw);
            Err(ParseError::new(chars_to_string(&msg), start_pos, self.input))
        }
    }

    /// Reads the next token from the input: skips whitespace, then the next
    /// character decides. At end of input the call returns the end marker and
    /// may be repeated; it keeps returning the end marker.
    pub fn next_token(&mut self) -> (r: Result<Token, ParseError>)
        requires
            old(self).wf(),
        ensures
            final(self).wf(),
            final(self).input == old(self).input,
            final(self).cursor() >= old(self).cursor(),
            (match spec_token_at(old(self).input@, old(self).cursor()) {
                Ok((t, j)) => r matches Ok(tok) && tok@ == t && final(self).cursor() == j,
                Err(e) => r matches Err(pe) && pe.message@ == e.msg && pe.position == e.pos
                    && located(pe, old(self).input@),
            }),
    {
        proof {
            lemma_ws_end_bounds(self.input@, self.cursor());
        }
        self.skip_whitespace();
        match self.current_char {
            None => Ok(Token::Eof),
            Some('{') => {
                self.advance();
                Ok(Token::LeftBrace)
            },
            Some('}') => {
                self.advance();
                Ok(Token::RightBrace)
            },
            Some('[') => {
                self.advance();
                Ok(Token::LeftBracket)
            },
            Some(']') => {
                self.advance();
                Ok(Token::RightBracket)
            },
            Some(',') => {
                self.advance();
                Ok(Token::Comma)
            },
            Some(':') => {
                self.advance();
                Ok(Token::Colon)
            },
            Some('"') => self.read_string(),
            Some(c) => {
                if is_digit_char(c) || c == '-' {
                    self.read_number()
                } else if c.is_alphabetic() {
                    self.read_keyword()
                } else {
                    let pos = self.position - 1;
                    let mut msg: Vec<char> = Vec::new();
                    push_str_chars(&mut msg, "Unexpected character: '");
                    msg.push(c);
                    msg.push('\'');
                    Err(ParseError::new(chars_to_string(&msg), pos, self.input))
                }
            },
        }
    }

    /// Consumes the run of whitespace at the scan position.
    #[verifier::loop_isolation(false)]
    pub fn skip_whitespace(&mut self)
        requires
            old(self).wf(),
        ensures
            final(self).wf(),
            final(self).input == old(self).input,
            final(self).cursor() == ws_end(old(self).input@, old(self).cursor()),
    {
        while self.at_ws()
            invariant
                self.wf(),
                self.input == old(self).input,
                ws_end(self.input@, old(self).cursor()) == ws_end(self.input@, self.cursor()),
            decreases self.input@.len() - self.cursor(),
        {
            self.advance();
        }
    }
}

} // verus!
