//! The recursive-descent parser: pulls tokens from the scanner, holding the
//! current token and one token of lookahead, and builds the value tree while
//! enforcing the grammar — string-only object keys, no trailing commas, exact
//! structural balancing, and nothing after the top-level value.
//!
//! The parser is specified against a functional model ([`spec_parse_value_at`]
//! and [`spec_parse_doc`]) the same way the scanner is specified against
//! [`spec_token_at`]: whenever the model parses a document, the parser must
//! return exactly that tree, and whenever the model fails, the parser must
//! report an error.

use vstd::prelude::*;
use vstd::string::StringExecFns;

use crate::error::{located, ParseError};
use crate::json::{lemma_spec_of_pairs, lemma_spec_of_seq, spec_of, spec_of_pairs, spec_of_seq,
    wf_value, JsonNumber, JsonValue, SpecValue};
use crate::lexer::{lemma_token_at_bounds, lemma_token_at_wf, spec_token_at, wf_token, ws_end,
    Lexer, SpecLexErr, SpecToken, Token};

verus! {

/// The display name of a token's kind, as it appears in diagnostics.
pub open spec fn spec_kind_name(t: SpecToken) -> Seq<char> {
    match t {
        SpecToken::LeftBrace => "LeftBrace"@,
        SpecToken::RightBrace => "RightBrace"@,
        SpecToken::LeftBracket => "LeftBracket"@,
        SpecToken::RightBracket => "RightBracket"@,
        SpecToken::Comma => "Comma"@,
        SpecToken::Colon => "Colon"@,
        SpecToken::Str(_) => "String"@,
        SpecToken::Num(_) => "Number"@,
        SpecToken::Bool(_) => "Boolean"@,
        SpecToken::Null => "Null"@,
        SpecToken::Eof => "Eof"@,
    }
}

/// Whether a token can begin a JSON value.
pub open spec fn is_value_start(t: SpecToken) -> bool {
    match t {
        SpecToken::Str(_) => true,
        SpecToken::Num(_) => true,
        SpecToken::Bool(_) => true,
        SpecToken::Null => true,
        SpecToken::LeftBrace => true,
        SpecToken::LeftBracket => true,
        _ => false,
    }
}

/// One outcome of the functional parser: the parsed value together with the
/// offset just past its last token, or the diagnostic the parse raises. The
/// model reads tokens in the order the parser's two-token lookahead reads
/// them, so a lexical error standing ahead of a grammar error is reported
/// first, exactly as the parser reports it.
pub enum SpecParsed {
    Val(SpecValue, int),
    Fail(SpecLexErr),
}

/// The scanner's reported offset when its cursor stands at `cur`: one past
/// the decoded character, clamped to the input length. Grammar diagnostics
/// carry this offset of the scanner that ran ahead of the parser.
pub open spec fn spec_report_pos(s: Seq<char>, cur: int) -> int {
    if cur < s.len() {
        cur + 1
    } else {
        s.len() as int
    }
}

/// A placeholder diagnostic for the model's range guards, which bound the
/// recursion and are never reached where scanning succeeds.
pub open spec fn spec_stuck(i: int) -> SpecLexErr {
    SpecLexErr { msg: Seq::empty(), pos: i }
}

/// The functional recursive-descent parser: one JSON value read from offset
/// `i`. Literals map to their node, `{` and `[` open an object or array, and
/// any other token is the "Unexpected token" diagnostic — unless the token
/// the lookahead reads just after it fails to scan, whose error comes first.
pub open spec fn spec_parse_value_at(s: Seq<char>, i: int) -> SpecParsed
    decreases s.len() - i, 2int when 0 <= i <= s.len()
{
    match spec_token_at(s, i) {
        Err(e) => SpecParsed::Fail(e),
        Ok((t, j)) => match t {
            SpecToken::Str(cs) => SpecParsed::Val(SpecValue::Str(cs), j),
            SpecToken::Num(n) => SpecParsed::Val(SpecValue::Num(n), j),
            SpecToken::Bool(b) => SpecParsed::Val(SpecValue::Bool(b), j),
            SpecToken::Null => SpecParsed::Val(SpecValue::Null, j),
            SpecToken::LeftBrace => if i < j <= s.len() {
                spec_parse_object_at(s, j)
            } else {
                SpecParsed::Fail(spec_stuck(i))
            },
            SpecToken::LeftBracket => if i < j <= s.len() {
                spec_parse_array_at(s, j)
            } else {
                SpecParsed::Fail(spec_stuck(i))
            },
            _ => match spec_token_at(s, j) {
                Err(e) => SpecParsed::Fail(e),
                Ok((t1, j2)) => SpecParsed::Fail(
                    SpecLexErr {
                        msg: "Unexpected token: "@ + spec_kind_name(t),
                        pos: spec_report_pos(s, j2),
                    },
                ),
            },
        },
    }
}

/// An object body read from offset `i`, the opening brace already consumed:
/// either an immediate closing brace, or one or more members.
pub open spec fn spec_parse_object_at(s: Seq<char>, i: int) -> SpecParsed
    decreases s.len() - i, 4int when 0 <= i <= s.len()
{
    match spec_token_at(s, i) {
        Err(e) => SpecParsed::Fail(e),
        Ok((t, j)) => if t is RightBrace {
            SpecParsed::Val(SpecValue::Obj(Seq::empty()), j)
        } else {
            spec_parse_obj_items(s, i, Seq::empty())
        },
    }
}

/// The members of an object from offset `i` on, `acc` the pairs already
/// read: a string key, a colon, a value, then a comma (not directly before
/// the closing brace) or the closing brace. Each grammar check first reads
/// what the lookahead has read by then, whose lexical error takes precedence.
pub open spec fn spec_parse_obj_items(
    s: Seq<char>,
    i: int,
    acc: Seq<(Seq<char>, SpecValue)>,
) -> SpecParsed
    decreases s.len() - i, 3int when 0 <= i <= s.len()
{
    match spec_token_at(s, i) {
        Err(e) => SpecParsed::Fail(e),
        Ok((tk, jk)) => match spec_token_at(s, jk) {
            Err(e) => SpecParsed::Fail(e),
            Ok((tc, jc)) => if !(tk is Str) {
                SpecParsed::Fail(
                    SpecLexErr {
                        msg: "Object key must be a string"@,
                        pos: spec_report_pos(s, jc),
                    },
                )
            } else {
                match spec_token_at(s, jc) {
                    Err(e) => SpecParsed::Fail(e),
                    Ok((t3, j3)) => if !(tc is Colon) {
                        SpecParsed::Fail(
                            SpecLexErr {
                                msg: "Expected "@ + spec_kind_name(SpecToken::Colon)
                                    + ", found "@ + spec_kind_name(tc),
                                pos: spec_report_pos(s, j3),
                            },
                        )
                    } else if !(i < jc <= s.len()) {
                        SpecParsed::Fail(spec_stuck(jc))
                    } else {
                        match spec_parse_value_at(s, jc) {
                            SpecParsed::Fail(e) => SpecParsed::Fail(e),
                            SpecParsed::Val(v, jv) => if !(0 <= jv <= s.len()) {
                                SpecParsed::Fail(spec_stuck(jv))
                            } else {
                                spec_parse_obj_sep(s, i, acc, tk->Str_0, v, jv)
                            },
                        }
                    },
                }
            },
        },
    }
}

/// The separator after an object member whose value ended at offset `jv`:
/// a closing brace ends the object, a comma not directly before a closing
/// brace continues it, anything else is the "Expected ',' or '}'" diagnostic.
pub open spec fn spec_parse_obj_sep(
    s: Seq<char>,
    i: int,
    acc: Seq<(Seq<char>, SpecValue)>,
    key: Seq<char>,
    v: SpecValue,
    jv: int,
) -> SpecParsed
    decreases s.len() - i, 2int when 0 <= i <= s.len() && 0 <= jv <= s.len()
{
    match spec_token_at(s, jv) {
        Err(e) => SpecParsed::Fail(e),
        Ok((ts, js)) => {
            match spec_token_at(s, js) {
                Err(e) => SpecParsed::Fail(e),
                Ok((tn, jn)) => if ts is RightBrace {
                    SpecParsed::Val(SpecValue::Obj(acc.push((key, v))), js)
                } else if ts is Comma {
                    match spec_token_at(s, jn) {
                        Err(e) => SpecParsed::Fail(e),
                        Ok((t5, jn2)) => if tn is RightBrace {
                            SpecParsed::Fail(
                                SpecLexErr {
                                    msg: "Trailing comma not allowed"@,
                                    pos: spec_report_pos(s, jn2),
                                },
                            )
                        } else if i < js <= s.len() {
                            spec_parse_obj_items(s, js, acc.push((key, v)))
                        } else {
                            SpecParsed::Fail(spec_stuck(js))
                        },
                    }
                } else {
                    SpecParsed::Fail(
                        SpecLexErr {
                            msg: "Expected ',' or '}', found "@ + spec_kind_name(ts),
                            pos: spec_report_pos(s, jn),
                        },
                    )
                },
            }
        },
    }
}

/// An array body read from offset `i`, the opening bracket already consumed.
pub open spec fn spec_parse_array_at(s: Seq<char>, i: int) -> SpecParsed
    decreases s.len() - i, 4int when 0 <= i <= s.len()
{
    match spec_token_at(s, i) {
        Err(e) => SpecParsed::Fail(e),
        Ok((t, j)) => if t is RightBracket {
            SpecParsed::Val(SpecValue::Arr(Seq::empty()), j)
        } else {
            spec_parse_arr_items(s, i, Seq::empty())
        },
    }
}

/// The elements of an array from offset `i` on, `acc` the values already
/// read: a value, then a comma (not directly before the closing bracket) or
/// the closing bracket.
pub open spec fn spec_parse_arr_items(s: Seq<char>, i: int, acc: Seq<SpecValue>) -> SpecParsed
    decreases s.len() - i, 3int when 0 <= i <= s.len()
{
    match spec_parse_value_at(s, i) {
        SpecParsed::Fail(e) => SpecParsed::Fail(e),
        SpecParsed::Val(v, jv) => if !(0 <= jv <= s.len()) {
            SpecParsed::Fail(spec_stuck(jv))
        } else {
            spec_parse_arr_sep(s, i, acc, v, jv)
        },
    }
}

/// The separator after an array element whose value ended at offset `jv`:
/// the closing bracket ends the array, a comma not directly before a closing
/// bracket continues it, anything else is the "Expected ',' or ']'"
/// diagnostic.
pub open spec fn spec_parse_arr_sep(
    s: Seq<char>,
    i: int,
    acc: Seq<SpecValue>,
    v: SpecValue,
    jv: int,
) -> SpecParsed
    decreases s.len() - i, 2int when 0 <= i <= s.len() && 0 <= jv <= s.len()
{
    match spec_token_at(s, jv) {
        Err(e) => SpecParsed::Fail(e),
        Ok((ts, js)) => {
            match spec_token_at(s, js) {
                Err(e) => SpecParsed::Fail(e),
                Ok((tn, jn)) => if ts is RightBracket {
                    SpecParsed::Val(SpecValue::Arr(acc.push(v)), js)
                } else if ts is Comma {
                    match spec_token_at(s, jn) {
                        Err(e) => SpecParsed::Fail(e),
                        Ok((t5, jn2)) => if tn is RightBracket {
                            SpecParsed::Fail(
                                SpecLexErr {
                                    msg: "Trailing comma not allowed"@,
                                    pos: spec_report_pos(s, jn2),
                                },
                            )
                        } else if i < js <= s.len() {
                            spec_parse_arr_items(s, js, acc.push(v))
                        } else {
                            SpecParsed::Fail(spec_stuck(js))
                        },
                    }
                } else {
                    SpecParsed::Fail(
                        SpecLexErr {
                            msg: "Expected ',' or ']', found "@ + spec_kind_name(ts),
                            pos: spec_report_pos(s, jn),
                        },
                    )
                },
            }
        },
    }
}

/// The diagnostic `e` is the lexical error the lookahead meets beyond offset
/// `i`: the token there, or the one directly after it, fails to scan with
/// exactly this message and offset. The parser reads up to two tokens past a
/// finished construct, so such input fails even when the construct itself is
/// complete.
pub open spec fn lookahead_err(s: Seq<char>, i: int, e: ParseError) -> bool {
    match spec_token_at(s, i) {
        Err(e1) => e.message@ == e1.msg && e.position == e1.pos,
        Ok((t, j)) => spec_token_at(s, j) matches Err(e2) && e.message@ == e2.msg && e.position
            == e2.pos,
    }
}

/// One complete document read from offset `i`: exactly one value, followed
/// by the end of input; any further token is the "Unexpected token after
/// JSON value" diagnostic.
pub open spec fn spec_parse_doc(s: Seq<char>, i: int) -> SpecParsed {
    match spec_parse_value_at(s, i) {
        SpecParsed::Fail(e) => SpecParsed::Fail(e),
        SpecParsed::Val(v, end) => if 0 <= end <= s.len() {
            match spec_token_at(s, end) {
                Err(e) => SpecParsed::Fail(e),
                Ok((t, j)) => if t is Eof {
                    SpecParsed::Val(v, end)
                } else {
                    match spec_token_at(s, j) {
                        Err(e) => SpecParsed::Fail(e),
                        Ok((t1, j2)) => SpecParsed::Fail(
                            SpecLexErr {
                                msg: "Unexpected token after JSON value: "@ + spec_kind_name(t),
                                pos: spec_report_pos(s, j2),
                            },
                        ),
                    }
                },
            }
        } else {
            SpecParsed::Fail(spec_stuck(end))
        },
    }
}

/// A parsed value ends strictly after it begins and inside the input.
pub proof fn lemma_parse_value_bounds(s: Seq<char>, i: int)
    requires
        0 <= i <= s.len(),
    ensures
        spec_parse_value_at(s, i) matches SpecParsed::Val(v, end) ==> i < end <= s.len(),
    decreases s.len() - i, 2int,
{
    lemma_token_at_bounds(s, i);
    match spec_token_at(s, i) {
        Ok((t, j)) => {
            match t {
                SpecToken::LeftBrace => {
                    if i < j <= s.len() {
                        lemma_parse_object_bounds(s, j);
                    }
                },
                SpecToken::LeftBracket => {
                    if i < j <= s.len() {
                        lemma_parse_array_bounds(s, j);
                    }
                },
                _ => {},
            }
        },
        Err(_) => {},
    }
}

/// A parsed object body ends strictly after it begins and inside the input.
pub proof fn lemma_parse_object_bounds(s: Seq<char>, i: int)
    requires
        0 <= i <= s.len(),
    ensures
        spec_parse_object_at(s, i) matches SpecParsed::Val(v, end) ==> i < end <= s.len(),
    decreases s.len() - i, 4int,
{
    lemma_token_at_bounds(s, i);
    match spec_token_at(s, i) {
        Ok((t, j)) => {
            if !(t is RightBrace) {
                lemma_obj_items_bounds(s, i, Seq::empty());
            }
        },
        Err(_) => {},
    }
}

/// Parsed object members end strictly after they begin and inside the input.
pub proof fn lemma_obj_items_bounds(s: Seq<char>, i: int, acc: Seq<(Seq<char>, SpecValue)>)
    requires
        0 <= i <= s.len(),
    ensures
        spec_parse_obj_items(s, i, acc) matches SpecParsed::Val(v, end) ==> i < end <= s.len(),
    decreases s.len() - i, 3int,
{
    lemma_token_at_bounds(s, i);
    match spec_token_at(s, i) {
        Ok((tk, jk)) => {
            if i < jk <= s.len() {
                lemma_token_at_bounds(s, jk);
                match spec_token_at(s, jk) {
                    Ok((tc, jc)) => {
                        if tk is Str && jk < jc <= s.len() {
                            lemma_parse_value_bounds(s, jc);
                            match spec_parse_value_at(s, jc) {
                                SpecParsed::Val(v, jv) => {
                                    if 0 <= jv <= s.len() {
                                        lemma_obj_sep_bounds(s, i, acc, tk->Str_0, v, jv);
                                    }
                                },
                                SpecParsed::Fail(_) => {},
                            }
                        }
                    },
                    Err(_) => {},
                }
            }
        },
        Err(_) => {},
    }
}

/// An object separator step ends strictly after the member list began.
pub proof fn lemma_obj_sep_bounds(
    s: Seq<char>,
    i: int,
    acc: Seq<(Seq<char>, SpecValue)>,
    key: Seq<char>,
    v: SpecValue,
    jv: int,
)
    requires
        0 <= i <= s.len(),
        i < jv <= s.len(),
    ensures
        spec_parse_obj_sep(s, i, acc, key, v, jv) matches SpecParsed::Val(v2, end) ==> i < end
            <= s.len(),
    decreases s.len() - i, 2int,
{
    lemma_token_at_bounds(s, jv);
    match spec_token_at(s, jv) {
        Ok((ts, js)) => {
            if 0 <= js <= s.len() && !(ts is RightBrace) && ts is Comma && i < js <= s.len() {
                lemma_obj_items_bounds(s, js, acc.push((key, v)));
            }
        },
        Err(_) => {},
    }
}

/// A parsed array body ends strictly after it begins and inside the input.
pub proof fn lemma_parse_array_bounds(s: Seq<char>, i: int)
    requires
        0 <= i <= s.len(),
    ensures
        spec_parse_array_at(s, i) matches SpecParsed::Val(v, end) ==> i < end <= s.len(),
    decreases s.len() - i, 4int,
{
    lemma_token_at_bounds(s, i);
    match spec_token_at(s, i) {
        Ok((t, j)) => {
            if !(t is RightBracket) {
                lemma_arr_items_bounds(s, i, Seq::empty());
            }
        },
        Err(_) => {},
    }
}

/// Parsed array elements end strictly after they begin and inside the input.
pub proof fn lemma_arr_items_bounds(s: Seq<char>, i: int, acc: Seq<SpecValue>)
    requires
        0 <= i <= s.len(),
    ensures
        spec_parse_arr_items(s, i, acc) matches SpecParsed::Val(v, end) ==> i < end <= s.len(),
    decreases s.len() - i, 3int,
{
    lemma_parse_value_bounds(s, i);
    match spec_parse_value_at(s, i) {
        SpecParsed::Val(v, jv) => {
            if 0 <= jv <= s.len() {
                lemma_arr_sep_bounds(s, i, acc, v, jv);
            }
        },
        SpecParsed::Fail(_) => {},
    }
}

/// An array separator step ends strictly after the element list began.
pub proof fn lemma_arr_sep_bounds(s: Seq<char>, i: int, acc: Seq<SpecValue>, v: SpecValue, jv: int)
    requires
        0 <= i <= s.len(),
        i < jv <= s.len(),
    ensures
        spec_parse_arr_sep(s, i, acc, v, jv) matches SpecParsed::Val(v2, end) ==> i < end
            <= s.len(),
    decreases s.len() - i, 2int,
{
    lemma_token_at_bounds(s, jv);
    match spec_token_at(s, jv) {
        Ok((ts, js)) => {
            if 0 <= js <= s.len() && !(ts is RightBracket) && ts is Comma && i < js <= s.len() {
                lemma_arr_items_bounds(s, js, acc.push(v));
            }
        },
        Err(_) => {},
    }
}

/// A value whose first token scans but whose following token does not can
/// only end exactly at that broken offset, or fail with that very error.
pub proof fn lemma_value_at_bad_next(s: Seq<char>, i: int)
    requires
        0 <= i <= s.len(),
        spec_token_at(s, i) is Ok,
        spec_token_at(s, spec_token_at(s, i)->Ok_0.1) is Err,
    ensures
        (match spec_parse_value_at(s, i) {
            SpecParsed::Val(v, end) => end == spec_token_at(s, i)->Ok_0.1,
            SpecParsed::Fail(e1) => e1 == spec_token_at(s, spec_token_at(s, i)->Ok_0.1)->Err_0,
        }),
{
    lemma_token_at_bounds(s, i);
}

/// Object members cannot parse when the token after the first one is a
/// lexical error; that error is the diagnostic.
pub proof fn lemma_obj_items_bad_next(s: Seq<char>, i: int, acc: Seq<(Seq<char>, SpecValue)>)
    requires
        0 <= i <= s.len(),
        spec_token_at(s, i) is Ok,
        spec_token_at(s, spec_token_at(s, i)->Ok_0.1) is Err,
    ensures
        spec_parse_obj_items(s, i, acc) == SpecParsed::Fail(
            spec_token_at(s, spec_token_at(s, i)->Ok_0.1)->Err_0,
        ),
{
    lemma_token_at_bounds(s, i);
}

/// Array elements cannot parse when the token after the first one is a
/// lexical error; that error is the diagnostic.
pub proof fn lemma_arr_items_bad_next(s: Seq<char>, i: int, acc: Seq<SpecValue>)
    requires
        0 <= i <= s.len(),
        spec_token_at(s, i) is Ok,
        spec_token_at(s, spec_token_at(s, i)->Ok_0.1) is Err,
    ensures
        spec_parse_arr_items(s, i, acc) == SpecParsed::Fail(
            spec_token_at(s, spec_token_at(s, i)->Ok_0.1)->Err_0,
        ),
{
    lemma_token_at_bounds(s, i);
    lemma_value_at_bad_next(s, i);
    let j = spec_token_at(s, i)->Ok_0.1;
    match spec_parse_value_at(s, i) {
        SpecParsed::Val(v, jv) => {
            assert(jv == j);
        },
        SpecParsed::Fail(_) => {},
    }
}

/// Whether two tokens have the same kind (tag), whatever their payloads.
pub open spec fn spec_same_kind(a: SpecToken, b: SpecToken) -> bool {
    match (a, b) {
        (SpecToken::LeftBrace, SpecToken::LeftBrace) => true,
        (SpecToken::RightBrace, SpecToken::RightBrace) => true,
        (SpecToken::LeftBracket, SpecToken::LeftBracket) => true,
        (SpecToken::RightBracket, SpecToken::RightBracket) => true,
        (SpecToken::Comma, SpecToken::Comma) => true,
        (SpecToken::Colon, SpecToken::Colon) => true,
        (SpecToken::Str(_), SpecToken::Str(_)) => true,
        (SpecToken::Num(_), SpecToken::Num(_)) => true,
        (SpecToken::Bool(_), SpecToken::Bool(_)) => true,
        (SpecToken::Null, SpecToken::Null) => true,
        (SpecToken::Eof, SpecToken::Eof) => true,
        _ => false,
    }
}

fn token_kind_str(t: &Token) -> (r: &'static str)
    ensures
        r@ == spec_kind_name(t@),
{
    match t {
        Token::LeftBrace => "LeftBrace",
        Token::RightBrace => "RightBrace",
        Token::LeftBracket => "LeftBracket",
        Token::RightBracket => "RightBracket",
        Token::Comma => "Comma",
        Token::Colon => "Colon",
        Token::String(_) => "String",
        Token::Number(_) => "Number",
        Token::Boolean(_) => "Boolean",
        Token::Null => "Null",
        Token::Eof => "Eof",
    }
}

fn same_kind(a: &Token, b: &Token) -> (r: bool)
    ensures
        r == spec_same_kind(a@, b@),
{
    match (a, b) {
        (Token::LeftBrace, Token::LeftBrace) => true,
        (Token::RightBrace, Token::RightBrace) => true,
        (Token::LeftBracket, Token::LeftBracket) => true,
        (Token::RightBracket, Token::RightBracket) => true,
        (Token::Comma, Token::Comma) => true,
        (Token::Colon, Token::Colon) => true,
        (Token::String(_), Token::String(_)) => true,
        (Token::Number(_), Token::Number(_)) => true,
        (Token::Boolean(_), Token::Boolean(_)) => true,
        (Token::Null, Token::Null) => true,
        (Token::Eof, Token::Eof) => true,
        _ => false,
    }
}

/// The parser: the scanner, the current token, and one token of lookahead.
/// Both token slots are always populated; past the end of input they hold the
/// end-of-input marker.
pub struct Parser<'a> {
    pub lexer: Lexer<'a>,
    pub current_token: Token,
    pub peek_token: Token,
    pub pos: Ghost<(int, int)>,
}

impl<'a> Parser<'a> {
    pub open spec fn wf(&self) -> bool {
        &&& self.lexer.wf()
        &&& wf_token(self.current_token@)
        &&& wf_token(self.peek_token@)
    }

    /// The buffered tokens agree with the functional scanner: the current
    /// token was scanned at the first recorded offset and ends at the
    /// second, where the lookahead was scanned; the scanner's cursor stands
    /// just past the lookahead's token.
    pub open spec fn in_sync(&self) -> bool {
        &&& 0 <= self.pos@.0 <= self.lexer.input@.len()
        &&& 0 <= self.pos@.1 <= self.lexer.input@.len()
        &&& spec_token_at(self.lexer.input@, self.pos@.0) == Ok::<(SpecToken, int), SpecLexErr>(
            (self.current_token@, self.pos@.1),
        )
        &&& spec_token_at(self.lexer.input@, self.pos@.1) == Ok::<(SpecToken, int), SpecLexErr>(
            (self.peek_token@, self.lexer.cursor()),
        )
    }

    /// An upper bound on the work left: unread input counted twice, plus one
    /// for each buffered token that is not the end-of-input marker. Every
    /// token consumed strictly lowers it.
    pub open spec fn measure(&self) -> int {
        2 * (self.lexer.input@.len() - self.lexer.cursor()) + (if self.current_token@ is Eof {
            0int
        } else {
            1int
        }) + (if self.peek_token@ is Eof {
            0int
        } else {
            1int
        })
    }

    /// Builds the scanner and primes the current token and the lookahead,
    /// propagating any scanner error met while priming.
    pub fn new(input: &'a str) -> (r: Result<Parser<'a>, ParseError>)
        requires
            input@.len() < usize::MAX,
        ensures
            (match r {
                Ok(p) => {
                    &&& p.wf()
                    &&& p.in_sync()
                    &&& p.pos@.0 == 0
                    &&& p.lexer.input@ == input@
                    &&& (match spec_token_at(input@, 0) {
                        Ok((t0, j0)) => p.current_token@ == t0 && (if t0 is Eof {
                            p.peek_token@ is Eof
                        } else {
                            spec_token_at(input@, j0) matches Ok((t1, j1)) && p.peek_token@ == t1
                        }),
                        Err(_) => false,
                    })
                },
                Err(e) => {
                    &&& located(e, input@)
                    &&& (spec_token_at(input@, 0) matches Err(e0) ==> e.message@ == e0.msg
                        && e.position == e0.pos)
                    &&& (spec_token_at(input@, 0) matches Ok((t0, j0)) ==> !(t0 is Eof)
                        && (spec_token_at(input@, j0) matches Err(e1) && e.message@ == e1.msg
                        && e.position == e1.pos))
                },
            }),
    {
        let mut lexer = Lexer::new(input);
        proof {
            lemma_token_at_wf(input@, 0);
            lemma_token_at_bounds(input@, 0);
        }
        let current_token = match lexer.next_token() {
            Ok(t) => t,
            Err(e) => {
                return Err(e);
            },
        };
        let ghost p1 = lexer.cursor();
        let peek_token: Token = if !matches!(current_token, Token::Eof) {
            proof {
                lemma_token_at_wf(input@, lexer.cursor());
                lemma_token_at_bounds(input@, lexer.cursor());
            }
            match lexer.next_token() {
                Ok(t) => t,
                Err(e) => {
                    return Err(e);
                },
            }
        } else {
            Token::Eof
        };
        Ok(Parser { lexer, current_token, peek_token, pos: Ghost((0int, p1)) })
    }

    /// Moves the lookahead into the current slot and refills the lookahead
    /// from the scanner, propagating a scanner error; past the end of input
    /// the lookahead becomes the end-of-input marker.
    fn advance(&mut self) -> (r: Result<(), ParseError>)
        requires
            old(self).wf(),
        ensures
            final(self).wf(),
            final(self).lexer.input == old(self).lexer.input,
            r is Ok ==> final(self).current_token == old(self).peek_token,
            r is Ok ==> final(self).measure() <= old(self).measure(),
            r is Ok && !(old(self).current_token@ is Eof) ==> final(self).measure() < old(
                self,
            ).measure(),
            r matches Err(e) ==> located(e, old(self).lexer.input@),
            old(self).in_sync() && r is Ok ==> final(self).in_sync() && final(self).pos@
                == ((old(self).pos@.1, old(self).lexer.cursor())),
            old(self).in_sync() ==> (r matches Err(e) ==> (spec_token_at(
                old(self).lexer.input@,
                old(self).lexer.cursor(),
            ) matches Err(e0) && e.message@ == e0.msg && e.position == e0.pos)),
    {
        let ghost s = self.lexer.input@;
        let ghost prev_pos1 = self.pos@.1;
        let ghost prev_cursor = self.lexer.cursor();
        proof {
            if self.in_sync() {
                lemma_token_at_bounds(s, self.pos@.1);
            }
        }
        let fetched: Token = if !matches!(self.peek_token, Token::Eof) {
            proof {
                lemma_token_at_bounds(s, self.lexer.cursor());
                lemma_token_at_wf(s, self.lexer.cursor());
            }
            match self.lexer.next_token() {
                Ok(t) => t,
                Err(e) => {
                    return Err(e);
                },
            }
        } else {
            Token::Eof
        };
        let mut rotated = fetched;
        core::mem::swap(&mut self.peek_token, &mut rotated);
        self.current_token = rotated;
        self.pos = Ghost((prev_pos1, prev_cursor));
        Ok(())
    }

    /// Consumes the current token when its kind matches `expected`; any other
    /// kind is an error naming both kinds, and consumes nothing.
    fn expect_token(&mut self, expected: Token) -> (r: Result<(), ParseError>)
        requires
            old(self).wf(),
        ensures
            final(self).wf(),
            final(self).lexer.input == old(self).lexer.input,
            r is Ok ==> spec_same_kind(old(self).current_token@, expected@),
            r is Ok ==> final(self).current_token == old(self).peek_token,
            r is Ok ==> final(self).measure() <= old(self).measure() && (!(old(
                self,
            ).current_token@ is Eof) ==> final(self).measure() < old(self).measure()),
            r matches Err(e) ==> located(e, old(self).lexer.input@),
            old(self).in_sync() && r is Ok ==> final(self).in_sync() && final(self).pos@
                == ((old(self).pos@.1, old(self).lexer.cursor())),
            old(self).in_sync() && spec_same_kind(old(self).current_token@, expected@) ==> (
            r matches Err(e) ==> (spec_token_at(
                old(self).lexer.input@,
                old(self).lexer.cursor(),
            ) matches Err(e0) && e.message@ == e0.msg && e.position == e0.pos)),
            !spec_same_kind(old(self).current_token@, expected@) ==> (r matches Err(e)
                && *final(self) == *old(self) && e.position == old(self).lexer.position
                && e.message@ == "Expected "@ + spec_kind_name(expected@) + ", found "@
                + spec_kind_name(old(self).current_token@)),
    {
        if same_kind(&self.current_token, &expected) {
            self.advance()?;
            Ok(())
        } else {
            let msg = String::from_str("Expected ").concat(token_kind_str(&expected)).concat(
                ", found ",
            ).concat(token_kind_str(&self.current_token));
            Err(ParseError::new(msg, self.lexer.position, self.lexer.input))
        }
    }

    /// Parses exactly one JSON value and requires the whole input to have
    /// been consumed by it: anything after the value is an error.
    pub fn parse(&mut self) -> (r: Result<JsonValue, ParseError>)
        requires
            old(self).wf(),
        ensures
            final(self).wf(),
            final(self).lexer.input == old(self).lexer.input,
            r matches Ok(v) ==> wf_value(v@) && final(self).current_token@ is Eof,
            r matches Err(e) ==> located(e, old(self).lexer.input@),
            !is_value_start(old(self).current_token@) ==> r is Err,
            old(self).in_sync() ==> (match spec_parse_doc(
                old(self).lexer.input@,
                old(self).pos@.0,
            ) {
                SpecParsed::Val(v, end) => r matches Ok(w) && w@ == v,
                SpecParsed::Fail(e0) => r matches Err(e) && e.message@ == e0.msg && e.position
                    == e0.pos,
            }),
    {
        let ghost s = self.lexer.input@;
        let ghost g0 = self.in_sync();
        let ghost i0 = self.pos@.0;
        let value = match self.parse_value() {
            Ok(v) => v,
            Err(e) => {
                proof {
                    if g0 {
                        lemma_parse_value_bounds(s, i0);
                        match spec_parse_value_at(s, i0) {
                            SpecParsed::Val(v, end) => {
                                if 0 <= end && end <= s.len() {
                                    lemma_token_at_bounds(s, end);
                                    assert(ws_end(s, s.len() as int) == s.len());
                                    match spec_token_at(s, end) {
                                        Ok((t1, j1)) => {
                                            if t1 is Eof {
                                                assert(spec_token_at(s, j1) is Ok);
                                            }
                                        },
                                        Err(_) => {},
                                    }
                                }
                            },
                            SpecParsed::Fail(_) => {},
                        }
                    }
                }
                return Err(e);
            },
        };
        if matches!(self.current_token, Token::Eof) {
            Ok(value)
        } else {
            let msg = String::from_str("Unexpected token after JSON value: ").concat(
                token_kind_str(&self.current_token),
            );
            Err(ParseError::new(msg, self.lexer.position, self.lexer.input))
        }
    }

    /// Parses one value, dispatching on the current token: literals map to
    /// their tree node directly, `{` opens an object, `[` opens an array,
    /// and any other token is an error at the current scan offset.
    fn parse_value(&mut self) -> (r: Result<JsonValue, ParseError>)
        requires
            old(self).wf(),
        ensures
            final(self).wf(),
            final(self).lexer.input == old(self).lexer.input,
            r matches Ok(v) ==> wf_value(v@) && final(self).measure() < old(self).measure(),
            r matches Err(e) ==> located(e, old(self).lexer.input@),
            (match old(self).current_token@ {
                SpecToken::Str(cs) => r matches Ok(v) ==> v@ == SpecValue::Str(cs),
                SpecToken::Num(n) => r matches Ok(v) ==> v@ == SpecValue::Num(n),
                SpecToken::Bool(b) => r matches Ok(v) ==> v@ == SpecValue::Bool(b),
                SpecToken::Null => r matches Ok(v) ==> v@ == SpecValue::Null,
                SpecToken::LeftBrace => r matches Ok(v) ==> v@ is Obj,
                SpecToken::LeftBracket => r matches Ok(v) ==> v@ is Arr,
                _ => r matches Err(e) && e.message@ == "Unexpected token: "@ + spec_kind_name(
                    old(self).current_token@,
                ),
            }),
            old(self).in_sync() ==> (match spec_parse_value_at(
                old(self).lexer.input@,
                old(self).pos@.0,
            ) {
                SpecParsed::Val(v, end) => {
                    &&& (r matches Ok(w) ==> w@ == v && final(self).in_sync()
                        && final(self).pos@.0 == end && old(self).pos@.0 < end)
                    &&& (r matches Err(e) ==> lookahead_err(old(self).lexer.input@, end, e))
                },
                SpecParsed::Fail(e0) => r matches Err(e) && e.message@ == e0.msg && e.position
                    == e0.pos,
            }),
        decreases self.measure(), 1int,
    {
        proof {
            if self.in_sync() {
                lemma_token_at_bounds(self.lexer.input@, self.pos@.0);
                lemma_token_at_bounds(self.lexer.input@, self.pos@.1);
            }
        }
        match &self.current_token {
            Token::String(s) => {
                let v = JsonValue::String(s.clone());
                self.advance()?;
                Ok(v)
            },
            Token::Number(n) => {
                let v = JsonValue::Number(
                    JsonNumber {
                        negative: n.negative,
                        int_digits: n.int_digits.clone(),
                        frac_digits: n.frac_digits.clone(),
                    },
                );
                self.advance()?;
                Ok(v)
            },
            Token::Boolean(b) => {
                let v = JsonValue::Boolean(*b);
                self.advance()?;
                Ok(v)
            },
            Token::Null => {
                self.advance()?;
                Ok(JsonValue::Null)
            },
            Token::LeftBrace => self.parse_object(),
            Token::LeftBracket => self.parse_array(),
            _ => {
                let msg = String::from_str("Unexpected token: ").concat(
                    token_kind_str(&self.current_token),
                );
                Err(ParseError::new(msg, self.lexer.position, self.lexer.input))
            },
        }
    }

    /// Parses an object after dispatch saw `{`: keys must be strings, `": "`
    /// separates key and value, pairs are kept in parse order with duplicate
    /// keys preserved, and a comma directly before `}` is rejected.
    #[verifier::loop_isolation(false)]
    #[verifier::rlimit(100)]
    fn parse_object(&mut self) -> (r: Result<JsonValue, ParseError>)
        requires
            old(self).wf(),
        ensures
            final(self).wf(),
            final(self).lexer.input == old(self).lexer.input,
            r matches Ok(v) ==> wf_value(v@) && v@ is Obj && final(self).measure() < old(
                self,
            ).measure(),
            r matches Err(e) ==> located(e, old(self).lexer.input@),
            !(old(self).current_token@ is LeftBrace) ==> r is Err,
            old(self).in_sync() && old(self).current_token@ is LeftBrace ==> (match
                spec_parse_object_at(old(self).lexer.input@, old(self).pos@.1) {
                SpecParsed::Val(v, end) => {
                    &&& (r matches Ok(w) ==> w@ == v && final(self).in_sync()
                        && final(self).pos@.0 == end && old(self).pos@.0 < end)
                    &&& (r matches Err(e) ==> lookahead_err(old(self).lexer.input@, end, e))
                },
                SpecParsed::Fail(e0) => r matches Err(e) && e.message@ == e0.msg && e.position
                    == e0.pos,
            }),
        decreases self.measure(), 0int,
    {
        let ghost s = self.lexer.input@;
        let ghost g = self.in_sync() && self.current_token@ is LeftBrace;
        let ghost i_open = self.pos@.1;
        let ghost obj0 = spec_parse_object_at(s, i_open);
        proof {
            if self.in_sync() {
                lemma_token_at_bounds(s, self.pos@.0);
                lemma_token_at_bounds(s, self.pos@.1);
            }
        }
        match self.expect_token(Token::LeftBrace) {
            Err(e) => {
                proof {
                    if g && !(old(self).peek_token@ is RightBrace) {
                        lemma_obj_items_bad_next(s, i_open, Seq::empty());
                    }
                }
                return Err(e);
            },
            Ok(_) => {},
        }
        let mut pairs: Vec<(String, JsonValue)> = Vec::new();
        if matches!(self.current_token, Token::RightBrace) {
            let ghost end_empty = self.pos@.1;
            match self.advance() {
                Err(e) => {
                    return Err(e);
                },
                Ok(_) => {},
            }
            proof {
                if g {
                    assert(obj0 == SpecParsed::Val(SpecValue::Obj(Seq::empty()), end_empty));
                    assert(spec_of(JsonValue::Object(pairs)) == SpecValue::Obj(
                        spec_of_pairs(pairs@),
                    ));
                    assert(spec_of_pairs(pairs@) =~= Seq::<(Seq<char>, SpecValue)>::empty());
                }
            }
            return Ok(JsonValue::Object(pairs));
        }
        loop
            invariant
                self.wf(),
                self.lexer.input == old(self).lexer.input,
                self.measure() < old(self).measure(),
                forall|k: int| 0 <= k < pairs@.len() ==> wf_value(spec_of(#[trigger] pairs@[k].1)),
                g ==> self.in_sync(),
                g ==> obj0 == spec_parse_obj_items(s, self.pos@.0, spec_of_pairs(pairs@)),
                g ==> old(self).pos@.0 < self.pos@.0,
            decreases self.measure(),
        {
            let ghost i_k = self.pos@.0;
            let ghost acc0 = spec_of_pairs(pairs@);
            proof {
                if g {
                    lemma_token_at_bounds(s, self.pos@.0);
                    lemma_token_at_bounds(s, self.pos@.1);
                }
            }
            let key: String = match &self.current_token {
                Token::String(ks) => ks.clone(),
                _ => {
                    proof {
                        if g {
                            assert(self.lexer.position == spec_report_pos(
                                s,
                                self.lexer.cursor(),
                            ));
                        }
                    }
                    return Err(
                        ParseError::new(
                            String::from_str("Object key must be a string"),
                            self.lexer.position,
                            self.lexer.input,
                        ),
                    );
                },
            };
            let ghost jk_g = self.pos@.1;
            let ghost cur_g = self.lexer.cursor();
            let ghost peek_g = self.peek_token@;
            match self.advance() {
                Err(e) => {
                    proof {
                        if g {
                            assert(spec_token_at(s, i_k) == Ok::<(SpecToken, int), SpecLexErr>(
                                (SpecToken::Str(key@), jk_g),
                            ));
                            assert(spec_token_at(s, jk_g) == Ok::<(SpecToken, int), SpecLexErr>(
                                (peek_g, cur_g),
                            ));
                            assert(spec_token_at(s, cur_g) is Err);
                            assert(spec_parse_obj_items(s, i_k, acc0) == SpecParsed::Fail(
                                spec_token_at(s, cur_g)->Err_0,
                            ));
                        }
                    }
                    return Err(e);
                },
                Ok(_) => {},
            }
            proof {
                if g {
                    lemma_token_at_bounds(s, self.pos@.0);
                    lemma_token_at_bounds(s, self.pos@.1);
                }
            }
            let ghost jc_g = self.pos@.1;
            let ghost cur2_g = self.lexer.cursor();
            let ghost colon_tok = self.current_token@;
            proof {
                if g {
                    assert(self.lexer.position == spec_report_pos(s, self.lexer.cursor()));
                }
            }
            match self.expect_token(Token::Colon) {
                Err(e) => {
                    proof {
                        if g && colon_tok is Colon {
                            lemma_value_at_bad_next(s, jc_g);
                            assert(spec_token_at(s, cur2_g) is Err);
                            assert(spec_parse_value_at(s, jc_g) == SpecParsed::Fail(
                                spec_token_at(s, cur2_g)->Err_0,
                            ) || (spec_parse_value_at(s, jc_g) matches SpecParsed::Val(v, end)
                                && end == cur2_g));
                            assert(spec_parse_obj_items(s, i_k, acc0) == SpecParsed::Fail(
                                spec_token_at(s, cur2_g)->Err_0,
                            ));
                        }
                    }
                    return Err(e);
                },
                Ok(_) => {},
            }
            let ghost jc2 = self.pos@.0;
            let value = match self.parse_value() {
                Ok(v) => v,
                Err(e) => {
                    proof {
                        if g {
                            lemma_parse_value_bounds(s, jc2);
                        }
                    }
                    return Err(e);
                },
            };
            let ghost pairs_pre = pairs@;
            pairs.push((key, value));
            proof {
                if g {
                    assert(pairs@.drop_last() =~= pairs_pre);
                    assert(spec_of_pairs(pairs@) =~= acc0.push((key@, spec_of(value))));
                    lemma_token_at_bounds(s, self.pos@.0);
                    lemma_token_at_bounds(s, self.pos@.1);
                }
            }
            let ghost js_g = self.pos@.1;
            let ghost sep_peek = self.peek_token@;
            match &self.current_token {
                Token::Comma => {
                    match self.advance() {
                        Err(e) => {
                            proof {
                                if g && !(sep_peek is RightBrace) {
                                    lemma_obj_items_bad_next(
                                        s,
                                        js_g,
                                        spec_of_pairs(pairs@),
                                    );
                                }
                            }
                            return Err(e);
                        },
                        Ok(_) => {},
                    }
                    if matches!(self.current_token, Token::RightBrace) {
                        return Err(
                            ParseError::new(
                                String::from_str("Trailing comma not allowed"),
                                self.lexer.position,
                                self.lexer.input,
                            ),
                        );
                    }
                },
                Token::RightBrace => {
                    match self.advance() {
                        Err(e) => {
                            return Err(e);
                        },
                        Ok(_) => {},
                    }
                    proof {
                        lemma_spec_of_pairs(pairs@);
                    }
                    return Ok(JsonValue::Object(pairs));
                },
                _ => {
                    let msg = String::from_str("Expected ',' or '}', found ").concat(
                        token_kind_str(&self.current_token),
                    );
                    return Err(ParseError::new(msg, self.lexer.position, self.lexer.input));
                },
            }
        }
    }

    /// Parses an array after dispatch saw `[`: values separated by commas,
    /// kept in parse order, and a comma directly before `]` is rejected.
    #[verifier::loop_isolation(false)]
    #[verifier::rlimit(100)]
    fn parse_array(&mut self) -> (r: Result<JsonValue, ParseError>)
        requires
            old(self).wf(),
        ensures
            final(self).wf(),
            final(self).lexer.input == old(self).lexer.input,
            r matches Ok(v) ==> wf_value(v@) && v@ is Arr && final(self).measure() < old(
                self,
            ).measure(),
            r matches Err(e) ==> located(e, old(self).lexer.input@),
            !(old(self).current_token@ is LeftBracket) ==> r is Err,
            old(self).in_sync() && old(self).current_token@ is LeftBracket ==> (match
                spec_parse_array_at(old(self).lexer.input@, old(self).pos@.1) {
                SpecParsed::Val(v, end) => {
                    &&& (r matches Ok(w) ==> w@ == v && final(self).in_sync()
                        && final(self).pos@.0 == end && old(self).pos@.0 < end)
                    &&& (r matches Err(e) ==> lookahead_err(old(self).lexer.input@, end, e))
                },
                SpecParsed::Fail(e0) => r matches Err(e) && e.message@ == e0.msg && e.position
                    == e0.pos,
            }),
        decreases self.measure(), 0int,
    {
        let ghost s = self.lexer.input@;
        let ghost g = self.in_sync() && self.current_token@ is LeftBracket;
        let ghost i_open = self.pos@.1;
        let ghost arr0 = spec_parse_array_at(s, i_open);
        proof {
            if self.in_sync() {
                lemma_token_at_bounds(s, self.pos@.0);
                lemma_token_at_bounds(s, self.pos@.1);
            }
        }
        match self.expect_token(Token::LeftBracket) {
            Err(e) => {
                proof {
                    if g && !(old(self).peek_token@ is RightBracket) {
                        lemma_arr_items_bad_next(s, i_open, Seq::empty());
                    }
                }
                return Err(e);
            },
            Ok(_) => {},
        }
        let mut elements: Vec<JsonValue> = Vec::new();
        if matches!(self.current_token, Token::RightBracket) {
            let ghost end_empty = self.pos@.1;
            match self.advance() {
                Err(e) => {
                    return Err(e);
                },
                Ok(_) => {},
            }
            proof {
                if g {
                    assert(arr0 == SpecParsed::Val(SpecValue::Arr(Seq::empty()), end_empty));
                    assert(spec_of(JsonValue::Array(elements)) == SpecValue::Arr(
                        spec_of_seq(elements@),
                    ));
                    assert(spec_of_seq(elements@) =~= Seq::<SpecValue>::empty());
                }
            }
            return Ok(JsonValue::Array(elements));
        }
        loop
            invariant
                self.wf(),
                self.lexer.input == old(self).lexer.input,
                self.measure() < old(self).measure(),
                forall|k: int| 0 <= k < elements@.len() ==> wf_value(
                    spec_of(#[trigger] elements@[k]),
                ),
                g ==> self.in_sync(),
                g ==> arr0 == spec_parse_arr_items(s, self.pos@.0, spec_of_seq(elements@)),
                g ==> old(self).pos@.0 < self.pos@.0,
            decreases self.measure(),
        {
            let ghost i_k = self.pos@.0;
            let ghost acc0 = spec_of_seq(elements@);
            proof {
                if g {
                    lemma_token_at_bounds(s, self.pos@.0);
                    lemma_token_at_bounds(s, self.pos@.1);
                }
            }
            let element = match self.parse_value() {
                Ok(v) => v,
                Err(e) => {
                    proof {
                        if g {
                            lemma_parse_value_bounds(s, i_k);
                        }
                    }
                    return Err(e);
                },
            };
            let ghost elements_pre = elements@;
            elements.push(element);
            proof {
                if g {
                    assert(elements@.drop_last() =~= elements_pre);
                    assert(spec_of_seq(elements@) =~= acc0.push(spec_of(element)));
                    lemma_token_at_bounds(s, self.pos@.0);
                    lemma_token_at_bounds(s, self.pos@.1);
                }
            }
            let ghost js_g = self.pos@.1;
            let ghost sep_peek = self.peek_token@;
            match &self.current_token {
                Token::Comma => {
                    match self.advance() {
                        Err(e) => {
                            proof {
                                if g && !(sep_peek is RightBracket) {
                                    lemma_arr_items_bad_next(s, js_g, spec_of_seq(elements@));
                                }
                            }
                            return Err(e);
                        },
                        Ok(_) => {},
                    }
                    if matches!(self.current_token, Token::RightBracket) {
                        return Err(
                            ParseError::new(
                                String::from_str("Trailing comma not allowed"),
                                self.lexer.position,
                                self.lexer.input,
                            ),
                        );
                    }
                },
                Token::RightBracket => {
                    match self.advance() {
                        Err(e) => {
                            return Err(e);
                        },
                        Ok(_) => {},
                    }
                    proof {
                        lemma_spec_of_seq(elements@);
                    }
                    return Ok(JsonValue::Array(elements));
                },
                _ => {
                    let msg = String::from_str("Expected ',' or ']', found ").concat(
                        token_kind_str(&self.current_token),
                    );
                    return Err(ParseError::new(msg, self.lexer.position, self.lexer.input));
                },
            }
        }
    }
}

} // verus!
