//! A JSON text parser: a lexical scanner that turns the input into tokens,
//! and a recursive-descent parser that consumes those tokens to build a typed
//! value tree, rejecting malformed input with a located diagnostic.

pub mod chars;
pub mod error;
pub mod json;
pub mod lexer;
pub mod parser;

use vstd::prelude::*;

verus! {

pub use crate::error::ParseError;
pub use crate::json::JsonValue;
pub use crate::parser::Parser;

use crate::error::located;
use crate::json::wf_value;
use crate::lexer::{lemma_token_at_bounds, spec_token_at, ws_end};
use crate::parser::{is_value_start, lemma_value_at_bad_next, spec_parse_doc, spec_parse_value_at,
    SpecParsed};

/// Parses a JSON string into a value tree.
///
/// The result is pinned to the functional parser [`spec_parse_doc`]: when the
/// input is exactly one JSON document under this grammar, parsing succeeds
/// with precisely that document's tree; on anything else it fails, with an
/// error whose line and column always agree with recomputing them from the
/// error's offset and the input.
pub fn parse_json(input: &str) -> (r: Result<JsonValue, ParseError>)
    requires
        input@.len() < usize::MAX,
    ensures
        r matches Ok(v) ==> wf_value(v@),
        r matches Err(e) ==> located(e, input@),
        ws_end(input@, 0) == input@.len() ==> r is Err,
        (match spec_token_at(input@, 0) {
            Err(e0) => r matches Err(e) && e.message@ == e0.msg && e.position == e0.pos,
            Ok((t0, j0)) => {
                &&& (!is_value_start(t0) ==> r is Err)
                &&& (!(t0 is Eof) && spec_token_at(input@, j0) is Err ==> r is Err)
            },
        }),
        (match spec_parse_doc(input@, 0) {
            SpecParsed::Val(v, end) => r matches Ok(w) && w@ == v,
            SpecParsed::Fail(e0) => r matches Err(e) && e.message@ == e0.msg && e.position
                == e0.pos,
        }),
{
    let mut parser = match Parser::new(input) {
        Ok(p) => p,
        Err(e) => {
            proof {
                if spec_token_at(input@, 0) is Ok {
                    lemma_token_at_bounds(input@, 0);
                    lemma_value_at_bad_next(input@, 0);
                    match spec_parse_value_at(input@, 0) {
                        SpecParsed::Val(v, end) => {
                            assert(spec_token_at(input@, end) is Err);
                        },
                        SpecParsed::Fail(_) => {},
                    }
                }
            }
            return Err(e);
        },
    };
    parser.parse()
}

} // verus!
