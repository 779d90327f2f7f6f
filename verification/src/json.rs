//! The value tree: a tagged union for parsed JSON documents, plus a canonical
//! re-serialization of a tree back to JSON text.
//!
//! Numbers are kept as scanned: a sign, the decimal digits before the point,
//! and the decimal digits after it. No floating-point conversion takes place,
//! so no precision is lost and re-serialization reproduces the digits.

use vstd::prelude::*;

use crate::chars::{chars_to_string, is_digit, push_str_chars};

verus! {

broadcast use vstd::std_specs::vec::group_vec_axioms;

/// Mathematical model of a scanned number: sign and decimal digit sequences.
pub struct SpecNumber {
    pub negative: bool,
    pub int_digits: Seq<char>,
    pub frac_digits: Seq<char>,
}

/// Mathematical model of a JSON value tree.
pub enum SpecValue {
    Null,
    Bool(bool),
    Num(SpecNumber),
    Str(Seq<char>),
    Arr(Seq<SpecValue>),
    Obj(Seq<(Seq<char>, SpecValue)>),
}

/// A JSON number as scanned from the input: an optional leading minus, the
/// digits before the decimal point, and the digits after it (empty when the
/// number had no fractional part).
#[derive(Debug, Clone, PartialEq)]
pub struct JsonNumber {
    pub negative: bool,
    pub int_digits: String,
    pub frac_digits: String,
}

impl View for JsonNumber {
    type V = SpecNumber;

    open spec fn view(&self) -> SpecNumber {
        SpecNumber {
            negative: self.negative,
            int_digits: self.int_digits@,
            frac_digits: self.frac_digits@,
        }
    }
}

/// A parsed JSON value.
///
/// Objects are an ordered sequence of key-value pairs, not a map: duplicate
/// keys are preserved in parse order, never merged. Verus refuses the derived
/// `Clone` on this recursive enum, so `clone` is written and verified by hand.
#[derive(Debug, PartialEq)]
pub enum JsonValue {
    Null,
    Boolean(bool),
    Number(JsonNumber),
    String(String),
    Array(Vec<JsonValue>),
    Object(Vec<(String, JsonValue)>),
}

pub open spec fn spec_of(v: JsonValue) -> SpecValue
    decreases v,
    via spec_of_dec
{
    match v {
        JsonValue::Null => SpecValue::Null,
        JsonValue::Boolean(b) => SpecValue::Bool(b),
        JsonValue::Number(n) => SpecValue::Num(n@),
        JsonValue::String(s) => SpecValue::Str(s@),
        JsonValue::Array(elems) => SpecValue::Arr(spec_of_seq(elems@)),
        JsonValue::Object(pairs) => SpecValue::Obj(spec_of_pairs(pairs@)),
    }
}

pub open spec fn spec_of_seq(elems: Seq<JsonValue>) -> Seq<SpecValue>
    decreases elems,
{
    if elems.len() == 0 {
        Seq::empty()
    } else {
        spec_of_seq(elems.drop_last()).push(spec_of(elems.last()))
    }
}

pub open spec fn spec_of_pairs(pairs: Seq<(String, JsonValue)>) -> Seq<(Seq<char>, SpecValue)>
    decreases pairs,
{
    if pairs.len() == 0 {
        Seq::empty()
    } else {
        spec_of_pairs(pairs.drop_last()).push((pairs.last().0@, spec_of(pairs.last().1)))
    }
}

#[via_fn]
proof fn spec_of_dec(v: JsonValue) {
    broadcast use vstd::std_specs::vec::group_vec_axioms;

    match v {
        JsonValue::Array(elems) => {
            assert(decreases_to!(v => elems));
            assert(decreases_to!(elems => elems@));
        },
        JsonValue::Object(pairs) => {
            assert(decreases_to!(v => pairs));
            assert(decreases_to!(pairs => pairs@));
        },
        _ => {},
    }
}

/// The model of a sequence of values is pointwise the model of each value.
pub proof fn lemma_spec_of_seq(elems: Seq<JsonValue>)
    ensures
        spec_of_seq(elems).len() == elems.len(),
        forall|k: int| 0 <= k < elems.len() ==> #[trigger] spec_of_seq(elems)[k] == spec_of(
            elems[k],
        ),
    decreases elems.len(),
{
    if elems.len() > 0 {
        lemma_spec_of_seq(elems.drop_last());
    }
}

/// The model of a sequence of pairs is pointwise the model of each pair.
pub proof fn lemma_spec_of_pairs(pairs: Seq<(String, JsonValue)>)
    ensures
        spec_of_pairs(pairs).len() == pairs.len(),
        forall|k: int| 0 <= k < pairs.len() ==> #[trigger] spec_of_pairs(pairs)[k] == (
            pairs[k].0@,
            spec_of(pairs[k].1),
        ),
    decreases pairs.len(),
{
    if pairs.len() > 0 {
        lemma_spec_of_pairs(pairs.drop_last());
    }
}

impl View for JsonValue {
    type V = SpecValue;

    open spec fn view(&self) -> SpecValue {
        spec_of(*self)
    }
}

/// A well-formed number holds decimal digits only, at least one of them.
pub open spec fn wf_number(n: SpecNumber) -> bool {
    &&& forall|i: int| 0 <= i < n.int_digits.len() ==> is_digit(#[trigger] n.int_digits[i])
    &&& forall|i: int| 0 <= i < n.frac_digits.len() ==> is_digit(#[trigger] n.frac_digits[i])
    &&& n.int_digits.len() + n.frac_digits.len() >= 1
}

/// Every number in the tree is well formed.
pub open spec fn wf_value(v: SpecValue) -> bool
    decreases v,
{
    match v {
        SpecValue::Null => true,
        SpecValue::Bool(_) => true,
        SpecValue::Num(n) => wf_number(n),
        SpecValue::Str(_) => true,
        SpecValue::Arr(elems) => forall|i: int|
            0 <= i < elems.len() ==> wf_value(#[trigger] elems[i]),
        SpecValue::Obj(pairs) => forall|i: int|
            0 <= i < pairs.len() ==> wf_value(#[trigger] pairs[i].1),
    }
}

/// How one character is escaped inside a rendered string.
pub open spec fn spec_escape_char(c: char) -> Seq<char> {
    if c == '"' {
        seq!['\\', '"']
    } else if c == '\\' {
        seq!['\\', '\\']
    } else if c == '\n' {
        seq!['\\', 'n']
    } else if c == '\r' {
        seq!['\\', 'r']
    } else if c == '\t' {
        seq!['\\', 't']
    } else {
        seq![c]
    }
}

/// The escaped form of a whole string.
pub open spec fn spec_escape(s: Seq<char>) -> Seq<char>
    decreases s.len(),
{
    if s.len() == 0 {
        Seq::empty()
    } else {
        spec_escape(s.drop_last()) + spec_escape_char(s.last())
    }
}

/// The rendered form of a number: sign, integer digits, and the fractional
/// digits after a point when there are any.
pub open spec fn spec_render_number(n: SpecNumber) -> Seq<char> {
    (if n.negative {
        seq!['-']
    } else {
        Seq::<char>::empty()
    }) + n.int_digits + (if n.frac_digits.len() > 0 {
        seq!['.'] + n.frac_digits
    } else {
        Seq::<char>::empty()
    })
}

/// The canonical rendering of a value tree back to JSON text.
pub open spec fn spec_render(v: SpecValue) -> Seq<char>
    decreases v,
{
    match v {
        SpecValue::Null => "null"@,
        SpecValue::Bool(b) => if b {
            "true"@
        } else {
            "false"@
        },
        SpecValue::Num(n) => spec_render_number(n),
        SpecValue::Str(s) => seq!['"'] + spec_escape(s) + seq!['"'],
        SpecValue::Arr(elems) => seq!['['] + spec_render_elems(elems) + seq![']'],
        SpecValue::Obj(pairs) => seq!['{'] + spec_render_pairs(pairs) + seq!['}'],
    }
}

/// Array elements joined by `", "`.
pub open spec fn spec_render_elems(elems: Seq<SpecValue>) -> Seq<char>
    decreases elems,
{
    if elems.len() == 0 {
        Seq::empty()
    } else if elems.len() == 1 {
        spec_render(elems[0])
    } else {
        spec_render_elems(elems.drop_last()) + seq![',', ' '] + spec_render(elems.last())
    }
}

/// One rendered key-value pair: the escaped key in quotes, `": "`, the value.
pub open spec fn spec_render_pair(p: (Seq<char>, SpecValue)) -> Seq<char>
    decreases p,
{
    seq!['"'] + spec_escape(p.0) + seq!['"', ':', ' '] + spec_render(p.1)
}

/// Object pairs joined by `", "`.
pub open spec fn spec_render_pairs(pairs: Seq<(Seq<char>, SpecValue)>) -> Seq<char>
    decreases pairs,
{
    if pairs.len() == 0 {
        Seq::empty()
    } else if pairs.len() == 1 {
        spec_render_pair(pairs[0])
    } else {
        spec_render_pairs(pairs.drop_last()) + seq![',', ' '] + spec_render_pair(pairs.last())
    }
}

/// Appends the escaped form of `s` to `out`.
pub(crate) fn escape_into(out: &mut Vec<char>, s: &str)
    ensures
        final(out)@ == old(out)@ + spec_escape(s@),
{
    let len = s.unicode_len();
    let mut i: usize = 0;
    while i < len
        invariant
            0 <= i <= len == s@.len(),
            out@ == old(out)@ + spec_escape(s@.take(i as int)),
        decreases len - i,
    {
        let c = s.get_char(i);
        if c == '"' {
            out.push('\\');
            out.push('"');
        } else if c == '\\' {
            out.push('\\');
            out.push('\\');
        } else if c == '\n' {
            out.push('\\');
            out.push('n');
        } else if c == '\r' {
            out.push('\\');
            out.push('r');
        } else if c == '\t' {
            out.push('\\');
            out.push('t');
        } else {
            out.push(c);
        }
        proof {
            assert(s@.take(i + 1 as int).drop_last() =~= s@.take(i as int));
            assert(s@.take(i + 1 as int).last() == s@[i as int]);
            assert(out@ =~= old(out)@ + spec_escape(s@.take(i + 1 as int)));
        }
        i = i + 1;
    }
    proof {
        assert(s@.take(len as int) =~= s@);
    }
}

/// Escapes the characters `"`, `\`, and the newline, carriage-return and tab
/// controls for inclusion inside a quoted JSON string.
pub fn escape_string(s: &str) -> (r: String)
    ensures
        r@ == spec_escape(s@),
{
    let mut out: Vec<char> = Vec::new();
    escape_into(&mut out, s);
    chars_to_string(&out)
}

/// Appends the rendering of `v` to `out`.
#[verifier::loop_isolation(false)]
#[verifier::rlimit(60)]
fn render_into(v: &JsonValue, out: &mut Vec<char>)
    ensures
        final(out)@ == old(out)@ + spec_render(v@),
    decreases *v,
{
    match v {
        JsonValue::Null => {
            push_str_chars(out, "null");
        },
        JsonValue::Boolean(b) => {
            if *b {
                push_str_chars(out, "true");
            } else {
                push_str_chars(out, "false");
            }
        },
        JsonValue::Number(n) => {
            if n.negative {
                out.push('-');
            }
            push_str_chars(out, n.int_digits.as_str());
            if !n.frac_digits.as_str().is_empty() {
                out.push('.');
                push_str_chars(out, n.frac_digits.as_str());
            }
            proof {
                assert(out@ =~= old(out)@ + spec_render_number(n@));
            }
        },
        JsonValue::String(s) => {
            out.push('"');
            escape_into(out, s.as_str());
            out.push('"');
            proof {
                assert(out@ =~= old(out)@ + spec_render(v@));
            }
        },
        JsonValue::Array(elems) => {
            let ghost evs = spec_of_seq(elems@);
            proof {
                lemma_spec_of_seq(elems@);
            }
            out.push('[');
            let ghost base = out@;
            let n = elems.len();
            let mut i: usize = 0;
            while i < n
                invariant
                    0 <= i <= n == elems@.len(),
                    evs == spec_of_seq(elems@),
                    evs.len() == n,
                    forall|k: int| 0 <= k < n ==> #[trigger] evs[k] == spec_of(elems@[k]),
                    out@ == base + spec_render_elems(evs.take(i as int)),
                decreases n - i,
            {
                if i > 0 {
                    out.push(',');
                    out.push(' ');
                }
                proof {
                    let ghost vv = *v;
                    assert(vv->Array_0 == *elems);
                    assert(decreases_to!(vv => vv->Array_0));
                    assert(decreases_to!(*elems => elems@));
                    assert(decreases_to!(elems@ => elems@[i as int]));
                }
                render_into(&elems[i], out);
                proof {
                    assert(evs.take(i + 1 as int).drop_last() =~= evs.take(i as int));
                    assert(evs.take(i + 1 as int).last() == evs[i as int]);
                    if i == 0 {
                        assert(out@ =~= base + spec_render_elems(evs.take(1)));
                    } else {
                        assert(out@ =~= base + spec_render_elems(evs.take(i + 1 as int)));
                    }
                }
                i = i + 1;
            }
            out.push(']');
            proof {
                assert(evs.take(n as int) =~= evs);
                assert(out@ =~= old(out)@ + spec_render(v@));
            }
        },
        JsonValue::Object(pairs) => {
            let ghost pvs = spec_of_pairs(pairs@);
            proof {
                lemma_spec_of_pairs(pairs@);
            }
            out.push('{');
            let ghost base = out@;
            let n = pairs.len();
            let mut i: usize = 0;
            while i < n
                invariant
                    0 <= i <= n == pairs@.len(),
                    pvs == spec_of_pairs(pairs@),
                    pvs.len() == n,
                    forall|k: int| 0 <= k < n ==> #[trigger] pvs[k] == (
                        pairs@[k].0@,
                        spec_of(pairs@[k].1),
                    ),
                    out@ == base + spec_render_pairs(pvs.take(i as int)),
                decreases n - i,
            {
                if i > 0 {
                    out.push(',');
                    out.push(' ');
                }
                out.push('"');
                escape_into(out, pairs[i].0.as_str());
                out.push('"');
                out.push(':');
                out.push(' ');
                proof {
                    let ghost vv = *v;
                    assert(vv->Object_0 == *pairs);
                    assert(decreases_to!(vv => vv->Object_0));
                    assert(decreases_to!(*pairs => pairs@));
                    assert(decreases_to!(pairs@ => pairs@[i as int]));
                    assert(decreases_to!(pairs@[i as int] => pairs@[i as int].1));
                }
                render_into(&pairs[i].1, out);
                proof {
                    assert(pvs.take(i + 1 as int).drop_last() =~= pvs.take(i as int));
                    assert(pvs.take(i + 1 as int).last() == pvs[i as int]);
                    assert(pvs[i as int] == (pairs@[i as int].0@, spec_of(pairs@[i as int].1)));
                    assert(spec_render_pair(pvs[i as int]) =~= seq!['"'] + spec_escape(
                        pairs@[i as int].0@,
                    ) + seq!['"', ':', ' '] + spec_render(spec_of(pairs@[i as int].1)));
                    if i == 0 {
                        assert(pvs.take(1).len() == 1);
                        assert(pvs.take(1)[0] == pvs[0]);
                        assert(spec_render_pairs(pvs.take(1)) == spec_render_pair(pvs[0]));
                        assert(out@ =~= base + spec_render_pairs(pvs.take(1)));
                    } else {
                        assert(out@ =~= base + spec_render_pairs(pvs.take(i + 1 as int)));
                    }
                }
                i = i + 1;
            }
            out.push('}');
            proof {
                assert(pvs.take(n as int) =~= pvs);
                assert(out@ =~= old(out)@ + spec_render(v@));
            }
        },
    }
}

impl Clone for JsonValue {
    /// A clone has the same mathematical model as the original.
    #[verifier::loop_isolation(false)]
    fn clone(&self) -> (r: JsonValue)
        ensures
            r@ == self@,
        decreases *self,
    {
        match self {
            JsonValue::Null => JsonValue::Null,
            JsonValue::Boolean(b) => JsonValue::Boolean(*b),
            JsonValue::Number(n) => JsonValue::Number(
                JsonNumber {
                    negative: n.negative,
                    int_digits: n.int_digits.clone(),
                    frac_digits: n.frac_digits.clone(),
                },
            ),
            JsonValue::String(s) => JsonValue::String(s.clone()),
            JsonValue::Array(elems) => {
                let mut out: Vec<JsonValue> = Vec::new();
                let n = elems.len();
                let mut i: usize = 0;
                while i < n
                    invariant
                        0 <= i <= n == elems@.len(),
                        out@.len() == i,
                        forall|k: int| 0 <= k < i ==> spec_of(#[trigger] out@[k]) == spec_of(
                            elems@[k],
                        ),
                    decreases n - i,
                {
                    proof {
                        let ghost vv = *self;
                        assert(vv->Array_0 == *elems);
                        assert(decreases_to!(vv => vv->Array_0));
                        assert(decreases_to!(*elems => elems@));
                        assert(decreases_to!(elems@ => elems@[i as int]));
                    }
                    out.push(elems[i].clone());
                    i = i + 1;
                }
                proof {
                    lemma_spec_of_seq(out@);
                    lemma_spec_of_seq(elems@);
                    assert(spec_of_seq(out@) =~= spec_of_seq(elems@));
                }
                JsonValue::Array(out)
            },
            JsonValue::Object(pairs) => {
                let mut out: Vec<(String, JsonValue)> = Vec::new();
                let n = pairs.len();
                let mut i: usize = 0;
                while i < n
                    invariant
                        0 <= i <= n == pairs@.len(),
                        out@.len() == i,
                        forall|k: int| 0 <= k < i ==> (#[trigger] out@[k]).0@ == pairs@[k].0@
                            && spec_of(out@[k].1) == spec_of(pairs@[k].1),
                    decreases n - i,
                {
                    proof {
                        let ghost vv = *self;
                        assert(vv->Object_0 == *pairs);
                        assert(decreases_to!(vv => vv->Object_0));
                        assert(decreases_to!(*pairs => pairs@));
                        assert(decreases_to!(pairs@ => pairs@[i as int]));
                        assert(decreases_to!(pairs@[i as int] => pairs@[i as int].1));
                    }
                    let key = pairs[i].0.clone();
                    let val = pairs[i].1.clone();
                    out.push((key, val));
                    i = i + 1;
                }
                proof {
                    lemma_spec_of_pairs(out@);
                    lemma_spec_of_pairs(pairs@);
                    assert(spec_of_pairs(out@) =~= spec_of_pairs(pairs@));
                }
                JsonValue::Object(out)
            },
        }
    }
}

impl JsonValue {
    /// Renders the value tree back to JSON text.
    pub fn to_json_string(&self) -> (r: String)
        ensures
            r@ == spec_render(self@),
    {
        let mut out: Vec<char> = Vec::new();
        render_into(self, &mut out);
        chars_to_string(&out)
    }
}

} // verus!
