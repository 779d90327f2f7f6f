//! Character classification and text-building helpers shared by the scanner
//! and the value-tree renderer.

use vstd::prelude::*;

verus! {

/// ASCII decimal digit, `'0'` through `'9'`.
pub open spec fn is_digit(c: char) -> bool {
    48 <= c as u32 <= 57
}

/// The Unicode `White_Space` set, as `char::is_whitespace` documents it:
/// the ASCII whitespace controls and space, next line, no-break space, and
/// the spacing and separator characters of the higher planes.
pub open spec fn is_ws_char(c: char) -> bool {
    let u = c as u32;
    ||| u == 0x09
    ||| u == 0x0A
    ||| u == 0x0B
    ||| u == 0x0C
    ||| u == 0x0D
    ||| u == 0x20
    ||| u == 0x85
    ||| u == 0xA0
    ||| u == 0x1680
    ||| (0x2000 <= u && u <= 0x200A)
    ||| u == 0x2028
    ||| u == 0x2029
    ||| u == 0x202F
    ||| u == 0x205F
    ||| u == 0x3000
}

/// What `char::is_alphabetic` returns: Unicode alphabetic classification,
/// a function of the character alone.
pub uninterp spec fn is_alpha_char(c: char) -> bool;

/// What `char::is_alphanumeric` returns: Unicode alphanumeric classification,
/// a function of the character alone.
pub uninterp spec fn is_alnum_char(c: char) -> bool;

/// Relies on `char::is_whitespace`: true exactly for the characters with the
/// Unicode `White_Space` property, the set written out in [`is_ws_char`].
pub assume_specification[ char::is_whitespace ](c: char) -> (r: bool)
    ensures
        r == is_ws_char(c),
;

/// Relies on `char::is_alphabetic`: whether the character is in the Unicode
/// `Alphabetic` category, which contains every ASCII letter.
pub assume_specification[ char::is_alphabetic ](c: char) -> (r: bool)
    ensures
        r == is_alpha_char(c),
        (97 <= c as u32 <= 122) || (65 <= c as u32 <= 90) ==> r,
;

/// Relies on `char::is_alphanumeric`: true exactly when the character is
/// alphabetic or numeric, so every alphabetic character is alphanumeric and
/// every ASCII letter or digit is alphanumeric.
pub assume_specification[ char::is_alphanumeric ](c: char) -> (r: bool)
    ensures
        r == is_alnum_char(c),
        is_alpha_char(c) ==> r,
        is_digit(c) ==> r,
;

pub fn is_digit_char(c: char) -> (r: bool)
    ensures
        r == is_digit(c),
{
    let u = c as u32;
    48 <= u && u <= 57
}

/// Relies on `String`'s `FromIterator<char>`: collecting characters yields
/// the string made of exactly those characters, in order.
#[verifier::external_body]
pub(crate) fn chars_to_string(v: &Vec<char>) -> (s: String)
    ensures
        s@ == v@,
{
    v.iter().collect()
}

/// Appends every character of `s` to `out`.
pub(crate) fn push_str_chars(out: &mut Vec<char>, s: &str)
    ensures
        final(out)@ == old(out)@ + s@,
{
    let len = s.unicode_len();
    let mut i: usize = 0;
    while i < len
        invariant
            0 <= i <= len == s@.len(),
            out@ == old(out)@ + s@.subrange(0, i as int),
        decreases len - i,
    {
        out.push(s.get_char(i));
        proof {
            assert(out@ =~= old(out)@ + s@.subrange(0, i + 1 as int));
        }
        i = i + 1;
    }
    proof {
        assert(out@ =~= old(out)@ + s@);
    }
}

/// Appends every character of `s` to `out`.
pub(crate) fn push_chars(out: &mut Vec<char>, s: &Vec<char>)
    ensures
        final(out)@ == old(out)@ + s@,
{
    let len = s.len();
    let mut i: usize = 0;
    while i < len
        invariant
            0 <= i <= len == s@.len(),
            out@ == old(out)@ + s@.subrange(0, i as int),
        decreases len - i,
    {
        out.push(s[i]);
        proof {
            assert(out@ =~= old(out)@ + s@.subrange(0, i + 1 as int));
        }
        i = i + 1;
    }
    proof {
        assert(out@ =~= old(out)@ + s@);
    }
}

/// Decimal rendering of a natural number, most significant digit first.
pub open spec fn spec_dec(n: nat) -> Seq<char>
    decreases n,
{
    if n < 10 {
        seq![spec_digit_char(n % 10)]
    } else {
        spec_dec(n / 10).push(spec_digit_char(n % 10))
    }
}

pub open spec fn spec_digit_char(d: nat) -> char {
    (48 + d as u8) as char
}

/// Appends the decimal digits of `n` to `out`.
pub(crate) fn push_dec_chars(out: &mut Vec<char>, n: usize)
    ensures
        final(out)@ == old(out)@ + spec_dec(n as nat),
{
    if n == 0 {
        out.push('0');
        proof {
            assert(out@ =~= old(out)@ + spec_dec(0));
        }
        return ;
    }
    let mut low: Vec<char> = Vec::new();
    let mut m: usize = n;
    while m > 0
        invariant
            if m > 0 {
                spec_dec(n as nat) == spec_dec(m as nat) + low@.reverse()
            } else {
                spec_dec(n as nat) == low@.reverse()
            },
        decreases m,
    {
        let ghost old_low = low@;
        let d: u8 = (m % 10) as u8;
        low.push((48 + d) as char);
        proof {
            assert(low@.reverse() =~= seq![spec_digit_char((m % 10) as nat)] + old_low.reverse());
            if m >= 10 {
                assert(spec_dec(m as nat) =~= spec_dec(m as nat / 10) + seq![
                    spec_digit_char((m % 10) as nat),
                ]);
            } else {
                assert(spec_dec(m as nat) =~= seq![spec_digit_char((m % 10) as nat)]);
            }
        }
        m = m / 10;
    }
    let mut i: usize = low.len();
    while i > 0
        invariant
            0 <= i <= low@.len(),
            spec_dec(n as nat) == low@.reverse(),
            out@ == old(out)@ + low@.subrange(i as int, low@.len() as int).reverse(),
        decreases i,
    {
        i = i - 1;
        let c = low[i];
        out.push(c);
        proof {
            assert(out@ =~= old(out)@ + low@.subrange(i as int, low@.len() as int).reverse());
        }
    }
    proof {
        assert(low@.subrange(0, low@.len() as int) =~= low@);
        assert(out@ =~= old(out)@ + spec_dec(n as nat));
    }
}

} // verus!
