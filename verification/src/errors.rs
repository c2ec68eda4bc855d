//! Construction of `JSONParseError` records. Every reason string is pinned
//! exactly: `spec_reason` says, for each fault, the full message, and each
//! builder here is proved to produce it.
use vstd::prelude::*;
use vstd::string::StrSliceExecFns;
use vstd::string::StringExecFns;

use crate::JSONParseError;
use crate::grammar::Fault;

verus! {

/// The decimal digit character for a value below ten.
pub open spec fn spec_digit(d: nat) -> char {
    ((d + 0x30) as char)
}

/// The decimal digits of a nonnegative number, most significant first.
pub open spec fn spec_decimal(n: nat) -> Seq<char>
    decreases n,
{
    if n < 10 {
        seq![spec_digit(n)]
    } else {
        spec_decimal(n / 10).push(spec_digit(n % 10))
    }
}

/// The full reason message for each fault.
pub open spec fn spec_reason(f: Fault) -> Seq<char> {
    match f {
        Fault::Eof => "String ended unexpectedly"@,
        Fault::Empty => "Empty string provided"@,
        Fault::Unexpected { c, at } => "Unexpected character "@ + seq![c] + " at position "@
            + spec_decimal(at as nat),
        Fault::Expected { want, c, at } => "Unexpected character "@ + seq![c] + " at position "@
            + spec_decimal(at as nat) + ". Expected "@ + seq![want],
        Fault::Escape { what, at } => "Invalid escape sequence "@ + what + " at position "@
            + spec_decimal(at as nat),
    }
}

/// Relies on `String::push`: appends exactly one character.
#[verifier::external_body]
pub(crate) fn push_char(s: &mut String, c: char)
    ensures
        final(s)@ == old(s)@.push(c),
{
    s.push(c);
}

/// The decimal digit character for a value below ten.
pub fn digit_char(d: usize) -> (c: char)
    requires
        d < 10,
    ensures
        c == spec_digit(d as nat),
{
    match d {
        0 => '0',
        1 => '1',
        2 => '2',
        3 => '3',
        4 => '4',
        5 => '5',
        6 => '6',
        7 => '7',
        8 => '8',
        _ => '9',
    }
}

/// A number written out in decimal.
pub fn usize_to_string(n: usize) -> (r: String)
    ensures
        r@ == spec_decimal(n as nat),
    decreases n,
{
    if n < 10 {
        let mut s = String::new();
        push_char(&mut s, digit_char(n));
        proof {
            assert(s@ =~= seq![spec_digit(n as nat)]);
        }
        s
    } else {
        let mut s = usize_to_string(n / 10);
        push_char(&mut s, digit_char(n % 10));
        s
    }
}

/// An error with the given reason.
pub fn make_err(s: String) -> (r: JSONParseError)
    ensures
        r.reason@ == s@,
{
    JSONParseError { reason: s }
}

/// The error for input that ended while more characters were expected.
pub fn unexpected_eof() -> (r: JSONParseError)
    ensures
        r.reason@ == spec_reason(Fault::Eof),
{
    make_err("String ended unexpectedly".to_owned())
}

/// The error for a character that no rule accepts at its position.
pub fn unexpected_character(position: usize, ch: char) -> (r: JSONParseError)
    ensures
        r.reason@ == spec_reason(Fault::Unexpected { c: ch, at: position as int }),
{
    let mut s = "Unexpected character ".to_owned();
    push_char(&mut s, ch);
    s.append(" at position ");
    let digits = usize_to_string(position);
    s.append(digits.as_str());
    proof {
        assert(s@ =~= spec_reason(Fault::Unexpected { c: ch, at: position as int }));
    }
    make_err(s)
}

/// The error for a character other than the single one a rule demanded.
pub fn expected_character(expected: char, found: char, position: usize) -> (r: JSONParseError)
    ensures
        r.reason@ == spec_reason(
            Fault::Expected { want: expected, c: found, at: position as int },
        ),
{
    let mut s = "Unexpected character ".to_owned();
    push_char(&mut s, found);
    s.append(" at position ");
    let digits = usize_to_string(position);
    s.append(digits.as_str());
    s.append(". Expected ");
    push_char(&mut s, expected);
    proof {
        assert(s@ =~= spec_reason(
            Fault::Expected { want: expected, c: found, at: position as int },
        ));
    }
    make_err(s)
}

/// The error for a malformed escape sequence.
pub fn invalid_escape_sequence(position: usize, sequence: &str) -> (r: JSONParseError)
    ensures
        r.reason@ == spec_reason(Fault::Escape { what: sequence@, at: position as int }),
{
    let mut s = "Invalid escape sequence ".to_owned();
    s.append(sequence);
    s.append(" at position ");
    let digits = usize_to_string(position);
    s.append(digits.as_str());
    proof {
        assert(s@ =~= spec_reason(Fault::Escape { what: sequence@, at: position as int }));
    }
    make_err(s)
}

} // verus!
