//! The recursive-descent parser. Every function is proved to return exactly
//! what the corresponding `grammar` specification function says: the same
//! value, the same count of consumed characters, and on rejection an error
//! whose reason is the message of the same fault.
use vstd::prelude::*;
use vstd::string::StrSliceExecFns;
use vstd::string::StringExecFns;

use crate::JSONNumber;
use crate::JSONParseError;
use crate::JSONValue;
use crate::cursor::Cursor;
use crate::cursor::consume_spaces;
use crate::cursor::next_char;
use crate::errors::expected_character;
use crate::errors::invalid_escape_sequence;
use crate::errors::make_err;
use crate::errors::push_char;
use crate::errors::spec_reason;
use crate::errors::unexpected_character;
use crate::errors::unexpected_eof;
use crate::grammar::Fault;
use crate::grammar::ParseOut;
use crate::grammar::spec_digit_run;
use crate::grammar::spec_hex4;
use crate::grammar::spec_hex_val;
use crate::grammar::spec_is_escapable;
use crate::grammar::spec_is_hex;
use crate::grammar::spec_convert_escaped;
use crate::grammar::spec_parse_digits;
use crate::grammar::spec_parse_escape;
use crate::grammar::spec_parse_fraction;
use crate::grammar::spec_parse_literal;
use crate::grammar::spec_parse_number;
use crate::grammar::spec_parse_value;
use crate::grammar::spec_parse_array;
use crate::grammar::spec_parse_object;
use crate::grammar::spec_parse_items;
use crate::grammar::spec_parse_members;
use crate::grammar::spec_parse_json;
use crate::grammar::spec_obj_insert;
use crate::grammar::spec_obj_fold;
use crate::grammar::lemma_dedup_is_fold;
use crate::grammar::lemma_obj_insert_update;
use crate::grammar::lemma_obj_insert_push;
use crate::model::JsonRep;
use crate::model::rep_list;
use crate::model::rep_pairs;
use crate::model::lemma_rep_pairs;
use crate::grammar::lemma_string_body_char;
use crate::grammar::lemma_string_body_control;
use crate::grammar::lemma_string_body_escape;
use crate::grammar::spec_parse_string;
use crate::grammar::spec_string_body;
use crate::model::spec_is_digit;

verus! {

/// Consume one character that must be `expected`.
pub fn read_known_char(cur: &mut Cursor, expected: char) -> (r: Result<(), JSONParseError>)
    requires
        old(cur).wf(),
    ensures
        final(cur).wf(),
        final(cur).text@ == old(cur).text@,
        old(cur).pos <= final(cur).pos,
        match r {
            Ok(_) => old(cur).pos < old(cur).text@.len() && old(cur).text@[old(cur).pos as int]
                == expected && final(cur).pos == old(cur).pos + 1,
            Err(e) => {
                &&& (old(cur).pos >= old(cur).text@.len() ==> e.reason@ == spec_reason(Fault::Eof))
                &&& (old(cur).pos < old(cur).text@.len() ==> old(cur).text@[old(cur).pos as int]
                    != expected && e.reason@ == spec_reason(
                    Fault::Expected {
                        want: expected,
                        c: old(cur).text@[old(cur).pos as int],
                        at: old(cur).pos as int,
                    },
                ))
            },
        },
{
    match cur.advance() {
        None => Err(unexpected_eof()),
        Some((i, ch)) => {
            if ch != expected {
                Err(expected_character(expected, ch, i))
            } else {
                Ok(())
            }
        },
    }
}

/// `spec_parse_literal` after a matched prefix of `j` characters: the whole
/// literal parses like its remainder, shifted by `j`.
proof fn lemma_literal_prefix(s: Seq<char>, pos: int, lit: Seq<char>, j: int)
    requires
        0 <= pos,
        0 <= j <= lit.len(),
        pos + j <= s.len(),
        forall|i: int| 0 <= i < j ==> s[pos + i] == #[trigger] lit[i],
    ensures
        match spec_parse_literal(s, pos + j, lit.skip(j)) {
            ParseOut::Found { v: _, used } => spec_parse_literal(s, pos, lit)
                == (ParseOut::Found { v: (), used: (j + used) as nat }),
            ParseOut::Fail { f } => spec_parse_literal(s, pos, lit) == (ParseOut::<()>::Fail {
                f,
            }),
        },
    decreases j,
{
    if j > 0 {
        assert(lit.drop_first().skip(j - 1) =~= lit.skip(j));
        assert(s[pos + 0] == lit[0]);
        assert forall|i: int|
            0 <= i < j - 1 implies s[pos + 1 + i] == #[trigger] lit.drop_first()[i] by {
            assert(s[pos + (i + 1)] == lit[i + 1]);
            assert(lit.drop_first()[i] == lit[i + 1]);
        }
        lemma_literal_prefix(s, pos + 1, lit.drop_first(), j - 1);
    } else {
        assert(lit.skip(0) =~= lit);
    }
}

/// Consume exactly the characters of `str_value`; on full match hand back
/// `value`.
pub fn parse_const<T>(cur: &mut Cursor, str_value: &str, value: T) -> (r: Result<
    T,
    JSONParseError,
>)
    requires
        old(cur).wf(),
    ensures
        final(cur).wf(),
        final(cur).text@ == old(cur).text@,
        old(cur).pos <= final(cur).pos,
        match r {
            Ok(v) => spec_parse_literal(old(cur).text@, old(cur).pos as int, str_value@)
                matches ParseOut::Found { v: _, used } && v == value && final(cur).pos == old(
                cur,
            ).pos + used,
            Err(e) => spec_parse_literal(old(cur).text@, old(cur).pos as int, str_value@)
                matches ParseOut::Fail { f } && e.reason@ == spec_reason(f),
        },
{
    let ghost s = cur.text@;
    let ghost p0 = cur.pos as int;
    let ghost lit = str_value@;
    let n = str_value.unicode_len();
    let mut j: usize = 0;
    while j < n
        invariant
            cur.wf(),
            s == old(cur).text@,
            p0 == old(cur).pos as int,
            lit == str_value@,
            cur.text@ == s,
            n == lit.len(),
            j <= n,
            cur.pos == p0 + j,
            p0 + j <= s.len(),
            forall|i: int| 0 <= i < j ==> s[p0 + i] == #[trigger] lit[i],
        decreases n - j,
    {
        let correct_char = str_value.get_char(j);
        match cur.advance() {
            None => {
                proof {
                    lemma_literal_prefix(s, p0, lit, j as int);
                    assert(lit.skip(j as int).len() > 0);
                }
                return Err(unexpected_eof());
            },
            Some((i, ch)) => {
                if correct_char != ch {
                    proof {
                        lemma_literal_prefix(s, p0, lit, j as int);
                        assert(lit.skip(j as int)[0] == lit[j as int]);
                    }
                    return Err(unexpected_character(i, ch));
                }
            },
        }
        j = j + 1;
    }
    proof {
        lemma_literal_prefix(s, p0, lit, n as int);
        assert(lit.skip(n as int).len() == 0);
    }
    Ok(value)
}

/// The literal `true`.
pub fn parse_true(cur: &mut Cursor) -> (r: Result<bool, JSONParseError>)
    requires
        old(cur).wf(),
    ensures
        final(cur).wf(),
        final(cur).text@ == old(cur).text@,
        old(cur).pos <= final(cur).pos,
        match r {
            Ok(v) => spec_parse_literal(old(cur).text@, old(cur).pos as int, "true"@)
                matches ParseOut::Found { v: _, used } && v == true && final(cur).pos == old(
                cur,
            ).pos + used,
            Err(e) => spec_parse_literal(old(cur).text@, old(cur).pos as int, "true"@)
                matches ParseOut::Fail { f } && e.reason@ == spec_reason(f),
        },
{
    parse_const(cur, "true", true)
}

/// The literal `false`.
pub fn parse_false(cur: &mut Cursor) -> (r: Result<bool, JSONParseError>)
    requires
        old(cur).wf(),
    ensures
        final(cur).wf(),
        final(cur).text@ == old(cur).text@,
        old(cur).pos <= final(cur).pos,
        match r {
            Ok(v) => spec_parse_literal(old(cur).text@, old(cur).pos as int, "false"@)
                matches ParseOut::Found { v: _, used } && v == false && final(cur).pos == old(
                cur,
            ).pos + used,
            Err(e) => spec_parse_literal(old(cur).text@, old(cur).pos as int, "false"@)
                matches ParseOut::Fail { f } && e.reason@ == spec_reason(f),
        },
{
    parse_const(cur, "false", false)
}

/// The literal `null`.
pub fn parse_null(cur: &mut Cursor) -> (r: Result<(), JSONParseError>)
    requires
        old(cur).wf(),
    ensures
        final(cur).wf(),
        final(cur).text@ == old(cur).text@,
        old(cur).pos <= final(cur).pos,
        match r {
            Ok(_) => spec_parse_literal(old(cur).text@, old(cur).pos as int, "null"@)
                matches ParseOut::Found { v: _, used } && final(cur).pos == old(cur).pos + used,
            Err(e) => spec_parse_literal(old(cur).text@, old(cur).pos as int, "null"@)
                matches ParseOut::Fail { f } && e.reason@ == spec_reason(f),
        },
{
    parse_const(cur, "null", ())
}

/// Whether a character is a decimal digit.
pub fn is_ascii_digit(ch: char) -> (r: bool)
    ensures
        r == spec_is_digit(ch),
{
    let v = ch as u32;
    0x30 <= v && v <= 0x39
}

/// Consume the digit run at the cursor; an empty run at the end of the
/// input is an error.
pub fn read_digits(cur: &mut Cursor) -> (r: Result<String, JSONParseError>)
    requires
        old(cur).wf(),
    ensures
        final(cur).wf(),
        final(cur).text@ == old(cur).text@,
        old(cur).pos <= final(cur).pos,
        match r {
            Ok(d) => spec_parse_digits(old(cur).text@, old(cur).pos as int)
                matches ParseOut::Found { v, used } && v == d@ && final(cur).pos == old(cur).pos
                + used,
            Err(e) => spec_parse_digits(old(cur).text@, old(cur).pos as int)
                matches ParseOut::Fail { f } && e.reason@ == spec_reason(f),
        },
{
    let ghost s = cur.text@;
    let ghost p0 = cur.pos as int;
    let mut result = String::new();
    let mut any = false;
    loop
        invariant
            cur.wf(),
            s == old(cur).text@,
            p0 == old(cur).pos as int,
            cur.text@ == s,
            p0 <= cur.pos,
            result@ =~= s.subrange(p0, cur.pos as int),
            any <==> cur.pos > p0,
            spec_digit_run(s, p0) == (cur.pos - p0) + spec_digit_run(s, cur.pos as int),
        decreases s.len() - cur.pos,
    {
        match next_char(cur) {
            None => {
                if any {
                    return Ok(result);
                }
                return Err(unexpected_eof());
            },
            Some(ch) => {
                if is_ascii_digit(ch) {
                    push_char(&mut result, ch);
                    cur.advance();
                    any = true;
                } else {
                    return Ok(result);
                }
            },
        }
    }
}

/// Consume an optional fraction: nothing, or a dot followed by at least
/// one digit, handed back with its dot. A digit directly at the cursor is
/// an error (it would extend a single-`0` integer part).
pub fn read_fraction(cur: &mut Cursor) -> (r: Result<String, JSONParseError>)
    requires
        old(cur).wf(),
    ensures
        final(cur).wf(),
        final(cur).text@ == old(cur).text@,
        old(cur).pos <= final(cur).pos,
        match r {
            Ok(fr) => spec_parse_fraction(old(cur).text@, old(cur).pos as int)
                matches ParseOut::Found { v, used } && final(cur).pos == old(cur).pos + used && (
            if used == 0 {
                fr@ == Seq::<char>::empty() && v == Seq::<char>::empty()
            } else {
                fr@ == seq!['.'] + v
            }),
            Err(e) => spec_parse_fraction(old(cur).text@, old(cur).pos as int)
                matches ParseOut::Fail { f } && e.reason@ == spec_reason(f),
        },
{
    match next_char(cur) {
        None => Ok(String::new()),
        Some(ch) => {
            if ch == '.' {
                cur.advance();
                let digits = match read_digits(cur) {
                    Ok(d) => d,
                    Err(e) => {
                        return Err(e);
                    },
                };
                if digits.as_str().unicode_len() == 0 {
                    match cur.advance() {
                        Some((i, c2)) => {
                            return Err(unexpected_character(i, c2));
                        },
                        None => {
                            return Err(unexpected_eof());
                        },
                    }
                }
                let mut fr = String::new();
                push_char(&mut fr, '.');
                fr.append(digits.as_str());
                proof {
                    assert(fr@ =~= seq!['.'] + digits@);
                }
                Ok(fr)
            } else if is_ascii_digit(ch) {
                match cur.advance() {
                    Some((i, c2)) => Err(unexpected_character(i, c2)),
                    None => Err(unexpected_eof()),
                }
            } else {
                Ok(String::new())
            }
        },
    }
}

/// The numeric value of a hexadecimal digit character.
pub fn hex_val(c: char) -> (r: Option<u32>)
    ensures
        spec_is_hex(c) ==> r == Some(spec_hex_val(c) as u32) && spec_hex_val(c) <= 15,
        !spec_is_hex(c) ==> r == None::<u32>,
{
    let v = c as u32;
    if 0x30 <= v && v <= 0x39 {
        Some(v - 0x30)
    } else if 0x61 <= v && v <= 0x66 {
        Some(v - 0x61 + 10)
    } else if 0x41 <= v && v <= 0x46 {
        Some(v - 0x41 + 10)
    } else {
        None
    }
}

/// Whether a character may directly follow a backslash.
pub fn is_escapable(ch: char) -> (r: bool)
    ensures
        r == spec_is_escapable(ch),
{
    match ch {
        '"' | '\\' | '/' | 'f' | 'n' | 'r' | 't' | 'b' => true,
        _ => false,
    }
}

/// What a single-character escape denotes.
pub fn convert_escaped(ch: char) -> (r: char)
    ensures
        r == spec_convert_escaped(ch),
{
    match ch {
        't' => '\u{09}',
        'r' => '\u{0d}',
        'n' => '\u{0a}',
        'f' => '\u{0c}',
        'b' => '\u{08}',
        _ => ch,
    }
}

/// Relies on `char::from_u32`: every Unicode scalar value converts to the
/// character with that code point, and the call cannot fail on one.
#[verifier::external_body]
fn char_from_u32(v: u32) -> (c: char)
    requires
        v < 0xD800 || (0xE000 <= v && v <= 0x10FFFF),
    ensures
        c == (v as char),
{
    char::from_u32(v).unwrap()
}

/// Four hexadecimal digits, as a value and as the digit characters read.
fn read_hex4(cur: &mut Cursor) -> (r: Result<(u32, String), JSONParseError>)
    requires
        old(cur).wf(),
        old(cur).pos >= 2,
    ensures
        final(cur).wf(),
        final(cur).text@ == old(cur).text@,
        old(cur).pos <= final(cur).pos,
        match r {
            Ok((u, d)) => spec_hex4(old(cur).text@, old(cur).pos as int)
                matches ParseOut::Found { v, used } && v == u as int && u <= 0xFFFF && d@
                == old(cur).text@.subrange(old(cur).pos as int, old(cur).pos + 4)
                && final(cur).pos == old(cur).pos + 4,
            Err(e) => spec_hex4(old(cur).text@, old(cur).pos as int) matches ParseOut::Fail { f }
                && e.reason@ == spec_reason(f),
        },
{
    let ghost s = cur.text@;
    let ghost p0 = cur.pos as int;
    proof {
        reveal_strlit("\\u");
    }
    let mut seqs = "\\u".to_owned();
    let mut digits = String::new();
    let mut ord: u32 = 0;

    let (i0, c0) = match cur.advance() {
        None => {
            return Err(unexpected_eof());
        },
        Some(p) => p,
    };
    push_char(&mut seqs, c0);
    push_char(&mut digits, c0);
    let d0 = match hex_val(c0) {
        None => {
            proof {
                assert(seqs@ =~= seq!['\\', 'u'] + s.subrange(p0, p0 + 1));
            }
            return Err(invalid_escape_sequence(i0 - 2, seqs.as_str()));
        },
        Some(d) => d,
    };
    ord = ord * 16 + d0;

    let (i1, c1) = match cur.advance() {
        None => {
            return Err(unexpected_eof());
        },
        Some(p) => p,
    };
    push_char(&mut seqs, c1);
    push_char(&mut digits, c1);
    let d1 = match hex_val(c1) {
        None => {
            proof {
                assert(seqs@ =~= seq!['\\', 'u'] + s.subrange(p0, p0 + 2));
            }
            return Err(invalid_escape_sequence(i1 - 3, seqs.as_str()));
        },
        Some(d) => d,
    };
    ord = ord * 16 + d1;

    let (i2, c2) = match cur.advance() {
        None => {
            return Err(unexpected_eof());
        },
        Some(p) => p,
    };
    push_char(&mut seqs, c2);
    push_char(&mut digits, c2);
    let d2 = match hex_val(c2) {
        None => {
            proof {
                assert(seqs@ =~= seq!['\\', 'u'] + s.subrange(p0, p0 + 3));
            }
            return Err(invalid_escape_sequence(i2 - 4, seqs.as_str()));
        },
        Some(d) => d,
    };
    ord = ord * 16 + d2;

    let (i3, c3) = match cur.advance() {
        None => {
            return Err(unexpected_eof());
        },
        Some(p) => p,
    };
    push_char(&mut seqs, c3);
    push_char(&mut digits, c3);
    let d3 = match hex_val(c3) {
        None => {
            proof {
                assert(seqs@ =~= seq!['\\', 'u'] + s.subrange(p0, p0 + 4));
            }
            return Err(invalid_escape_sequence(i3 - 5, seqs.as_str()));
        },
        Some(d) => d,
    };
    ord = ord * 16 + d3;
    proof {
        assert(digits@ =~= s.subrange(p0, p0 + 4));
    }
    Ok((ord, digits))
}

/// Decode one escape, starting just after its backslash. A single-character
/// escape maps through `convert_escaped`; a `\u` escape reads four hex
/// digits, and a high surrogate must be completed by a following `\u` low
/// surrogate, the pair denoting one combined scalar value. A lone surrogate
/// is rejected as an invalid escape sequence.
pub fn read_escape_char(cur: &mut Cursor) -> (r: Result<String, JSONParseError>)
    requires
        old(cur).wf(),
        old(cur).pos >= 1,
    ensures
        final(cur).wf(),
        final(cur).text@ == old(cur).text@,
        old(cur).pos <= final(cur).pos,
        match r {
            Ok(st) => spec_parse_escape(old(cur).text@, old(cur).pos as int)
                matches ParseOut::Found { v, used } && v == st@
                && final(cur).pos == old(cur).pos + used,
            Err(e) => spec_parse_escape(old(cur).text@, old(cur).pos as int)
                matches ParseOut::Fail { f } && e.reason@ == spec_reason(f),
        },
{
    let ghost s = cur.text@;
    let ghost p0 = cur.pos as int;
    let (i, ch) = match cur.advance() {
        None => {
            return Err(unexpected_eof());
        },
        Some(p) => p,
    };
    if is_escapable(ch) {
        let mut st = String::new();
        push_char(&mut st, convert_escaped(ch));
        proof {
            assert(st@ =~= seq![spec_convert_escaped(ch)]);
        }
        Ok(st)
    } else if ch == 'u' {
        let (u1, digits1) = match read_hex4(cur) {
            Err(e) => {
                return Err(e);
            },
            Ok(p) => p,
        };
        if 0xD800 <= u1 && u1 < 0xDC00 {
            // A high surrogate: only a following low-surrogate escape is
            // acceptable.
            proof {
                reveal_strlit("\\u");
            }
            let mut lone = "\\u".to_owned();
            lone.append(digits1.as_str());
            proof {
                assert(lone@ =~= seq!['\\', 'u'] + s.subrange(p0 + 1, p0 + 5));
            }
            match cur.advance() {
                None => Err(invalid_escape_sequence(i - 1, lone.as_str())),
                Some((_, c2)) => {
                    if c2 != '\\' {
                        Err(invalid_escape_sequence(i - 1, lone.as_str()))
                    } else {
                        match cur.advance() {
                            None => Err(invalid_escape_sequence(i - 1, lone.as_str())),
                            Some((_, c3)) => {
                                if c3 != 'u' {
                                    Err(invalid_escape_sequence(i - 1, lone.as_str()))
                                } else {
                                    let (u2, digits2) = match read_hex4(cur) {
                                        Err(e) => {
                                            return Err(e);
                                        },
                                        Ok(p) => p,
                                    };
                                    if 0xDC00 <= u2 && u2 < 0xE000 {
                                        let comb = 0x10000 + (u1 - 0xD800) * 0x400 + (u2
                                            - 0xDC00);
                                        let mut st = String::new();
                                        push_char(&mut st, char_from_u32(comb));
                                        proof {
                                            assert(st@ =~= seq![
                                                crate::grammar::spec_surrogate_pair(
                                                    u1 as int,
                                                    u2 as int,
                                                ),
                                            ]);
                                        }
                                        Ok(st)
                                    } else {
                                        let mut pair = lone;
                                        pair.append("\\u");
                                        pair.append(digits2.as_str());
                                        proof {
                                            assert(pair@ =~= seq!['\\', 'u'] + s.subrange(
                                                p0 + 1,
                                                p0 + 5,
                                            ) + seq!['\\', 'u'] + s.subrange(p0 + 7, p0 + 11));
                                        }
                                        Err(invalid_escape_sequence(i - 1, pair.as_str()))
                                    }
                                }
                            },
                        }
                    }
                },
            }
        } else if 0xDC00 <= u1 && u1 < 0xE000 {
            // A lone low surrogate.
            proof {
                reveal_strlit("\\u");
            }
            let mut lone = "\\u".to_owned();
            lone.append(digits1.as_str());
            proof {
                assert(lone@ =~= seq!['\\', 'u'] + s.subrange(p0 + 1, p0 + 5));
            }
            Err(invalid_escape_sequence(i - 1, lone.as_str()))
        } else {
            let mut st = String::new();
            push_char(&mut st, char_from_u32(u1));
            proof {
                assert(st@ =~= seq![(u1 as int as char)]);
            }
            Ok(st)
        }
    } else {
        proof {
            reveal_strlit("\\");
        }
        let mut w = "\\".to_owned();
        push_char(&mut w, ch);
        proof {
            assert(w@ =~= seq!['\\', ch]);
        }
        Err(invalid_escape_sequence(i - 1, w.as_str()))
    }
}

/// Parse a string: an opening quote, its body with escapes decoded, and
/// the closing quote.
#[verifier::rlimit(100)]
pub fn parse_str(cur: &mut Cursor) -> (r: Result<String, JSONParseError>)
    requires
        old(cur).wf(),
    ensures
        final(cur).wf(),
        final(cur).text@ == old(cur).text@,
        old(cur).pos <= final(cur).pos,
        match r {
            Ok(st) => spec_parse_string(old(cur).text@, old(cur).pos as int)
                matches ParseOut::Found { v, used } && v == st@
                && final(cur).pos == old(cur).pos + used,
            Err(e) => spec_parse_string(old(cur).text@, old(cur).pos as int)
                matches ParseOut::Fail { f } && e.reason@ == spec_reason(f),
        },
{
    let ghost s = cur.text@;
    let ghost p0 = cur.pos as int;
    let mut result = String::new();
    match read_known_char(cur, '"') {
        Ok(_) => (),
        Err(e) => {
            return Err(e);
        },
    }
    proof {
        match spec_string_body(s, p0 + 1) {
            ParseOut::Found { v, used } => {
                assert(result@ + v =~= v);
            },
            ParseOut::Fail { f } => {},
        }
    }
    loop
        invariant
            cur.wf(),
            s == old(cur).text@,
            p0 == old(cur).pos as int,
            cur.text@ == s,
            0 <= p0 < s.len(),
            s[p0] == '"',
            p0 + 1 <= cur.pos <= s.len(),
            match spec_string_body(s, cur.pos as int) {
                ParseOut::Found { v, used } => spec_string_body(s, p0 + 1) == (ParseOut::Found {
                    v: result@ + v,
                    used: (cur.pos - (p0 + 1) + used) as nat,
                }),
                ParseOut::Fail { f } => spec_string_body(s, p0 + 1) == (ParseOut::<
                    Seq<char>,
                >::Fail { f }),
            },
        decreases s.len() - cur.pos,
    {
        let ghost q = cur.pos as int;
        let ghost r_old = result@;
        match cur.advance() {
            None => {
                return Err(unexpected_eof());
            },
            Some((i, ch)) => {
                if ch == '"' {
                    proof {
                        assert(r_old + Seq::<char>::empty() =~= r_old);
                    }
                    return Ok(result);
                } else if ch == '\\' {
                    proof {
                        lemma_string_body_escape(s, q);
                    }
                    let esc = match read_escape_char(cur) {
                        Ok(t) => t,
                        Err(e) => {
                            return Err(e);
                        },
                    };
                    result.append(esc.as_str());
                    proof {
                        match spec_string_body(s, cur.pos as int) {
                            ParseOut::Found { v: t, used: n } => {
                                assert(r_old + (esc@ + t) =~= result@ + t);
                            },
                            ParseOut::Fail { f } => {},
                        }
                    }
                } else if (ch as u32) < 0x20 {
                    proof {
                        lemma_string_body_control(s, q);
                    }
                    return Err(unexpected_character(i, ch));
                } else {
                    push_char(&mut result, ch);
                    proof {
                        lemma_string_body_char(s, q);
                        match spec_string_body(s, q + 1) {
                            ParseOut::Found { v: t, used: n } => {
                                assert(r_old + (seq![ch] + t) =~= result@ + t);
                            },
                            ParseOut::Fail { f } => {},
                        }
                    }
                }
            },
        }
    }
}

/// Parse a number into its canonical literal parts: optional minus, a
/// single `0` or a nonzero-led digit run, an optional fraction, and an
/// optional exponent whose `+` sign is dropped.
#[verifier::rlimit(100)]
pub fn parse_num(cur: &mut Cursor) -> (r: Result<JSONNumber, JSONParseError>)
    requires
        old(cur).wf(),
    ensures
        final(cur).wf(),
        final(cur).text@ == old(cur).text@,
        old(cur).pos <= final(cur).pos,
        match r {
            Ok(n) => spec_parse_number(old(cur).text@, old(cur).pos as int)
                matches ParseOut::Found { v, used } && v == n.rep()
                && final(cur).pos == old(cur).pos + used,
            Err(e) => spec_parse_number(old(cur).text@, old(cur).pos as int)
                matches ParseOut::Fail { f } && e.reason@ == spec_reason(f),
        },
{
    let ghost s = cur.text@;
    let ghost p0 = cur.pos as int;
    let neg = match next_char(cur) {
        None => {
            return Err(unexpected_eof());
        },
        Some(ch) => ch == '-',
    };
    if neg {
        cur.advance();
    }
    let int_part = match next_char(cur) {
        None => {
            return Err(unexpected_eof());
        },
        Some(ch) => {
            if ch == '0' {
                cur.advance();
                proof {
                    reveal_strlit("0");
                }
                let z = "0".to_owned();
                proof {
                    assert(z@ =~= seq!['0']);
                }
                z
            } else if is_ascii_digit(ch) {
                match read_digits(cur) {
                    Ok(d) => d,
                    Err(e) => {
                        return Err(e);
                    },
                }
            } else {
                match cur.advance() {
                    Some((i, c2)) => {
                        return Err(unexpected_character(i, c2));
                    },
                    None => {
                        return Err(unexpected_eof());
                    },
                }
            }
        },
    };
    let fr = match read_fraction(cur) {
        Ok(f) => f,
        Err(e) => {
            return Err(e);
        },
    };
    let fl = fr.as_str().unicode_len();
    let frac_digits = if fl > 0 {
        let d = fr.as_str().substring_char(1, fl).to_owned();
        proof {
            assert(d@ =~= fr@.subrange(1, fl as int));
        }
        d
    } else {
        fr
    };
    let has_exp = match next_char(cur) {
        Some(ch) => ch == 'e' || ch == 'E',
        None => false,
    };
    if has_exp {
        cur.advance();
            let exp_neg = match next_char(cur) {
                None => {
                    return Err(unexpected_eof());
                },
                Some(c2) => {
                    if c2 == '-' {
                        cur.advance();
                        true
                    } else {
                        if c2 == '+' {
                            cur.advance();
                        }
                        false
                    }
                },
            };
            let digs = match read_digits(cur) {
                Ok(d) => d,
                Err(e) => {
                    return Err(e);
                },
            };
            if digs.as_str().unicode_len() == 0 {
                match cur.advance() {
                    Some((i, c3)) => {
                        return Err(unexpected_character(i, c3));
                    },
                    None => {
                        return Err(unexpected_eof());
                    },
                }
            }
            let n = JSONNumber {
                negative: neg,
                int_part,
                frac_part: frac_digits,
                exp_negative: exp_neg,
                exp_part: digs,
            };
            proof {
                match spec_parse_number(s, p0) {
                    ParseOut::Found { v, used } => {
                        assert(v =~~= n.rep());
                    },
                    ParseOut::Fail { f } => {},
                }
            }
            Ok(n)
    } else {
        let n = JSONNumber {
            negative: neg,
            int_part,
            frac_part: frac_digits,
            exp_negative: false,
            exp_part: String::new(),
        };
        proof {
            match spec_parse_number(s, p0) {
                ParseOut::Found { v, used } => {
                    assert(v =~~= n.rep());
                },
                ParseOut::Fail { f } => {},
            }
        }
        Ok(n)
    }
}

/// Insert a key/value pair into the object under construction: a present
/// key keeps its place and takes the new value, an absent key is appended.
fn object_insert(pairs: &mut Vec<(String, JSONValue)>, key: String, value: JSONValue)
    ensures
        rep_pairs(final(pairs)@) == spec_obj_insert(
            rep_pairs(old(pairs)@),
            key@,
            value.rep(),
        ),
{
    let ghost krep = key@;
    let ghost vrep = value.rep();
    let n = pairs.len();
    let mut j: usize = 0;
    while j < n
        invariant
            n == pairs.len(),
            j <= n,
            pairs@ == old(pairs)@,
            krep == key@,
            vrep == value.rep(),
            forall|i: int| 0 <= i < j ==> (#[trigger] pairs@[i]).0@ != krep,
        decreases n - j,
    {
        if pairs[j].0 == key {
            proof {
                lemma_rep_pairs(pairs@);
                assert forall|i: int|
                    0 <= i < j implies (#[trigger] rep_pairs(pairs@)[i]).0 != krep by {
                    assert(pairs@[i].0@ != krep);
                }
                lemma_obj_insert_update(rep_pairs(pairs@), j as int, krep, vrep);
            }
            let ghost before = pairs@;
            let elem = &mut pairs[j];
            *elem = (key, value);
            proof {
                lemma_rep_pairs(before);
                lemma_rep_pairs(pairs@);
                assert(pairs@ == before.update(j as int, pairs@[j as int]));
                assert(pairs@[j as int].0@ == krep && pairs@[j as int].1.rep() == vrep);
                assert forall|i: int|
                    0 <= i < pairs@.len() implies rep_pairs(pairs@)[i] == rep_pairs(
                    before,
                ).update(j as int, (krep, vrep))[i] by {
                    assert(rep_pairs(pairs@)[i] == (pairs@[i].0@, pairs@[i].1.rep()));
                    if i != j {
                        assert(pairs@[i] == before[i]);
                        assert(rep_pairs(before)[i] == (before[i].0@, before[i].1.rep()));
                    }
                }
                assert(rep_pairs(pairs@) =~= rep_pairs(before).update(j as int, (krep, vrep)));
            }
            return ;
        }
        j = j + 1;
    }
    proof {
        lemma_rep_pairs(pairs@);
        assert forall|i: int|
            0 <= i < rep_pairs(pairs@).len() implies (#[trigger] rep_pairs(pairs@)[i]).0
            != krep by {
            assert(pairs@[i].0@ != krep);
        }
        lemma_obj_insert_push(rep_pairs(pairs@), krep, vrep);
    }
    let ghost before = pairs@;
    pairs.push((key, value));
    proof {
        assert(pairs@.drop_last() =~= before);
        assert(rep_pairs(pairs@) =~= rep_pairs(before).push((krep, vrep)));
    }
}

/// Parse one value, dispatched on the next unconsumed character.
pub fn parse_value(cur: &mut Cursor) -> (r: Result<JSONValue, JSONParseError>)
    requires
        old(cur).wf(),
    ensures
        final(cur).wf(),
        final(cur).text@ == old(cur).text@,
        old(cur).pos <= final(cur).pos,
        match r {
            Ok(v) => spec_parse_value(old(cur).text@, old(cur).pos as int)
                matches ParseOut::Found { v: jv, used } && jv == v.rep()
                && final(cur).pos == old(cur).pos + used,
            Err(e) => spec_parse_value(old(cur).text@, old(cur).pos as int)
                matches ParseOut::Fail { f } && e.reason@ == spec_reason(f),
        },
    decreases old(cur).remaining(), 1int,
{
    match next_char(cur) {
        None => Err(make_err("Empty string provided".to_owned())),
        Some(ch) => {
            if ch == '{' {
                match parse_object(cur) {
                    Ok(m) => Ok(JSONValue::JSONObject(m)),
                    Err(e) => Err(e),
                }
            } else if ch == '"' {
                match parse_str(cur) {
                    Ok(st) => Ok(JSONValue::JSONString(st)),
                    Err(e) => Err(e),
                }
            } else if ch == 't' {
                match parse_true(cur) {
                    Ok(b) => Ok(JSONValue::JSONBool(b)),
                    Err(e) => Err(e),
                }
            } else if ch == 'f' {
                match parse_false(cur) {
                    Ok(b) => Ok(JSONValue::JSONBool(b)),
                    Err(e) => Err(e),
                }
            } else if ch == 'n' {
                match parse_null(cur) {
                    Ok(_) => Ok(JSONValue::JSONNull()),
                    Err(e) => Err(e),
                }
            } else if ch == '-' || is_ascii_digit(ch) {
                match parse_num(cur) {
                    Ok(n) => Ok(JSONValue::JSONNumber(n)),
                    Err(e) => Err(e),
                }
            } else if ch == '[' {
                match parse_array(cur) {
                    Ok(items) => Ok(JSONValue::JSONArray(items)),
                    Err(e) => Err(e),
                }
            } else {
                match cur.advance() {
                    Some((i, c2)) => Err(unexpected_character(i, c2)),
                    None => Err(unexpected_eof()),
                }
            }
        },
    }
}

/// Parse an array: `[`, optional whitespace, then either `]` at once or
/// comma-separated values up to `]`.
#[verifier::rlimit(100)]
pub fn parse_array(cur: &mut Cursor) -> (r: Result<Vec<JSONValue>, JSONParseError>)
    requires
        old(cur).wf(),
    ensures
        final(cur).wf(),
        final(cur).text@ == old(cur).text@,
        old(cur).pos <= final(cur).pos,
        match r {
            Ok(items) => spec_parse_array(old(cur).text@, old(cur).pos as int)
                matches ParseOut::Found { v: jv, used } && jv == JsonRep::ArrRep(
                rep_list(items@),
            ) && final(cur).pos == old(cur).pos + used,
            Err(e) => spec_parse_array(old(cur).text@, old(cur).pos as int)
                matches ParseOut::Fail { f } && e.reason@ == spec_reason(f),
        },
    decreases old(cur).remaining(), 0int,
{
    let ghost s = cur.text@;
    let ghost p0 = cur.pos as int;
    let mut result: Vec<JSONValue> = Vec::new();
    match read_known_char(cur, '[') {
        Ok(_) => (),
        Err(e) => {
            return Err(e);
        },
    }
    consume_spaces(cur);
    match next_char(cur) {
        None => {
            return Err(unexpected_eof());
        },
        Some(ch) => {
            if ch == ']' {
                cur.advance();
                proof {
                    assert(rep_list(result@) =~= Seq::<JsonRep>::empty());
                }
                return Ok(result);
            }
        },
    }
    proof {
        match spec_parse_items(s, cur.pos as int) {
            ParseOut::Found { v: rest, used: n } => {
                assert(rep_list(result@) + rest =~= rest);
            },
            ParseOut::Fail { f } => {},
        }
    }
    loop
        invariant
            cur.wf(),
            s == old(cur).text@,
            p0 == old(cur).pos as int,
            cur.text@ == s,
            0 <= p0 < s.len(),
            s[p0] == '[',
            p0 + 1 <= cur.pos <= s.len(),
            match spec_parse_items(s, cur.pos as int) {
                ParseOut::Found { v: rest, used: n } => spec_parse_array(s, p0)
                    == (ParseOut::Found {
                    v: JsonRep::ArrRep(rep_list(result@) + rest),
                    used: (cur.pos - p0 + n) as nat,
                }),
                ParseOut::Fail { f } => spec_parse_array(s, p0) == (ParseOut::<JsonRep>::Fail {
                    f,
                }),
            },
        decreases s.len() - cur.pos,
    {
        let ghost q = cur.pos as int;
        let ghost acc_old = result@;
        consume_spaces(cur);
        let v = match parse_value(cur) {
            Ok(v) => v,
            Err(e) => {
                return Err(e);
            },
        };
        result.push(v);
        proof {
            assert(result@.drop_last() =~= acc_old);
            assert(rep_list(result@) =~= rep_list(acc_old).push(result@.last().rep()));
        }
        consume_spaces(cur);
        match cur.advance() {
            None => {
                return Err(unexpected_eof());
            },
            Some((i, ch)) => {
                if ch == ']' {
                    proof {
                        assert(rep_list(acc_old) + seq![result@.last().rep()] =~= rep_list(
                            result@,
                        ));
                    }
                    return Ok(result);
                } else if ch == ',' {
                    proof {
                        match spec_parse_items(s, cur.pos as int) {
                            ParseOut::Found { v: rest2, used: n2 } => {
                                assert(rep_list(acc_old) + (seq![result@.last().rep()] + rest2)
                                    =~= rep_list(result@) + rest2);
                            },
                            ParseOut::Fail { f } => {},
                        }
                    }
                } else {
                    return Err(unexpected_character(i, ch));
                }
            },
        }
    }
}

/// Parse an object: `{`, then either `}` at once or comma-separated
/// `"key": value` members up to `}`; a duplicate key takes the later value.
#[verifier::rlimit(100)]
pub fn parse_object(cur: &mut Cursor) -> (r: Result<
    Vec<(String, JSONValue)>,
    JSONParseError,
>)
    requires
        old(cur).wf(),
    ensures
        final(cur).wf(),
        final(cur).text@ == old(cur).text@,
        old(cur).pos <= final(cur).pos,
        match r {
            Ok(m) => spec_parse_object(old(cur).text@, old(cur).pos as int)
                matches ParseOut::Found { v: jv, used } && jv == JsonRep::ObjRep(
                rep_pairs(m@),
            ) && final(cur).pos == old(cur).pos + used,
            Err(e) => spec_parse_object(old(cur).text@, old(cur).pos as int)
                matches ParseOut::Fail { f } && e.reason@ == spec_reason(f),
        },
    decreases old(cur).remaining(), 0int,
{
    let ghost s = cur.text@;
    let ghost p0 = cur.pos as int;
    let mut result: Vec<(String, JSONValue)> = Vec::new();
    match read_known_char(cur, '{') {
        Ok(_) => (),
        Err(e) => {
            return Err(e);
        },
    }
    match next_char(cur) {
        None => {
            return Err(unexpected_eof());
        },
        Some(ch) => {
            if ch == '}' {
                cur.advance();
                proof {
                    assert(rep_pairs(result@) =~= Seq::<(Seq<char>, JsonRep)>::empty());
                }
                return Ok(result);
            }
        },
    }
    proof {
        match spec_parse_members(s, cur.pos as int) {
            ParseOut::Found { v: rest, used: n } => {
                lemma_dedup_is_fold(rest);
                assert(rep_pairs(result@) =~= Seq::<(Seq<char>, JsonRep)>::empty());
            },
            ParseOut::Fail { f } => {},
        }
    }
    loop
        invariant
            cur.wf(),
            s == old(cur).text@,
            p0 == old(cur).pos as int,
            cur.text@ == s,
            0 <= p0 < s.len(),
            s[p0] == '{',
            p0 + 1 <= cur.pos <= s.len(),
            match spec_parse_members(s, cur.pos as int) {
                ParseOut::Found { v: rest, used: n } => spec_parse_object(s, p0)
                    == (ParseOut::Found {
                    v: JsonRep::ObjRep(spec_obj_fold(rep_pairs(result@), rest)),
                    used: (cur.pos - p0 + n) as nat,
                }),
                ParseOut::Fail { f } => spec_parse_object(s, p0) == (ParseOut::<JsonRep>::Fail {
                    f,
                }),
            },
        decreases s.len() - cur.pos,
    {
        let ghost q = cur.pos as int;
        let ghost acc_old = result@;
        consume_spaces(cur);
        let key = match parse_str(cur) {
            Ok(k) => k,
            Err(e) => {
                return Err(e);
            },
        };
        let ghost krep = key@;
        consume_spaces(cur);
        match read_known_char(cur, ':') {
            Ok(_) => (),
            Err(e) => {
                return Err(e);
            },
        }
        consume_spaces(cur);
        let value = match parse_value(cur) {
            Ok(v) => v,
            Err(e) => {
                return Err(e);
            },
        };
        let ghost vrep = value.rep();
        object_insert(&mut result, key, value);
        consume_spaces(cur);
        match cur.advance() {
            None => {
                return Err(unexpected_eof());
            },
            Some((i, ch)) => {
                if ch == '}' {
                    proof {
                        reveal_with_fuel(spec_obj_fold, 3);
                        assert(seq![(krep, vrep)].drop_first() =~= Seq::<
                            (Seq<char>, JsonRep),
                        >::empty());
                        assert(spec_obj_fold(rep_pairs(acc_old), seq![(krep, vrep)])
                            == rep_pairs(result@));
                    }
                    return Ok(result);
                } else if ch == ',' {
                    proof {
                        match spec_parse_members(s, cur.pos as int) {
                            ParseOut::Found { v: rest2, used: n2 } => {
                                assert((seq![(krep, vrep)] + rest2).drop_first() =~= rest2);
                                assert((seq![(krep, vrep)] + rest2)[0] == (krep, vrep));
                                assert(spec_obj_fold(rep_pairs(acc_old), seq![(krep, vrep)]
                                    + rest2) == spec_obj_fold(rep_pairs(result@), rest2));
                            },
                            ParseOut::Fail { f } => {},
                        }
                    }
                } else {
                    return Err(unexpected_character(i, ch));
                }
            },
        }
    }
}

/// Parse a whole text: optional whitespace, exactly one value, optional
/// whitespace, and nothing more.
pub fn parse_json(input: &str) -> (r: Result<JSONValue, JSONParseError>)
    ensures
        match r {
            Ok(v) => spec_parse_json(input@) matches ParseOut::Found { v: jv, used } && jv
                == v.rep(),
            Err(e) => spec_parse_json(input@) matches ParseOut::Fail { f } && e.reason@
                == spec_reason(f),
        },
{
    let mut cur = Cursor::new(input);
    consume_spaces(&mut cur);
    let val = match parse_value(&mut cur) {
        Ok(v) => v,
        Err(e) => {
            return Err(e);
        },
    };
    consume_spaces(&mut cur);
    match cur.advance() {
        None => Ok(val),
        Some((i, ch)) => Err(unexpected_character(i, ch)),
    }
}

} // verus!
