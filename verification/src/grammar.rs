//! The grammar, written out as a deterministic specification-level parser
//! over a sequence of characters. Each function mirrors one production and
//! says, for every starting position, whether the production matches, what
//! model value it denotes and how many characters it consumes, or with which
//! fault it is rejected. The executable parser is proved equal to these
//! functions, so they are the single statement of what the library accepts.
use vstd::prelude::*;

use crate::model::JsonRep;
use crate::model::NumRep;
use crate::model::all_digits;
use crate::model::spec_is_digit;

verus! {

/// A parse fault: the five ways a production is rejected, each with what
/// its message names. Offsets are 0-based character positions.
#[verifier::ext_equal]
pub ghost enum Fault {
    /// The input ended while more characters were expected.
    Eof,
    /// No value began where one was required.
    Empty,
    /// A character that no rule accepts at its position.
    Unexpected { c: char, at: int },
    /// A character other than the single one the rule demanded.
    Expected { want: char, c: char, at: int },
    /// A malformed escape sequence, with the offending sequence itself.
    Escape { what: Seq<char>, at: int },
}

/// The outcome of a production at a position: the denoted value and the
/// count of characters consumed, or a fault.
#[verifier::ext_equal]
pub ghost enum ParseOut<V> {
    Found { v: V, used: nat },
    Fail { f: Fault },
}

/// The four JSON whitespace characters.
pub open spec fn spec_is_ws(c: char) -> bool {
    c == '\u{09}' || c == '\u{0a}' || c == '\u{0d}' || c == ' '
}

/// Length of the whitespace run starting at `pos`.
pub open spec fn spec_whitespace_run(s: Seq<char>, pos: int) -> nat
    decreases s.len() - pos,
{
    if 0 <= pos < s.len() && spec_is_ws(s[pos]) {
        1 + spec_whitespace_run(s, pos + 1)
    } else {
        0
    }
}

/// Length of the decimal-digit run starting at `pos`.
pub open spec fn spec_digit_run(s: Seq<char>, pos: int) -> nat
    decreases s.len() - pos,
{
    if 0 <= pos < s.len() && spec_is_digit(s[pos]) {
        1 + spec_digit_run(s, pos + 1)
    } else {
        0
    }
}

/// Value of a hexadecimal digit, or -1 for any other character.
pub open spec fn spec_hex_val(c: char) -> int {
    if '0' as int <= c as int <= '9' as int {
        c as int - '0' as int
    } else if 'a' as int <= c as int <= 'f' as int {
        c as int - 'a' as int + 10
    } else if 'A' as int <= c as int <= 'F' as int {
        c as int - 'A' as int + 10
    } else {
        -1
    }
}

pub open spec fn spec_is_hex(c: char) -> bool {
    spec_hex_val(c) >= 0
}

/// The characters that may directly follow a backslash.
pub open spec fn spec_is_escapable(c: char) -> bool {
    c == '"' || c == '\\' || c == '/' || c == 'f' || c == 'n' || c == 'r' || c == 't'
        || c == 'b'
}

/// What a single-character escape denotes.
pub open spec fn spec_convert_escaped(c: char) -> char {
    match c {
        't' => '\u{09}',
        'r' => '\u{0d}',
        'n' => '\u{0a}',
        'f' => '\u{0c}',
        'b' => '\u{08}',
        _ => c,
    }
}

/// The scalar value denoted by a high/low surrogate pair.
pub open spec fn spec_surrogate_pair(hi: int, lo: int) -> char {
    ((0x10000 + (hi - 0xD800) * 0x400 + (lo - 0xDC00)) as char)
}

/// Four hexadecimal digits at `pos`, as a 16-bit value. A non-hex digit is
/// an escape fault whose sequence holds the digits read so far; the fault
/// offset is that of the backslash two places before `pos`.
pub open spec fn spec_hex4(s: Seq<char>, pos: int) -> ParseOut<int> {
    if !(0 <= pos < s.len()) {
        ParseOut::Fail { f: Fault::Eof }
    } else if !spec_is_hex(s[pos]) {
        ParseOut::Fail {
            f: Fault::Escape { what: seq!['\\', 'u'] + s.subrange(pos, pos + 1), at: pos - 2 },
        }
    } else if pos + 1 >= s.len() {
        ParseOut::Fail { f: Fault::Eof }
    } else if !spec_is_hex(s[pos + 1]) {
        ParseOut::Fail {
            f: Fault::Escape { what: seq!['\\', 'u'] + s.subrange(pos, pos + 2), at: pos - 2 },
        }
    } else if pos + 2 >= s.len() {
        ParseOut::Fail { f: Fault::Eof }
    } else if !spec_is_hex(s[pos + 2]) {
        ParseOut::Fail {
            f: Fault::Escape { what: seq!['\\', 'u'] + s.subrange(pos, pos + 3), at: pos - 2 },
        }
    } else if pos + 3 >= s.len() {
        ParseOut::Fail { f: Fault::Eof }
    } else if !spec_is_hex(s[pos + 3]) {
        ParseOut::Fail {
            f: Fault::Escape { what: seq!['\\', 'u'] + s.subrange(pos, pos + 4), at: pos - 2 },
        }
    } else {
        ParseOut::Found {
            v: spec_hex_val(s[pos]) * 0x1000 + spec_hex_val(s[pos + 1]) * 0x100 + spec_hex_val(
                s[pos + 2],
            ) * 0x10 + spec_hex_val(s[pos + 3]),
            used: 4,
        }
    }
}

/// An escape, starting at the character after the backslash. A `\u` escape
/// whose value is a high surrogate must be followed by a `\u` low surrogate
/// and the pair denotes one scalar value; a lone surrogate is a fault.
pub open spec fn spec_parse_escape(s: Seq<char>, pos: int) -> ParseOut<Seq<char>> {
    if !(0 <= pos < s.len()) {
        ParseOut::Fail { f: Fault::Eof }
    } else {
        let c = s[pos];
        if spec_is_escapable(c) {
            ParseOut::Found { v: seq![spec_convert_escaped(c)], used: 1 }
        } else if c == 'u' {
            match spec_hex4(s, pos + 1) {
                ParseOut::Fail { f } => ParseOut::Fail { f },
                ParseOut::Found { v: u1, used: _ } => {
                    if 0xD800 <= u1 < 0xDC00 {
                        if pos + 5 < s.len() && s[pos + 5] == '\\' && pos + 6 < s.len() && s[pos
                            + 6] == 'u' {
                            match spec_hex4(s, pos + 7) {
                                ParseOut::Fail { f } => ParseOut::Fail { f },
                                ParseOut::Found { v: u2, used: _ } => {
                                    if 0xDC00 <= u2 < 0xE000 {
                                        ParseOut::Found {
                                            v: seq![spec_surrogate_pair(u1, u2)],
                                            used: 11,
                                        }
                                    } else {
                                        ParseOut::Fail {
                                            f: Fault::Escape {
                                                what: seq!['\\', 'u'] + s.subrange(pos + 1, pos + 5)
                                                    + seq!['\\', 'u'] + s.subrange(
                                                    pos + 7,
                                                    pos + 11,
                                                ),
                                                at: pos - 1,
                                            },
                                        }
                                    }
                                },
                            }
                        } else {
                            ParseOut::Fail {
                                f: Fault::Escape {
                                    what: seq!['\\', 'u'] + s.subrange(pos + 1, pos + 5),
                                    at: pos - 1,
                                },
                            }
                        }
                    } else if 0xDC00 <= u1 < 0xE000 {
                        ParseOut::Fail {
                            f: Fault::Escape {
                                what: seq!['\\', 'u'] + s.subrange(pos + 1, pos + 5),
                                at: pos - 1,
                            },
                        }
                    } else {
                        ParseOut::Found { v: seq![(u1 as char)], used: 5 }
                    }
                },
            }
        } else {
            ParseOut::Fail { f: Fault::Escape { what: seq!['\\', c], at: pos - 1 } }
        }
    }
}

/// The body of a string after the opening quote: characters up to and
/// including the closing quote, with escapes decoded and raw control
/// characters rejected.
pub open spec fn spec_string_body(s: Seq<char>, pos: int) -> ParseOut<Seq<char>>
    decreases s.len() - pos,
{
    if !(0 <= pos < s.len()) {
        ParseOut::Fail { f: Fault::Eof }
    } else {
        let c = s[pos];
        if c == '"' {
            ParseOut::Found { v: Seq::empty(), used: 1 }
        } else if c == '\\' {
            match spec_parse_escape(s, pos + 1) {
                ParseOut::Fail { f } => ParseOut::Fail { f },
                ParseOut::Found { v: cs, used: u } => {
                    proof {
                        lemma_escape_le(s, pos + 1);
                    }
                    match spec_string_body(s, pos + 1 + u) {
                        ParseOut::Fail { f } => ParseOut::Fail { f },
                        ParseOut::Found { v: t, used: n } => ParseOut::Found {
                            v: cs + t,
                            used: 1 + u + n,
                        },
                    }
                },
            }
        } else if (c as u32) < 0x20 {
            ParseOut::Fail { f: Fault::Unexpected { c, at: pos } }
        } else {
            match spec_string_body(s, pos + 1) {
                ParseOut::Fail { f } => ParseOut::Fail { f },
                ParseOut::Found { v: t, used: n } => ParseOut::Found {
                    v: seq![c] + t,
                    used: 1 + n,
                },
            }
        }
    }
}

/// A string: an opening quote, then its body.
pub open spec fn spec_parse_string(s: Seq<char>, pos: int) -> ParseOut<Seq<char>> {
    if !(0 <= pos < s.len()) {
        ParseOut::Fail { f: Fault::Eof }
    } else if s[pos] != '"' {
        ParseOut::Fail { f: Fault::Expected { want: '"', c: s[pos], at: pos } }
    } else {
        match spec_string_body(s, pos + 1) {
            ParseOut::Fail { f } => ParseOut::Fail { f },
            ParseOut::Found { v, used: n } => ParseOut::Found { v, used: 1 + n },
        }
    }
}

/// A digit run as `read_digits` reads it: the run may be empty, but an
/// empty run at the end of input is a fault.
pub open spec fn spec_parse_digits(s: Seq<char>, pos: int) -> ParseOut<Seq<char>> {
    let r = spec_digit_run(s, pos);
    if r == 0 && pos >= s.len() {
        ParseOut::Fail { f: Fault::Eof }
    } else {
        ParseOut::Found { v: s.subrange(pos, pos + r), used: r }
    }
}

/// An optional fraction: nothing, or a dot followed by at least one digit.
/// A digit directly after the integer part (only reachable after a leading
/// `0`) is a fault, which is what rejects leading zeros.
pub open spec fn spec_parse_fraction(s: Seq<char>, pos: int) -> ParseOut<Seq<char>> {
    if !(0 <= pos < s.len()) {
        ParseOut::Found { v: Seq::empty(), used: 0 }
    } else if s[pos] == '.' {
        let r = spec_digit_run(s, pos + 1);
        if r == 0 {
            if pos + 1 >= s.len() {
                ParseOut::Fail { f: Fault::Eof }
            } else {
                ParseOut::Fail { f: Fault::Unexpected { c: s[pos + 1], at: pos + 1 } }
            }
        } else {
            ParseOut::Found { v: s.subrange(pos + 1, pos + 1 + r), used: 1 + r }
        }
    } else if spec_is_digit(s[pos]) {
        ParseOut::Fail { f: Fault::Unexpected { c: s[pos], at: pos } }
    } else {
        ParseOut::Found { v: Seq::empty(), used: 0 }
    }
}

/// The fraction and exponent that may follow an integer part that consumed
/// `used0` characters from `pos`. An exponent marker must be followed by at
/// least one digit (a `+` sign is consumed but not kept).
pub open spec fn spec_number_tail(
    s: Seq<char>,
    pos: int,
    neg: bool,
    int_part: Seq<char>,
    used0: nat,
) -> ParseOut<NumRep> {
    match spec_parse_fraction(s, pos + used0) {
        ParseOut::Fail { f } => ParseOut::Fail { f },
        ParseOut::Found { v: frac, used: nf } => {
            let p2 = pos + used0 + nf;
            if p2 < s.len() && (s[p2] == 'e' || s[p2] == 'E') {
                if p2 + 1 >= s.len() {
                    ParseOut::Fail { f: Fault::Eof }
                } else {
                    let eneg = s[p2 + 1] == '-';
                    let nsg: nat = if s[p2 + 1] == '-' || s[p2 + 1] == '+' {
                        1
                    } else {
                        0
                    };
                    let p4 = p2 + 1 + nsg;
                    let r2 = spec_digit_run(s, p4);
                    if r2 == 0 {
                        if p4 >= s.len() {
                            ParseOut::Fail { f: Fault::Eof }
                        } else {
                            ParseOut::Fail { f: Fault::Unexpected { c: s[p4], at: p4 } }
                        }
                    } else {
                        ParseOut::Found {
                            v: NumRep {
                                neg,
                                int_part,
                                frac_part: frac,
                                exp_neg: eneg,
                                exp_part: s.subrange(p4, p4 + r2),
                            },
                            used: used0 + nf + 1 + nsg + r2,
                        }
                    }
                }
            } else {
                ParseOut::Found {
                    v: NumRep {
                        neg,
                        int_part,
                        frac_part: frac,
                        exp_neg: false,
                        exp_part: Seq::empty(),
                    },
                    used: used0 + nf,
                }
            }
        },
    }
}

/// A number: an optional minus, then a single `0` or a nonzero-led digit
/// run, then `spec_number_tail`.
pub open spec fn spec_parse_number(s: Seq<char>, pos: int) -> ParseOut<NumRep> {
    if !(0 <= pos < s.len()) {
        ParseOut::Fail { f: Fault::Eof }
    } else {
        let neg = s[pos] == '-';
        let n_sign: nat = if neg {
            1
        } else {
            0
        };
        let p0 = pos + n_sign;
        if p0 >= s.len() {
            ParseOut::Fail { f: Fault::Eof }
        } else if s[p0] == '0' {
            spec_number_tail(s, pos, neg, seq!['0'], n_sign + 1)
        } else if spec_is_digit(s[p0]) {
            let r = spec_digit_run(s, p0);
            spec_number_tail(s, pos, neg, s.subrange(p0, p0 + r), n_sign + r)
        } else {
            ParseOut::Fail { f: Fault::Unexpected { c: s[p0], at: p0 } }
        }
    }
}

/// A fixed literal (`true`, `false`, `null`), character by character.
pub open spec fn spec_parse_literal(s: Seq<char>, pos: int, lit: Seq<char>) -> ParseOut<()>
    decreases lit.len(),
{
    if lit.len() == 0 {
        ParseOut::Found { v: (), used: 0 }
    } else if !(0 <= pos < s.len()) {
        ParseOut::Fail { f: Fault::Eof }
    } else if s[pos] != lit[0] {
        ParseOut::Fail { f: Fault::Unexpected { c: s[pos], at: pos } }
    } else {
        match spec_parse_literal(s, pos + 1, lit.drop_first()) {
            ParseOut::Fail { f } => ParseOut::Fail { f },
            ParseOut::Found { v: _, used: n } => ParseOut::Found { v: (), used: 1 + n },
        }
    }
}

/// Insert a key/value pair into an object: a present key keeps its place
/// and takes the new value; an absent key is appended.
pub open spec fn spec_obj_insert(
    m: Seq<(Seq<char>, JsonRep)>,
    k: Seq<char>,
    v: JsonRep,
) -> Seq<(Seq<char>, JsonRep)>
    decreases m.len(),
{
    if m.len() == 0 {
        seq![(k, v)]
    } else if m[0].0 == k {
        seq![(k, v)] + m.drop_first()
    } else {
        seq![m[0]] + spec_obj_insert(m.drop_first(), k, v)
    }
}

/// Fold a textual pair list into an object, left to right, so that the
/// last value for a duplicate key wins.
pub open spec fn spec_obj_dedup(pairs: Seq<(Seq<char>, JsonRep)>) -> Seq<(Seq<char>, JsonRep)>
    decreases pairs.len(),
{
    if pairs.len() == 0 {
        Seq::empty()
    } else {
        spec_obj_insert(spec_obj_dedup(pairs.drop_last()), pairs.last().0, pairs.last().1)
    }
}

/// One value, dispatched on its first character; an exhausted input is the
/// `Empty` fault.
pub open spec fn spec_parse_value(s: Seq<char>, pos: int) -> ParseOut<JsonRep>
    decreases s.len() - pos, 1int,
{
    if !(0 <= pos < s.len()) {
        ParseOut::Fail { f: Fault::Empty }
    } else {
        let c = s[pos];
        if c == '{' {
            spec_parse_object(s, pos)
        } else if c == '"' {
            match spec_parse_string(s, pos) {
                ParseOut::Fail { f } => ParseOut::Fail { f },
                ParseOut::Found { v, used } => ParseOut::Found { v: JsonRep::StrRep(v), used },
            }
        } else if c == 't' {
            match spec_parse_literal(s, pos, "true"@) {
                ParseOut::Fail { f } => ParseOut::Fail { f },
                ParseOut::Found { v: _, used } => ParseOut::Found {
                    v: JsonRep::BoolRep(true),
                    used,
                },
            }
        } else if c == 'f' {
            match spec_parse_literal(s, pos, "false"@) {
                ParseOut::Fail { f } => ParseOut::Fail { f },
                ParseOut::Found { v: _, used } => ParseOut::Found {
                    v: JsonRep::BoolRep(false),
                    used,
                },
            }
        } else if c == 'n' {
            match spec_parse_literal(s, pos, "null"@) {
                ParseOut::Fail { f } => ParseOut::Fail { f },
                ParseOut::Found { v: _, used } => ParseOut::Found { v: JsonRep::NullRep, used },
            }
        } else if c == '-' || spec_is_digit(c) {
            match spec_parse_number(s, pos) {
                ParseOut::Fail { f } => ParseOut::Fail { f },
                ParseOut::Found { v, used } => ParseOut::Found { v: JsonRep::NumRep(v), used },
            }
        } else if c == '[' {
            spec_parse_array(s, pos)
        } else {
            ParseOut::Fail { f: Fault::Unexpected { c, at: pos } }
        }
    }
}

/// An array: `[`, optional whitespace, then either `]` or its items.
pub open spec fn spec_parse_array(s: Seq<char>, pos: int) -> ParseOut<JsonRep>
    decreases s.len() - pos, 0int,
{
    if !(0 <= pos < s.len()) {
        ParseOut::Fail { f: Fault::Eof }
    } else if s[pos] != '[' {
        ParseOut::Fail { f: Fault::Expected { want: '[', c: s[pos], at: pos } }
    } else {
        let w = spec_whitespace_run(s, pos + 1);
        let q = pos + 1 + w;
        if q >= s.len() {
            ParseOut::Fail { f: Fault::Eof }
        } else if s[q] == ']' {
            ParseOut::Found { v: JsonRep::ArrRep(Seq::empty()), used: 1 + w + 1 }
        } else {
            match spec_parse_items(s, q) {
                ParseOut::Fail { f } => ParseOut::Fail { f },
                ParseOut::Found { v: items, used: n } => ParseOut::Found {
                    v: JsonRep::ArrRep(items),
                    used: 1 + w + n,
                },
            }
        }
    }
}

/// One or more array items separated by commas, up to and including the
/// closing `]`.
pub open spec fn spec_parse_items(s: Seq<char>, pos: int) -> ParseOut<Seq<JsonRep>>
    decreases s.len() - pos, 2int,
{
    let w0 = spec_whitespace_run(s, pos);
    let pv = pos + w0;
    proof {
        lemma_whitespace_run_le(s, pos);
    }
    match spec_parse_value(s, pv) {
        ParseOut::Fail { f } => ParseOut::Fail { f },
        ParseOut::Found { v, used: nv } => {
            let w1 = spec_whitespace_run(s, pv + nv);
            let pd = pv + nv + w1;
            if pd >= s.len() {
                ParseOut::Fail { f: Fault::Eof }
            } else if s[pd] == ']' {
                ParseOut::Found { v: seq![v], used: w0 + nv + w1 + 1 }
            } else if s[pd] == ',' {
                match spec_parse_items(s, pd + 1) {
                    ParseOut::Fail { f } => ParseOut::Fail { f },
                    ParseOut::Found { v: rest, used: nr } => ParseOut::Found {
                        v: seq![v] + rest,
                        used: w0 + nv + w1 + 1 + nr,
                    },
                }
            } else {
                ParseOut::Fail { f: Fault::Unexpected { c: s[pd], at: pd } }
            }
        },
    }
}

/// An object: `{`, then either `}` at once or its members. The textual
/// pairs are folded with `spec_obj_dedup`, so the last value for a
/// duplicate key wins. No whitespace is skipped before the `}` check.
pub open spec fn spec_parse_object(s: Seq<char>, pos: int) -> ParseOut<JsonRep>
    decreases s.len() - pos, 0int,
{
    if !(0 <= pos < s.len()) {
        ParseOut::Fail { f: Fault::Eof }
    } else if s[pos] != '{' {
        ParseOut::Fail { f: Fault::Expected { want: '{', c: s[pos], at: pos } }
    } else if pos + 1 >= s.len() {
        ParseOut::Fail { f: Fault::Eof }
    } else if s[pos + 1] == '}' {
        ParseOut::Found { v: JsonRep::ObjRep(Seq::empty()), used: 2 }
    } else {
        match spec_parse_members(s, pos + 1) {
            ParseOut::Fail { f } => ParseOut::Fail { f },
            ParseOut::Found { v: pairs, used: n } => ParseOut::Found {
                v: JsonRep::ObjRep(spec_obj_dedup(pairs)),
                used: 1 + n,
            },
        }
    }
}

/// One or more `"key": value` members separated by commas, up to and
/// including the closing `}`, in textual order with duplicates kept.
pub open spec fn spec_parse_members(s: Seq<char>, pos: int) -> ParseOut<
    Seq<(Seq<char>, JsonRep)>,
>
    decreases s.len() - pos, 2int,
{
    let w0 = spec_whitespace_run(s, pos);
    let pk = pos + w0;
    match spec_parse_string(s, pk) {
        ParseOut::Fail { f } => ParseOut::Fail { f },
        ParseOut::Found { v: key, used: nk } => {
            let w1 = spec_whitespace_run(s, pk + nk);
            let pc = pk + nk + w1;
            if pc >= s.len() {
                ParseOut::Fail { f: Fault::Eof }
            } else if s[pc] != ':' {
                ParseOut::Fail { f: Fault::Expected { want: ':', c: s[pc], at: pc } }
            } else {
                let w2 = spec_whitespace_run(s, pc + 1);
                let pv = pc + 1 + w2;
                proof {
                    lemma_whitespace_run_le(s, pc + 1);
                }
                match spec_parse_value(s, pv) {
                    ParseOut::Fail { f } => ParseOut::Fail { f },
                    ParseOut::Found { v, used: nv } => {
                        let w3 = spec_whitespace_run(s, pv + nv);
                        let pd = pv + nv + w3;
                        if pd >= s.len() {
                            ParseOut::Fail { f: Fault::Eof }
                        } else if s[pd] == '}' {
                            ParseOut::Found {
                                v: seq![(key, v)],
                                used: w0 + nk + w1 + 1 + w2 + nv + w3 + 1,
                            }
                        } else if s[pd] == ',' {
                            match spec_parse_members(s, pd + 1) {
                                ParseOut::Fail { f } => ParseOut::Fail { f },
                                ParseOut::Found { v: rest, used: nr } => ParseOut::Found {
                                    v: seq![(key, v)] + rest,
                                    used: w0 + nk + w1 + 1 + w2 + nv + w3 + 1 + nr,
                                },
                            }
                        } else {
                            ParseOut::Fail { f: Fault::Unexpected { c: s[pd], at: pd } }
                        }
                    },
                }
            }
        },
    }
}

/// The whole text: optional whitespace, one value, optional whitespace,
/// and nothing more.
pub open spec fn spec_parse_json(s: Seq<char>) -> ParseOut<JsonRep> {
    let w0 = spec_whitespace_run(s, 0);
    match spec_parse_value(s, w0 as int) {
        ParseOut::Fail { f } => ParseOut::Fail { f },
        ParseOut::Found { v, used: n } => {
            let w1 = spec_whitespace_run(s, w0 + n as int);
            let e: int = (w0 + n + w1) as int;
            if e < s.len() {
                ParseOut::Fail { f: Fault::Unexpected { c: s[e], at: e } }
            } else {
                ParseOut::Found { v, used: w0 + n + w1 }
            }
        },
    }
}

/// A nonempty whitespace run stays inside the text.
pub proof fn lemma_whitespace_run_le(s: Seq<char>, pos: int)
    ensures
        spec_whitespace_run(s, pos) != 0 ==> pos + spec_whitespace_run(s, pos) <= s.len(),
    decreases s.len() - pos,
{
    if 0 <= pos < s.len() && spec_is_ws(s[pos]) {
        lemma_whitespace_run_le(s, pos + 1);
    }
}

/// A nonempty digit run stays inside the text.
pub proof fn lemma_digit_run_le(s: Seq<char>, pos: int)
    ensures
        spec_digit_run(s, pos) != 0 ==> pos + spec_digit_run(s, pos) <= s.len(),
    decreases s.len() - pos,
{
    if 0 <= pos < s.len() && spec_is_digit(s[pos]) {
        lemma_digit_run_le(s, pos + 1);
    }
}

/// A matched escape consumes at least one character and stays inside the
/// text.
pub proof fn lemma_escape_le(s: Seq<char>, pos: int)
    ensures
        spec_parse_escape(s, pos) matches ParseOut::Found { v: _, used } ==> 1 <= used && pos
            + used <= s.len(),
{
}

/// One plain character prepends itself to the rest of the string body.
pub proof fn lemma_string_body_char(s: Seq<char>, q: int)
    requires
        0 <= q < s.len(),
        s[q] != '"',
        s[q] != '\\',
        (s[q] as u32) >= 0x20,
    ensures
        match spec_string_body(s, q + 1) {
            ParseOut::Found { v: t, used: n } => spec_string_body(s, q) == (ParseOut::Found {
                v: seq![s[q]] + t,
                used: (1 + n) as nat,
            }),
            ParseOut::Fail { f } => spec_string_body(s, q) == (ParseOut::<Seq<char>>::Fail { f }),
        },
{
}

/// A raw control character is rejected.
pub proof fn lemma_string_body_control(s: Seq<char>, q: int)
    requires
        0 <= q < s.len(),
        s[q] != '"',
        s[q] != '\\',
        (s[q] as u32) < 0x20,
    ensures
        spec_string_body(s, q) == (ParseOut::<Seq<char>>::Fail {
            f: Fault::Unexpected { c: s[q], at: q },
        }),
{
}

/// A backslash decodes its escape and prepends it to the rest.
pub proof fn lemma_string_body_escape(s: Seq<char>, q: int)
    requires
        0 <= q < s.len(),
        s[q] == '\\',
    ensures
        match spec_parse_escape(s, q + 1) {
            ParseOut::Found { v: cs, used: u } => match spec_string_body(s, q + 1 + u) {
                ParseOut::Found { v: t, used: n } => spec_string_body(s, q) == (ParseOut::Found {
                    v: cs + t,
                    used: (1 + u + n) as nat,
                }),
                ParseOut::Fail { f } => spec_string_body(s, q) == (ParseOut::<Seq<char>>::Fail {
                    f,
                }),
            },
            ParseOut::Fail { f } => spec_string_body(s, q) == (ParseOut::<Seq<char>>::Fail { f }),
        },
{
}

/// Fold pairs into an object starting from `m`, left to right.
pub open spec fn spec_obj_fold(
    m: Seq<(Seq<char>, JsonRep)>,
    ps: Seq<(Seq<char>, JsonRep)>,
) -> Seq<(Seq<char>, JsonRep)>
    decreases ps.len(),
{
    if ps.len() == 0 {
        m
    } else {
        spec_obj_fold(spec_obj_insert(m, ps[0].0, ps[0].1), ps.drop_first())
    }
}

/// Folding one more pair at the end inserts it into the fold so far.
pub proof fn lemma_fold_push(
    m: Seq<(Seq<char>, JsonRep)>,
    ps: Seq<(Seq<char>, JsonRep)>,
    k: Seq<char>,
    v: JsonRep,
)
    ensures
        spec_obj_fold(m, ps.push((k, v))) == spec_obj_insert(spec_obj_fold(m, ps), k, v),
    decreases ps.len(),
{
    reveal_with_fuel(spec_obj_fold, 3);
    if ps.len() == 0 {
        assert(ps.push((k, v)).drop_first() =~= Seq::<(Seq<char>, JsonRep)>::empty());
        assert(ps.push((k, v))[0] == (k, v));
    } else {
        assert(ps.push((k, v)).drop_first() =~= ps.drop_first().push((k, v)));
        assert(ps.push((k, v))[0] == ps[0]);
        lemma_fold_push(spec_obj_insert(m, ps[0].0, ps[0].1), ps.drop_first(), k, v);
    }
}

/// The dedup of a pair list is its fold from the empty object.
pub proof fn lemma_dedup_is_fold(ps: Seq<(Seq<char>, JsonRep)>)
    ensures
        spec_obj_dedup(ps) == spec_obj_fold(Seq::empty(), ps),
    decreases ps.len(),
{
    if ps.len() > 0 {
        lemma_dedup_is_fold(ps.drop_last());
        lemma_fold_push(Seq::empty(), ps.drop_last(), ps.last().0, ps.last().1);
        assert(ps.drop_last().push(ps.last()) =~= ps);
        assert(ps.last() == (ps.last().0, ps.last().1));
    }
}

/// Inserting a key that sits at index `j` updates that entry in place.
pub proof fn lemma_obj_insert_update(
    m: Seq<(Seq<char>, JsonRep)>,
    j: int,
    k: Seq<char>,
    v: JsonRep,
)
    requires
        0 <= j < m.len(),
        m[j].0 == k,
        forall|i: int| 0 <= i < j ==> (#[trigger] m[i]).0 != k,
    ensures
        spec_obj_insert(m, k, v) == m.update(j, (k, v)),
    decreases j,
{
    if j == 0 {
        assert(spec_obj_insert(m, k, v) =~= m.update(0, (k, v)));
    } else {
        assert(m[0].0 != k);
        assert forall|i: int| 0 <= i < j - 1 implies (#[trigger] m.drop_first()[i]).0 != k by {
            assert(m[i + 1].0 != k);
        }
        lemma_obj_insert_update(m.drop_first(), j - 1, k, v);
        assert(spec_obj_insert(m, k, v) =~= m.update(j, (k, v)));
    }
}

/// Inserting an absent key appends the pair.
pub proof fn lemma_obj_insert_push(m: Seq<(Seq<char>, JsonRep)>, k: Seq<char>, v: JsonRep)
    requires
        forall|i: int| 0 <= i < m.len() ==> (#[trigger] m[i]).0 != k,
    ensures
        spec_obj_insert(m, k, v) == m.push((k, v)),
    decreases m.len(),
{
    if m.len() == 0 {
        assert(spec_obj_insert(m, k, v) =~= m.push((k, v)));
    } else {
        assert(m[0].0 != k);
        assert forall|i: int|
            0 <= i < m.drop_first().len() implies (#[trigger] m.drop_first()[i]).0 != k by {
            assert(m[i + 1].0 != k);
        }
        lemma_obj_insert_push(m.drop_first(), k, v);
        assert(spec_obj_insert(m, k, v) =~= m.push((k, v)));
    }
}

/// The digit run is exactly the maximal all-digit stretch.
pub proof fn lemma_digit_run_chars(s: Seq<char>, pos: int)
    requires
        0 <= pos,
    ensures
        forall|i: int|
            pos <= i < pos + spec_digit_run(s, pos) ==> spec_is_digit(#[trigger] s[i]),
        pos + spec_digit_run(s, pos) >= s.len() || !spec_is_digit(
            s[pos + spec_digit_run(s, pos)],
        ),
    decreases s.len() - pos,
{
    if 0 <= pos < s.len() && spec_is_digit(s[pos]) {
        lemma_digit_run_chars(s, pos + 1);
    }
}

/// An all-digit stretch that cannot be extended is the digit run.
pub proof fn lemma_digit_run_exact(s: Seq<char>, pos: int, k: int)
    requires
        0 <= pos,
        0 <= k,
        pos + k <= s.len(),
        forall|i: int| pos <= i < pos + k ==> spec_is_digit(#[trigger] s[i]),
        pos + k == s.len() || !spec_is_digit(s[pos + k]),
    ensures
        spec_digit_run(s, pos) == k,
    decreases k,
{
    if k == 0 {
    } else {
        assert(spec_is_digit(s[pos]));
        lemma_digit_run_exact(s, pos + 1, k - 1);
    }
}

/// A whitespace run of zero at a non-whitespace character.
pub proof fn lemma_ws_run_zero(s: Seq<char>, pos: int)
    requires
        pos >= s.len() || pos < 0 || !spec_is_ws(s[pos]),
    ensures
        spec_whitespace_run(s, pos) == 0,
{
}

/// A matched literal consumes exactly its own length.
pub proof fn lemma_literal_le(s: Seq<char>, pos: int, lit: Seq<char>)
    ensures
        spec_parse_literal(s, pos, lit) matches ParseOut::Found { v: _, used } ==> used
            == lit.len() && (lit.len() > 0 ==> pos + used <= s.len()),
    decreases lit.len(),
{
    if lit.len() > 0 {
        lemma_literal_le(s, pos + 1, lit.drop_first());
    }
}

/// A matched string body consumes at least the closing quote and stays
/// inside the text.
pub proof fn lemma_string_body_le(s: Seq<char>, pos: int)
    ensures
        spec_string_body(s, pos) matches ParseOut::Found { v: _, used } ==> 1 <= used && pos
            + used <= s.len(),
    decreases s.len() - pos,
{
    if 0 <= pos < s.len() {
        let c = s[pos];
        if c == '\\' {
            lemma_escape_le(s, pos + 1);
            match spec_parse_escape(s, pos + 1) {
                ParseOut::Found { v: _, used: u } => {
                    lemma_string_body_le(s, pos + 1 + u);
                },
                ParseOut::Fail { f: _ } => {},
            }
        } else if c != '"' {
            lemma_string_body_le(s, pos + 1);
        }
    }
}

/// A matched string consumes its two quotes and stays inside the text.
pub proof fn lemma_string_le(s: Seq<char>, pos: int)
    ensures
        spec_parse_string(s, pos) matches ParseOut::Found { v: _, used } ==> 2 <= used && pos
            + used <= s.len(),
{
    lemma_string_body_le(s, pos + 1);
}

/// A matched number consumes at least one character and stays inside the
/// text.
pub proof fn lemma_number_le(s: Seq<char>, pos: int)
    ensures
        spec_parse_number(s, pos) matches ParseOut::Found { v: _, used } ==> 1 <= used && pos
            + used <= s.len(),
{
    if 0 <= pos < s.len() {
        lemma_digit_run_le(s, pos);
        let neg = s[pos] == '-';
        let n_sign: int = if neg {
            1
        } else {
            0
        };
        let p0 = pos + n_sign;
        if p0 < s.len() {
            lemma_digit_run_le(s, p0);
            let used0: int = if s[p0] == '0' {
                n_sign + 1
            } else {
                n_sign + spec_digit_run(s, p0)
            };
            let p1 = pos + used0;
            lemma_digit_run_le(s, p1 + 1);
            match spec_parse_fraction(s, p1) {
                ParseOut::Found { v: _, used: nf } => {
                    let p2 = p1 + nf;
                    if p2 < s.len() && (s[p2] == 'e' || s[p2] == 'E') {
                        lemma_digit_run_le(s, p2 + 2);
                        lemma_digit_run_le(s, p2 + 1);
                    }
                },
                ParseOut::Fail { f: _ } => {},
            }
        }
    }
}

/// A matched value consumes at least one character and stays inside the
/// text.
pub proof fn lemma_value_le(s: Seq<char>, pos: int)
    ensures
        spec_parse_value(s, pos) matches ParseOut::Found { v: _, used } ==> 1 <= used && pos
            + used <= s.len(),
    decreases s.len() - pos, 1int,
{
    if 0 <= pos < s.len() {
        let c = s[pos];
        if c == '{' {
            lemma_object_le(s, pos);
        } else if c == '"' {
            lemma_string_le(s, pos);
        } else if c == 't' {
            reveal_strlit("true");
            lemma_literal_le(s, pos, "true"@);
        } else if c == 'f' {
            reveal_strlit("false");
            lemma_literal_le(s, pos, "false"@);
        } else if c == 'n' {
            reveal_strlit("null");
            lemma_literal_le(s, pos, "null"@);
        } else if c == '-' || spec_is_digit(c) {
            lemma_number_le(s, pos);
        } else if c == '[' {
            lemma_array_le(s, pos);
        }
    }
}

/// A matched array consumes its brackets and stays inside the text.
pub proof fn lemma_array_le(s: Seq<char>, pos: int)
    ensures
        spec_parse_array(s, pos) matches ParseOut::Found { v: _, used } ==> 2 <= used && pos
            + used <= s.len(),
    decreases s.len() - pos, 0int,
{
    if 0 <= pos < s.len() && s[pos] == '[' {
        let w = spec_whitespace_run(s, pos + 1);
        let q = pos + 1 + w;
        lemma_whitespace_run_le(s, pos + 1);
        if q < s.len() && s[q] != ']' {
            lemma_items_le(s, q);
        }
    }
}

/// Matched items consume their closing bracket and stay inside the text.
pub proof fn lemma_items_le(s: Seq<char>, pos: int)
    ensures
        spec_parse_items(s, pos) matches ParseOut::Found { v: _, used } ==> 1 <= used && pos
            + used <= s.len(),
    decreases s.len() - pos, 2int,
{
    let w0 = spec_whitespace_run(s, pos);
    let pv = pos + w0;
    lemma_whitespace_run_le(s, pos);
    lemma_value_le(s, pv);
    match spec_parse_value(s, pv) {
        ParseOut::Found { v: _, used: nv } => {
            let w1 = spec_whitespace_run(s, pv + nv);
            lemma_whitespace_run_le(s, pv + nv);
            let pd = pv + nv + w1;
            if pd < s.len() && s[pd] == ',' {
                lemma_items_le(s, pd + 1);
            }
        },
        ParseOut::Fail { f: _ } => {},
    }
}

/// A matched object consumes its braces and stays inside the text.
pub proof fn lemma_object_le(s: Seq<char>, pos: int)
    ensures
        spec_parse_object(s, pos) matches ParseOut::Found { v: _, used } ==> 2 <= used && pos
            + used <= s.len(),
    decreases s.len() - pos, 0int,
{
    if 0 <= pos < s.len() && s[pos] == '{' && pos + 1 < s.len() && s[pos + 1] != '}' {
        lemma_members_le(s, pos + 1);
    }
}

/// Matched members consume their closing brace and stay inside the text.
pub proof fn lemma_members_le(s: Seq<char>, pos: int)
    ensures
        spec_parse_members(s, pos) matches ParseOut::Found { v: _, used } ==> 1 <= used && pos
            + used <= s.len(),
    decreases s.len() - pos, 2int,
{
    let w0 = spec_whitespace_run(s, pos);
    let pk = pos + w0;
    lemma_whitespace_run_le(s, pos);
    lemma_string_le(s, pk);
    match spec_parse_string(s, pk) {
        ParseOut::Found { v: _, used: nk } => {
            let w1 = spec_whitespace_run(s, pk + nk);
            lemma_whitespace_run_le(s, pk + nk);
            let pc = pk + nk + w1;
            if pc < s.len() && s[pc] == ':' {
                let w2 = spec_whitespace_run(s, pc + 1);
                lemma_whitespace_run_le(s, pc + 1);
                let pv = pc + 1 + w2;
                lemma_value_le(s, pv);
                match spec_parse_value(s, pv) {
                    ParseOut::Found { v: _, used: nv } => {
                        let w3 = spec_whitespace_run(s, pv + nv);
                        lemma_whitespace_run_le(s, pv + nv);
                        let pd = pv + nv + w3;
                        if pd < s.len() && s[pd] == ',' {
                            lemma_members_le(s, pd + 1);
                        }
                    },
                    ParseOut::Fail { f: _ } => {},
                }
            }
        },
        ParseOut::Fail { f: _ } => {},
    }
}

/// A text that parses has been consumed whole: nothing stands after the
/// value but whitespace, and the count of consumed characters is the whole
/// length. In particular any trailing non-whitespace content makes the
/// parse fail.
pub proof fn lemma_parse_consumes_all(s: Seq<char>)
    ensures
        spec_parse_json(s) matches ParseOut::Found { v: _, used } ==> used == s.len(),
{
    let w0 = spec_whitespace_run(s, 0);
    lemma_whitespace_run_le(s, 0);
    lemma_value_le(s, w0 as int);
    match spec_parse_value(s, w0 as int) {
        ParseOut::Found { v: _, used: n } => {
            lemma_whitespace_run_le(s, w0 + n as int);
        },
        ParseOut::Fail { f: _ } => {},
    }
}

/// A stretch inside a digit run is all digits.
pub proof fn lemma_run_subrange_digits(s: Seq<char>, a: int, k: int)
    requires
        0 <= a,
        0 <= k,
        a + k <= s.len(),
        k <= spec_digit_run(s, a),
    ensures
        all_digits(s.subrange(a, a + k)),
{
    lemma_digit_run_chars(s, a);
    assert forall|i: int|
        0 <= i < k implies spec_is_digit(#[trigger] s.subrange(a, a + k)[i]) by {
        assert(s.subrange(a, a + k)[i] == s[a + i]);
        assert(spec_is_digit(s[a + i]));
    }
}

/// A matched number is canonical.
pub proof fn lemma_number_wf(s: Seq<char>, pos: int)
    ensures
        spec_parse_number(s, pos) matches ParseOut::Found { v, used: _ } ==> v.wf(),
{
    if 0 <= pos < s.len() {
        let n_sign: int = if s[pos] == '-' {
            1
        } else {
            0
        };
        let p0 = pos + n_sign;
        if p0 < s.len() {
            lemma_digit_run_le(s, p0);
            lemma_digit_run_chars(s, p0);
            let r = spec_digit_run(s, p0);
            if s[p0] == '0' || spec_is_digit(s[p0]) {
                let used0: int = if s[p0] == '0' {
                    n_sign + 1
                } else {
                    n_sign + r
                };
                let p1 = pos + used0;
                if s[p0] == '0' {
                    assert(all_digits(seq!['0'])) by {
                        assert forall|i: int|
                            0 <= i < 1 implies spec_is_digit(#[trigger] seq!['0'][i]) by {
                            assert(seq!['0'][i] == '0');
                        }
                    }
                } else {
                    assert(r >= 1);
                    lemma_run_subrange_digits(s, p0, r as int);
                    assert(s.subrange(p0, p0 + r as int)[0] == s[p0]);
                }
                if p1 + 1 <= s.len() {
                    lemma_digit_run_le(s, p1 + 1);
                    lemma_run_subrange_digits(s, p1 + 1, spec_digit_run(s, p1 + 1) as int);
                }
                match spec_parse_fraction(s, p1) {
                    ParseOut::Found { v: frac, used: nf } => {
                        let p2 = p1 + nf;
                        if p2 < s.len() && (s[p2] == 'e' || s[p2] == 'E') {
                            if p2 + 1 < s.len() {
                                let nsg: int = if s[p2 + 1] == '-' || s[p2 + 1] == '+' {
                                    1
                                } else {
                                    0
                                };
                                let p4 = p2 + 1 + nsg;
                                if p4 <= s.len() {
                                    lemma_digit_run_le(s, p4);
                                    lemma_run_subrange_digits(
                                        s,
                                        p4,
                                        spec_digit_run(s, p4) as int,
                                    );
                                }
                            }
                        }
                    },
                    ParseOut::Fail { f: _ } => {},
                }
            }
        }
    }
}

/// A deduplicated pair list has pairwise distinct keys and keeps its
/// values well-formed.
pub proof fn lemma_insert_wf(m: Seq<(Seq<char>, JsonRep)>, k: Seq<char>, v: JsonRep)
    requires
        forall|i: int| 0 <= i < m.len() ==> (#[trigger] m[i]).1.wf(),
        forall|i: int, j: int| 0 <= i < j < m.len() ==> m[i].0 != m[j].0,
        v.wf(),
    ensures
        forall|i: int|
            0 <= i < spec_obj_insert(m, k, v).len()
                ==> (#[trigger] spec_obj_insert(m, k, v)[i]).1.wf(),
        forall|i: int, j: int|
            0 <= i < j < spec_obj_insert(m, k, v).len() ==> spec_obj_insert(m, k, v)[i].0
                != spec_obj_insert(m, k, v)[j].0,
{
    if exists|j: int| 0 <= j < m.len() && (#[trigger] m[j]).0 == k {
        let j = choose|j: int| 0 <= j < m.len() && (#[trigger] m[j]).0 == k;
        assert forall|i: int| 0 <= i < j implies (#[trigger] m[i]).0 != k by {
            if m[i].0 == k {
                assert(m[i].0 != m[j].0);
            }
        }
        lemma_obj_insert_update(m, j, k, v);
        let r = m.update(j, (k, v));
        assert forall|a: int, b: int| 0 <= a < b < r.len() implies r[a].0 != r[b].0 by {
            if a != j && b != j {
                assert(m[a].0 != m[b].0);
            } else if a == j {
                assert(m[a].0 == k && m[b].0 != m[a].0);
            } else {
                assert(m[b].0 == k && m[a].0 != m[b].0);
            }
        }
    } else {
        lemma_obj_insert_push(m, k, v);
    }
}

/// Deduplication yields pairwise distinct keys and well-formed values.
pub proof fn lemma_dedup_wf(ps: Seq<(Seq<char>, JsonRep)>)
    requires
        forall|i: int| 0 <= i < ps.len() ==> (#[trigger] ps[i]).1.wf(),
    ensures
        forall|i: int|
            0 <= i < spec_obj_dedup(ps).len() ==> (#[trigger] spec_obj_dedup(ps)[i]).1.wf(),
        forall|i: int, j: int|
            0 <= i < j < spec_obj_dedup(ps).len() ==> spec_obj_dedup(ps)[i].0 != spec_obj_dedup(
                ps,
            )[j].0,
    decreases ps.len(),
{
    if ps.len() > 0 {
        assert forall|i: int|
            0 <= i < ps.drop_last().len() implies (#[trigger] ps.drop_last()[i]).1.wf() by {
            assert(ps.drop_last()[i] == ps[i]);
        }
        lemma_dedup_wf(ps.drop_last());
        assert(ps.last().1.wf());
        lemma_insert_wf(spec_obj_dedup(ps.drop_last()), ps.last().0, ps.last().1);
    }
}

/// A matched value is well-formed: its numbers are canonical and its
/// objects have pairwise distinct keys.
pub proof fn lemma_value_wf(s: Seq<char>, pos: int)
    ensures
        spec_parse_value(s, pos) matches ParseOut::Found { v, used: _ } ==> v.wf(),
    decreases s.len() - pos, 1int,
{
    if 0 <= pos < s.len() {
        let c = s[pos];
        if c == '{' {
            lemma_object_wf(s, pos);
        } else if c == '-' || spec_is_digit(c) {
            lemma_number_wf(s, pos);
        } else if c == '[' {
            lemma_array_wf(s, pos);
        }
    }
}

/// A matched array is well-formed.
pub proof fn lemma_array_wf(s: Seq<char>, pos: int)
    ensures
        spec_parse_array(s, pos) matches ParseOut::Found { v, used: _ } ==> v.wf(),
    decreases s.len() - pos, 0int,
{
    if 0 <= pos < s.len() && s[pos] == '[' {
        let w = spec_whitespace_run(s, pos + 1);
        let q = pos + 1 + w;
        lemma_whitespace_run_le(s, pos + 1);
        if q < s.len() && s[q] != ']' {
            lemma_items_wf(s, q);
        }
    }
}

/// Matched array items are each well-formed.
pub proof fn lemma_items_wf(s: Seq<char>, pos: int)
    ensures
        spec_parse_items(s, pos) matches ParseOut::Found { v: items, used: _ } ==> forall|
            i: int,
        |
            0 <= i < items.len() ==> (#[trigger] items[i]).wf(),
    decreases s.len() - pos, 2int,
{
    let w0 = spec_whitespace_run(s, pos);
    let pv = pos + w0;
    lemma_whitespace_run_le(s, pos);
    lemma_value_le(s, pv);
    lemma_value_wf(s, pv);
    match spec_parse_value(s, pv) {
        ParseOut::Found { v, used: nv } => {
            let w1 = spec_whitespace_run(s, pv + nv);
            lemma_whitespace_run_le(s, pv + nv);
            let pd = pv + nv + w1;
            if pd < s.len() && s[pd] == ',' {
                lemma_items_wf(s, pd + 1);
                match spec_parse_items(s, pd + 1) {
                    ParseOut::Found { v: rest, used: _ } => {
                        assert forall|i: int|
                            0 <= i < (seq![v] + rest).len() implies (#[trigger] (seq![v]
                            + rest)[i]).wf() by {
                            if i == 0 {
                                assert((seq![v] + rest)[i] == v);
                            } else {
                                assert((seq![v] + rest)[i] == rest[i - 1]);
                            }
                        }
                    },
                    ParseOut::Fail { f: _ } => {},
                }
            } else if pd < s.len() && s[pd] == ']' {
                assert forall|i: int|
                    0 <= i < seq![v].len() implies (#[trigger] seq![v][i]).wf() by {
                    assert(seq![v][i] == v);
                }
            }
        },
        ParseOut::Fail { f: _ } => {},
    }
}

/// A matched object is well-formed.
pub proof fn lemma_object_wf(s: Seq<char>, pos: int)
    ensures
        spec_parse_object(s, pos) matches ParseOut::Found { v, used: _ } ==> v.wf(),
    decreases s.len() - pos, 0int,
{
    if 0 <= pos < s.len() && s[pos] == '{' && pos + 1 < s.len() && s[pos + 1] != '}' {
        lemma_members_wf(s, pos + 1);
        match spec_parse_members(s, pos + 1) {
            ParseOut::Found { v: pairs, used: _ } => {
                lemma_dedup_wf(pairs);
            },
            ParseOut::Fail { f: _ } => {},
        }
    }
}

/// Matched members have each a well-formed value.
pub proof fn lemma_members_wf(s: Seq<char>, pos: int)
    ensures
        spec_parse_members(s, pos) matches ParseOut::Found { v: ps, used: _ } ==> forall|i: int|
            0 <= i < ps.len() ==> (#[trigger] ps[i]).1.wf(),
    decreases s.len() - pos, 2int,
{
    let w0 = spec_whitespace_run(s, pos);
    let pk = pos + w0;
    lemma_whitespace_run_le(s, pos);
    lemma_string_le(s, pk);
    match spec_parse_string(s, pk) {
        ParseOut::Found { v: key, used: nk } => {
            let w1 = spec_whitespace_run(s, pk + nk);
            lemma_whitespace_run_le(s, pk + nk);
            let pc = pk + nk + w1;
            if pc < s.len() && s[pc] == ':' {
                let w2 = spec_whitespace_run(s, pc + 1);
                lemma_whitespace_run_le(s, pc + 1);
                let pv = pc + 1 + w2;
                lemma_value_le(s, pv);
                lemma_value_wf(s, pv);
                match spec_parse_value(s, pv) {
                    ParseOut::Found { v, used: nv } => {
                        let w3 = spec_whitespace_run(s, pv + nv);
                        lemma_whitespace_run_le(s, pv + nv);
                        let pd = pv + nv + w3;
                        if pd < s.len() && s[pd] == ',' {
                            lemma_members_wf(s, pd + 1);
                            match spec_parse_members(s, pd + 1) {
                                ParseOut::Found { v: rest, used: _ } => {
                                    assert forall|i: int|
                                        0 <= i < (seq![(key, v)] + rest).len() implies (
                                        #[trigger] (seq![(key, v)] + rest)[i]).1.wf() by {
                                        if i == 0 {
                                            assert((seq![(key, v)] + rest)[i] == (key, v));
                                        } else {
                                            assert((seq![(key, v)] + rest)[i] == rest[i - 1]);
                                        }
                                    }
                                },
                                ParseOut::Fail { f: _ } => {},
                            }
                        } else if pd < s.len() && s[pd] == '}' {
                            assert forall|i: int|
                                0 <= i < seq![(key, v)].len() implies (#[trigger] seq![
                                    (key, v),
                                ][i]).1.wf() by {
                                assert(seq![(key, v)][i] == (key, v));
                            }
                        }
                    },
                    ParseOut::Fail { f: _ } => {},
                }
            }
        },
        ParseOut::Fail { f: _ } => {},
    }
}

/// Whatever a whole text parses to is well-formed.
pub proof fn lemma_parse_json_wf(s: Seq<char>)
    ensures
        spec_parse_json(s) matches ParseOut::Found { v, used: _ } ==> v.wf(),
{
    let w0 = spec_whitespace_run(s, 0);
    lemma_value_wf(s, w0 as int);
}

/// A literal standing verbatim in the text parses whole.
pub proof fn lemma_literal_exact(s: Seq<char>, pos: int, lit: Seq<char>)
    requires
        0 <= pos,
        pos + lit.len() <= s.len(),
        forall|i: int| 0 <= i < lit.len() ==> s[pos + i] == #[trigger] lit[i],
    ensures
        spec_parse_literal(s, pos, lit) == (ParseOut::Found { v: (), used: lit.len() as nat }),
    decreases lit.len(),
{
    if lit.len() > 0 {
        assert(s[pos + 0] == lit[0]);
        assert forall|i: int|
            0 <= i < lit.drop_first().len() implies s[pos + 1 + i] == #[trigger] lit.drop_first()[
            i] by {
            assert(s[pos + (i + 1)] == lit[i + 1]);
            assert(lit.drop_first()[i] == lit[i + 1]);
        }
        lemma_literal_exact(s, pos + 1, lit.drop_first());
    }
}

/// Deduplication does nothing to a pair list whose keys are already
/// pairwise distinct.
pub proof fn lemma_dedup_distinct_id(ps: Seq<(Seq<char>, JsonRep)>)
    requires
        forall|i: int, j: int| 0 <= i < j < ps.len() ==> ps[i].0 != ps[j].0,
    ensures
        spec_obj_dedup(ps) == ps,
    decreases ps.len(),
{
    if ps.len() > 0 {
        let front = ps.drop_last();
        assert forall|i: int, j: int| 0 <= i < j < front.len() implies front[i].0 != front[j].0
            by {
            assert(ps[i].0 != ps[j].0);
            assert(front[i] == ps[i] && front[j] == ps[j]);
        }
        lemma_dedup_distinct_id(front);
        assert forall|i: int|
            0 <= i < front.len() implies (#[trigger] front[i]).0 != ps.last().0 by {
            assert(ps[i].0 != ps[ps.len() - 1].0);
            assert(front[i] == ps[i]);
        }
        lemma_obj_insert_push(front, ps.last().0, ps.last().1);
        assert(front.push(ps.last()) =~= ps);
        assert(ps.last() == (ps.last().0, ps.last().1));
    }
}

/// The value an object holds for a key, if any.
pub open spec fn spec_obj_lookup(m: Seq<(Seq<char>, JsonRep)>, k: Seq<char>) -> Option<
    JsonRep,
>
    decreases m.len(),
{
    if m.len() == 0 {
        None
    } else if m[0].0 == k {
        Some(m[0].1)
    } else {
        spec_obj_lookup(m.drop_first(), k)
    }
}

/// The last value a textual pair list gives a key, if any.
pub open spec fn spec_last_value(ps: Seq<(Seq<char>, JsonRep)>, k: Seq<char>) -> Option<
    JsonRep,
>
    decreases ps.len(),
{
    if ps.len() == 0 {
        None
    } else if ps.last().0 == k {
        Some(ps.last().1)
    } else {
        spec_last_value(ps.drop_last(), k)
    }
}

/// Looking up after an insert finds the inserted value for its key and
/// leaves every other key as it was.
pub proof fn lemma_insert_lookup(
    m: Seq<(Seq<char>, JsonRep)>,
    k: Seq<char>,
    v: JsonRep,
    k2: Seq<char>,
)
    ensures
        spec_obj_lookup(spec_obj_insert(m, k, v), k2) == (if k2 == k {
            Some(v)
        } else {
            spec_obj_lookup(m, k2)
        }),
    decreases m.len(),
{
    reveal_with_fuel(spec_obj_lookup, 3);
    if m.len() == 0 {
        assert(seq![(k, v)][0] == (k, v));
        assert(seq![(k, v)].drop_first() =~= Seq::<(Seq<char>, JsonRep)>::empty());
    } else if m[0].0 == k {
        assert((seq![(k, v)] + m.drop_first())[0] == (k, v));
        assert((seq![(k, v)] + m.drop_first()).drop_first() =~= m.drop_first());
    } else {
        assert((seq![m[0]] + spec_obj_insert(m.drop_first(), k, v))[0] == m[0]);
        assert((seq![m[0]] + spec_obj_insert(m.drop_first(), k, v)).drop_first()
            =~= spec_obj_insert(m.drop_first(), k, v));
        lemma_insert_lookup(m.drop_first(), k, v, k2);
    }
}

/// The last value wins: looking a key up in the folded object of a
/// textual pair list gives the value of the last pair that bore the key,
/// whatever came before.
pub proof fn lemma_dedup_last_wins(ps: Seq<(Seq<char>, JsonRep)>, k: Seq<char>)
    ensures
        spec_obj_lookup(spec_obj_dedup(ps), k) == spec_last_value(ps, k),
    decreases ps.len(),
{
    if ps.len() > 0 {
        lemma_dedup_last_wins(ps.drop_last(), k);
        lemma_insert_lookup(spec_obj_dedup(ps.drop_last()), ps.last().0, ps.last().1, k);
    }
}

} // verus!
