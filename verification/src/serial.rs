//! The serializer: the canonical text of a value, with a specification-level
//! definition that the executable writer is proved to produce. Strings are
//! escaped with the named escapes and `\u00XX` for other control characters;
//! numbers are written as their canonical literal.
use vstd::prelude::*;
use vstd::string::StrSliceExecFns;
use vstd::string::StringExecFns;

use crate::JSONNumber;
use crate::JSONValue;
use crate::errors::push_char;
use crate::grammar::ParseOut;
use crate::grammar::spec_hex4;
use crate::grammar::spec_hex_val;
use crate::grammar::spec_is_escapable;
use crate::grammar::spec_is_hex;
use crate::grammar::spec_is_ws;
use crate::grammar::spec_parse_escape;
use crate::grammar::spec_string_body;
use crate::grammar::spec_parse_string;
use crate::grammar::spec_obj_dedup;
use crate::model::JsonRep;
use crate::model::NumRep;
use crate::model::spec_is_digit;
use crate::model::lemma_rep_list;
use crate::model::lemma_rep_pairs;
use crate::model::rep_list;
use crate::model::rep_pairs;

verus! {

/// The lowercase hexadecimal digit for a value below sixteen.
pub open spec fn spec_hex_digit(d: int) -> char {
    if d < 10 {
        ((d + 0x30) as char)
    } else {
        ((d + 0x57) as char)
    }
}

/// How one character is written inside a string: itself, a named escape,
/// or a `\u00XX` escape for an unnamed control character.
pub open spec fn spec_escape_char(c: char) -> Seq<char> {
    if c == '"' {
        seq!['\\', '"']
    } else if c == '\\' {
        seq!['\\', '\\']
    } else if c == '\u{08}' {
        seq!['\\', 'b']
    } else if c == '\u{0c}' {
        seq!['\\', 'f']
    } else if c == '\u{0a}' {
        seq!['\\', 'n']
    } else if c == '\u{0d}' {
        seq!['\\', 'r']
    } else if c == '\u{09}' {
        seq!['\\', 't']
    } else if (c as u32) < 0x20 {
        seq!['\\', 'u', '0', '0', spec_hex_digit((c as u32 / 16) as int), spec_hex_digit(
            (c as u32 % 16) as int,
        )]
    } else {
        seq![c]
    }
}

/// A string's characters, escaped one by one.
pub open spec fn spec_escape_string(t: Seq<char>) -> Seq<char>
    decreases t.len(),
{
    if t.len() == 0 {
        Seq::empty()
    } else {
        spec_escape_char(t[0]) + spec_escape_string(t.drop_first())
    }
}

/// The canonical text of a value.
pub open spec fn spec_serialize(r: JsonRep) -> Seq<char>
    decreases r, 1int,
{
    match r {
        JsonRep::NullRep => seq!['n', 'u', 'l', 'l'],
        JsonRep::BoolRep(b) => if b {
            seq!['t', 'r', 'u', 'e']
        } else {
            seq!['f', 'a', 'l', 's', 'e']
        },
        JsonRep::NumRep(n) => n.lit(),
        JsonRep::StrRep(t) => seq!['"'] + spec_escape_string(t) + seq!['"'],
        JsonRep::ArrRep(items) => seq!['['] + spec_ser_items(items) + seq![']'],
        JsonRep::ObjRep(pairs) => seq!['{'] + spec_ser_members(pairs) + seq!['}'],
    }
}

/// Array items, comma-separated.
pub open spec fn spec_ser_items(items: Seq<JsonRep>) -> Seq<char>
    decreases items, 0int,
{
    if items.len() == 0 {
        Seq::empty()
    } else if items.len() == 1 {
        spec_serialize(items[0])
    } else {
        spec_serialize(items[0]) + seq![','] + spec_ser_items(items.drop_first())
    }
}

/// One object member: the quoted, escaped key, a colon, and the value.
pub open spec fn spec_ser_member(p: (Seq<char>, JsonRep)) -> Seq<char>
    decreases p, 0int,
{
    seq!['"'] + spec_escape_string(p.0) + seq!['"', ':'] + spec_serialize(p.1)
}

/// Object members, comma-separated.
pub open spec fn spec_ser_members(pairs: Seq<(Seq<char>, JsonRep)>) -> Seq<char>
    decreases pairs, 1int,
{
    if pairs.len() == 0 {
        Seq::empty()
    } else if pairs.len() == 1 {
        spec_ser_member(pairs[0])
    } else {
        spec_ser_member(pairs[0]) + seq![','] + spec_ser_members(pairs.drop_first())
    }
}

/// Escaping one more character appends its escape.
pub proof fn lemma_escape_string_push(t: Seq<char>, c: char)
    ensures
        spec_escape_string(t.push(c)) == spec_escape_string(t) + spec_escape_char(c),
    decreases t.len(),
{
    reveal_with_fuel(spec_escape_string, 3);
    if t.len() == 0 {
        assert(t.push(c).drop_first() =~= Seq::<char>::empty());
        assert(t.push(c)[0] == c);
        assert(spec_escape_string(t.push(c)) =~= spec_escape_string(t) + spec_escape_char(c));
    } else {
        assert(t.push(c).drop_first() =~= t.drop_first().push(c));
        assert(t.push(c)[0] == t[0]);
        lemma_escape_string_push(t.drop_first(), c);
        assert(spec_escape_string(t.push(c)) =~= spec_escape_string(t) + spec_escape_char(c));
    }
}

/// Serializing one more item appends a comma (after a first item) and its
/// text.
pub proof fn lemma_ser_items_push(xs: Seq<JsonRep>, x: JsonRep)
    ensures
        spec_ser_items(xs.push(x)) == (if xs.len() == 0 {
            spec_serialize(x)
        } else {
            spec_ser_items(xs) + seq![','] + spec_serialize(x)
        }),
    decreases xs.len(),
{
    if xs.len() == 0 {
        assert(xs.push(x)[0] == x);
    } else {
        assert(xs.push(x).drop_first() =~= xs.drop_first().push(x));
        assert(xs.push(x)[0] == xs[0]);
        lemma_ser_items_push(xs.drop_first(), x);
        if xs.len() == 1 {
            assert(spec_ser_items(xs.push(x)) =~= spec_ser_items(xs) + seq![',']
                + spec_serialize(x));
        } else {
            assert(spec_ser_items(xs.push(x)) =~= spec_ser_items(xs) + seq![',']
                + spec_serialize(x));
        }
    }
}

/// Serializing one more member appends a comma (after a first member) and
/// its text.
pub proof fn lemma_ser_members_push(xs: Seq<(Seq<char>, JsonRep)>, x: (Seq<char>, JsonRep))
    ensures
        spec_ser_members(xs.push(x)) == (if xs.len() == 0 {
            spec_ser_member(x)
        } else {
            spec_ser_members(xs) + seq![','] + spec_ser_member(x)
        }),
    decreases xs.len(),
{
    if xs.len() == 0 {
        assert(xs.push(x)[0] == x);
    } else {
        assert(xs.push(x).drop_first() =~= xs.drop_first().push(x));
        assert(xs.push(x)[0] == xs[0]);
        lemma_ser_members_push(xs.drop_first(), x);
        assert(spec_ser_members(xs.push(x)) =~= spec_ser_members(xs) + seq![',']
            + spec_ser_member(x));
    }
}

impl JSONNumber {
    /// The canonical decimal literal of this number, ready for a standard
    /// text-to-double conversion.
    pub fn literal(&self) -> (r: String)
        ensures
            r@ == self.rep().lit(),
    {
        let mut out = String::new();
        if self.negative {
            push_char(&mut out, '-');
        }
        out.append(self.int_part.as_str());
        if self.frac_part.as_str().unicode_len() > 0 {
            push_char(&mut out, '.');
            out.append(self.frac_part.as_str());
        }
        if self.exp_part.as_str().unicode_len() > 0 {
            push_char(&mut out, 'e');
            if self.exp_negative {
                push_char(&mut out, '-');
            }
            out.append(self.exp_part.as_str());
        }
        proof {
            assert(out@ =~= self.rep().lit());
        }
        out
    }
}

/// The lowercase hexadecimal digit for a value below sixteen.
fn hex_digit_char(d: u32) -> (c: char)
    requires
        d < 16,
    ensures
        c == spec_hex_digit(d as int),
{
    match d {
        0 => '0',
        1 => '1',
        2 => '2',
        3 => '3',
        4 => '4',
        5 => '5',
        6 => '6',
        7 => '7',
        8 => '8',
        9 => '9',
        10 => 'a',
        11 => 'b',
        12 => 'c',
        13 => 'd',
        14 => 'e',
        _ => 'f',
    }
}

/// Write a string as its quoted, escaped text.
fn serialize_string(t: &str) -> (r: String)
    ensures
        r@ == seq!['"'] + spec_escape_string(t@) + seq!['"'],
{
    let mut out = String::new();
    push_char(&mut out, '"');
    let n = t.unicode_len();
    let mut i: usize = 0;
    while i < n
        invariant
            i <= n,
            n == t@.len(),
            out@ == seq!['"'] + spec_escape_string(t@.take(i as int)),
        decreases n - i,
    {
        let ghost prefix = t@.take(i as int);
        let c = t.get_char(i);
        let ghost o_old = out@;
        if c == '"' {
            push_char(&mut out, '\\');
            push_char(&mut out, '"');
        } else if c == '\\' {
            push_char(&mut out, '\\');
            push_char(&mut out, '\\');
        } else if c == '\u{08}' {
            push_char(&mut out, '\\');
            push_char(&mut out, 'b');
        } else if c == '\u{0c}' {
            push_char(&mut out, '\\');
            push_char(&mut out, 'f');
        } else if c == '\u{0a}' {
            push_char(&mut out, '\\');
            push_char(&mut out, 'n');
        } else if c == '\u{0d}' {
            push_char(&mut out, '\\');
            push_char(&mut out, 'r');
        } else if c == '\u{09}' {
            push_char(&mut out, '\\');
            push_char(&mut out, 't');
        } else if (c as u32) < 0x20 {
            let v = c as u32;
            push_char(&mut out, '\\');
            push_char(&mut out, 'u');
            push_char(&mut out, '0');
            push_char(&mut out, '0');
            push_char(&mut out, hex_digit_char(v / 16));
            push_char(&mut out, hex_digit_char(v % 16));
        } else {
            push_char(&mut out, c);
        }
        proof {
            assert(out@ =~= o_old + spec_escape_char(c));
            lemma_escape_string_push(prefix, c);
            assert(prefix.push(c) =~= t@.take(i + 1 as int));
            assert(out@ =~= seq!['"'] + spec_escape_string(t@.take(i + 1 as int)));
        }
        i = i + 1;
    }
    proof {
        assert(t@.take(n as int) =~= t@);
    }
    push_char(&mut out, '"');
    proof {
        assert(out@ =~= seq!['"'] + spec_escape_string(t@) + seq!['"']);
    }
    out
}

/// Write a value as its canonical text.
pub fn serialize(v: &JSONValue) -> (r: String)
    ensures
        r@ == spec_serialize(v.rep()),
    decreases v,
{
    match v {
        JSONValue::JSONNull() => {
            proof {
                reveal_strlit("null");
            }
            let out = "null".to_owned();
            proof {
                assert(out@ =~= seq!['n', 'u', 'l', 'l']);
            }
            out
        },
        JSONValue::JSONBool(b) => {
            if *b {
                proof {
                    reveal_strlit("true");
                }
                let out = "true".to_owned();
                proof {
                    assert(out@ =~= seq!['t', 'r', 'u', 'e']);
                }
                out
            } else {
                proof {
                    reveal_strlit("false");
                }
                let out = "false".to_owned();
                proof {
                    assert(out@ =~= seq!['f', 'a', 'l', 's', 'e']);
                }
                out
            }
        },
        JSONValue::JSONNumber(n) => n.literal(),
        JSONValue::JSONString(st) => serialize_string(st.as_str()),
        JSONValue::JSONArray(items) => {
            let mut out = String::new();
            push_char(&mut out, '[');
            let n = items.len();
            let mut i: usize = 0;
            proof {
                lemma_rep_list(items@);
            }
            while i < n
                invariant
                    *v == JSONValue::JSONArray(*items),
                    i <= n,
                    n == items@.len(),
                    rep_list(items@).len() == items@.len(),
                    forall|k: int|
                        0 <= k < items@.len() ==> rep_list(items@)[k] == (
                        #[trigger] items@[k]).rep(),
                    out@ == seq!['['] + spec_ser_items(rep_list(items@).take(i as int)),
                decreases n - i,
            {
                let ghost o_old = out@;
                let ghost prefix = rep_list(items@).take(i as int);
                if i > 0 {
                    push_char(&mut out, ',');
                }
                proof {
                    assert(v->JSONArray_0 == *items);
                    assert(decreases_to!(*v => v->JSONArray_0));
                    assert(decreases_to!(*items => items@));
                    assert(decreases_to!(items@ => items@[i as int]));
                }
                let piece = serialize(&items[i]);
                out.append(piece.as_str());
                proof {
                    lemma_ser_items_push(prefix, items@[i as int].rep());
                    assert(prefix.push(items@[i as int].rep()) =~= rep_list(items@).take(
                        i + 1 as int,
                    ));
                    assert(out@ =~= seq!['['] + spec_ser_items(rep_list(items@).take(
                        i + 1 as int,
                    )));
                }
                i = i + 1;
            }
            proof {
                assert(rep_list(items@).take(n as int) =~= rep_list(items@));
            }
            push_char(&mut out, ']');
            proof {
                assert(out@ =~= seq!['['] + spec_ser_items(rep_list(items@)) + seq![']']);
            }
            out
        },
        JSONValue::JSONObject(pairs) => {
            let mut out = String::new();
            push_char(&mut out, '{');
            let n = pairs.len();
            let mut i: usize = 0;
            proof {
                lemma_rep_pairs(pairs@);
            }
            while i < n
                invariant
                    *v == JSONValue::JSONObject(*pairs),
                    i <= n,
                    n == pairs@.len(),
                    rep_pairs(pairs@).len() == pairs@.len(),
                    forall|k: int|
                        0 <= k < pairs@.len() ==> rep_pairs(pairs@)[k] == ((
                        #[trigger] pairs@[k]).0@, pairs@[k].1.rep()),
                    out@ == seq!['{'] + spec_ser_members(rep_pairs(pairs@).take(i as int)),
                decreases n - i,
            {
                let ghost o_old = out@;
                let ghost prefix = rep_pairs(pairs@).take(i as int);
                if i > 0 {
                    push_char(&mut out, ',');
                }
                let key_text = serialize_string(pairs[i].0.as_str());
                out.append(key_text.as_str());
                push_char(&mut out, ':');
                proof {
                    assert(v->JSONObject_0 == *pairs);
                    assert(decreases_to!(*v => v->JSONObject_0));
                    assert(decreases_to!(*pairs => pairs@));
                    assert(decreases_to!(pairs@ => pairs@[i as int]));
                    assert(decreases_to!(pairs@[i as int] => pairs@[i as int].1));
                }
                let piece = serialize(&pairs[i].1);
                out.append(piece.as_str());
                proof {
                    lemma_ser_members_push(
                        prefix,
                        (pairs@[i as int].0@, pairs@[i as int].1.rep()),
                    );
                    assert(prefix.push((pairs@[i as int].0@, pairs@[i as int].1.rep()))
                        =~= rep_pairs(pairs@).take(i + 1 as int));
                    assert(out@ =~= seq!['{'] + spec_ser_members(rep_pairs(pairs@).take(
                        i + 1 as int,
                    )));
                }
                i = i + 1;
            }
            proof {
                assert(rep_pairs(pairs@).take(n as int) =~= rep_pairs(pairs@));
            }
            push_char(&mut out, '}');
            proof {
                assert(out@ =~= seq!['{'] + spec_ser_members(rep_pairs(pairs@)) + seq!['}']);
            }
            out
        },
    }
}

/// The characters that could extend a number literal, and so may not
/// directly follow one.
pub open spec fn spec_number_extender(c: char) -> bool {
    spec_is_digit(c) || c == '.' || c == 'e' || c == 'E'
}

/// The characters a serialized value can start with.
pub open spec fn spec_starter(c: char) -> bool {
    c == 'n' || c == 't' || c == 'f' || c == '"' || c == '-' || spec_is_digit(c) || c == '['
        || c == '{'
}

/// A serialized well-formed value is nonempty and starts with a starter
/// character.
pub proof fn lemma_ser_starter(r: JsonRep)
    requires
        r.wf(),
    ensures
        spec_serialize(r).len() >= 1,
        spec_starter(spec_serialize(r)[0]),
{
    match r {
        JsonRep::NumRep(n) => {
            if n.neg {
                assert(n.lit()[0] == '-');
            } else {
                assert(n.lit()[0] == n.int_part[0]);
                assert(spec_is_digit(n.int_part[0]));
            }
        },
        _ => {},
    }
}

/// A starter character is not whitespace and is none of the structural
/// delimiters.
pub proof fn lemma_starter_not_delim(c: char)
    requires
        spec_starter(c),
    ensures
        !spec_is_ws(c),
        c != ']',
        c != '}',
        c != ',',
        c != ':',
{
    if spec_is_digit(c) {
        assert(']' as int == 0x5d && '}' as int == 0x7d && ',' as int == 0x2c && ':' as int
            == 0x3a);
        assert('\u{09}' as int == 9 && '\u{0a}' as int == 10 && '\u{0d}' as int == 13
            && ' ' as int == 0x20);
    }
}

/// `spec_hex_digit` writes a hexadecimal digit with the intended value.
pub proof fn lemma_hex_digit(d: int)
    requires
        0 <= d < 16,
    ensures
        spec_is_hex(spec_hex_digit(d)),
        spec_hex_val(spec_hex_digit(d)) == d,
{
    if d < 10 {
        assert(((d + 0x30) as char) as int == d + 0x30);
    } else {
        assert(((d + 0x57) as char) as int == d + 0x57);
    }
}

/// The escaped text of a string, followed by a closing quote, parses back
/// to exactly that string.
pub proof fn lemma_body_roundtrip(t: Seq<char>, s: Seq<char>, pos: int)
    requires
        0 <= pos,
        pos + spec_escape_string(t).len() + 1 <= s.len(),
        s.subrange(pos, pos + spec_escape_string(t).len() + 1) == spec_escape_string(t)
            + seq!['"'],
    ensures
        spec_string_body(s, pos) == (ParseOut::Found {
            v: t,
            used: (spec_escape_string(t).len() + 1) as nat,
        }),
    decreases t.len(),
{
    let es = spec_escape_string(t);
    let ee = es + seq!['"'];
    let el = es.len();
    assert forall|k: int| 0 <= k < el + 1 implies s[pos + k] == #[trigger] ee[k] by {
        assert(s.subrange(pos, pos + el + 1)[k] == ee[k]);
    }
    if t.len() == 0 {
        assert(s[pos + 0] == ee[0]);
        assert(ee[0] == '"');
        assert(t =~= Seq::<char>::empty());
    } else {
        let c = t[0];
        let esc = spec_escape_char(c);
        let rest = t.drop_first();
        let e1 = esc.len();
        let er = spec_escape_string(rest).len();
        assert(es == esc + spec_escape_string(rest));
        assert forall|k: int|
            0 <= k < er + 1 implies s.subrange(pos + e1, pos + e1 + er + 1)[k] == #[trigger] (
        spec_escape_string(rest) + seq!['"'])[k] by {
            assert(s.subrange(pos + e1, pos + e1 + er + 1)[k] == s[pos + (e1 + k)]);
            assert(s[pos + (e1 + k)] == ee[e1 + k]);
        }
        assert(s.subrange(pos + e1, pos + e1 + er + 1) =~= spec_escape_string(rest)
            + seq!['"']);
        lemma_body_roundtrip(rest, s, pos + e1);
        if c == '"' || c == '\\' || c == '\u{08}' || c == '\u{0c}' || c == '\u{0a}' || c
            == '\u{0d}' || c == '\u{09}' {
            // A named escape: a backslash and one letter.
            assert(s[pos + 0] == ee[0] && ee[0] == '\\');
            assert(s[pos + 1] == ee[1] && ee[1] == esc[1]);
            assert(spec_is_escapable(esc[1]));
            assert(spec_parse_escape(s, pos + 1) == (ParseOut::Found {
                v: seq![c],
                used: 1nat,
            })) by {
                assert(crate::grammar::spec_convert_escaped(esc[1]) == c);
                assert(seq![crate::grammar::spec_convert_escaped(esc[1])] =~= seq![c]);
            }
            assert(seq![c] + rest =~= t);
        } else if (c as u32) < 0x20 {
            // An unnamed control character: a six-character hex escape.
            let cv = c as u32;
            let h1 = spec_hex_digit((cv / 16) as int);
            let h2 = spec_hex_digit((cv % 16) as int);
            lemma_hex_digit((cv / 16) as int);
            lemma_hex_digit((cv % 16) as int);
            assert(s[pos + 0] == ee[0] && ee[0] == '\\');
            assert(s[pos + 1] == ee[1] && ee[1] == 'u');
            assert(s[pos + 2] == ee[2] && ee[2] == '0');
            assert(s[pos + 3] == ee[3] && ee[3] == '0');
            assert(s[pos + 4] == ee[4] && ee[4] == h1);
            assert(s[pos + 5] == ee[5] && ee[5] == h2);
            assert(spec_hex_val('0') == 0) by {
                assert('0' as int == 0x30);
            }
            let u1 = spec_hex_val(s[pos + 2]) * 0x1000 + spec_hex_val(s[pos + 3]) * 0x100
                + spec_hex_val(s[pos + 4]) * 0x10 + spec_hex_val(s[pos + 5]);
            assert(u1 == (cv / 16) * 16 + (cv % 16));
            assert(cv == (cv / 16) * 16 + (cv % 16)) by (nonlinear_arith);
            assert(u1 == cv as int);
            assert(spec_hex4(s, pos + 2) == (ParseOut::Found { v: u1, used: 4nat }));
            assert(!spec_is_escapable('u'));
            assert((u1 as char) == c) by {
                vstd::utf8::char_u32_cast(c, cv);
            }
            assert(spec_parse_escape(s, pos + 1) == (ParseOut::Found {
                v: seq![c],
                used: 5nat,
            })) by {
                assert(seq![(u1 as char)] =~= seq![c]);
            }
            assert(seq![c] + rest =~= t);
        } else {
            // A plain character.
            assert(s[pos + 0] == ee[0] && ee[0] == c);
            assert(c != '"' && c != '\\' && (c as u32) >= 0x20);
            assert(seq![c] + rest =~= t);
        }
    }
}

/// Where each part of a canonical number literal stands in a text that
/// holds the literal at `pos`.
pub proof fn lemma_lit_layout(n: NumRep, s: Seq<char>, pos: int)
    requires
        n.wf(),
        0 <= pos,
        pos + n.lit().len() <= s.len(),
        s.subrange(pos, pos + n.lit().len()) == n.lit(),
    ensures
        n.lit().len() == (if n.neg { 1int } else { 0int }) + n.int_part.len()
            + (if n.frac_part.len() > 0 { 1int + n.frac_part.len() } else { 0int })
            + (if n.exp_part.len() > 0 {
                1int + (if n.exp_neg { 1int } else { 0int }) + n.exp_part.len()
            } else { 0int }),
        n.neg ==> s[pos] == '-',
        forall|i: int| 0 <= i < n.int_part.len()
            ==> s[pos + (if n.neg { 1int } else { 0int }) + i] == #[trigger] n.int_part[i],
        n.frac_part.len() > 0
            ==> s[pos + (if n.neg { 1int } else { 0int }) + n.int_part.len()] == '.',
        forall|i: int| 0 <= i < n.frac_part.len()
            ==> s[pos + (if n.neg { 1int } else { 0int }) + n.int_part.len() + 1 + i]
                == #[trigger] n.frac_part[i],
        n.exp_part.len() > 0
            ==> s[pos + (if n.neg { 1int } else { 0int }) + n.int_part.len()
                + (if n.frac_part.len() > 0 { 1int + n.frac_part.len() } else { 0int })] == 'e',
        n.exp_part.len() > 0 && n.exp_neg
            ==> s[pos + (if n.neg { 1int } else { 0int }) + n.int_part.len()
                + (if n.frac_part.len() > 0 { 1int + n.frac_part.len() } else { 0int }) + 1]
                == '-',
        forall|i: int| 0 <= i < n.exp_part.len()
            ==> s[pos + (if n.neg { 1int } else { 0int }) + n.int_part.len()
                + (if n.frac_part.len() > 0 { 1int + n.frac_part.len() } else { 0int }) + 1
                + (if n.exp_neg { 1int } else { 0int }) + i] == #[trigger] n.exp_part[i],
{
    let lit = n.lit();
    let ll = lit.len() as int;
    assert forall|k: int| 0 <= k < ll implies s[pos + k] == #[trigger] lit[k] by {
        assert(s.subrange(pos, pos + ll)[k] == lit[k]);
    }
    let w: Seq<char> = if n.neg { seq!['-'] } else { Seq::empty() };
    let x = n.int_part;
    let fl = n.frac_part.len() as int;
    let y: Seq<char> = if fl > 0 { seq!['.'] + n.frac_part } else { Seq::empty() };
    let ec = n.exp_part.len() as int;
    let z: Seq<char> = if ec > 0 {
        seq!['e'] + (if n.exp_neg { seq!['-'] } else { Seq::empty() }) + n.exp_part
    } else { Seq::empty() };
    let a: int = if n.neg { 1 } else { 0 };
    let b = x.len() as int;
    let cc: int = if fl > 0 { 1 + fl } else { 0 };
    let en: int = if n.exp_neg { 1 } else { 0 };
    assert(lit == w + x + y + z);
    if n.neg {
        assert(lit[0] == w[0]);
        assert(s[pos + 0] == lit[0]);
    }
    assert forall|i: int| 0 <= i < b implies s[pos + a + i] == #[trigger] x[i] by {
        assert((w + x)[a + i] == x[i]);
        assert((w + x + y)[a + i] == (w + x)[a + i]);
        assert(lit[a + i] == (w + x + y)[a + i]);
        assert(s[pos + (a + i)] == lit[a + i]);
    }
    if fl > 0 {
        assert(y[0] == '.');
        assert((w + x + y)[a + b] == y[0]);
        assert(lit[a + b] == (w + x + y)[a + b]);
        assert(s[pos + (a + b)] == lit[a + b]);
    }
    assert forall|i: int| 0 <= i < fl implies s[pos + a + b + 1 + i]
        == #[trigger] n.frac_part[i] by {
        assert(y[1 + i] == n.frac_part[i]);
        assert((w + x + y)[a + b + 1 + i] == y[1 + i]);
        assert(lit[a + b + 1 + i] == (w + x + y)[a + b + 1 + i]);
        assert(s[pos + (a + b + 1 + i)] == lit[a + b + 1 + i]);
    }
    if ec > 0 {
        assert(z[0] == 'e');
        assert(lit[a + b + cc] == z[0]);
        assert(s[pos + (a + b + cc)] == lit[a + b + cc]);
        if n.exp_neg {
            assert(z[1] == '-');
            assert(lit[a + b + cc + 1] == z[1]);
            assert(s[pos + (a + b + cc + 1)] == lit[a + b + cc + 1]);
        }
    }
    assert forall|i: int| 0 <= i < ec implies s[pos + a + b + cc + 1 + en + i]
        == #[trigger] n.exp_part[i] by {
        assert(z[1 + en + i] == n.exp_part[i]);
        assert(lit[a + b + cc + 1 + en + i] == z[1 + en + i]);
        assert(s[pos + (a + b + cc + 1 + en + i)] == lit[a + b + cc + 1 + en + i]);
    }
}

/// A digit string standing verbatim at `p`, with no digit after it, is
/// exactly the digit run there.
pub proof fn lemma_digits_at(s: Seq<char>, p: int, dseq: Seq<char>)
    requires
        0 <= p,
        crate::model::all_digits(dseq),
        p + dseq.len() <= s.len(),
        forall|i: int| 0 <= i < dseq.len() ==> s[p + i] == #[trigger] dseq[i],
        p + dseq.len() == s.len() || !spec_is_digit(s[p + dseq.len()]),
    ensures
        crate::grammar::spec_digit_run(s, p) == dseq.len(),
        s.subrange(p, p + dseq.len()) == dseq,
{
    assert forall|i: int| p <= i < p + dseq.len() implies spec_is_digit(#[trigger] s[i]) by {
        assert(s[p + (i - p)] == dseq[i - p]);
        assert(spec_is_digit(dseq[i - p]));
    }
    crate::grammar::lemma_digit_run_exact(s, p, dseq.len() as int);
    assert forall|i: int| 0 <= i < dseq.len() implies s.subrange(p, p + dseq.len())[i]
        == dseq[i] by {
        assert(s.subrange(p, p + dseq.len())[i] == s[p + i]);
        assert(s[p + i] == dseq[i]);
    }
    assert(s.subrange(p, p + dseq.len()) =~= dseq);
}

/// A canonical number literal standing in the text, not followed by a
/// character that could extend it, parses back to exactly its parts.
#[verifier::rlimit(100)]
pub proof fn lemma_number_roundtrip(n: NumRep, s: Seq<char>, pos: int)
    requires
        n.wf(),
        0 <= pos,
        pos + n.lit().len() <= s.len(),
        s.subrange(pos, pos + n.lit().len()) == n.lit(),
        pos + n.lit().len() == s.len() || !spec_number_extender(s[pos + n.lit().len()]),
    ensures
        crate::grammar::spec_parse_number(s, pos) == (ParseOut::Found {
            v: n,
            used: n.lit().len() as nat,
        }),
{
    lemma_lit_layout(n, s, pos);
    let ll = n.lit().len() as int;
    let a: int = if n.neg { 1 } else { 0 };
    let x = n.int_part;
    let b = x.len() as int;
    let fl = n.frac_part.len() as int;
    let cc: int = if fl > 0 { 1 + fl } else { 0 };
    let ec = n.exp_part.len() as int;
    let en: int = if n.exp_neg { 1 } else { 0 };
    let p0 = pos + a;
    let p1 = pos + a + b;
    let p2 = p1 + cc;
    let p4 = p2 + 1 + en;
    // The integer digit run.
    assert(p1 == s.len() || !spec_is_digit(s[p1])) by {
        if p1 < s.len() {
            if fl > 0 {
                assert(s[p1] == '.');
                assert('.' as int == 0x2e);
            } else if ec > 0 {
                assert(s[p1] == 'e');
                assert('e' as int == 0x65);
            }
        }
    }
    lemma_digits_at(s, p0, x);
    // The fraction digit run.
    if fl > 0 {
        assert(p1 + 1 + fl == s.len() || !spec_is_digit(s[p1 + 1 + fl])) by {
            if p1 + 1 + fl < s.len() {
                if ec > 0 {
                    assert(s[p1 + 1 + fl] == 'e');
                    assert('e' as int == 0x65);
                }
            }
        }
        lemma_digits_at(s, p1 + 1, n.frac_part);
    }
    // The exponent digit run.
    if ec > 0 {
        lemma_digits_at(s, p4, n.exp_part);
        if !n.exp_neg {
            assert(s[p2 + 1 + 0] == n.exp_part[0]);
            assert(s[p2 + 1] != '-' && s[p2 + 1] != '+') by {
                assert('-' as int == 0x2d && '+' as int == 0x2b);
            }
        }
    }
    // Walk the grammar.
    if !n.neg {
        assert(s[pos + 0 + 0] == x[0]);
        assert(s[pos] != '-') by {
            assert('-' as int == 0x2d);
        }
    }
    assert(s[pos + a + 0] == x[0]);
    if x[0] == '0' {
        assert(x.len() == 1);
        assert(x =~= seq!['0']);
    } else {
        assert(s[p0] != '0');
    }
    match crate::grammar::spec_parse_number(s, pos) {
        ParseOut::Found { v, used } => {
            assert(v =~~= n);
            assert(used == ll);
        },
        ParseOut::Fail { f } => {
            assert(false);
        },
    }
}

/// Comma-separated serialized items followed by `]` parse back to exactly
/// those items.
#[verifier::rlimit(100)]
pub proof fn lemma_items_roundtrip(items: Seq<JsonRep>, s: Seq<char>, pos: int)
    requires
        items.len() >= 1,
        forall|i: int| 0 <= i < items.len() ==> (#[trigger] items[i]).wf(),
        0 <= pos,
        pos + spec_ser_items(items).len() + 1 <= s.len(),
        s.subrange(pos, pos + spec_ser_items(items).len() + 1) == spec_ser_items(items)
            + seq![']'],
    ensures
        crate::grammar::spec_parse_items(s, pos) == (ParseOut::Found {
            v: items,
            used: (spec_ser_items(items).len() + 1) as nat,
        }),
    decreases items, 0int,
{
    let si = spec_ser_items(items);
    let k0 = si.len() as int;
    let ee = si + seq![']'];
    assert forall|k: int| 0 <= k < k0 + 1 implies s[pos + k] == #[trigger] ee[k] by {
        assert(s.subrange(pos, pos + k0 + 1)[k] == ee[k]);
    }
    let first = items[0];
    assert(first.wf());
    lemma_ser_starter(first);
    let sf = spec_serialize(first);
    let l0 = sf.len() as int;
    let follow: char = if items.len() == 1 {
        ']'
    } else {
        ','
    };
    if items.len() == 1 {
        assert(si == sf);
    } else {
        assert(si == sf + seq![','] + spec_ser_items(items.drop_first()));
        assert(ee[l0] == ',') by {
            assert((sf + seq![','])[l0] == ',');
            assert((sf + seq![','] + spec_ser_items(items.drop_first()))[l0] == (sf
                + seq![','])[l0]);
        }
    }
    assert forall|k: int| 0 <= k < l0 implies s.subrange(pos, pos + l0)[k] == #[trigger] sf[k]
        by {
        assert(s.subrange(pos, pos + l0)[k] == s[pos + k]);
        assert(ee[k] == sf[k]);
        assert(s[pos + k] == ee[k]);
    }
    assert(s.subrange(pos, pos + l0) =~= sf);
    assert(ee[l0] == follow);
    assert(s[pos + l0] == ee[l0]);
    assert(!spec_number_extender(follow)) by {
        assert(']' as int == 0x5d && ',' as int == 0x2c && '.' as int == 0x2e && 'e' as int
            == 0x65 && 'E' as int == 0x45);
    }
    lemma_value_roundtrip(first, s, pos);
    assert(s[pos + 0] == ee[0] && ee[0] == sf[0]);
    lemma_starter_not_delim(sf[0]);
    crate::grammar::lemma_ws_run_zero(s, pos);
    assert(!spec_is_ws(follow)) by {
        assert(']' as int == 0x5d && ',' as int == 0x2c);
    }
    crate::grammar::lemma_ws_run_zero(s, pos + l0);
    if items.len() == 1 {
        assert(seq![first] =~= items);
    } else {
        let rest = items.drop_first();
        let sr = spec_ser_items(rest);
        let kr = sr.len() as int;
        assert(k0 == l0 + 1 + kr);
        assert forall|k: int|
            0 <= k < kr + 1 implies s.subrange(pos + l0 + 1, pos + l0 + 1 + kr + 1)[k]
            == #[trigger] (sr + seq![']'])[k] by {
            assert(s.subrange(pos + l0 + 1, pos + l0 + 1 + kr + 1)[k] == s[pos + (l0 + 1
                + k)]);
            assert(s[pos + (l0 + 1 + k)] == ee[l0 + 1 + k]);
            if k < kr {
                assert(ee[l0 + 1 + k] == si[l0 + 1 + k]);
                assert(si[l0 + 1 + k] == (sf + seq![','] + sr)[l0 + 1 + k]);
                assert((sf + seq![','] + sr)[l0 + 1 + k] == sr[k]);
            }
        }
        assert(s.subrange(pos + l0 + 1, pos + l0 + 1 + kr + 1) =~= sr + seq![']']);
        assert forall|i: int| 0 <= i < rest.len() implies (#[trigger] rest[i]).wf() by {
            assert(items[i + 1].wf());
            assert(rest[i] == items[i + 1]);
        }
        lemma_items_roundtrip(rest, s, pos + l0 + 1);
        assert(seq![first] + rest =~= items);
    }
}

/// Comma-separated serialized members followed by `}` parse back to
/// exactly those pairs, in order.
#[verifier::rlimit(100)]
pub proof fn lemma_members_roundtrip(
    pairs: Seq<(Seq<char>, JsonRep)>,
    s: Seq<char>,
    pos: int,
)
    requires
        pairs.len() >= 1,
        forall|i: int| 0 <= i < pairs.len() ==> (#[trigger] pairs[i]).1.wf(),
        0 <= pos,
        pos + spec_ser_members(pairs).len() + 1 <= s.len(),
        s.subrange(pos, pos + spec_ser_members(pairs).len() + 1) == spec_ser_members(pairs)
            + seq!['}'],
    ensures
        crate::grammar::spec_parse_members(s, pos) == (ParseOut::Found {
            v: pairs,
            used: (spec_ser_members(pairs).len() + 1) as nat,
        }),
    decreases pairs, 0int,
{
    let sm = spec_ser_members(pairs);
    let m0 = sm.len() as int;
    let ee = sm + seq!['}'];
    assert forall|k: int| 0 <= k < m0 + 1 implies s[pos + k] == #[trigger] ee[k] by {
        assert(s.subrange(pos, pos + m0 + 1)[k] == ee[k]);
    }
    let first = pairs[0];
    assert(first.1.wf());
    let fm = spec_ser_member(first);
    let es = spec_escape_string(first.0);
    let el = es.len() as int;
    let sv = spec_serialize(first.1);
    let lv = sv.len() as int;
    let lm = fm.len() as int;
    assert(fm == seq!['"'] + es + seq!['"', ':'] + sv);
    assert(lm == el + 3 + lv);
    let follow: char = if pairs.len() == 1 {
        '}'
    } else {
        ','
    };
    if pairs.len() == 1 {
        assert(sm == fm);
    } else {
        assert(sm == fm + seq![','] + spec_ser_members(pairs.drop_first()));
        assert(ee[lm] == ',') by {
            assert((fm + seq![','])[lm] == ',');
            assert((fm + seq![','] + spec_ser_members(pairs.drop_first()))[lm] == (fm
                + seq![','])[lm]);
        }
    }
    // Every character of the first member.
    assert forall|k: int| 0 <= k < lm implies s[pos + k] == #[trigger] fm[k] by {
        if pairs.len() == 1 {
            assert(ee[k] == fm[k]);
        } else {
            assert(sm[k] == (fm + seq![','] + spec_ser_members(pairs.drop_first()))[k]);
            assert((fm + seq![','] + spec_ser_members(pairs.drop_first()))[k] == (fm
                + seq![','])[k]);
            assert((fm + seq![','])[k] == fm[k]);
            assert(ee[k] == sm[k]);
        }
    }
    // The key string.
    assert(s[pos + 0] == fm[0] && fm[0] == '"') by {
        assert((seq!['"'] + es)[0] == '"');
        assert((seq!['"'] + es + seq!['"', ':'])[0] == (seq!['"'] + es)[0]);
        assert(fm[0] == (seq!['"'] + es + seq!['"', ':'])[0]);
    }
    assert(!spec_is_ws('"')) by {
        assert('"' as int == 0x22);
    }
    crate::grammar::lemma_ws_run_zero(s, pos);
    assert forall|k: int|
        0 <= k < el + 1 implies s.subrange(pos + 1, pos + 1 + el + 1)[k] == #[trigger] (es
        + seq!['"'])[k] by {
        assert(s.subrange(pos + 1, pos + 1 + el + 1)[k] == s[pos + (1 + k)]);
        assert(s[pos + (1 + k)] == fm[1 + k]);
        if k < el {
            assert((seq!['"'] + es)[1 + k] == es[k]);
            assert((seq!['"'] + es + seq!['"', ':'])[1 + k] == (seq!['"'] + es)[1 + k]);
            assert(fm[1 + k] == (seq!['"'] + es + seq!['"', ':'])[1 + k]);
        } else {
            assert((seq!['"'] + es + seq!['"', ':'])[1 + el] == '"');
            assert(fm[1 + el] == (seq!['"'] + es + seq!['"', ':'])[1 + el]);
        }
    }
    assert(s.subrange(pos + 1, pos + 1 + el + 1) =~= es + seq!['"']);
    lemma_body_roundtrip(first.0, s, pos + 1);
    assert(spec_parse_string(s, pos) == (ParseOut::Found {
        v: first.0,
        used: (el + 2) as nat,
    }));
    // The colon.
    assert(s[pos + (el + 2)] == fm[el + 2] && fm[el + 2] == ':') by {
        assert((seq!['"'] + es + seq!['"', ':'])[el + 2] == ':');
        assert(fm[el + 2] == (seq!['"'] + es + seq!['"', ':'])[el + 2]);
    }
    assert(!spec_is_ws(':')) by {
        assert(':' as int == 0x3a);
    }
    crate::grammar::lemma_ws_run_zero(s, pos + el + 2);
    // The value.
    let pv = pos + el + 3;
    assert forall|k: int| 0 <= k < lv implies s.subrange(pv, pv + lv)[k] == #[trigger] sv[k]
        by {
        assert(s.subrange(pv, pv + lv)[k] == s[pos + (el + 3 + k)]);
        assert(s[pos + (el + 3 + k)] == fm[el + 3 + k]);
        assert(fm[el + 3 + k] == sv[k]);
    }
    assert(s.subrange(pv, pv + lv) =~= sv);
    assert(s[pos + (el + 3 + lv)] == ee[lm]);
    assert(s[pv + lv] == follow);
    assert(!spec_number_extender(follow) && !spec_is_ws(follow)) by {
        assert('}' as int == 0x7d && ',' as int == 0x2c && '.' as int == 0x2e && 'e' as int
            == 0x65 && 'E' as int == 0x45);
    }
    lemma_value_roundtrip(first.1, s, pv);
    lemma_ser_starter(first.1);
    assert(s[pos + (el + 3 + 0)] == fm[el + 3 + 0] && fm[el + 3] == sv[0]);
    lemma_starter_not_delim(sv[0]);
    crate::grammar::lemma_ws_run_zero(s, pv);
    crate::grammar::lemma_ws_run_zero(s, pv + lv);
    if pairs.len() == 1 {
        assert(seq![(first.0, first.1)] =~= pairs);
        assert(first == (first.0, first.1));
    } else {
        let rest = pairs.drop_first();
        let sr = spec_ser_members(rest);
        let mr = sr.len() as int;
        assert(m0 == lm + 1 + mr);
        assert forall|k: int|
            0 <= k < mr + 1 implies s.subrange(pv + lv + 1, pv + lv + 1 + mr + 1)[k]
            == #[trigger] (sr + seq!['}'])[k] by {
            assert(s.subrange(pv + lv + 1, pv + lv + 1 + mr + 1)[k] == s[pos + (lm + 1 + k)]);
            assert(s[pos + (lm + 1 + k)] == ee[lm + 1 + k]);
            if k < mr {
                assert(ee[lm + 1 + k] == sm[lm + 1 + k]);
                assert(sm[lm + 1 + k] == (fm + seq![','] + sr)[lm + 1 + k]);
                assert((fm + seq![','] + sr)[lm + 1 + k] == sr[k]);
            }
        }
        assert(s.subrange(pv + lv + 1, pv + lv + 1 + mr + 1) =~= sr + seq!['}']);
        assert forall|i: int| 0 <= i < rest.len() implies (#[trigger] rest[i]).1.wf() by {
            assert(pairs[i + 1].1.wf());
            assert(rest[i] == pairs[i + 1]);
        }
        lemma_members_roundtrip(rest, s, pv + lv + 1);
        assert(seq![(first.0, first.1)] + rest =~= pairs);
        assert(first == (first.0, first.1));
    }
}

/// A serialized well-formed value standing in the text, not followed by a
/// character that could extend a number, parses back to exactly that
/// value.
#[verifier::rlimit(100)]
pub proof fn lemma_value_roundtrip(r: JsonRep, s: Seq<char>, pos: int)
    requires
        r.wf(),
        0 <= pos,
        pos + spec_serialize(r).len() <= s.len(),
        s.subrange(pos, pos + spec_serialize(r).len()) == spec_serialize(r),
        pos + spec_serialize(r).len() == s.len() || !spec_number_extender(
            s[pos + spec_serialize(r).len()],
        ),
    ensures
        crate::grammar::spec_parse_value(s, pos) == (ParseOut::Found {
            v: r,
            used: spec_serialize(r).len() as nat,
        }),
    decreases r, 1int,
{
    let sr = spec_serialize(r);
    let lr = sr.len() as int;
    assert forall|k: int| 0 <= k < lr implies s[pos + k] == #[trigger] sr[k] by {
        assert(s.subrange(pos, pos + lr)[k] == sr[k]);
    }
    match r {
        JsonRep::NullRep => {
            reveal_strlit("null");
            assert("null"@ =~= seq!['n', 'u', 'l', 'l']);
            assert forall|i: int| 0 <= i < 4 implies s[pos + i] == #[trigger] ("null"@)[i] by {
                assert(s[pos + i] == sr[i]);
            }
            crate::grammar::lemma_literal_exact(s, pos, "null"@);
            assert(s[pos + 0] == 'n');
        },
        JsonRep::BoolRep(b) => {
            if b {
                reveal_strlit("true");
                assert("true"@ =~= seq!['t', 'r', 'u', 'e']);
                assert forall|i: int| 0 <= i < 4 implies s[pos + i] == #[trigger] ("true"@)[
                i] by {
                    assert(s[pos + i] == sr[i]);
                }
                crate::grammar::lemma_literal_exact(s, pos, "true"@);
                assert(s[pos + 0] == 't');
            } else {
                reveal_strlit("false");
                assert("false"@ =~= seq!['f', 'a', 'l', 's', 'e']);
                assert forall|i: int| 0 <= i < 5 implies s[pos + i] == #[trigger] ("false"@)[
                i] by {
                    assert(s[pos + i] == sr[i]);
                }
                crate::grammar::lemma_literal_exact(s, pos, "false"@);
                assert(s[pos + 0] == 'f');
            }
        },
        JsonRep::NumRep(n) => {
            lemma_number_roundtrip(n, s, pos);
            assert(s[pos + 0] == n.lit()[0]);
            if n.neg {
                assert(n.lit()[0] == '-');
            } else {
                lemma_lit_layout(n, s, pos);
                assert(s[pos + 0 + 0] == n.int_part[0]);
                assert(spec_is_digit(s[pos]));
                assert(s[pos] != '-' && s[pos] != '{' && s[pos] != '"' && s[pos] != 't' && s[
                pos] != 'f' && s[pos] != 'n' && s[pos] != '[') by {
                    assert('-' as int == 0x2d && '{' as int == 0x7b && '"' as int == 0x22
                        && 't' as int == 0x74 && 'f' as int == 0x66 && 'n' as int == 0x6e
                        && '[' as int == 0x5b);
                }
            }
        },
        JsonRep::StrRep(t) => {
            let es = spec_escape_string(t);
            let el = es.len() as int;
            assert(sr == seq!['"'] + es + seq!['"']);
            assert(s[pos + 0] == sr[0] && sr[0] == '"') by {
                assert((seq!['"'] + es)[0] == '"');
                assert(sr[0] == (seq!['"'] + es)[0]);
            }
            assert forall|k: int|
                0 <= k < el + 1 implies s.subrange(pos + 1, pos + 1 + el + 1)[k]
                == #[trigger] (es + seq!['"'])[k] by {
                assert(s.subrange(pos + 1, pos + 1 + el + 1)[k] == s[pos + (1 + k)]);
                assert(s[pos + (1 + k)] == sr[1 + k]);
                if k < el {
                    assert((seq!['"'] + es)[1 + k] == es[k]);
                    assert(sr[1 + k] == (seq!['"'] + es)[1 + k]);
                } else {
                    assert(sr[1 + el] == '"');
                }
            }
            assert(s.subrange(pos + 1, pos + 1 + el + 1) =~= es + seq!['"']);
            lemma_body_roundtrip(t, s, pos + 1);
        },
        JsonRep::ArrRep(items) => {
            let si = spec_ser_items(items);
            let k0 = si.len() as int;
            assert(sr == seq!['['] + si + seq![']']);
            assert(s[pos + 0] == sr[0] && sr[0] == '[') by {
                assert((seq!['['] + si)[0] == '[');
                assert(sr[0] == (seq!['['] + si)[0]);
            }
            if items.len() == 0 {
                assert(si =~= Seq::<char>::empty());
                assert(items =~= Seq::<JsonRep>::empty());
                assert(s[pos + 1] == sr[1] && sr[1] == ']') by {
                    assert((seq!['['] + si + seq![']'])[1] == ']');
                }
                assert(!spec_is_ws(']')) by {
                    assert(']' as int == 0x5d);
                }
                crate::grammar::lemma_ws_run_zero(s, pos + 1);
            } else {
                assert(items[0].wf());
                lemma_ser_starter(items[0]);
                assert(si[0] == spec_serialize(items[0])[0]) by {
                    if items.len() > 1 {
                        assert((spec_serialize(items[0]) + seq![','] + spec_ser_items(
                            items.drop_first(),
                        ))[0] == spec_serialize(items[0])[0]);
                    }
                }
                assert(s[pos + 1] == sr[1] && sr[1] == si[0]) by {
                    assert((seq!['['] + si)[1] == si[0]);
                    assert(sr[1] == (seq!['['] + si)[1]);
                }
                lemma_starter_not_delim(si[0]);
                crate::grammar::lemma_ws_run_zero(s, pos + 1);
                assert forall|k: int|
                    0 <= k < k0 + 1 implies s.subrange(pos + 1, pos + 1 + k0 + 1)[k]
                    == #[trigger] (si + seq![']'])[k] by {
                    assert(s.subrange(pos + 1, pos + 1 + k0 + 1)[k] == s[pos + (1 + k)]);
                    assert(s[pos + (1 + k)] == sr[1 + k]);
                    if k < k0 {
                        assert((seq!['['] + si)[1 + k] == si[k]);
                        assert(sr[1 + k] == (seq!['['] + si)[1 + k]);
                    } else {
                        assert(sr[1 + k0] == ']');
                    }
                }
                assert(s.subrange(pos + 1, pos + 1 + k0 + 1) =~= si + seq![']']);
                lemma_items_roundtrip(items, s, pos + 1);
            }
        },
        JsonRep::ObjRep(pairs) => {
            let sm = spec_ser_members(pairs);
            let m0 = sm.len() as int;
            assert(sr == seq!['{'] + sm + seq!['}']);
            assert(s[pos + 0] == sr[0] && sr[0] == '{') by {
                assert((seq!['{'] + sm)[0] == '{');
                assert(sr[0] == (seq!['{'] + sm)[0]);
            }
            if pairs.len() == 0 {
                assert(sm =~= Seq::<char>::empty());
                assert(pairs =~= Seq::<(Seq<char>, JsonRep)>::empty());
                assert(spec_obj_dedup(Seq::<(Seq<char>, JsonRep)>::empty()) =~= Seq::<
                    (Seq<char>, JsonRep),
                >::empty());
                assert(s[pos + 1] == sr[1] && sr[1] == '}') by {
                    assert((seq!['{'] + sm + seq!['}'])[1] == '}');
                }
            } else {
                assert(pairs[0].1.wf());
                assert(sm[0] == spec_ser_member(pairs[0])[0]) by {
                    if pairs.len() > 1 {
                        assert((spec_ser_member(pairs[0]) + seq![','] + spec_ser_members(
                            pairs.drop_first(),
                        ))[0] == spec_ser_member(pairs[0])[0]);
                    }
                }
                assert(spec_ser_member(pairs[0])[0] == '"') by {
                    let es0 = spec_escape_string(pairs[0].0);
                    assert((seq!['"'] + es0)[0] == '"');
                    assert((seq!['"'] + es0 + seq!['"', ':'])[0] == (seq!['"'] + es0)[0]);
                    assert(spec_ser_member(pairs[0])[0] == (seq!['"'] + es0 + seq!['"', ':'])[
                    0]);
                }
                assert(s[pos + 1] == sr[1] && sr[1] == sm[0]) by {
                    assert((seq!['{'] + sm)[1] == sm[0]);
                    assert(sr[1] == (seq!['{'] + sm)[1]);
                }
                assert(s[pos + 1] != '}') by {
                    assert('"' as int == 0x22 && '}' as int == 0x7d);
                }
                assert forall|k: int|
                    0 <= k < m0 + 1 implies s.subrange(pos + 1, pos + 1 + m0 + 1)[k]
                    == #[trigger] (sm + seq!['}'])[k] by {
                    assert(s.subrange(pos + 1, pos + 1 + m0 + 1)[k] == s[pos + (1 + k)]);
                    assert(s[pos + (1 + k)] == sr[1 + k]);
                    if k < m0 {
                        assert((seq!['{'] + sm)[1 + k] == sm[k]);
                        assert(sr[1 + k] == (seq!['{'] + sm)[1 + k]);
                    } else {
                        assert(sr[1 + m0] == '}');
                    }
                }
                assert(s.subrange(pos + 1, pos + 1 + m0 + 1) =~= sm + seq!['}']);
                assert forall|i: int| 0 <= i < pairs.len() implies (#[trigger] pairs[i]).1.wf()
                    by {}
                lemma_members_roundtrip(pairs, s, pos + 1);
                assert forall|i: int, j: int| 0 <= i < j < pairs.len() implies pairs[i].0
                    != pairs[j].0 by {}
                crate::grammar::lemma_dedup_distinct_id(pairs);
            }
        },
    }
}

/// The canonical text of a well-formed value parses back to exactly that
/// value: serialization round-trips through the parser.
pub proof fn lemma_serialize_parse_roundtrip(r: JsonRep)
    requires
        r.wf(),
    ensures
        crate::grammar::spec_parse_json(spec_serialize(r)) == (ParseOut::Found {
            v: r,
            used: spec_serialize(r).len() as nat,
        }),
{
    let s = spec_serialize(r);
    lemma_ser_starter(r);
    assert(!spec_is_ws(s[0])) by {
        lemma_starter_not_delim(s[0]);
    }
    crate::grammar::lemma_ws_run_zero(s, 0);
    assert(s.subrange(0, s.len() as int) =~= s);
    lemma_value_roundtrip(r, s, 0);
    crate::grammar::lemma_ws_run_zero(s, s.len() as int);
}

/// Parsing, serializing, and reparsing gives the first parse back: the
/// serialized form of any parse result reparses to the same value.
pub proof fn lemma_reparse_serialized(s: Seq<char>)
    ensures
        crate::grammar::spec_parse_json(s) matches ParseOut::Found { v, used: _ }
            ==> crate::grammar::spec_parse_json(spec_serialize(v)) == (ParseOut::Found {
            v,
            used: spec_serialize(v).len() as nat,
        }),
{
    crate::grammar::lemma_parse_json_wf(s);
    match crate::grammar::spec_parse_json(s) {
        ParseOut::Found { v, used: _ } => {
            lemma_serialize_parse_roundtrip(v);
        },
        ParseOut::Fail { f: _ } => {},
    }
}

} // verus!
