//! The mathematical model of a JSON value: the same tree as `JSONValue`,
//! with every string taken to its sequence of characters. The parser's and
//! serializer's contracts are stated over this model.
use vstd::prelude::*;

use crate::JSONNumber;
use crate::JSONValue;

verus! {

/// The model of a `JSONNumber`: the parts of its canonical decimal literal.
#[verifier::ext_equal]
pub ghost struct NumRep {
    pub neg: bool,
    pub int_part: Seq<char>,
    pub frac_part: Seq<char>,
    pub exp_neg: bool,
    pub exp_part: Seq<char>,
}

/// The model of a `JSONValue`.
#[verifier::ext_equal]
pub ghost enum JsonRep {
    NullRep,
    StrRep(Seq<char>),
    BoolRep(bool),
    NumRep(NumRep),
    ObjRep(Seq<(Seq<char>, JsonRep)>),
    ArrRep(Seq<JsonRep>),
}

pub open spec fn spec_is_digit(c: char) -> bool {
    '0' as int <= c as int <= '9' as int
}

pub open spec fn all_digits(s: Seq<char>) -> bool {
    forall|i: int| 0 <= i < s.len() ==> spec_is_digit(#[trigger] s[i])
}

impl NumRep {
    /// A canonical number literal: a nonempty all-digit integer part with no
    /// leading zero (unless it is the single digit `0`), all-digit fraction
    /// and exponent parts, and no leftover exponent sign when there is no
    /// exponent.
    pub open spec fn wf(self) -> bool {
        &&& self.int_part.len() > 0
        &&& all_digits(self.int_part)
        &&& (self.int_part[0] == '0' ==> self.int_part.len() == 1)
        &&& all_digits(self.frac_part)
        &&& all_digits(self.exp_part)
        &&& (self.exp_part.len() == 0 ==> !self.exp_neg)
    }

    /// The literal the parts stand for, as written by the serializer.
    pub open spec fn lit(self) -> Seq<char> {
        (if self.neg {
            seq!['-']
        } else {
            Seq::empty()
        }) + self.int_part + (if self.frac_part.len() > 0 {
            seq!['.'] + self.frac_part
        } else {
            Seq::empty()
        }) + (if self.exp_part.len() > 0 {
            seq!['e'] + (if self.exp_neg {
                seq!['-']
            } else {
                Seq::empty()
            }) + self.exp_part
        } else {
            Seq::empty()
        })
    }
}

impl JsonRep {
    /// Well-formedness of a model value: numbers are canonical and object
    /// keys are pairwise distinct.
    pub open spec fn wf(self) -> bool
        decreases self,
    {
        match self {
            JsonRep::NullRep => true,
            JsonRep::StrRep(_) => true,
            JsonRep::BoolRep(_) => true,
            JsonRep::NumRep(n) => n.wf(),
            JsonRep::ObjRep(pairs) => {
                &&& (forall|i: int| 0 <= i < pairs.len() ==> (#[trigger] pairs[i].1).wf())
                &&& (forall|i: int, j: int|
                    0 <= i < j < pairs.len() ==> pairs[i].0 != pairs[j].0)
            },
            JsonRep::ArrRep(items) => forall|i: int|
                0 <= i < items.len() ==> (#[trigger] items[i]).wf(),
        }
    }
}

/// The model of a vector of values, element by element.
pub open spec fn rep_list(s: Seq<JSONValue>) -> Seq<JsonRep>
    decreases s, 0int,
{
    if s.len() == 0 {
        Seq::empty()
    } else {
        rep_list(s.drop_last()).push(s.last().rep())
    }
}

/// The model of a vector of key/value pairs, pair by pair.
pub open spec fn rep_pairs(s: Seq<(String, JSONValue)>) -> Seq<(Seq<char>, JsonRep)>
    decreases s, 0int,
{
    if s.len() == 0 {
        Seq::empty()
    } else {
        rep_pairs(s.drop_last()).push((s.last().0@, s.last().1.rep()))
    }
}

impl JSONNumber {
    /// The model of this number: the same parts as character sequences.
    pub open spec fn rep(self) -> NumRep {
        NumRep {
            neg: self.negative,
            int_part: self.int_part@,
            frac_part: self.frac_part@,
            exp_neg: self.exp_negative,
            exp_part: self.exp_part@,
        }
    }
}

impl JSONValue {
    /// The model of this value.
    pub open spec fn rep(self) -> JsonRep
        decreases self, 1int,
    {
        match self {
            JSONValue::JSONNull() => JsonRep::NullRep,
            JSONValue::JSONString(s) => JsonRep::StrRep(s@),
            JSONValue::JSONBool(b) => JsonRep::BoolRep(b),
            JSONValue::JSONNumber(n) => JsonRep::NumRep(n.rep()),
            JSONValue::JSONObject(pairs) => JsonRep::ObjRep(rep_pairs(pairs@)),
            JSONValue::JSONArray(items) => JsonRep::ArrRep(rep_list(items@)),
        }
    }
}

/// `rep_list` maps the elements one for one.
pub proof fn lemma_rep_list(s: Seq<JSONValue>)
    ensures
        rep_list(s).len() == s.len(),
        forall|i: int| 0 <= i < s.len() ==> rep_list(s)[i] == (#[trigger] s[i]).rep(),
    decreases s.len(),
{
    if s.len() > 0 {
        lemma_rep_list(s.drop_last());
        assert forall|i: int| 0 <= i < s.len() implies rep_list(s)[i] == (#[trigger] s[i]).rep() by {
            if i < s.len() - 1 {
                assert(s.drop_last()[i] == s[i]);
                assert(rep_list(s)[i] == rep_list(s.drop_last())[i]);
            } else {
                assert(s[i] == s.last());
            }
        }
    }
}

/// `rep_pairs` maps the pairs one for one.
pub proof fn lemma_rep_pairs(s: Seq<(String, JSONValue)>)
    ensures
        rep_pairs(s).len() == s.len(),
        forall|i: int|
            0 <= i < s.len() ==> rep_pairs(s)[i] == ((#[trigger] s[i]).0@, s[i].1.rep()),
    decreases s.len(),
{
    if s.len() > 0 {
        lemma_rep_pairs(s.drop_last());
        assert forall|i: int|
            0 <= i < s.len() implies rep_pairs(s)[i] == ((#[trigger] s[i]).0@, s[i].1.rep()) by {
            if i < s.len() - 1 {
                assert(s.drop_last()[i] == s[i]);
                assert(rep_pairs(s)[i] == rep_pairs(s.drop_last())[i]);
            } else {
                assert(s[i] == s.last());
            }
        }
    }
}

} // verus!
