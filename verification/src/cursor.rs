//! The character cursor: the input as a sequence of Unicode scalar values
//! together with the 0-based position of the next unconsumed character.
//! Positions are character offsets and appear verbatim in error messages.
use vstd::prelude::*;
use vstd::string::StrSliceExecFns;

use crate::grammar::spec_is_ws;
use crate::grammar::spec_whitespace_run;

verus! {

/// A peekable, position-tracking view of the input text.
pub struct Cursor {
    pub text: Vec<char>,
    pub pos: usize,
}

impl Cursor {
    /// The position never passes the end of the text.
    pub open spec fn wf(self) -> bool {
        self.pos <= self.text.len()
    }

    /// How many characters are left to consume.
    pub open spec fn remaining(self) -> int {
        self.text@.len() - self.pos
    }

    /// A cursor at the start of the given text.
    pub fn new(input: &str) -> (c: Cursor)
        ensures
            c.text@ == input@,
            c.pos == 0,
            c.wf(),
    {
        let n = input.unicode_len();
        let mut text: Vec<char> = Vec::new();
        let mut i: usize = 0;
        while i < n
            invariant
                i <= n,
                n == input@.len(),
                text@ =~= input@.subrange(0, i as int),
            decreases n - i,
        {
            text.push(input.get_char(i));
            i = i + 1;
        }
        proof {
            assert(text@ =~= input@);
        }
        Cursor { text, pos: 0 }
    }

    /// Consume one character, reporting it with its position; at the end of
    /// the text, report nothing and stay put.
    pub fn advance(&mut self) -> (r: Option<(usize, char)>)
        requires
            old(self).wf(),
        ensures
            final(self).wf(),
            final(self).text@ == old(self).text@,
            old(self).pos < old(self).text@.len() ==> r == Some(
                (old(self).pos, old(self).text@[old(self).pos as int]),
            ) && final(self).pos == old(self).pos + 1,
            old(self).pos >= old(self).text@.len() ==> r == None::<(usize, char)>
                && final(self).pos == old(self).pos,
    {
        if self.pos < self.text.len() {
            let ch = self.text[self.pos];
            let i = self.pos;
            self.pos = self.pos + 1;
            Some((i, ch))
        } else {
            None
        }
    }
}

/// The next unconsumed character, without advancing.
pub fn next_char(cur: &Cursor) -> (r: Option<char>)
    requires
        cur.wf(),
    ensures
        r == (if cur.pos < cur.text@.len() {
            Some(cur.text@[cur.pos as int])
        } else {
            None::<char>
        }),
{
    if cur.pos < cur.text.len() {
        Some(cur.text[cur.pos])
    } else {
        None
    }
}

/// Whether a character is JSON whitespace.
pub fn is_whitespace(ch: char) -> (r: bool)
    ensures
        r == spec_is_ws(ch),
{
    match ch {
        '\u{09}' | '\u{0a}' | '\u{0d}' | '\u{20}' => true,
        _ => false,
    }
}

/// Consume the whitespace run at the cursor.
pub fn consume_spaces(cur: &mut Cursor)
    requires
        old(cur).wf(),
    ensures
        final(cur).wf(),
        final(cur).text@ == old(cur).text@,
        final(cur).pos == old(cur).pos + spec_whitespace_run(old(cur).text@, old(cur).pos as int),
{
    loop
        invariant
            cur.wf(),
            cur.text@ == old(cur).text@,
            old(cur).pos <= cur.pos,
            spec_whitespace_run(cur.text@, old(cur).pos as int) == cur.pos - old(cur).pos
                + spec_whitespace_run(cur.text@, cur.pos as int),
        decreases cur.text@.len() - cur.pos,
    {
        match next_char(cur) {
            None => {
                return ;
            },
            Some(ch) => {
                if is_whitespace(ch) {
                    cur.advance();
                } else {
                    return ;
                }
            },
        }
    }
}

} // verus!
