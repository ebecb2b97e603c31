//! Reader for the declaration syntax `given point NAME, point NAME, ... .`
use crate::builder::{Builder, Input, InputKind};
use crate::geom::Vec2;
use vstd::prelude::*;
use vstd::string::StringSliceAdditionalSpecFns;

verus! {

/// Why a source text could not be read.
#[derive(Clone, Copy, Debug, PartialEq, Eq, Structural)]
pub enum ParseError {
    /// The text ended inside a declaration.
    UnexpectedEnd,
    /// A statement began with a byte that cannot start a word.
    UnexpectedChar(usize),
    /// A `given` item was of another kind than `point`.
    NotAPoint(usize),
    /// A `point` was not followed by a name.
    ExpectedName(usize),
    /// A name was not followed by a comma.
    ExpectedComma(usize),
}

pub open spec fn is_space(b: u8) -> bool {
    b == 32 || b == 9 || b == 10 || b == 12 || b == 13
}

pub open spec fn is_alpha(b: u8) -> bool {
    (65 <= b <= 90) || (97 <= b <= 122)
}

pub open spec fn is_alnum(b: u8) -> bool {
    is_alpha(b) || (48 <= b <= 57)
}

/// The first position at or after `i` that holds no white space.
pub open spec fn skip_ws(s: Seq<u8>, i: int) -> int
    decreases s.len() - i,
{
    if 0 <= i < s.len() && is_space(s[i]) {
        skip_ws(s, i + 1)
    } else {
        i
    }
}

/// The end of the run of letters and digits that starts at `i`.
pub open spec fn word_end(s: Seq<u8>, i: int) -> int
    decreases s.len() - i,
{
    if 0 <= i < s.len() && is_alnum(s[i]) {
        word_end(s, i + 1)
    } else {
        i
    }
}

/// Start and end of the word after the white space at `i`: a letter followed
/// by letters and digits; empty where no letter follows.
pub open spec fn word_at(s: Seq<u8>, i: int) -> (int, int) {
    let j = skip_ws(s, i);
    if 0 <= j < s.len() && is_alpha(s[j]) {
        (j, word_end(s, j))
    } else {
        (j, j)
    }
}

pub open spec fn kw_point() -> Seq<u8> {
    seq![112u8, 111u8, 105u8, 110u8, 116u8]
}

pub open spec fn kw_given() -> Seq<u8> {
    seq![103u8, 105u8, 118u8, 101u8, 110u8]
}

/// The items of a `given` statement from `i` on, `count` of them read so far:
/// `point NAME ,` repeated, then `.`; the number of points and the position
/// after the `.`.
pub open spec fn given_spec(s: Seq<u8>, i: int, count: nat) -> Result<(nat, int), ParseError>
    decreases s.len() - i,
{
    let j = skip_ws(s, i);
    if i < 0 || j >= s.len() {
        Err(ParseError::UnexpectedEnd)
    } else if s[j] == 46 {
        Ok((count, j + 1))
    } else {
        let (a, b) = word_at(s, i);
        if s.subrange(a, b) != kw_point() {
            Err(ParseError::NotAPoint(a as usize))
        } else {
            let (c, d) = word_at(s, b);
            if c == d {
                Err(ParseError::ExpectedName(c as usize))
            } else {
                let e = skip_ws(s, d);
                if e >= s.len() {
                    Err(ParseError::UnexpectedEnd)
                } else if s[e] != 44 {
                    Err(ParseError::ExpectedComma(e as usize))
                } else if e + 1 > i {
                    given_spec(s, e + 1, count + 1)
                } else {
                    Err(ParseError::UnexpectedEnd)
                }
            }
        }
    }
}

/// The statements from `i` on, with `count` points declared before: each a
/// word, `given` followed by its items; other words declare nothing.
pub open spec fn stmts_spec(s: Seq<u8>, i: int, count: nat) -> Result<nat, ParseError>
    decreases s.len() - i,
{
    let j = skip_ws(s, i);
    if i < 0 || j >= s.len() {
        Ok(count)
    } else if !is_alpha(s[j]) {
        Err(ParseError::UnexpectedChar(j as usize))
    } else {
        let (a, b) = word_at(s, i);
        if s.subrange(a, b) == kw_given() {
            match given_spec(s, b, count) {
                Err(e) => Err(e),
                Ok((n, e)) => if i < e <= s.len() {
                    stmts_spec(s, e, n)
                } else {
                    Err(ParseError::UnexpectedEnd)
                },
            }
        } else if i < b <= s.len() {
            stmts_spec(s, b, count)
        } else {
            Err(ParseError::UnexpectedEnd)
        }
    }
}

/// Number of points that a source text declares.
pub open spec fn parse_spec(s: Seq<u8>) -> Result<nat, ParseError> {
    stmts_spec(s, 0, 0)
}

proof fn lemma_skip_ws(s: Seq<u8>, i: int)
    requires
        0 <= i <= s.len(),
    ensures
        i <= skip_ws(s, i) <= s.len(),
        skip_ws(s, i) < s.len() ==> !is_space(s[skip_ws(s, i)]),
        skip_ws(s, skip_ws(s, i)) == skip_ws(s, i),
    decreases s.len() - i,
{
    if i < s.len() && is_space(s[i]) {
        lemma_skip_ws(s, i + 1);
    }
}

proof fn lemma_word_end(s: Seq<u8>, i: int)
    requires
        0 <= i <= s.len(),
    ensures
        i <= word_end(s, i) <= s.len(),
        i < s.len() && is_alnum(s[i]) ==> i < word_end(s, i),
    decreases s.len() - i,
{
    if i < s.len() && is_alnum(s[i]) {
        lemma_word_end(s, i + 1);
    }
}

proof fn lemma_given_end(s: Seq<u8>, i: int, count: nat)
    requires
        0 <= i <= s.len(),
    ensures
        given_spec(s, i, count) matches Ok((n, e)) ==> i < e <= s.len() && count <= n && n - count
            <= e - i,
    decreases s.len() - i,
{
    lemma_skip_ws(s, i);
    let j = skip_ws(s, i);
    if j < s.len() && s[j] != 46 {
        let (a, b) = word_at(s, i);
        lemma_word_end(s, j);
        let (c, d) = word_at(s, b);
        lemma_skip_ws(s, b);
        lemma_word_end(s, skip_ws(s, b));
        lemma_skip_ws(s, d);
        let e = skip_ws(s, d);
        if e < s.len() && s[e] == 44 && e + 1 > i {
            lemma_given_end(s, e + 1, count + 1);
        }
    }
}

/// White space before a statement changes nothing.
proof fn lemma_stmts_skip(s: Seq<u8>, i: int, count: nat)
    requires
        0 <= i <= s.len(),
    ensures
        stmts_spec(s, skip_ws(s, i), count) == stmts_spec(s, i, count),
{
    lemma_skip_ws(s, i);
    let j = skip_ws(s, i);
    if j < s.len() && is_alpha(s[j]) {
        lemma_word_end(s, j);
        let b = word_end(s, j);
        lemma_given_end(s, b, count);
    }
}

/// The state of a read: the text, the position reached and the inputs
/// declared so far.
pub struct Parser<'a> {
    src: &'a [u8],
    pos: usize,
    inputs: Vec<Input>,
}

pub open spec fn origin_free() -> Input {
    Input { pos: Vec2 { x: 0, y: 0 }, kind: InputKind::Free }
}

impl<'a> Parser<'a> {
    fn eat_space(&mut self)
        requires
            old(self).pos <= old(self).src@.len(),
        ensures
            final(self).src == old(self).src,
            final(self).inputs == old(self).inputs,
            final(self).pos == skip_ws(old(self).src@, old(self).pos as int),
            old(self).pos <= final(self).pos <= final(self).src@.len(),
    {
        proof {
            lemma_skip_ws(self.src@, self.pos as int);
        }
        while self.pos < self.src.len() && (self.src[self.pos] == 32 || self.src[self.pos] == 9
            || self.src[self.pos] == 10 || self.src[self.pos] == 12 || self.src[self.pos] == 13)
            invariant
                self.src == old(self).src,
                self.inputs == old(self).inputs,
                old(self).pos <= self.pos <= self.src@.len(),
                skip_ws(self.src@, self.pos as int) == skip_ws(old(self).src@, old(self).pos as int),
            decreases self.src@.len() - self.pos,
        {
            self.pos += 1;
        }
    }

    /// The next byte after white space, which is skipped.
    fn peek(&mut self) -> (r: Option<u8>)
        requires
            old(self).pos <= old(self).src@.len(),
        ensures
            final(self).src == old(self).src,
            final(self).inputs == old(self).inputs,
            final(self).pos == skip_ws(old(self).src@, old(self).pos as int),
            final(self).pos < final(self).src@.len() ==> r == Some(final(self).src@[final(self).pos as int]),
            final(self).pos >= final(self).src@.len() ==> r is None,
            r is Some ==> final(self).pos < final(self).src@.len(),
            old(self).pos <= final(self).pos <= final(self).src@.len(),
    {
        self.eat_space();
        if self.pos < self.src.len() {
            Some(self.src[self.pos])
        } else {
            None
        }
    }

    /// Skips white space and consumes the next byte, if any.
    fn eat_char(&mut self) -> (r: Option<u8>)
        requires
            old(self).pos <= old(self).src@.len(),
        ensures
            final(self).src == old(self).src,
            final(self).inputs == old(self).inputs,
            ({
                let j = skip_ws(old(self).src@, old(self).pos as int);
                if j < old(self).src@.len() {
                    r == Some(old(self).src@[j]) && final(self).pos == j + 1
                } else {
                    r is None && final(self).pos == j
                }
            }),
    {
        let c = self.peek();
        if self.pos < self.src.len() {
            self.pos += 1;
        }
        c
    }

    /// Skips white space and reads a word; returns where it starts and ends.
    fn eat_word(&mut self) -> (r: (usize, usize))
        requires
            old(self).pos <= old(self).src@.len(),
        ensures
            final(self).src == old(self).src,
            final(self).inputs == old(self).inputs,
            (r.0 as int, r.1 as int) == word_at(old(self).src@, old(self).pos as int),
            final(self).pos == r.1,
            old(self).pos <= r.0 <= r.1 <= final(self).src@.len(),
    {
        self.eat_space();
        let start = self.pos;
        proof {
            lemma_skip_ws(self.src@, old(self).pos as int);
        }
        if start >= self.src.len() || !((65 <= self.src[start] && self.src[start] <= 90) || (97
            <= self.src[start] && self.src[start] <= 122)) {
            return (start, start);
        }
        proof {
            lemma_word_end(self.src@, start as int);
        }
        while self.pos < self.src.len() && ((65 <= self.src[self.pos] && self.src[self.pos] <= 90)
            || (97 <= self.src[self.pos] && self.src[self.pos] <= 122) || (48 <= self.src[self.pos]
            && self.src[self.pos] <= 57))
            invariant
                self.src == old(self).src,
                self.inputs == old(self).inputs,
                start <= self.pos <= self.src@.len(),
                word_end(self.src@, self.pos as int) == word_end(self.src@, start as int),
            decreases self.src@.len() - self.pos,
        {
            self.pos += 1;
        }
        (start, self.pos)
    }

    /// Whether the bytes from `a` to `b` spell the five letters `w`.
    fn spells(&self, a: usize, b: usize, w: (u8, u8, u8, u8, u8)) -> (r: bool)
        requires
            a <= b <= self.src@.len(),
        ensures
            r == (self.src@.subrange(a as int, b as int) == seq![w.0, w.1, w.2, w.3, w.4]),
    {
        let ghost kw = seq![w.0, w.1, w.2, w.3, w.4];
        let ghost sub = self.src@.subrange(a as int, b as int);
        if b - a != 5 {
            assert(sub.len() != kw.len());
            return false;
        }
        let r = self.src[a] == w.0 && self.src[a + 1] == w.1 && self.src[a + 2] == w.2 && self.src[a
            + 3] == w.3 && self.src[a + 4] == w.4;
        proof {
            if r {
                assert(sub =~= kw);
            } else {
                assert(sub[0] != kw[0] || sub[1] != kw[1] || sub[2] != kw[2] || sub[3] != kw[3]
                    || sub[4] != kw[4]);
            }
        }
        r
    }

    /// Reads the items of a `given` statement, up to and including its `.`.
    fn parse_given(&mut self) -> (r: Result<(), ParseError>)
        requires
            old(self).pos <= old(self).src@.len(),
            old(self).inputs.len() <= old(self).pos,
            forall|k: int| 0 <= k < old(self).inputs.len() ==> old(self).inputs@[k] == origin_free(),
        ensures
            final(self).src == old(self).src,
            final(self).pos <= final(self).src@.len(),
            final(self).inputs.len() <= final(self).pos,
            forall|k: int| 0 <= k < final(self).inputs.len() ==> final(self).inputs@[k] == origin_free(),
            match given_spec(old(self).src@, old(self).pos as int, old(self).inputs.len() as nat) {
                Ok((n, e)) => r is Ok && final(self).pos == e && final(self).inputs.len() == n,
                Err(err) => r == Err::<(), ParseError>(err),
            },
    {
        let ghost s = self.src@;
        let ghost goal = given_spec(s, self.pos as int, self.inputs.len() as nat);
        let n = self.src.len();
        loop
            invariant
                n == s.len(),
                self.src == old(self).src,
                s == self.src@,
                self.pos <= s.len(),
                self.inputs.len() <= self.pos,
                forall|k: int| 0 <= k < self.inputs.len() ==> self.inputs@[k] == origin_free(),
                given_spec(s, self.pos as int, self.inputs.len() as nat) == goal,
                goal == given_spec(old(self).src@, old(self).pos as int, old(self).inputs.len() as nat),
            decreases s.len() - self.pos,
        {
            let ghost i = self.pos as int;
            let ghost count = self.inputs.len() as nat;
            proof {
                lemma_skip_ws(s, i);
            }
            match self.peek() {
                None => {
                    return Err(ParseError::UnexpectedEnd);
                },
                Some(46u8) => {
                    self.eat_char();
                    return Ok(());
                },
                Some(_) => {},
            }
            let (a, b) = self.eat_word();
            if !self.spells(a, b, (112u8, 111u8, 105u8, 110u8, 116u8)) {
                return Err(ParseError::NotAPoint(a));
            }
            let (c, d) = self.eat_word();
            if c == d {
                return Err(ParseError::ExpectedName(c));
            }
            proof {
                lemma_skip_ws(s, d as int);
            }
            match self.peek() {
                None => {
                    return Err(ParseError::UnexpectedEnd);
                },
                Some(44u8) => {},
                Some(_) => {
                    return Err(ParseError::ExpectedComma(self.pos));
                },
            }
            self.eat_char();
            self.inputs.push(Input { pos: Vec2 { x: 0, y: 0 }, kind: InputKind::Free });
        }
    }

    /// Reads one statement.
    fn parse_stmt(&mut self) -> (r: Result<(), ParseError>)
        requires
            old(self).pos <= old(self).src@.len(),
            skip_ws(old(self).src@, old(self).pos as int) < old(self).src@.len(),
            old(self).inputs.len() <= old(self).pos,
            forall|k: int| 0 <= k < old(self).inputs.len() ==> old(self).inputs@[k] == origin_free(),
        ensures
            final(self).src == old(self).src,
            final(self).pos <= final(self).src@.len(),
            final(self).inputs.len() <= final(self).pos,
            forall|k: int| 0 <= k < final(self).inputs.len() ==> final(self).inputs@[k] == origin_free(),
            r is Ok ==> old(self).pos < final(self).pos && stmts_spec(
                final(self).src@,
                final(self).pos as int,
                final(self).inputs.len() as nat,
            ) == stmts_spec(old(self).src@, old(self).pos as int, old(self).inputs.len() as nat),
            r matches Err(e) ==> stmts_spec(
                old(self).src@,
                old(self).pos as int,
                old(self).inputs.len() as nat,
            ) == Err::<nat, ParseError>(e),
    {
        let ghost s = self.src@;
        let ghost i = self.pos as int;
        proof {
            lemma_skip_ws(s, i);
        }
        proof {
            lemma_word_end(s, skip_ws(s, i));
        }
        let (a, b) = self.eat_word();
        if a == b {
            return Err(ParseError::UnexpectedChar(a));
        }
        if self.spells(a, b, (103u8, 105u8, 118u8, 101u8, 110u8)) {
            proof {
                lemma_given_end(s, b as int, self.inputs.len() as nat);
            }
            self.parse_given()
        } else {
            Ok(())
        }
    }

    /// Reads a source text into a builder with one free input at the origin
    /// per declared point and no steps.
    pub fn parse(src: &str) -> (r: Result<Builder, ParseError>)
        ensures
            match parse_spec(src.spec_bytes()) {
                Ok(n) => r matches Ok(b) && b.inputs@ == Seq::new(n, |_k: int| origin_free())
                    && b.steps@.len() == 0 && b.constructs@.len() == 0 && b.selected_input is None,
                Err(e) => r matches Err(e2) && e2 == e,
            },
    {
        let mut parser = Parser { src: src.as_bytes(), pos: 0, inputs: Vec::new() };
        let ghost s = parser.src@;
        loop
            invariant
                s == parser.src@,
                s == src.spec_bytes(),
                parser.pos <= s.len(),
                parser.inputs.len() <= parser.pos,
                forall|k: int| 0 <= k < parser.inputs.len() ==> parser.inputs@[k] == origin_free(),
                stmts_spec(s, parser.pos as int, parser.inputs.len() as nat) == parse_spec(s),
            decreases s.len() - parser.pos,
        {
            let ghost i = parser.pos as int;
            proof {
                lemma_skip_ws(s, i);
            }
            if parser.peek().is_none() {
                proof {
                    assert(stmts_spec(s, i, parser.inputs.len() as nat) == Ok::<nat, ParseError>(
                        parser.inputs.len() as nat,
                    ));
                    assert(parser.inputs@ =~= Seq::new(
                        parser.inputs.len() as nat,
                        |_k: int| origin_free(),
                    ));
                }
                return Ok(Builder::new(parser.inputs, Vec::new()));
            }
            proof {
                lemma_stmts_skip(s, i, parser.inputs.len() as nat);
            }
            if let Err(e) = parser.parse_stmt() {
                return Err(e);
            }
        }
    }
}

} // verus!
