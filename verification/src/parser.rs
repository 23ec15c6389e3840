//! The JSON parser: tokens in, a value out.

use vstd::prelude::*;
use vstd::string::*;

use crate::lexer::{Token, tokens_view};

verus! {

/// A JSON value as it is reasoned about.
pub enum Json {
    Object(Seq<(Seq<char>, Json)>),
    Array(Seq<Json>),
    Str(Seq<char>),
    Num(Seq<char>),
    Bool(bool),
    Null,
}

/// A JSON value. A number holds its numeral.
#[derive(Debug, PartialEq, Eq)]
pub enum JSONValue {
    Object(Vec<(String, JSONValue)>),
    Array(Vec<JSONValue>),
    Str(String),
    Num(String),
    Bool(bool),
    Null,
}

/// The value that `v` holds.
pub open spec fn json_of(v: &JSONValue) -> Json
    decreases v,
{
    match v {
        JSONValue::Object(pairs) => Json::Object(
            Seq::new(
                pairs@.len(),
                |i: int|
                    (
                        pairs@[i].0@,
                        if 0 <= i < pairs@.len() {
                            json_of(&pairs@[i].1)
                        } else {
                            Json::Null
                        },
                    ),
            ),
        ),
        JSONValue::Array(items) => Json::Array(
            Seq::new(
                items@.len(),
                |i: int|
                    if 0 <= i < items@.len() {
                        json_of(&items@[i])
                    } else {
                        Json::Null
                    },
            ),
        ),
        JSONValue::Str(s) => Json::Str(s@),
        JSONValue::Num(s) => Json::Num(s@),
        JSONValue::Bool(b) => Json::Bool(*b),
        JSONValue::Null => Json::Null,
    }
}

impl View for JSONValue {
    type V = Json;

    open spec fn view(&self) -> Json {
        json_of(self)
    }
}

/// Why the parser stopped.
#[derive(Debug, PartialEq, Eq, Structural)]
pub enum ParseError {
    /// The tokens ran out.
    UnexpectedEnd,
    /// An object member does not start with a string.
    ExpectedKey,
    /// An object key is not followed by `:`.
    ExpectedColon,
    /// An object member is followed by neither `,` nor `}`.
    ExpectedCommaOrBrace,
    /// An array element is followed by neither `,` nor `]`.
    ExpectedCommaOrBracket,
    /// A value starts with `}`.
    UnexpectedRightBrace,
    /// A value starts with `]`.
    UnexpectedRightBracket,
    /// A value starts with `:`.
    UnexpectedColon,
    /// A value starts with `,`.
    UnexpectedComma,
}

/// Parsing the value that starts at `pos`: the value and the position
/// after it. Note that `true` gives `Bool(false)` and `false` gives
/// `Bool(true)`.
pub open spec fn parse_value_at(ts: Seq<Token<Seq<char>>>, pos: int) -> Result<(Json, int), ParseError>
    decreases ts.len() - pos, 2int,
{
    if pos < 0 || pos >= ts.len() {
        Err(ParseError::UnexpectedEnd)
    } else {
        match ts[pos] {
            Token::LeftBrace => parse_object_at(ts, pos),
            Token::LeftBracket => parse_array_at(ts, pos),
            Token::False => Ok((Json::Bool(true), pos + 1)),
            Token::True => Ok((Json::Bool(false), pos + 1)),
            Token::Null => Ok((Json::Null, pos + 1)),
            Token::NumToken(n) => Ok((Json::Num(n), pos + 1)),
            Token::StringToken(s) => Ok((Json::Str(s), pos + 1)),
            Token::RightBrace => Err(ParseError::UnexpectedRightBrace),
            Token::RightBracket => Err(ParseError::UnexpectedRightBracket),
            Token::Colon => Err(ParseError::UnexpectedColon),
            Token::Comma => Err(ParseError::UnexpectedComma),
        }
    }
}

/// Parsing the object whose `{` is at `pos` (the token there is skipped,
/// not checked): `{}` or members `"key": value` separated by `,` and ended
/// by `}`.
pub open spec fn parse_object_at(ts: Seq<Token<Seq<char>>>, pos: int) -> Result<(Json, int), ParseError>
    decreases ts.len() - pos, 1int,
{
    let p = pos + 1;
    if pos < 0 || p >= ts.len() {
        Err(ParseError::UnexpectedEnd)
    } else if ts[p] is RightBrace {
        Ok((Json::Object(Seq::empty()), p + 1))
    } else {
        parse_members_at(ts, p, Seq::empty())
    }
}

/// Parsing object members from `p` on, after the members `acc` already read.
pub open spec fn parse_members_at(
    ts: Seq<Token<Seq<char>>>,
    p: int,
    acc: Seq<(Seq<char>, Json)>,
) -> Result<(Json, int), ParseError>
    decreases ts.len() - p, 3int,
{
    if p < 0 || p >= ts.len() {
        Err(ParseError::UnexpectedEnd)
    } else if !(ts[p] is StringToken) {
        Err(ParseError::ExpectedKey)
    } else if p + 1 >= ts.len() {
        Err(ParseError::UnexpectedEnd)
    } else if !(ts[p + 1] is Colon) {
        Err(ParseError::ExpectedColon)
    } else {
        match parse_value_at(ts, p + 2) {
            Err(e) => Err(e),
            Ok((v, q)) => {
                let acc2 = acc.push((ts[p]->StringToken_0, v));
                if q <= p || q >= ts.len() {
                    Err(ParseError::UnexpectedEnd)
                } else if ts[q] is Comma {
                    parse_members_at(ts, q + 1, acc2)
                } else if ts[q] is RightBrace {
                    Ok((Json::Object(acc2), q + 1))
                } else {
                    Err(ParseError::ExpectedCommaOrBrace)
                }
            },
        }
    }
}

/// Parsing the array whose `[` is at `pos` (skipped, not checked): values
/// separated by `,` and ended by `]`. An array has at least one element.
pub open spec fn parse_array_at(ts: Seq<Token<Seq<char>>>, pos: int) -> Result<(Json, int), ParseError>
    decreases ts.len() - pos, 1int,
{
    if pos < 0 || pos >= ts.len() {
        Err(ParseError::UnexpectedEnd)
    } else {
        parse_elements_at(ts, pos + 1, Seq::empty())
    }
}

/// Parsing array elements from `p` on, after the elements `acc` already read.
pub open spec fn parse_elements_at(ts: Seq<Token<Seq<char>>>, p: int, acc: Seq<Json>) -> Result<
    (Json, int),
    ParseError,
>
    decreases ts.len() - p, 3int,
{
    if p < 0 || p > ts.len() {
        Err(ParseError::UnexpectedEnd)
    } else {
        match parse_value_at(ts, p) {
            Err(e) => Err(e),
            Ok((v, q)) => {
                let acc2 = acc.push(v);
                if q <= p || q >= ts.len() {
                    Err(ParseError::UnexpectedEnd)
                } else if ts[q] is Comma {
                    parse_elements_at(ts, q + 1, acc2)
                } else if ts[q] is RightBracket {
                    Ok((Json::Array(acc2), q + 1))
                } else {
                    Err(ParseError::ExpectedCommaOrBracket)
                }
            },
        }
    }
}

/// Parsing a value consumes at least one token and no more than there are,
/// so the parsers' check that a member or element moved the position on
/// never fails.
pub proof fn lemma_parse_value_advances(ts: Seq<Token<Seq<char>>>, pos: int)
    ensures
        parse_value_at(ts, pos) matches Ok((v, q)) ==> pos < q <= ts.len(),
    decreases ts.len() - pos, 2int,
{
    if 0 <= pos < ts.len() {
        match ts[pos] {
            Token::LeftBrace => lemma_parse_object_advances(ts, pos),
            Token::LeftBracket => lemma_parse_array_advances(ts, pos),
            _ => {},
        }
    }
}

proof fn lemma_parse_object_advances(ts: Seq<Token<Seq<char>>>, pos: int)
    ensures
        parse_object_at(ts, pos) matches Ok((v, q)) ==> pos < q <= ts.len(),
    decreases ts.len() - pos, 1int,
{
    let p = pos + 1;
    if 0 <= pos && p < ts.len() && !(ts[p] is RightBrace) {
        lemma_parse_members_advances(ts, p, Seq::empty());
    }
}

proof fn lemma_parse_members_advances(ts: Seq<Token<Seq<char>>>, p: int, acc: Seq<(Seq<char>, Json)>)
    ensures
        parse_members_at(ts, p, acc) matches Ok((v, q)) ==> p < q <= ts.len(),
    decreases ts.len() - p, 3int,
{
    if 0 <= p && p + 1 < ts.len() && ts[p] is StringToken && ts[p + 1] is Colon {
        lemma_parse_value_advances(ts, p + 2);
        if let Ok((v, q)) = parse_value_at(ts, p + 2) {
            if p < q < ts.len() && ts[q] is Comma {
                lemma_parse_members_advances(ts, q + 1, acc.push((ts[p]->StringToken_0, v)));
            }
        }
    }
}

proof fn lemma_parse_array_advances(ts: Seq<Token<Seq<char>>>, pos: int)
    ensures
        parse_array_at(ts, pos) matches Ok((v, q)) ==> pos < q <= ts.len(),
    decreases ts.len() - pos, 1int,
{
    if 0 <= pos < ts.len() {
        lemma_parse_elements_advances(ts, pos + 1, Seq::empty());
    }
}

proof fn lemma_parse_elements_advances(ts: Seq<Token<Seq<char>>>, p: int, acc: Seq<Json>)
    ensures
        parse_elements_at(ts, p, acc) matches Ok((v, q)) ==> p < q <= ts.len(),
    decreases ts.len() - p, 3int,
{
    if 0 <= p <= ts.len() {
        lemma_parse_value_advances(ts, p);
        if let Ok((v, q)) = parse_value_at(ts, p) {
            if p < q < ts.len() && ts[q] is Comma {
                lemma_parse_elements_advances(ts, q + 1, acc.push(v));
            }
        }
    }
}

/// The views of object members.
pub open spec fn pairs_view(pairs: Seq<(String, JSONValue)>) -> Seq<(Seq<char>, Json)> {
    pairs.map_values(|pr: (String, JSONValue)| (pr.0@, pr.1@))
}

/// The views of array elements.
pub open spec fn items_view(items: Seq<JSONValue>) -> Seq<Json> {
    items.map_values(|v: JSONValue| v@)
}

/// A cursor over a list of tokens.
pub struct Parser {
    tokens: Vec<Token>,
    pos: usize,
}

impl Parser {
    /// The tokens.
    pub closed spec fn tokens(&self) -> Seq<Token<Seq<char>>> {
        tokens_view(self.tokens@)
    }

    /// The cursor's position.
    pub closed spec fn position(&self) -> int {
        self.pos as int
    }

    /// The cursor is at a token or just past the last one.
    pub closed spec fn wf(&self) -> bool {
        self.pos <= self.tokens@.len()
    }

    /// The cursor's position is that of a `usize`: never negative.
    pub proof fn lemma_position_bounds(&self)
        ensures
            0 <= self.position() <= usize::MAX,
    {
    }

    /// A parser at the first of `tokens`.
    pub fn new(tokens: Vec<Token>) -> (p: Parser)
        ensures
            p.wf(),
            p.tokens() == tokens_view(tokens@),
            p.position() == 0,
    {
        Parser { tokens, pos: 0 }
    }

    /// The token under the cursor, or `UnexpectedEnd`.
    fn current(&self) -> (r: Result<&Token, ParseError>)
        ensures
            self.pos < self.tokens@.len() ==> (r matches Ok(t) && *t == self.tokens@[self.pos as int]),
            self.pos >= self.tokens@.len() ==> r == Err::<&Token, ParseError>(ParseError::UnexpectedEnd),
    {
        if self.pos < self.tokens.len() {
            Ok(&self.tokens[self.pos])
        } else {
            Err(ParseError::UnexpectedEnd)
        }
    }

    /// Moves the cursor one token on.
    fn advance(&mut self)
        requires
            old(self).pos < old(self).tokens@.len(),
        ensures
            final(self).tokens@ == old(self).tokens@,
            final(self).pos == old(self).pos + 1,
    {
        let n = self.tokens.len();
        assert(self.pos < n);
        self.pos = self.pos + 1;
    }

    /// The token after the cursor, or `UnexpectedEnd`.
    fn peek(&self) -> (r: Result<&Token, ParseError>)
        ensures
            self.pos + 1 < self.tokens@.len() ==> (r matches Ok(t) && *t == self.tokens@[self.pos
                + 1]),
            self.pos + 1 >= self.tokens@.len() ==> r == Err::<&Token, ParseError>(
                ParseError::UnexpectedEnd,
            ),
    {
        if self.tokens.len() > 0 && self.pos < self.tokens.len() - 1 {
            Ok(&self.tokens[self.pos + 1])
        } else {
            Err(ParseError::UnexpectedEnd)
        }
    }

    /// Moves past the token under the cursor and returns where it was, or
    /// `UnexpectedEnd`.
    fn expect(&mut self) -> (r: Result<usize, ParseError>)
        ensures
            final(self).tokens@ == old(self).tokens@,
            old(self).pos < old(self).tokens@.len() ==> r == Ok::<usize, ParseError>(old(self).pos)
                && final(self).pos == old(self).pos + 1,
            old(self).pos >= old(self).tokens@.len() ==> r == Err::<usize, ParseError>(
                ParseError::UnexpectedEnd,
            ) && final(self).pos == old(self).pos,
    {
        if self.pos < self.tokens.len() {
            let at = self.pos;
            self.pos = self.pos + 1;
            Ok(at)
        } else {
            Err(ParseError::UnexpectedEnd)
        }
    }

    /// Parses the object whose `{` is under the cursor (skipped, not
    /// checked) and moves past its `}`.
    pub fn parse_object(&mut self) -> (r: Result<JSONValue, ParseError>)
        requires
            old(self).wf(),
        ensures
            final(self).wf(),
            final(self).tokens() == old(self).tokens(),
            match parse_object_at(old(self).tokens(), old(self).position()) {
                Ok((v, q)) => r matches Ok(val) && val@ == v && final(self).position() == q && q
                    > old(self).position(),
                Err(e) => r == Err::<JSONValue, ParseError>(e),
            },
        decreases old(self).tokens().len() - old(self).position(), 1int,
    {
        let ghost ts = self.tokens();
        let ghost p0 = self.pos as int;
        if self.pos >= self.tokens.len() {
            return Err(ParseError::UnexpectedEnd);
        }
        self.advance();
        let mut pairs: Vec<(String, JSONValue)> = Vec::new();
        match self.current() {
            Ok(t) => {
                if let Token::RightBrace = t {
                    self.advance();
                    let v = JSONValue::Object(pairs);
                    assert(v@ == Json::Object(Seq::empty())) by {
                        assert(json_of(&v) matches Json::Object(ps) && ps =~= Seq::<(Seq<char>, Json)>::empty());
                    }
                    return Ok(v);
                }
            },
            Err(e) => {
                return Err(e);
            },
        }
        assert(pairs_view(pairs@) =~= Seq::<(Seq<char>, Json)>::empty());
        loop
            invariant
                self.wf(),
                self.tokens() == ts,
                ts == old(self).tokens(),
                p0 == old(self).pos,
                p0 < self.pos,
                parse_object_at(ts, p0) == parse_members_at(ts, self.pos as int, pairs_view(pairs@)),
            decreases self.tokens@.len() - self.pos,
        {
            let key_at = match self.expect() {
                Ok(at) => at,
                Err(e) => {
                    return Err(e);
                },
            };
            let key = match &self.tokens[key_at] {
                Token::StringToken(s) => s.clone(),
                _ => {
                    return Err(ParseError::ExpectedKey);
                },
            };
            let colon_at = match self.expect() {
                Ok(at) => at,
                Err(e) => {
                    return Err(e);
                },
            };
            match &self.tokens[colon_at] {
                Token::Colon => {},
                _ => {
                    return Err(ParseError::ExpectedColon);
                },
            }
            let value = match self.parse_value() {
                Ok(v) => v,
                Err(e) => {
                    return Err(e);
                },
            };
            let ghost before = pairs_view(pairs@);
            pairs.push((key, value));
            assert(pairs_view(pairs@) =~= before.push((pairs@.last().0@, pairs@.last().1@)));
            match self.current() {
                Ok(t) => {
                    if let Token::Comma = t {
                        self.advance();
                    } else if let Token::RightBrace = t {
                        self.advance();
                        let v = JSONValue::Object(pairs);
                        assert(v@ == Json::Object(pairs_view(pairs@))) by {
                            assert(json_of(&v) matches Json::Object(ps) && ps =~= pairs_view(pairs@));
                        }
                        return Ok(v);
                    } else {
                        return Err(ParseError::ExpectedCommaOrBrace);
                    }
                },
                Err(e) => {
                    return Err(e);
                },
            }
        }
    }

    /// Parses the array whose `[` is under the cursor (skipped, not
    /// checked) and moves past its `]`.
    fn parse_array(&mut self) -> (r: Result<JSONValue, ParseError>)
        requires
            old(self).wf(),
        ensures
            final(self).wf(),
            final(self).tokens() == old(self).tokens(),
            match parse_array_at(old(self).tokens(), old(self).position()) {
                Ok((v, q)) => r matches Ok(val) && val@ == v && final(self).position() == q && q
                    > old(self).position(),
                Err(e) => r == Err::<JSONValue, ParseError>(e),
            },
        decreases old(self).tokens().len() - old(self).position(), 1int,
    {
        let ghost ts = self.tokens();
        let ghost p0 = self.pos as int;
        if self.pos >= self.tokens.len() {
            return Err(ParseError::UnexpectedEnd);
        }
        self.advance();
        let mut elements: Vec<JSONValue> = Vec::new();
        assert(items_view(elements@) =~= Seq::<Json>::empty());
        loop
            invariant
                self.wf(),
                self.tokens() == ts,
                ts == old(self).tokens(),
                p0 == old(self).pos,
                p0 < self.pos,
                parse_array_at(ts, p0) == parse_elements_at(ts, self.pos as int, items_view(elements@)),
            decreases self.tokens@.len() - self.pos,
        {
            let value = match self.parse_value() {
                Ok(v) => v,
                Err(e) => {
                    return Err(e);
                },
            };
            let ghost before = items_view(elements@);
            elements.push(value);
            assert(items_view(elements@) =~= before.push(elements@.last()@));
            match self.current() {
                Ok(t) => {
                    if let Token::Comma = t {
                        self.advance();
                    } else if let Token::RightBracket = t {
                        self.advance();
                        let v = JSONValue::Array(elements);
                        assert(v@ == Json::Array(items_view(elements@))) by {
                            assert(json_of(&v) matches Json::Array(xs) && xs =~= items_view(elements@));
                        }
                        return Ok(v);
                    } else {
                        return Err(ParseError::ExpectedCommaOrBracket);
                    }
                },
                Err(e) => {
                    return Err(e);
                },
            }
        }
    }

    /// Parses the value under the cursor and moves past it.
    fn parse_value(&mut self) -> (r: Result<JSONValue, ParseError>)
        requires
            old(self).wf(),
        ensures
            final(self).wf(),
            final(self).tokens() == old(self).tokens(),
            match parse_value_at(old(self).tokens(), old(self).position()) {
                Ok((v, q)) => r matches Ok(val) && val@ == v && final(self).position() == q && q
                    > old(self).position(),
                Err(e) => r == Err::<JSONValue, ParseError>(e),
            },
        decreases old(self).tokens().len() - old(self).position(), 2int,
    {
        let t = match self.current() {
            Ok(t) => t,
            Err(e) => {
                return Err(e);
            },
        };
        match t {
            Token::LeftBrace => self.parse_object(),
            Token::LeftBracket => self.parse_array(),
            Token::False => {
                self.advance();
                Ok(JSONValue::Bool(true))
            },
            Token::True => {
                self.advance();
                Ok(JSONValue::Bool(false))
            },
            Token::Null => {
                self.advance();
                Ok(JSONValue::Null)
            },
            Token::NumToken(n) => {
                let value = n.clone();
                self.advance();
                Ok(JSONValue::Num(value))
            },
            Token::StringToken(s) => {
                let value = s.clone();
                self.advance();
                Ok(JSONValue::Str(value))
            },
            Token::RightBrace => Err(ParseError::UnexpectedRightBrace),
            Token::RightBracket => Err(ParseError::UnexpectedRightBracket),
            Token::Colon => Err(ParseError::UnexpectedColon),
            Token::Comma => Err(ParseError::UnexpectedComma),
        }
    }
}

/// Parses `tokens` as one object, from the first token on; what follows its
/// closing `}` is ignored.
pub fn parse(tokens: Vec<Token>) -> (r: Result<JSONValue, ParseError>)
    ensures
        match parse_object_at(tokens_view(tokens@), 0) {
            Ok((v, q)) => r matches Ok(val) && val@ == v,
            Err(e) => r == Err::<JSONValue, ParseError>(e),
        },
{
    let mut parser = Parser::new(tokens);
    parser.parse_object()
}

/// The text of `j`: `null`, `true`, `false`, the numeral, the string in
/// quotes (nothing escaped), `[` elements `]` and `{` `"key":value` members
/// `}`, both separated by `,`.
pub open spec fn render(j: Json) -> Seq<char>
    decreases j, 0int,
{
    match j {
        Json::Null => seq!['n', 'u', 'l', 'l'],
        Json::Bool(b) => if b {
            seq!['t', 'r', 'u', 'e']
        } else {
            seq!['f', 'a', 'l', 's', 'e']
        },
        Json::Num(t) => t,
        Json::Str(s) => seq!['"'] + s + seq!['"'],
        Json::Array(items) => seq!['['] + render_items(items, 0) + seq![']'],
        Json::Object(pairs) => seq!['{'] + render_members(pairs, 0) + seq!['}'],
    }
}

/// The elements of `items` from the `k`-th on, rendered and separated by
/// `,`.
pub open spec fn render_items(items: Seq<Json>, k: int) -> Seq<char>
    decreases items, items.len() - k,
{
    if k < 0 || k >= items.len() {
        Seq::empty()
    } else if k + 1 == items.len() {
        render(items[k])
    } else {
        render(items[k]) + seq![','] + render_items(items, k + 1)
    }
}

/// One member as `"key":value`.
pub open spec fn render_member(key: Seq<char>, value: Json) -> Seq<char>
    decreases value, 1int,
{
    seq!['"'] + key + seq!['"', ':'] + render(value)
}

/// The members of `pairs` from the `k`-th on, rendered and separated by
/// `,`.
pub open spec fn render_members(pairs: Seq<(Seq<char>, Json)>, k: int) -> Seq<char>
    decreases pairs, pairs.len() - k,
{
    if k < 0 || k >= pairs.len() {
        Seq::empty()
    } else if k + 1 == pairs.len() {
        render_member(pairs[k].0, pairs[k].1)
    } else {
        render_member(pairs[k].0, pairs[k].1) + seq![','] + render_members(pairs, k + 1)
    }
}

/// `,` before the `k`-th of `n` elements, where one came before it.
pub open spec fn separator(k: int, n: int) -> Seq<char> {
    if 0 < k < n {
        seq![',']
    } else {
        Seq::empty()
    }
}

impl JSONValue {
    /// The value's text (see `render`).
    #[verifier::loop_isolation(false)]
    pub fn to_json(&self) -> (r: String)
        ensures
            r@ == render(self@),
        decreases self,
    {
        match self {
            JSONValue::Null => {
                proof {
                    reveal_strlit("null");
                }
                "null".to_owned()
            },
            JSONValue::Bool(b) => {
                proof {
                    reveal_strlit("true");
                    reveal_strlit("false");
                }
                if *b {
                    "true".to_owned()
                } else {
                    "false".to_owned()
                }
            },
            JSONValue::Num(t) => t.clone(),
            JSONValue::Str(text) => {
                let mut s = String::new();
                s.push('"');
                s.append(text.as_str());
                s.push('"');
                s
            },
            JSONValue::Array(items) => {
                let ghost iv = items_view(items@);
                assert(self@ == Json::Array(iv)) by {
                    assert(json_of(self) matches Json::Array(xs) && xs =~= iv);
                }
                let mut s = String::new();
                s.push('[');
                let mut i: usize = 0;
                while i < items.len()
                    invariant
                        i <= items@.len(),
                        iv == items_view(items@),
                        seq!['['] + render_items(iv, 0) == s@ + separator(i as int, iv.len() as int)
                            + render_items(iv, i as int),
                    decreases items@.len() - i,
                {
                    if i > 0 {
                        s.push(',');
                    }
                    proof {
                        assert(decreases_to!(*items => items@));
                        assert(decreases_to!(items@ => items@[i as int]));
                        assert(decreases_to!(*self => items@[i as int]));
                    }
                    let part = items[i].to_json();
                    s.append(part.as_str());
                    i = i + 1;
                    assert(seq!['['] + render_items(iv, 0) =~= s@ + separator(i as int, iv.len() as int)
                        + render_items(iv, i as int));
                }
                s.push(']');
                s
            },
            JSONValue::Object(pairs) => {
                let ghost pv = pairs_view(pairs@);
                assert(self@ == Json::Object(pv)) by {
                    assert(json_of(self) matches Json::Object(ps) && ps =~= pv);
                }
                let mut s = String::new();
                s.push('{');
                let mut i: usize = 0;
                while i < pairs.len()
                    invariant
                        i <= pairs@.len(),
                        pv == pairs_view(pairs@),
                        seq!['{'] + render_members(pv, 0) == s@ + separator(i as int, pv.len() as int)
                            + render_members(pv, i as int),
                    decreases pairs@.len() - i,
                {
                    assert(pv[i as int] == (pairs@[i as int].0@, pairs@[i as int].1@));
                    let ghost prev = s@;
                    if i > 0 {
                        s.push(',');
                    }
                    s.push('"');
                    s.append(pairs[i].0.as_str());
                    s.push('"');
                    s.push(':');
                    proof {
                        assert(decreases_to!(*pairs => pairs@));
                        assert(decreases_to!(pairs@ => pairs@[i as int]));
                        assert(decreases_to!(pairs@[i as int] => pairs@[i as int].1));
                        assert(decreases_to!(*self => pairs@[i as int].1));
                    }
                    let part = pairs[i].1.to_json();
                    s.append(part.as_str());
                    let ghost sep = if i > 0 { seq![','] } else { Seq::<char>::empty() };
                    assert(s@ =~= prev + sep + render_member(pv[i as int].0, pv[i as int].1));
                    i = i + 1;
                    assert(seq!['{'] + render_members(pv, 0) =~= s@ + separator(i as int, pv.len() as int)
                        + render_members(pv, i as int));
                }
                s.push('}');
                s
            },
        }
    }
}

} // verus!
