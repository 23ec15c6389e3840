//! The JSON lexer: characters in, tokens out.

use vstd::prelude::*;
use vstd::string::*;

verus! {

/// Calls `String::push`, which appends one character.
pub assume_specification[ String::push ](s: &mut String, ch: char)
    ensures
        final(s)@ == old(s)@.push(ch),
;

/// A JSON token. Strings and numbers carry their text: `S` is `String` in
/// running code and `Seq<char>` in specifications. A number's text is the
/// numeral as written, with a leading `.` read as `0.`.
#[derive(Debug, PartialEq, Eq)]
pub enum Token<S = String> {
    LeftBrace,
    RightBrace,
    LeftBracket,
    RightBracket,
    Colon,
    Comma,
    StringToken(S),
    NumToken(S),
    True,
    False,
    Null,
}

impl View for Token {
    type V = Token<Seq<char>>;

    open spec fn view(&self) -> Token<Seq<char>> {
        match self {
            Token::LeftBrace => Token::LeftBrace,
            Token::RightBrace => Token::RightBrace,
            Token::LeftBracket => Token::LeftBracket,
            Token::RightBracket => Token::RightBracket,
            Token::Colon => Token::Colon,
            Token::Comma => Token::Comma,
            Token::StringToken(s) => Token::StringToken(s@),
            Token::NumToken(s) => Token::NumToken(s@),
            Token::True => Token::True,
            Token::False => Token::False,
            Token::Null => Token::Null,
        }
    }
}

/// The text printed for a token: its punctuation, its string in quotes, its
/// numeral, or its keyword.
pub open spec fn token_text(t: Token<Seq<char>>) -> Seq<char> {
    match t {
        Token::LeftBrace => seq!['{'],
        Token::RightBrace => seq!['}'],
        Token::LeftBracket => seq!['['],
        Token::RightBracket => seq![']'],
        Token::Colon => seq![':'],
        Token::Comma => seq![','],
        Token::StringToken(s) => seq!['"'] + s + seq!['"'],
        Token::NumToken(n) => n,
        Token::True => seq!['t', 'r', 'u', 'e'],
        Token::False => seq!['f', 'a', 'l', 's', 'e'],
        Token::Null => seq!['n', 'u', 'l', 'l'],
    }
}

impl Token {
    /// The text printed for the token (see `token_text`).
    pub fn text(&self) -> (r: String)
        ensures
            r@ == token_text(self@),
    {
        let mut s = String::new();
        match self {
            Token::LeftBrace => s.push('{'),
            Token::RightBrace => s.push('}'),
            Token::LeftBracket => s.push('['),
            Token::RightBracket => s.push(']'),
            Token::Colon => s.push(':'),
            Token::Comma => s.push(','),
            Token::StringToken(text) => {
                s.push('"');
                s.append(text.as_str());
                s.push('"');
            },
            Token::NumToken(n) => {
                s.append(n.as_str());
            },
            Token::True => {
                s.push('t');
                s.push('r');
                s.push('u');
                s.push('e');
            },
            Token::False => {
                s.push('f');
                s.push('a');
                s.push('l');
                s.push('s');
                s.push('e');
            },
            Token::Null => {
                s.push('n');
                s.push('u');
                s.push('l');
                s.push('l');
            },
        }
        assert(s@ =~= token_text(self@));
        s
    }
}

/// A token paired with the text it was read from.
pub struct TokenValue {
    token: Token,
    value: String,
}

impl TokenValue {
    /// Pairs `token` with `value`.
    fn new(token: Token, value: String) -> (tv: TokenValue)
        ensures
            tv.token == token,
            tv.value == value,
    {
        TokenValue { token, value }
    }
}

/// Why the lexer stopped. `S` is as for `Token`.
#[derive(Debug, PartialEq, Eq)]
pub enum LexError<S = String> {
    /// A keyword (`true`, `false`, `null`) met `found` where it expected
    /// `expected`.
    UnexpectedKeywordChar { found: char, expected: char },
    /// The input ended inside a keyword, where `expected` was due.
    UnexpectedKeywordEnd { expected: char },
    /// The input ended inside a string.
    UnterminatedString,
    /// A backslash in a string was followed by this character, not `"`.
    InvalidEscape(char),
    /// The input ended right after a backslash in a string.
    UnterminatedEscape,
    /// This numeral is not a number.
    InvalidNumber(S),
    /// No token starts with this character.
    UnexpectedChar(char),
}

impl View for LexError {
    type V = LexError<Seq<char>>;

    open spec fn view(&self) -> LexError<Seq<char>> {
        match self {
            LexError::UnexpectedKeywordChar { found, expected } => LexError::UnexpectedKeywordChar {
                found: *found,
                expected: *expected,
            },
            LexError::UnexpectedKeywordEnd { expected } => LexError::UnexpectedKeywordEnd {
                expected: *expected,
            },
            LexError::UnterminatedString => LexError::UnterminatedString,
            LexError::InvalidEscape(c) => LexError::InvalidEscape(*c),
            LexError::UnterminatedEscape => LexError::UnterminatedEscape,
            LexError::InvalidNumber(s) => LexError::InvalidNumber(s@),
            LexError::UnexpectedChar(c) => LexError::UnexpectedChar(*c),
        }
    }
}

/// The first index `i >= from` at which `lit[i]` is not found at
/// `pos + i` of `line`, or `lit.len()` where all of it is.
pub open spec fn literal_mismatch(line: Seq<char>, pos: int, lit: Seq<char>, from: int) -> int
    decreases lit.len() - from,
{
    if from < 0 || from >= lit.len() {
        lit.len() as int
    } else if 0 <= pos + from < line.len() && line[pos + from] == lit[from] {
        literal_mismatch(line, pos, lit, from + 1)
    } else {
        from
    }
}

/// Reading the keyword `lit` at `pos`: the position after it, or the error
/// at the first character that differs.
pub open spec fn read_literal_spec(line: Seq<char>, pos: int, lit: Seq<char>) -> Result<int, LexError<Seq<char>>> {
    let m = literal_mismatch(line, pos, lit, 0);
    if m >= lit.len() {
        Ok(pos + lit.len())
    } else if pos + m < line.len() {
        Err(LexError::UnexpectedKeywordChar { found: line[pos + m], expected: lit[m] })
    } else {
        Err(LexError::UnexpectedKeywordEnd { expected: lit[m] })
    }
}

/// The first index at or after `from` that holds `"` or a backslash, or
/// `from` itself where that is past the end.
pub open spec fn string_stop(line: Seq<char>, from: int) -> int
    decreases line.len() - from,
{
    if from < 0 || from >= line.len() {
        from
    } else if line[from] == '"' || line[from] == '\\' {
        from
    } else {
        string_stop(line, from + 1)
    }
}

/// Reading a string whose opening quote is at `pos`: its text and the
/// position after its closing quote. Text runs to the first `"` or
/// backslash; a backslash must be followed by `"`, which then ends the
/// string as part of its text.
pub open spec fn read_string_spec(line: Seq<char>, pos: int) -> Result<(Seq<char>, int), LexError<Seq<char>>> {
    let start = pos + 1;
    let k = string_stop(line, start);
    if k < 0 || k >= line.len() {
        Err(LexError::UnterminatedString)
    } else if line[k] == '"' {
        Ok((line.subrange(start, k), k + 1))
    } else if k + 1 >= line.len() {
        Err(LexError::UnterminatedEscape)
    } else if line[k + 1] == '"' {
        Ok((line.subrange(start, k).push('"'), k + 2))
    } else {
        Err(LexError::InvalidEscape(line[k + 1]))
    }
}

/// A decimal digit.
pub open spec fn is_digit(c: char) -> bool {
    '0' <= c <= '9'
}

/// The first index at or after `from` that holds neither a digit nor `.`,
/// or `from` itself where that is past the end.
pub open spec fn numeral_end(line: Seq<char>, from: int) -> int
    decreases line.len() - from,
{
    if from < 0 || from >= line.len() {
        from
    } else if is_digit(line[from]) || line[from] == '.' {
        numeral_end(line, from + 1)
    } else {
        from
    }
}

/// The text of the numeral at `pos` and the position after it: a leading
/// `-` is kept, a leading `.` becomes `0.`, then digits and points follow.
pub open spec fn scan_numeral(line: Seq<char>, pos: int) -> (Seq<char>, int) {
    if pos < 0 || pos >= line.len() {
        (Seq::empty(), pos)
    } else if line[pos] == '-' {
        let e = numeral_end(line, pos + 1);
        (seq!['-'] + line.subrange(pos + 1, e), e)
    } else if line[pos] == '.' {
        let e = numeral_end(line, pos + 1);
        (seq!['0', '.'] + line.subrange(pos + 1, e), e)
    } else {
        let e = numeral_end(line, pos);
        (line.subrange(pos, e), e)
    }
}

/// A numeral without its sign.
pub open spec fn numeral_body(t: Seq<char>) -> Seq<char> {
    if t.len() > 0 && t[0] == '-' {
        t.drop_first()
    } else {
        t
    }
}

/// `t` is a number to `f64`'s parser: an optional `-`, then digits with at
/// most one point and at least one digit.
pub open spec fn is_numeral(t: Seq<char>) -> bool {
    let body = numeral_body(t);
    &&& forall|i: int| 0 <= i < body.len() ==> is_digit(#[trigger] body[i]) || body[i] == '.'
    &&& forall|i: int, j: int| 0 <= i < j < body.len() && #[trigger] body[i] == '.' ==> #[trigger] body[j] != '.'
    &&& exists|i: int| 0 <= i < body.len() && is_digit(#[trigger] body[i])
}

/// Reading the number at `pos`: its numeral and the position after it.
pub open spec fn read_number_spec(line: Seq<char>, pos: int) -> Result<(Seq<char>, int), LexError<Seq<char>>> {
    let (t, e) = scan_numeral(line, pos);
    if is_numeral(t) {
        Ok((t, e))
    } else {
        Err(LexError::InvalidNumber(t))
    }
}

/// The characters of `s`.
pub(crate) fn chars_of(s: &str) -> (v: Vec<char>)
    ensures
        v@ == s@,
{
    broadcast use vstd::string::group_string_axioms;

    let mut v: Vec<char> = Vec::new();
    for c in it: s.chars()
        invariant
            v@.len() == it.index(),
            forall|i: int| 0 <= i < it.index() ==> v@[i] == it.seq()[i],
    {
        v.push(c);
    }
    assert(v@ =~= s@);
    v
}

/// Whether `t` is a number to `f64`'s parser (see `is_numeral`).
fn check_numeral(t: &Vec<char>) -> (r: bool)
    ensures
        r == is_numeral(t@),
{
    let ghost body = numeral_body(t@);
    let b0: usize = if t.len() > 0 && t[0] == '-' {
        1
    } else {
        0
    };
    assert(body.len() == t@.len() - b0);
    assert(forall|i: int| 0 <= i < body.len() ==> body[i] == t@[i + b0]);
    let mut seen_dot = false;
    let mut seen_digit = false;
    let mut i: usize = b0;
    while i < t.len()
        invariant
            b0 <= i <= t@.len(),
            body == numeral_body(t@),
            b0 == (if t@.len() > 0 && t@[0] == '-' { 1int } else { 0int }),
            body.len() == t@.len() - b0,
            forall|j: int| 0 <= j < body.len() ==> body[j] == t@[j + b0],
            forall|j: int| 0 <= j < i - b0 ==> is_digit(#[trigger] body[j]) || body[j] == '.',
            forall|j: int, k: int|
                0 <= j < k < i - b0 && #[trigger] body[j] == '.' ==> #[trigger] body[k] != '.',
            seen_dot <==> exists|j: int| 0 <= j < i - b0 && #[trigger] body[j] == '.',
            seen_digit <==> exists|j: int| 0 <= j < i - b0 && is_digit(#[trigger] body[j]),
        decreases t@.len() - i,
    {
        let c = t[i];
        let ghost bi = (i - b0) as int;
        assert(body[bi] == c);
        if c == '.' {
            if seen_dot {
                let ghost j = choose|j: int| 0 <= j < i - b0 && #[trigger] body[j] == '.';
                assert(body[j] == '.' && body[bi] == '.');
                assert(!is_numeral(t@));
                return false;
            }
            seen_dot = true;
        } else if '0' <= c && c <= '9' {
            seen_digit = true;
        } else {
            assert(!(is_digit(body[bi]) || body[bi] == '.'));
            assert(!is_numeral(t@));
            return false;
        }
        i = i + 1;
    }
    seen_digit
}

/// A cursor over the characters of one input line.
pub struct Lexer {
    line: Vec<char>,
    pos: usize,
}

impl Lexer {
    /// The characters of the input.
    pub closed spec fn chars(&self) -> Seq<char> {
        self.line@
    }

    /// The cursor's position.
    pub closed spec fn position(&self) -> int {
        self.pos as int
    }

    /// The cursor's position is that of a `usize`: never negative.
    pub proof fn lemma_position_bounds(&self)
        ensures
            0 <= self.position() <= usize::MAX,
    {
    }

    /// A lexer at the start of `l`.
    pub fn new(l: &str) -> (lex: Lexer)
        ensures
            lex.chars() == l@,
            lex.position() == 0,
    {
        Lexer { line: chars_of(l), pos: 0 }
    }

    /// The character under the cursor, if any.
    pub fn current(&self) -> (r: Option<char>)
        ensures
            r == (if 0 <= self.position() < self.chars().len() {
                Some(self.chars()[self.position()])
            } else {
                None::<char>
            }),
    {
        if self.pos < self.line.len() {
            Some(self.line[self.pos])
        } else {
            None
        }
    }

    /// The character after the cursor, if any.
    pub fn peek(&self) -> (r: Option<char>)
        ensures
            r == (if self.position() + 1 < self.chars().len() {
                Some(self.chars()[self.position() + 1])
            } else {
                None::<char>
            }),
    {
        if self.line.len() > 0 && self.pos < self.line.len() - 1 {
            Some(self.line[self.pos + 1])
        } else {
            None
        }
    }

    /// Moves the cursor one character on.
    pub fn advance(&mut self)
        requires
            old(self).position() < usize::MAX,
        ensures
            final(self).chars() == old(self).chars(),
            final(self).position() == old(self).position() + 1,
    {
        self.pos = self.pos + 1;
    }

    /// Reads the keyword `literal` at the cursor, moving past each character
    /// that matches; fails at the first one that does not.
    pub fn read_literal(&mut self, literal: &str) -> (r: Result<(), LexError>)
        ensures
            final(self).chars() == old(self).chars(),
            match read_literal_spec(old(self).chars(), old(self).position(), literal@) {
                Ok(p) => r is Ok && final(self).position() == p,
                Err(e) => r matches Err(err) && err@ == e,
            },
    {
        let lit = chars_of(literal);
        let n = self.line.len();
        let ghost line = self.line@;
        let ghost p0 = self.pos as int;
        let mut i: usize = 0;
        while i < lit.len()
            invariant
                self.line@ == line,
                line == old(self).line@,
                line.len() == n,
                i <= lit@.len(),
                lit@ == literal@,
                self.pos == p0 + i,
                literal_mismatch(line, p0, lit@, 0) == literal_mismatch(line, p0, lit@, i as int),
                p0 == old(self).pos,
            decreases lit@.len() - i,
        {
            match self.current() {
                Some(c) => {
                    if c == lit[i] {
                        self.advance();
                    } else {
                        return Err(LexError::UnexpectedKeywordChar { found: c, expected: lit[i] });
                    }
                },
                None => {
                    return Err(LexError::UnexpectedKeywordEnd { expected: lit[i] });
                },
            }
            i = i + 1;
        }
        Ok(())
    }

    /// Reads the string whose opening quote is under the cursor (the quote
    /// itself is not checked) and moves past its closing quote.
    pub fn read_string(&mut self) -> (r: Result<String, LexError>)
        requires
            old(self).position() < usize::MAX,
        ensures
            final(self).chars() == old(self).chars(),
            match read_string_spec(old(self).chars(), old(self).position()) {
                Ok((text, p)) => r matches Ok(s) && s@ == text && final(self).position() == p,
                Err(e) => r matches Err(err) && err@ == e,
            },
    {
        let n = self.line.len();
        let ghost line = self.line@;
        let ghost start = self.pos + 1;
        let mut s = String::new();
        self.advance();
        loop
            invariant
                self.line@ == line,
                line == old(self).line@,
                line.len() == n,
                start <= self.pos,
                start == old(self).pos + 1,
                self.pos <= line.len() || self.pos == start,
                self.pos <= line.len() ==> s@ == line.subrange(start, self.pos as int),
                self.pos == start ==> s@ == Seq::<char>::empty(),
                string_stop(line, start) == string_stop(line, self.pos as int),
            ensures
                self.line@ == line,
                line == old(self).line@,
                line.len() == n,
                start == old(self).pos + 1,
                start <= self.pos < line.len(),
                line[self.pos as int] == '\\',
                s@ == line.subrange(start, self.pos as int),
                string_stop(line, start) == self.pos,
            decreases line.len() - self.pos,
        {
            match self.current() {
                None => {
                    return Err(LexError::UnterminatedString);
                },
                Some(c) => {
                    if c == '"' {
                        self.advance();
                        return Ok(s);
                    } else if c == '\\' {
                        break;
                    } else {
                        s.push(c);
                        self.advance();
                        assert(s@ =~= line.subrange(start, self.pos as int));
                    }
                },
            }
        }
        self.advance();
        match self.current() {
            Some(c) => {
                if c == '"' {
                    s.push('"');
                    self.advance();
                    Ok(s)
                } else {
                    Err(LexError::InvalidEscape(c))
                }
            },
            None => Err(LexError::UnterminatedEscape),
        }
    }

    /// Reads the number under the cursor: a leading `-` or `.`, then digits
    /// and points. Returns its numeral, with a leading `.` read as `0.`, or
    /// `InvalidNumber` where that numeral is not a number.
    pub fn read_number(&mut self) -> (r: Result<String, LexError>)
        ensures
            final(self).chars() == old(self).chars(),
            match read_number_spec(old(self).chars(), old(self).position()) {
                Ok((text, p)) => r matches Ok(s) && s@ == text && final(self).position() == p,
                Err(e) => r matches Err(err) && err@ == e,
            },
    {
        let n = self.line.len();
        let ghost line = self.line@;
        let ghost p0 = self.pos as int;
        let mut result = String::new();
        let mut text: Vec<char> = Vec::new();
        let ghost prefix: Seq<char> = Seq::empty();
        match self.current() {
            Some(c) => {
                if c == '-' {
                    result.push('-');
                    text.push('-');
                    self.advance();
                    proof {
                        prefix = seq!['-'];
                    }
                } else if c == '.' {
                    result.push('0');
                    result.push('.');
                    text.push('0');
                    text.push('.');
                    self.advance();
                    proof {
                        prefix = seq!['0', '.'];
                    }
                }
            },
            None => {},
        }
        let ghost from = self.pos as int;
        assert(text@ =~= prefix);
        loop
            invariant
                self.line@ == line,
                line == old(self).line@,
                line.len() == n,
                from <= self.pos,
                p0 == old(self).pos,
                from == (if 0 <= p0 < line.len() && (line[p0] == '-' || line[p0] == '.') { p0 + 1 } else { p0 }),
                prefix == (if 0 <= p0 < line.len() && line[p0] == '-' { seq!['-'] } else if 0 <= p0 < line.len() && line[p0] == '.' { seq!['0', '.'] } else { Seq::<char>::empty() }),
                self.pos <= line.len() || self.pos == from,
                self.pos > from ==> self.pos <= line.len(),
                result@ == text@,
                self.pos <= line.len() ==> text@ == prefix + line.subrange(from, self.pos as int),
                self.pos == from ==> text@ == prefix,
                numeral_end(line, from) == numeral_end(line, self.pos as int),
            ensures
                self.line@ == line,
                line == old(self).line@,
                p0 == old(self).pos,
                from == (if 0 <= p0 < line.len() && (line[p0] == '-' || line[p0] == '.') { p0 + 1 } else { p0 }),
                prefix == (if 0 <= p0 < line.len() && line[p0] == '-' { seq!['-'] } else if 0 <= p0 < line.len() && line[p0] == '.' { seq!['0', '.'] } else { Seq::<char>::empty() }),
                result@ == text@,
                numeral_end(line, from) == self.pos,
                self.pos <= line.len() ==> text@ == prefix + line.subrange(from, self.pos as int),
                self.pos == from ==> text@ == prefix,
            decreases line.len() - self.pos,
        {
            match self.current() {
                Some(c) => {
                    if ('0' <= c && c <= '9') || c == '.' {
                        result.push(c);
                        text.push(c);
                        self.advance();
                        assert(text@ =~= prefix + line.subrange(from, self.pos as int));
                    } else {
                        break;
                    }
                },
                None => {
                    break;
                },
            }
        }
        if check_numeral(&text) {
            Ok(result)
        } else {
            Err(LexError::InvalidNumber(result))
        }
    }
}

proof fn lemma_string_stop_from(line: Seq<char>, from: int)
    ensures
        string_stop(line, from) >= from,
    decreases line.len() - from,
{
    if 0 <= from < line.len() && !(line[from] == '"' || line[from] == '\\') {
        lemma_string_stop_from(line, from + 1);
    }
}

proof fn lemma_numeral_end_from(line: Seq<char>, from: int)
    ensures
        numeral_end(line, from) >= from,
        0 <= from <= line.len() ==> numeral_end(line, from) <= line.len(),
    decreases line.len() - from,
{
    if 0 <= from < line.len() && (is_digit(line[from]) || line[from] == '.') {
        lemma_numeral_end_from(line, from + 1);
    }
}

proof fn lemma_literal_in_line(line: Seq<char>, pos: int, lit: Seq<char>, from: int)
    requires
        0 <= from < lit.len(),
        literal_mismatch(line, pos, lit, from) >= lit.len(),
    ensures
        pos + lit.len() <= line.len(),
    decreases lit.len() - from,
{
    if from + 1 < lit.len() {
        lemma_literal_in_line(line, pos, lit, from + 1);
    }
}

/// Each token read moves the cursor on.
pub proof fn lemma_reads_advance(line: Seq<char>, pos: int)
    requires
        0 <= pos < line.len(),
    ensures
        read_string_spec(line, pos) matches Ok((t, p)) ==> p > pos,
        read_string_spec(line, pos) matches Ok((t, p)) ==> p <= line.len(),
        (is_digit(line[pos]) || line[pos] == '-') ==> scan_numeral(line, pos).1 > pos,
        scan_numeral(line, pos).1 <= line.len(),
        forall|lit: Seq<char>|
            lit.len() > 0 && #[trigger] read_literal_spec(line, pos, lit) is Ok ==> pos
                + lit.len() <= line.len(),
{
    assert forall|lit: Seq<char>|
        lit.len() > 0 && #[trigger] read_literal_spec(line, pos, lit) is Ok implies pos + lit.len()
        <= line.len() by {
        lemma_literal_in_line(line, pos, lit, 0);
    }
    lemma_string_stop_from(line, pos + 1);
    lemma_numeral_end_from(line, pos + 1);
    if is_digit(line[pos]) {
        lemma_numeral_end_from(line, pos + 1);
    }
}

/// `t` in front of the tokens of `r`, or `r`'s error.
pub open spec fn cons_token(t: Token<Seq<char>>, r: Result<Seq<Token<Seq<char>>>, LexError<Seq<char>>>) -> Result<Seq<Token<Seq<char>>>, LexError<Seq<char>>> {
    match r {
        Ok(ts) => Ok(seq![t] + ts),
        Err(e) => Err(e),
    }
}

/// `prefix` in front of the tokens of `r`, or `r`'s error.
pub open spec fn prefix_tokens(prefix: Seq<Token<Seq<char>>>, r: Result<Seq<Token<Seq<char>>>, LexError<Seq<char>>>) -> Result<Seq<Token<Seq<char>>>, LexError<Seq<char>>> {
    match r {
        Ok(ts) => Ok(prefix + ts),
        Err(e) => Err(e),
    }
}

/// The tokens of `line` from `pos` on: white space (space, `\n`, `\r`,
/// `\t`) is skipped, each of `{ } [ ] : ,` is a token of its own, `"` starts
/// a string, `t`, `f` and `n` start `true`, `false` and `null`, `-` and the
/// digits start a number; any other character is an error.
pub open spec fn tokenize_from(line: Seq<char>, pos: int) -> Result<Seq<Token<Seq<char>>>, LexError<Seq<char>>>
    decreases line.len() - pos,
{
    if pos < 0 || pos >= line.len() {
        Ok(Seq::empty())
    } else {
        let c = line[pos];
        if c == ' ' || c == '\n' || c == '\r' || c == '\t' {
            tokenize_from(line, pos + 1)
        } else if c == '{' {
            cons_token(Token::LeftBrace, tokenize_from(line, pos + 1))
        } else if c == '[' {
            cons_token(Token::LeftBracket, tokenize_from(line, pos + 1))
        } else if c == ']' {
            cons_token(Token::RightBracket, tokenize_from(line, pos + 1))
        } else if c == ':' {
            cons_token(Token::Colon, tokenize_from(line, pos + 1))
        } else if c == ',' {
            cons_token(Token::Comma, tokenize_from(line, pos + 1))
        } else if c == '}' {
            cons_token(Token::RightBrace, tokenize_from(line, pos + 1))
        } else if c == '"' {
            match read_string_spec(line, pos) {
                Ok((text, p)) => {
                    proof {
                        lemma_reads_advance(line, pos);
                    }
                    cons_token(Token::StringToken(text), tokenize_from(line, p))
                },
                Err(e) => Err(e),
            }
        } else if c == 't' || c == 'f' || c == 'n' {
            let lit = if c == 't' {
                seq!['t', 'r', 'u', 'e']
            } else if c == 'f' {
                seq!['f', 'a', 'l', 's', 'e']
            } else {
                seq!['n', 'u', 'l', 'l']
            };
            let tok = if c == 't' {
                Token::True
            } else if c == 'f' {
                Token::False
            } else {
                Token::Null
            };
            match read_literal_spec(line, pos, lit) {
                Ok(p) => {
                    proof {
                        assert(lit.len() >= 4);
                        lemma_reads_advance(line, pos);
                    }
                    cons_token(tok, tokenize_from(line, p))
                },
                Err(e) => Err(e),
            }
        } else if c == '-' || is_digit(c) {
            match read_number_spec(line, pos) {
                Ok((text, p)) => {
                    proof {
                        lemma_reads_advance(line, pos);
                    }
                    cons_token(Token::NumToken(text), tokenize_from(line, p))
                },
                Err(e) => Err(e),
            }
        } else {
            Err(LexError::UnexpectedChar(c))
        }
    }
}

proof fn lemma_prefix_cons(
    before: Seq<Token<Seq<char>>>,
    t: Token<Seq<char>>,
    r: Result<Seq<Token<Seq<char>>>, LexError<Seq<char>>>,
)
    ensures
        prefix_tokens(before + seq![t], r) == prefix_tokens(before, cons_token(t, r)),
{
    match r {
        Ok(ts) => {
            assert((before + seq![t]) + ts =~= before + (seq![t] + ts));
        },
        Err(e) => {},
    }
}

pub(crate) proof fn lemma_prefix_assoc(
    a: Seq<Token<Seq<char>>>,
    b: Seq<Token<Seq<char>>>,
    r: Result<Seq<Token<Seq<char>>>, LexError<Seq<char>>>,
)
    ensures
        prefix_tokens(a, prefix_tokens(b, r)) == prefix_tokens(a + b, r),
{
    match r {
        Ok(ts) => {
            assert(a + (b + ts) =~= (a + b) + ts);
        },
        Err(e) => {},
    }
}

pub(crate) proof fn lemma_cons_prefix(t: Token<Seq<char>>, r: Result<Seq<Token<Seq<char>>>, LexError<Seq<char>>>)
    ensures
        cons_token(t, r) == prefix_tokens(seq![t], r),
{
}

/// The views of a list of tokens.
pub open spec fn tokens_view(ts: Seq<Token>) -> Seq<Token<Seq<char>>> {
    ts.map_values(|t: Token| t@)
}

/// Splits the line `l` into tokens, or reports the first error.
pub fn tokenize(l: &str) -> (r: Result<Vec<Token>, LexError>)
    ensures
        match tokenize_from(l@, 0) {
            Ok(ts) => r matches Ok(v) && tokens_view(v@) == ts,
            Err(e) => r matches Err(err) && err@ == e,
        },
{
    let mut lex = Lexer::new(l);
    let n = lex.line.len();
    let mut tokens: Vec<Token> = Vec::new();
    loop
        invariant
            lex.chars() == l@,
            l@.len() == n,
            prefix_tokens(tokens_view(tokens@), tokenize_from(l@, lex.position())) == tokenize_from(l@, 0),
        ensures
            lex.position() >= l@.len(),
            prefix_tokens(tokens_view(tokens@), tokenize_from(l@, lex.position())) == tokenize_from(l@, 0),
        decreases l@.len() - lex.position(),
    {
        let ghost pos = lex.position();
        let ghost before = tokens_view(tokens@);
        match lex.current() {
            None => {
                break;
            },
            Some(c) => {
                proof {
                    lemma_reads_advance(l@, pos);
                }
                if c == ' ' || c == '\n' || c == '\r' || c == '\t' {
                    lex.advance();
                } else if c == '{' || c == '[' || c == ']' || c == ':' || c == ',' || c == '}' {
                    let t = if c == '{' {
                        Token::LeftBrace
                    } else if c == '[' {
                        Token::LeftBracket
                    } else if c == ']' {
                        Token::RightBracket
                    } else if c == ':' {
                        Token::Colon
                    } else if c == ',' {
                        Token::Comma
                    } else {
                        Token::RightBrace
                    };
                    tokens.push(t);
                    lex.advance();
                    assert(tokens_view(tokens@) =~= before + seq![tokens@.last()@]);
                            proof {
                                lemma_prefix_cons(before, tokens@.last()@, tokenize_from(l@, lex.position()));
                            }
                } else if c == '"' {
                    match lex.read_string() {
                        Ok(s) => {
                            let t = Token::StringToken(s);
                            tokens.push(t);
                            assert(tokens_view(tokens@) =~= before + seq![tokens@.last()@]);
                            proof {
                                lemma_prefix_cons(before, tokens@.last()@, tokenize_from(l@, lex.position()));
                            }
                        },
                        Err(e) => {
                            return Err(e);
                        },
                    }
                } else if c == 't' || c == 'f' || c == 'n' {
                    let r = if c == 't' {
                        proof {
                            reveal_strlit("true");
                            assert("true"@ =~= seq!['t', 'r', 'u', 'e']);
                        }
                        lex.read_literal("true")
                    } else if c == 'f' {
                        proof {
                            reveal_strlit("false");
                            assert("false"@ =~= seq!['f', 'a', 'l', 's', 'e']);
                        }
                        lex.read_literal("false")
                    } else {
                        proof {
                            reveal_strlit("null");
                            assert("null"@ =~= seq!['n', 'u', 'l', 'l']);
                        }
                        lex.read_literal("null")
                    };
                    match r {
                        Ok(()) => {
                            let t = if c == 't' {
                                Token::True
                            } else if c == 'f' {
                                Token::False
                            } else {
                                Token::Null
                            };
                            tokens.push(t);
                            assert(tokens_view(tokens@) =~= before + seq![tokens@.last()@]);
                            proof {
                                lemma_prefix_cons(before, tokens@.last()@, tokenize_from(l@, lex.position()));
                            }
                        },
                        Err(e) => {
                            return Err(e);
                        },
                    }
                } else if c == '-' || ('0' <= c && c <= '9') {
                    match lex.read_number() {
                        Ok(s) => {
                            let t = Token::NumToken(s);
                            tokens.push(t);
                            assert(tokens_view(tokens@) =~= before + seq![tokens@.last()@]);
                            proof {
                                lemma_prefix_cons(before, tokens@.last()@, tokenize_from(l@, lex.position()));
                            }
                        },
                        Err(e) => {
                            return Err(e);
                        },
                    }
                } else {
                    return Err(LexError::UnexpectedChar(c));
                }
            },
        }
    }
    Ok(tokens)
}

/// White space between tokens: space, `\n`, `\r`, `\t`.
pub open spec fn is_blank(c: char) -> bool {
    c == ' ' || c == '\n' || c == '\r' || c == '\t'
}

proof fn lemma_prefix_empty(r: Result<Seq<Token<Seq<char>>>, LexError<Seq<char>>>)
    ensures
        prefix_tokens(Seq::empty(), r) == r,
{
    match r {
        Ok(ts) => {
            assert(Seq::<Token<Seq<char>>>::empty() + ts =~= ts);
        },
        Err(e) => {},
    }
}

proof fn lemma_string_stop_shift(a: Seq<char>, b: Seq<char>, from: int)
    requires
        0 <= from,
    ensures
        string_stop(a + b, a.len() + from) == a.len() + string_stop(b, from),
    decreases b.len() - from,
{
    if from < b.len() {
        assert((a + b)[a.len() + from] == b[from]);
        if !(b[from] == '"' || b[from] == '\\') {
            lemma_string_stop_shift(a, b, from + 1);
        }
    }
}

proof fn lemma_numeral_end_shift(a: Seq<char>, b: Seq<char>, from: int)
    requires
        0 <= from,
    ensures
        numeral_end(a + b, a.len() + from) == a.len() + numeral_end(b, from),
    decreases b.len() - from,
{
    if from < b.len() {
        assert((a + b)[a.len() + from] == b[from]);
        if is_digit(b[from]) || b[from] == '.' {
            lemma_numeral_end_shift(a, b, from + 1);
        }
    }
}

proof fn lemma_literal_mismatch_from(line: Seq<char>, pos: int, lit: Seq<char>, i: int)
    requires
        0 <= i <= lit.len(),
    ensures
        i <= literal_mismatch(line, pos, lit, i) <= lit.len(),
    decreases lit.len() - i,
{
    if i < lit.len() && 0 <= pos + i < line.len() && line[pos + i] == lit[i] {
        lemma_literal_mismatch_from(line, pos, lit, i + 1);
    }
}

proof fn lemma_literal_mismatch_shift(a: Seq<char>, b: Seq<char>, p: int, lit: Seq<char>, i: int)
    requires
        0 <= p,
        0 <= i,
    ensures
        literal_mismatch(a + b, a.len() + p, lit, i) == literal_mismatch(b, p, lit, i),
    decreases lit.len() - i,
{
    if i < lit.len() {
        if p + i < b.len() {
            assert((a + b)[a.len() + p + i] == b[p + i]);
        }
        lemma_literal_mismatch_shift(a, b, p, lit, i + 1);
    }
}

proof fn lemma_readers_shift(a: Seq<char>, b: Seq<char>, p: int)
    requires
        0 <= p < b.len(),
    ensures
        read_string_spec(a + b, a.len() + p) == (match read_string_spec(b, p) {
            Ok((t, q)) => Ok((t, q + a.len())),
            Err(e) => Err(e),
        }),
        scan_numeral(a + b, a.len() + p) == (scan_numeral(b, p).0, scan_numeral(b, p).1 + a.len()),
        read_number_spec(a + b, a.len() + p) == (match read_number_spec(b, p) {
            Ok((t, q)) => Ok((t, q + a.len())),
            Err(e) => Err(e),
        }),
        forall|lit: Seq<char>|
            #[trigger] read_literal_spec(a + b, a.len() + p, lit) == (match read_literal_spec(b, p, lit) {
                Ok(q) => Ok(q + a.len()),
                Err(e) => Err(e),
            }),
{
    let line = a + b;
    let n = a.len() as int;
    assert(line[n + p] == b[p]);
    lemma_string_stop_shift(a, b, p + 1);
    let k = string_stop(b, p + 1);
    lemma_string_stop_from(b, p + 1);
    if k < b.len() {
        assert(line[n + k] == b[k]);
        assert(line.subrange(n + p + 1, n + k) =~= b.subrange(p + 1, k));
        if k + 1 < b.len() {
            assert(line[n + k + 1] == b[k + 1]);
        }
    }
    lemma_numeral_end_shift(a, b, p + 1);
    lemma_numeral_end_shift(a, b, p);
    lemma_numeral_end_from(b, p + 1);
    lemma_numeral_end_from(b, p);
    let e1 = numeral_end(b, p + 1);
    let e0 = numeral_end(b, p);
    assert(line.subrange(n + p + 1, n + e1) =~= b.subrange(p + 1, e1));
    assert(line.subrange(n + p, n + e0) =~= b.subrange(p, e0));
    assert forall|lit: Seq<char>|
        #[trigger] read_literal_spec(a + b, a.len() + p, lit) == (match read_literal_spec(b, p, lit) {
            Ok(q) => Ok(q + a.len()),
            Err(e) => Err(e),
        }) by {
        lemma_literal_mismatch_shift(a, b, p, lit, 0);
        lemma_literal_mismatch_from(b, p, lit, 0);
        let m = literal_mismatch(b, p, lit, 0);
        if 0 <= m < lit.len() && p + m < b.len() {
            assert(line[n + p + m] == b[p + m]);
        }
    }
}

/// The tokens of `a + b` from `a.len() + p` on are those of `b` from `p` on:
/// what comes before a position does not change the tokens after it.
pub proof fn lemma_tokenize_shift(a: Seq<char>, b: Seq<char>, p: int)
    requires
        0 <= p,
    ensures
        tokenize_from(a + b, a.len() + p) == tokenize_from(b, p),
    decreases b.len() - p,
{
    if p < b.len() {
        let c = b[p];
        assert((a + b)[a.len() + p] == c);
        lemma_reads_advance(b, p);
        lemma_readers_shift(a, b, p);
        if c == ' ' || c == '\n' || c == '\r' || c == '\t' || c == '{' || c == '[' || c == ']' || c
            == ':' || c == ',' || c == '}' {
            lemma_tokenize_shift(a, b, p + 1);
        } else if c == '"' {
            if let Ok((t, q)) = read_string_spec(b, p) {
                lemma_tokenize_shift(a, b, q);
            }
        } else if c == 't' || c == 'f' || c == 'n' {
            let lit = if c == 't' {
                seq!['t', 'r', 'u', 'e']
            } else if c == 'f' {
                seq!['f', 'a', 'l', 's', 'e']
            } else {
                seq!['n', 'u', 'l', 'l']
            };
            assert(read_literal_spec(a + b, a.len() + p, lit) == (match read_literal_spec(b, p, lit) {
                Ok(q) => Ok(q + a.len()),
                Err(e) => Err::<int, LexError<Seq<char>>>(e),
            }));
            if let Ok(q) = read_literal_spec(b, p, lit) {
                lemma_tokenize_shift(a, b, q);
            }
        } else if c == '-' || is_digit(c) {
            if let Ok((t, q)) = read_number_spec(b, p) {
                lemma_tokenize_shift(a, b, q);
            }
        }
    }
}

proof fn lemma_string_stop_extend(s1: Seq<char>, more: Seq<char>, from: int)
    requires
        0 <= from,
        string_stop(s1, from) < s1.len(),
    ensures
        string_stop(s1 + more, from) == string_stop(s1, from),
    decreases s1.len() - from,
{
    assert((s1 + more)[from] == s1[from]);
    if !(s1[from] == '"' || s1[from] == '\\') {
        lemma_string_stop_extend(s1, more, from + 1);
    }
}

proof fn lemma_numeral_end_extend(s1: Seq<char>, more: Seq<char>, from: int)
    requires
        0 <= from <= s1.len(),
        more.len() > 0,
        is_blank(more[0]),
    ensures
        numeral_end(s1 + more, from) == numeral_end(s1, from),
    decreases s1.len() - from,
{
    if from == s1.len() {
        assert((s1 + more)[from] == more[0]);
    } else {
        assert((s1 + more)[from] == s1[from]);
        if is_digit(s1[from]) || s1[from] == '.' {
            lemma_numeral_end_extend(s1, more, from + 1);
        }
    }
}

proof fn lemma_literal_mismatch_extend(s1: Seq<char>, more: Seq<char>, pos: int, lit: Seq<char>, i: int)
    requires
        0 <= i,
        literal_mismatch(s1, pos, lit, i) >= lit.len(),
    ensures
        literal_mismatch(s1 + more, pos, lit, i) == literal_mismatch(s1, pos, lit, i),
    decreases lit.len() - i,
{
    if i < lit.len() {
        assert((s1 + more)[pos + i] == s1[pos + i]);
        lemma_literal_mismatch_extend(s1, more, pos, lit, i + 1);
    }
}

proof fn lemma_tokenize_extend(s1: Seq<char>, more: Seq<char>, pos: int)
    requires
        0 <= pos <= s1.len(),
        more.len() > 0,
        is_blank(more[0]),
        tokenize_from(s1, pos) is Ok,
    ensures
        tokenize_from(s1 + more, pos) == prefix_tokens(
            tokenize_from(s1, pos)->Ok_0,
            tokenize_from(s1 + more, s1.len() as int),
        ),
    decreases s1.len() - pos,
{
    let line = s1 + more;
    let after = tokenize_from(line, s1.len() as int);
    if pos == s1.len() {
        lemma_prefix_empty(after);
    } else {
        let c = s1[pos];
        assert(line[pos] == c);
        lemma_reads_advance(s1, pos);
        if c == ' ' || c == '\n' || c == '\r' || c == '\t' {
            lemma_tokenize_extend(s1, more, pos + 1);
        } else if c == '{' || c == '[' || c == ']' || c == ':' || c == ',' || c == '}' {
            let t = if c == '{' {
                Token::LeftBrace
            } else if c == '[' {
                Token::LeftBracket
            } else if c == ']' {
                Token::RightBracket
            } else if c == ':' {
                Token::Colon
            } else if c == ',' {
                Token::Comma
            } else {
                Token::RightBrace
            };
            lemma_tokenize_extend(s1, more, pos + 1);
            let rest = tokenize_from(s1, pos + 1)->Ok_0;
            lemma_cons_prefix(t, prefix_tokens(rest, after));
            lemma_prefix_assoc(seq![t], rest, after);
        } else if c == '"' {
            let (text, q) = read_string_spec(s1, pos)->Ok_0;
            let k = string_stop(s1, pos + 1);
            lemma_string_stop_from(s1, pos + 1);
            lemma_string_stop_extend(s1, more, pos + 1);
            assert(line[k] == s1[k]);
            if line[k] != '"' {
                assert(line[k + 1] == s1[k + 1]);
            }
            assert(line.subrange(pos + 1, k) =~= s1.subrange(pos + 1, k));
            assert(read_string_spec(line, pos) == read_string_spec(s1, pos));
            lemma_tokenize_extend(s1, more, q);
            let rest = tokenize_from(s1, q)->Ok_0;
            lemma_cons_prefix(Token::StringToken(text), prefix_tokens(rest, after));
            lemma_prefix_assoc(seq![Token::StringToken(text)], rest, after);
        } else if c == 't' || c == 'f' || c == 'n' {
            let lit = if c == 't' {
                seq!['t', 'r', 'u', 'e']
            } else if c == 'f' {
                seq!['f', 'a', 'l', 's', 'e']
            } else {
                seq!['n', 'u', 'l', 'l']
            };
            let t = if c == 't' {
                Token::True
            } else if c == 'f' {
                Token::False
            } else {
                Token::Null
            };
            lemma_literal_mismatch_extend(s1, more, pos, lit, 0);
            assert(read_literal_spec(line, pos, lit) == read_literal_spec(s1, pos, lit));
            let q = read_literal_spec(s1, pos, lit)->Ok_0;
            assert(lit.len() > 0);
            lemma_tokenize_extend(s1, more, q);
            let rest = tokenize_from(s1, q)->Ok_0;
            lemma_cons_prefix(t, prefix_tokens(rest, after));
            lemma_prefix_assoc(seq![t], rest, after);
        } else if c == '-' || is_digit(c) {
            lemma_numeral_end_from(s1, pos + 1);
            lemma_numeral_end_extend(s1, more, pos + 1);
            lemma_numeral_end_extend(s1, more, pos);
            let e1 = numeral_end(s1, pos + 1);
            let e0 = numeral_end(s1, pos);
            lemma_numeral_end_from(s1, pos);
            assert(line.subrange(pos + 1, e1) =~= s1.subrange(pos + 1, e1));
            assert(line.subrange(pos, e0) =~= s1.subrange(pos, e0));
            assert(scan_numeral(line, pos) == scan_numeral(s1, pos));
            let (text, q) = read_number_spec(s1, pos)->Ok_0;
            lemma_tokenize_extend(s1, more, q);
            let rest = tokenize_from(s1, q)->Ok_0;
            lemma_cons_prefix(Token::NumToken(text), prefix_tokens(rest, after));
            lemma_prefix_assoc(seq![Token::NumToken(text)], rest, after);
        }
    }
}

/// Tokenizing two texts joined by one white-space character gives the
/// tokens of the first followed by those of the second (or the second's
/// error), where the first tokenizes without error. Empty text, and white
/// space alone, give no tokens.
pub proof fn lemma_tokenize_join(s1: Seq<char>, w: char, s2: Seq<char>)
    requires
        is_blank(w),
        tokenize_from(s1, 0) is Ok,
    ensures
        tokenize_from(s1 + seq![w] + s2, 0) == prefix_tokens(
            tokenize_from(s1, 0)->Ok_0,
            tokenize_from(s2, 0),
        ),
        tokenize_from(Seq::empty(), 0) == Ok::<Seq<Token<Seq<char>>>, LexError<Seq<char>>>(Seq::empty()),
        tokenize_from(seq![w], 0) == Ok::<Seq<Token<Seq<char>>>, LexError<Seq<char>>>(Seq::empty()),
{
    let more = seq![w] + s2;
    let line = s1 + more;
    assert(s1 + seq![w] + s2 =~= line);
    assert(more[0] == w);
    lemma_tokenize_extend(s1, more, 0);
    assert(line[s1.len() as int] == w);
    assert(tokenize_from(line, s1.len() as int) == tokenize_from(line, s1.len() + 1int));
    let a = s1 + seq![w];
    assert(a + s2 =~= line);
    lemma_tokenize_shift(a, s2, 0);
    assert(tokenize_from(seq![w], 0) == tokenize_from(seq![w], 1));
}

proof fn lemma_literal_mismatch_join(line: Seq<char>, pos: int, a: Seq<char>, b: Seq<char>, i: int)
    requires
        0 <= i <= a.len(),
    ensures
        literal_mismatch(line, pos, a, i) < a.len() ==> literal_mismatch(line, pos, a + b, i)
            == literal_mismatch(line, pos, a, i),
        literal_mismatch(line, pos, a, i) >= a.len() ==> literal_mismatch(line, pos, a + b, i)
            == a.len() + literal_mismatch(line, pos + a.len(), b, 0),
    decreases a.len() - i,
{
    if i < a.len() {
        assert((a + b)[i] == a[i]);
        lemma_literal_mismatch_join(line, pos, a, b, i + 1);
    } else {
        lemma_literal_mismatch_tail(line, pos, a, b, 0);
    }
}

proof fn lemma_literal_mismatch_tail(line: Seq<char>, pos: int, a: Seq<char>, b: Seq<char>, j: int)
    requires
        0 <= j,
    ensures
        literal_mismatch(line, pos, a + b, a.len() + j) == a.len() + literal_mismatch(
            line,
            pos + a.len(),
            b,
            j,
        ),
    decreases b.len() - j,
{
    if j < b.len() {
        assert((a + b)[a.len() + j] == b[j]);
        lemma_literal_mismatch_tail(line, pos, a, b, j + 1);
    }
}

/// Reading the keyword `a + b` is reading `a` and then `b` right after it:
/// the same position on success, the same error at the first character that
/// differs.
pub proof fn lemma_read_literal_join(line: Seq<char>, pos: int, a: Seq<char>, b: Seq<char>)
    ensures
        read_literal_spec(line, pos, a + b) == (match read_literal_spec(line, pos, a) {
            Ok(q) => read_literal_spec(line, q, b),
            Err(e) => Err(e),
        }),
{
    lemma_literal_mismatch_join(line, pos, a, b, 0);
    lemma_literal_mismatch_from(line, pos, a, 0);
    lemma_literal_mismatch_from(line, pos + a.len(), b, 0);
    let m = literal_mismatch(line, pos, a, 0);
    if m < a.len() {
        assert((a + b)[m] == a[m]);
    } else {
        let mb = literal_mismatch(line, pos + a.len(), b, 0);
        if mb < b.len() {
            assert((a + b)[a.len() + mb] == b[mb]);
        }
    }
}

} // verus!
