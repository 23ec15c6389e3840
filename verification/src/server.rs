//! The request side of the store's line protocol: a line is split into
//! words; `set KEY VALUE` and `get KEY` are requests, and each is answered
//! with one line.

use vstd::prelude::*;
use vstd::string::*;

use crate::kvs::{KvsError, describes};

verus! {

/// The characters that `char::is_whitespace` accepts: Unicode's
/// White_Space property.
pub open spec fn is_white(c: char) -> bool {
    ||| c == ' '
    ||| ('\u{9}' <= c <= '\u{d}')
    ||| c == '\u{85}'
    ||| c == '\u{a0}'
    ||| c == '\u{1680}'
    ||| ('\u{2000}' <= c <= '\u{200a}')
    ||| c == '\u{2028}'
    ||| c == '\u{2029}'
    ||| c == '\u{202f}'
    ||| c == '\u{205f}'
    ||| c == '\u{3000}'
}

/// Whether `c` is white space (see `is_white`).
pub fn is_whitespace(c: char) -> (r: bool)
    ensures
        r == is_white(c),
{
    c == ' ' || ('\u{9}' <= c && c <= '\u{d}') || c == '\u{85}' || c == '\u{a0}' || c
        == '\u{1680}' || ('\u{2000}' <= c && c <= '\u{200a}') || c == '\u{2028}' || c
        == '\u{2029}' || c == '\u{202f}' || c == '\u{205f}' || c == '\u{3000}'
}

/// The words of `s`: its longest runs of characters that are not white
/// space, in order.
pub open spec fn words(s: Seq<char>) -> Seq<Seq<char>>
    decreases s.len(),
{
    if s.len() == 0 {
        Seq::empty()
    } else {
        let p = s.drop_last();
        let c = s.last();
        let w = words(p);
        if is_white(c) {
            w
        } else if p.len() == 0 || is_white(p.last()) {
            w.push(seq![c])
        } else {
            w.update(w.len() - 1, w.last().push(c))
        }
    }
}

proof fn lemma_words_nonempty(s: Seq<char>)
    requires
        s.len() > 0,
        !is_white(s.last()),
    ensures
        words(s).len() > 0,
    decreases s.len(),
{
    let p = s.drop_last();
    if p.len() > 0 && !is_white(p.last()) {
        lemma_words_nonempty(p);
    }
}

/// The white-space characters are exactly those of Unicode's White_Space
/// property, which `char::is_whitespace` tests: tab, line feed, vertical
/// tab, form feed, carriage return, space, U+0085, U+00A0, U+1680, U+2000 to
/// U+200A, U+2028, U+2029, U+202F, U+205F and U+3000.
pub proof fn lemma_white_space_chars(c: char)
    ensures
        is_white(c) <==> (c == '\t' || c == '\n' || c == '\u{b}' || c == '\u{c}' || c == '\r' || c
            == ' ' || c == '\u{85}' || c == '\u{a0}' || c == '\u{1680}' || ('\u{2000}' <= c
            <= '\u{200a}') || c == '\u{2028}' || c == '\u{2029}' || c == '\u{202f}' || c
            == '\u{205f}' || c == '\u{3000}'),
{
}

/// Ending a line with ASCII white space (a space, tab, line feed, vertical
/// tab, form feed or carriage return, as in `\r\n`) adds no word and
/// changes none.
pub proof fn lemma_trailing_blank_adds_no_word(s: Seq<char>, c: char)
    requires
        c == ' ' || c == '\t' || c == '\n' || c == '\u{b}' || c == '\u{c}' || c == '\r',
    ensures
        words(s.push(c)) == words(s),
{
    assert(s.push(c).drop_last() =~= s);
}

/// Splits `line` into its words (see `words`).
pub fn split_words(line: &str) -> (r: Vec<String>)
    ensures
        r@.map_values(|w: String| w@) == words(line@),
{
    let chars = crate::lexer::chars_of(line);
    let mut out: Vec<String> = Vec::new();
    let mut cur = String::new();
    let mut in_word = false;
    let mut i: usize = 0;
    while i < chars.len()
        invariant
            chars@ == line@,
            i <= chars@.len(),
            in_word ==> i > 0 && !is_white(chars@[i - 1]) && words(chars@.take(i as int))
                == out@.map_values(|w: String| w@).push(cur@),
            !in_word ==> (i == 0 || is_white(chars@[i - 1])) && words(chars@.take(i as int))
                == out@.map_values(|w: String| w@),
        decreases chars@.len() - i,
    {
        let c = chars[i];
        let ghost before = chars@.take(i as int);
        let ghost seen = chars@.take(i + 1);
        assert(seen.drop_last() =~= before);
        assert(seen.last() == c);
        if is_whitespace(c) {
            if in_word {
                let ghost ws = out@.map_values(|w: String| w@);
                out.push(cur);
                cur = String::new();
                in_word = false;
                assert(out@.map_values(|w: String| w@) =~= ws.push(words(before).last()));
            }
        } else {
            if in_word {
                cur.push(c);
            } else {
                cur = String::new();
                cur.push(c);
                in_word = true;
                assert(cur@ =~= seq![c]);
            }
        }
        i = i + 1;
    }
    let ghost ws = out@.map_values(|w: String| w@);
    if in_word {
        out.push(cur);
        assert(out@.map_values(|w: String| w@) =~= ws.push(words(chars@.take(i as int)).last()));
    }
    assert(chars@.take(i as int) =~= line@);
    out
}

/// A request line. `S` is `String` in running code and `Seq<char>` in
/// specifications.
#[derive(Debug, PartialEq, Eq)]
pub enum Request<S = String> {
    /// `set KEY VALUE`: store `value` under `key`.
    SetKey { key: S, value: S },
    /// `get KEY`: answer the value under `key`.
    GetKey { key: S },
    /// `set` or `get` without enough words after it.
    MissingArgument,
    /// A line with no words.
    Blank,
    /// Any other first word: no answer.
    Other,
}

impl View for Request {
    type V = Request<Seq<char>>;

    open spec fn view(&self) -> Request<Seq<char>> {
        match self {
            Request::SetKey { key, value } => Request::SetKey { key: key@, value: value@ },
            Request::GetKey { key } => Request::GetKey { key: key@ },
            Request::MissingArgument => Request::MissingArgument,
            Request::Blank => Request::Blank,
            Request::Other => Request::Other,
        }
    }
}

/// The request that the words `w` make; words after those a request needs
/// are ignored.
pub open spec fn request_of(w: Seq<Seq<char>>) -> Request<Seq<char>> {
    if w.len() == 0 {
        Request::Blank
    } else if w[0] == "set"@ {
        if w.len() >= 3 {
            Request::SetKey { key: w[1], value: w[2] }
        } else {
            Request::MissingArgument
        }
    } else if w[0] == "get"@ {
        if w.len() >= 2 {
            Request::GetKey { key: w[1] }
        } else {
            Request::MissingArgument
        }
    } else {
        Request::Other
    }
}

/// Reads the request on `line`.
pub fn parse_request(line: &str) -> (r: Request)
    ensures
        r@ == request_of(words(line@)),
{
    let mut w = split_words(line);
    let ghost ws = w@.map_values(|s: String| s@);
    assert(ws.len() == w@.len());
    if w.len() == 0 {
        return Request::Blank;
    }
    let set_word = "set".to_owned();
    let get_word = "get".to_owned();
    assert(ws[0] == w@[0]@);
    if w[0] == set_word {
        if w.len() >= 3 {
            assert(ws[1] == w@[1]@ && ws[2] == w@[2]@);
            let value = w.remove(2);
            let key = w.remove(1);
            Request::SetKey { key, value }
        } else {
            Request::MissingArgument
        }
    } else if w[0] == get_word {
        if w.len() >= 2 {
            assert(ws[1] == w@[1]@);
            let key = w.remove(1);
            Request::GetKey { key }
        } else {
            Request::MissingArgument
        }
    } else {
        Request::Other
    }
}

/// The answer to a `set`: `OK` or `ERR` and the error's message, as one line.
pub fn set_reply(result: &Result<(), KvsError>) -> (r: String)
    ensures
        result is Ok ==> r@ == "OK\n"@,
        result matches Err(e) ==> exists|m: Seq<char>| describes(*e, m) && r@ == "ERR "@ + m + "\n"@,
{
    match result {
        Ok(()) => "OK\n".to_owned(),
        Err(e) => error_reply(e),
    }
}

/// The answer to a `get`: the value or `ERR` and the error's message, as one
/// line.
pub fn get_reply(result: &Result<String, KvsError>) -> (r: String)
    ensures
        result matches Ok(v) ==> r@ == v@ + "\n"@,
        result matches Err(e) ==> exists|m: Seq<char>| describes(*e, m) && r@ == "ERR "@ + m + "\n"@,
{
    match result {
        Ok(v) => {
            let mut s = v.clone();
            s.append("\n");
            s
        },
        Err(e) => error_reply(e),
    }
}

/// `ERR`, the message of `e` and a line end.
fn error_reply(e: &KvsError) -> (r: String)
    ensures
        exists|m: Seq<char>| describes(*e, m) && r@ == "ERR "@ + m + "\n"@,
{
    let m = e.describe();
    let mut s = "ERR ".to_owned();
    s.append(m.as_str());
    s.append("\n");
    assert(describes(*e, m@) && s@ == "ERR "@ + m@ + "\n"@);
    s
}

} // verus!
