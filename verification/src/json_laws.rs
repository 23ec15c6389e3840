//! What the JSON lexer and parser give back of a value's text: the tokens
//! of a value, and the laws that connect text, tokens and values.

use vstd::prelude::*;

use crate::lexer::{
    Token, LexError, tokenize_from, cons_token, prefix_tokens, read_string_spec, string_stop,
    read_literal_spec, literal_mismatch, read_number_spec, scan_numeral, numeral_end, is_numeral,
    numeral_body, is_digit, lemma_prefix_assoc, lemma_cons_prefix, token_text,
};
use crate::parser::{
    Json, parse_value_at, parse_object_at, parse_elements_at, parse_members_at, render,
    render_items, render_member, render_members,
};

verus! {

/// The tokens of `j`'s text.
pub open spec fn value_tokens(j: Json) -> Seq<Token<Seq<char>>>
    decreases j, 0int,
{
    match j {
        Json::Null => seq![Token::Null],
        Json::Bool(b) => if b {
            seq![Token::True]
        } else {
            seq![Token::False]
        },
        Json::Num(t) => seq![Token::NumToken(t)],
        Json::Str(s) => seq![Token::StringToken(s)],
        Json::Array(items) => seq![Token::LeftBracket] + item_tokens(items, 0) + seq![
            Token::RightBracket,
        ],
        Json::Object(pairs) => seq![Token::LeftBrace] + member_tokens(pairs, 0) + seq![
            Token::RightBrace,
        ],
    }
}

/// The tokens of the elements of `items` from the `k`-th on, separated by
/// commas.
pub open spec fn item_tokens(items: Seq<Json>, k: int) -> Seq<Token<Seq<char>>>
    decreases items, items.len() - k,
{
    if k < 0 || k >= items.len() {
        Seq::empty()
    } else if k + 1 == items.len() {
        value_tokens(items[k])
    } else {
        value_tokens(items[k]) + seq![Token::Comma] + item_tokens(items, k + 1)
    }
}

/// The tokens of one member.
pub open spec fn member_token_seq(key: Seq<char>, value: Json) -> Seq<Token<Seq<char>>>
    decreases value, 1int,
{
    seq![Token::StringToken(key), Token::Colon] + value_tokens(value)
}

/// The tokens of the members of `pairs` from the `k`-th on, separated by
/// commas.
pub open spec fn member_tokens(pairs: Seq<(Seq<char>, Json)>, k: int) -> Seq<Token<Seq<char>>>
    decreases pairs, pairs.len() - k,
{
    if k < 0 || k >= pairs.len() {
        Seq::empty()
    } else if k + 1 == pairs.len() {
        member_token_seq(pairs[k].0, pairs[k].1)
    } else {
        member_token_seq(pairs[k].0, pairs[k].1) + seq![Token::Comma] + member_tokens(pairs, k + 1)
    }
}

/// `j` holds no boolean and no empty array: the values that parsing gives
/// back unchanged.
pub open spec fn plain(j: Json) -> bool
    decreases j, 0int,
{
    match j {
        Json::Bool(_) => false,
        Json::Array(items) => items.len() > 0 && plain_items(items, 0),
        Json::Object(pairs) => plain_members(pairs, 0),
        _ => true,
    }
}

/// Every element of `items` from the `k`-th on is plain.
pub open spec fn plain_items(items: Seq<Json>, k: int) -> bool
    decreases items, items.len() - k,
{
    if k < 0 || k >= items.len() {
        true
    } else {
        plain(items[k]) && plain_items(items, k + 1)
    }
}

/// Every member value of `pairs` from the `k`-th on is plain.
pub open spec fn plain_members(pairs: Seq<(Seq<char>, Json)>, k: int) -> bool
    decreases pairs, pairs.len() - k,
{
    if k < 0 || k >= pairs.len() {
        true
    } else {
        plain(pairs[k].1) && plain_members(pairs, k + 1)
    }
}

/// `seg` stands in `ts` from `p` on.
pub open spec fn at<T>(ts: Seq<T>, p: int, seg: Seq<T>) -> bool {
    &&& 0 <= p
    &&& p + seg.len() <= ts.len()
    &&& ts.subrange(p, p + seg.len()) == seg
}

proof fn lemma_at_split<T>(ts: Seq<T>, p: int, a: Seq<T>, b: Seq<T>)
    requires
        at(ts, p, a + b),
    ensures
        at(ts, p, a),
        at(ts, p + a.len(), b),
{
    let whole = ts.subrange(p, p + (a + b).len());
    assert(whole == a + b);
    assert(ts.subrange(p, p + a.len()) =~= whole.subrange(0, a.len() as int));
    assert(whole.subrange(0, a.len() as int) =~= a);
    assert(ts.subrange(p + a.len(), p + a.len() + b.len()) =~= whole.subrange(
        a.len() as int,
        (a + b).len() as int,
    ));
    assert(whole.subrange(a.len() as int, (a + b).len() as int) =~= b);
}

proof fn lemma_at_one<T>(ts: Seq<T>, p: int, x: T)
    requires
        at(ts, p, seq![x]),
    ensures
        ts[p] == x,
{
    assert(ts.subrange(p, p + 1)[0] == ts[p]);
}

proof fn lemma_value_tokens_nonempty(j: Json)
    ensures
        value_tokens(j).len() > 0,
{
}

proof fn lemma_parse_value(ts: Seq<Token<Seq<char>>>, p: int, j: Json)
    requires
        plain(j),
        at(ts, p, value_tokens(j)),
    ensures
        parse_value_at(ts, p) == Ok::<(Json, int), crate::parser::ParseError>((j, p + value_tokens(j).len())),
    decreases j, 0int,
{
    let vt = value_tokens(j);
    match j {
        Json::Array(items) => {
            let it = item_tokens(items, 0);
            assert(vt =~= seq![Token::LeftBracket] + (it + seq![Token::RightBracket]));
            lemma_at_split(ts, p, seq![Token::LeftBracket], it + seq![Token::RightBracket]);
            lemma_at_one(ts, p, Token::LeftBracket);
            lemma_parse_elements(ts, p + 1, items, 0);
            assert(items.take(0) =~= Seq::<Json>::empty());
        },
        Json::Object(pairs) => {
            let mt = member_tokens(pairs, 0);
            assert(vt =~= seq![Token::LeftBrace] + (mt + seq![Token::RightBrace]));
            lemma_at_split(ts, p, seq![Token::LeftBrace], mt + seq![Token::RightBrace]);
            lemma_at_one(ts, p, Token::LeftBrace);
            lemma_at_split(ts, p + 1, mt, seq![Token::RightBrace]);
            lemma_at_one(ts, p + 1 + mt.len(), Token::RightBrace);
            if pairs.len() == 0 {
                assert(mt.len() == 0);
                assert(pairs =~= Seq::<(Seq<char>, Json)>::empty());
            } else {
                lemma_member_tokens_start(pairs, 0);
                lemma_at_split(ts, p + 1, seq![Token::StringToken(pairs[0].0)], mt.subrange(1, mt.len() as int));
                lemma_at_one(ts, p + 1, Token::StringToken(pairs[0].0));
                lemma_parse_members(ts, p + 1, pairs, 0);
                assert(pairs.take(0) =~= Seq::<(Seq<char>, Json)>::empty());
            }
        },
        _ => {
            lemma_at_one(ts, p, vt[0]);
        },
    }
}

proof fn lemma_member_tokens_start(pairs: Seq<(Seq<char>, Json)>, k: int)
    requires
        0 <= k < pairs.len(),
    ensures
        member_tokens(pairs, k).len() >= 1,
        member_tokens(pairs, k) == seq![Token::StringToken(pairs[k].0)] + member_tokens(pairs, k).subrange(1, member_tokens(pairs, k).len() as int),
{
    let mt = member_tokens(pairs, k);
    let m = member_token_seq(pairs[k].0, pairs[k].1);
    assert(m == seq![Token::StringToken(pairs[k].0), Token::Colon] + value_tokens(pairs[k].1));
    assert(m[0] == Token::<Seq<char>>::StringToken(pairs[k].0));
    if k + 1 < pairs.len() {
        assert(mt == m + seq![Token::Comma] + member_tokens(pairs, k + 1));
    }
    assert(mt[0] == Token::<Seq<char>>::StringToken(pairs[k].0));
    assert(mt =~= seq![Token::StringToken(pairs[k].0)] + mt.subrange(1, mt.len() as int));
}

proof fn lemma_parse_elements(ts: Seq<Token<Seq<char>>>, p: int, items: Seq<Json>, k: int)
    requires
        0 <= k < items.len(),
        plain_items(items, k),
        at(ts, p, item_tokens(items, k) + seq![Token::RightBracket]),
    ensures
        parse_elements_at(ts, p, items.take(k)) == Ok::<(Json, int), crate::parser::ParseError>(
            (Json::Array(items), p + item_tokens(items, k).len() + 1),
        ),
    decreases items, items.len() - k,
{
    let vt = value_tokens(items[k]);
    let it = item_tokens(items, k);
    lemma_value_tokens_nonempty(items[k]);
    if k + 1 == items.len() {
        lemma_at_split(ts, p, vt, seq![Token::RightBracket]);
        lemma_at_one(ts, p + vt.len(), Token::RightBracket);
        lemma_parse_value(ts, p, items[k]);
        assert(items.take(k).push(items[k]) =~= items);
    } else {
        let rest = item_tokens(items, k + 1);
        assert(it + seq![Token::RightBracket] =~= vt + (seq![Token::Comma] + (rest + seq![
            Token::RightBracket,
        ])));
        lemma_at_split(ts, p, vt, seq![Token::Comma] + (rest + seq![Token::RightBracket]));
        lemma_at_split(ts, p + vt.len(), seq![Token::Comma], rest + seq![Token::RightBracket]);
        lemma_at_one(ts, p + vt.len(), Token::Comma);
        lemma_parse_value(ts, p, items[k]);
        lemma_parse_elements(ts, p + vt.len() + 1, items, k + 1);
        assert(items.take(k).push(items[k]) =~= items.take(k + 1));
    }
}

proof fn lemma_parse_members(ts: Seq<Token<Seq<char>>>, p: int, pairs: Seq<(Seq<char>, Json)>, k: int)
    requires
        0 <= k < pairs.len(),
        plain_members(pairs, k),
        at(ts, p, member_tokens(pairs, k) + seq![Token::RightBrace]),
    ensures
        parse_members_at(ts, p, pairs.take(k)) == Ok::<(Json, int), crate::parser::ParseError>(
            (Json::Object(pairs), p + member_tokens(pairs, k).len() + 1),
        ),
    decreases pairs, pairs.len() - k,
{
    let key = pairs[k].0;
    let v = pairs[k].1;
    let vt = value_tokens(v);
    let head = seq![Token::StringToken(key), Token::Colon];
    let mt = member_tokens(pairs, k);
    lemma_value_tokens_nonempty(v);
    let tail = if k + 1 == pairs.len() {
        seq![Token::RightBrace]
    } else {
        seq![Token::Comma] + (member_tokens(pairs, k + 1) + seq![Token::RightBrace])
    };
    assert(member_token_seq(key, v) == head + vt);
    assert(mt + seq![Token::RightBrace] =~= head + (vt + tail));
    lemma_at_split(ts, p, head, vt + tail);
    lemma_at_split(ts, p + 2, vt, tail);
    assert(ts[p] == head[0] && ts[p + 1] == head[1]) by {
        assert(ts.subrange(p, p + 2)[0] == ts[p]);
        assert(ts.subrange(p, p + 2)[1] == ts[p + 1]);
    }
    lemma_parse_value(ts, p + 2, v);
    if k + 1 == pairs.len() {
        lemma_at_one(ts, p + 2 + vt.len(), Token::RightBrace);
        assert(pairs.take(k).push((key, v)) =~= pairs);
    } else {
        let rest = member_tokens(pairs, k + 1);
        lemma_at_split(ts, p + 2 + vt.len(), seq![Token::Comma], rest + seq![Token::RightBrace]);
        lemma_at_one(ts, p + 2 + vt.len(), Token::Comma);
        lemma_parse_members(ts, p + 2 + vt.len() + 1, pairs, k + 1);
        assert(pairs.take(k).push((key, v)) =~= pairs.take(k + 1));
    }
}

/// Parsing the tokens of a plain value gives the value back and stops right
/// after them, whatever tokens follow.
pub proof fn lemma_parse_tokens(j: Json, rest: Seq<Token<Seq<char>>>)
    requires
        plain(j),
    ensures
        parse_value_at(value_tokens(j) + rest, 0) == Ok::<(Json, int), crate::parser::ParseError>(
            (j, value_tokens(j).len() as int),
        ),
{
    let ts = value_tokens(j) + rest;
    assert(ts.subrange(0, value_tokens(j).len() as int) =~= value_tokens(j));
    lemma_parse_value(ts, 0, j);
}

/// Parsing the tokens of a plain object as a whole document gives the object
/// back.
pub proof fn lemma_parse_object_tokens(j: Json, rest: Seq<Token<Seq<char>>>)
    requires
        plain(j),
        j is Object,
    ensures
        parse_object_at(value_tokens(j) + rest, 0) == Ok::<(Json, int), crate::parser::ParseError>(
            (j, value_tokens(j).len() as int),
        ),
{
    lemma_parse_tokens(j, rest);
    let ts = value_tokens(j) + rest;
    assert(ts[0] == Token::<Seq<char>>::LeftBrace);
}

/// Text that the lexer reads back as it was written: no `"` or backslash.
pub open spec fn quotable(s: Seq<char>) -> bool {
    forall|i: int| 0 <= i < s.len() ==> #[trigger] s[i] != '"' && s[i] != '\\'
}

/// A numeral that the lexer reads back as it was written: it starts with
/// `-` or a digit, and it is a number.
pub open spec fn lexable_numeral(t: Seq<char>) -> bool {
    &&& t.len() > 0
    &&& (t[0] == '-' || is_digit(t[0]))
    &&& is_numeral(t)
}

/// Every string, key and numeral in `j` is one that the lexer reads back
/// as it was written.
pub open spec fn lexable(j: Json) -> bool
    decreases j, 0int,
{
    match j {
        Json::Str(s) => quotable(s),
        Json::Num(t) => lexable_numeral(t),
        Json::Array(items) => lexable_items(items, 0),
        Json::Object(pairs) => lexable_members(pairs, 0),
        _ => true,
    }
}

/// Every element of `items` from the `k`-th on is lexable.
pub open spec fn lexable_items(items: Seq<Json>, k: int) -> bool
    decreases items, items.len() - k,
{
    if k < 0 || k >= items.len() {
        true
    } else {
        lexable(items[k]) && lexable_items(items, k + 1)
    }
}

/// Every member of `pairs` from the `k`-th on has a quotable key and a
/// lexable value.
pub open spec fn lexable_members(pairs: Seq<(Seq<char>, Json)>, k: int) -> bool
    decreases pairs, pairs.len() - k,
{
    if k < 0 || k >= pairs.len() {
        true
    } else {
        quotable(pairs[k].0) && lexable(pairs[k].1) && lexable_members(pairs, k + 1)
    }
}

/// Position `q` of `line` does not continue a numeral.
pub open spec fn numeral_stops(line: Seq<char>, q: int) -> bool {
    q >= line.len() || !(is_digit(line[q]) || line[q] == '.')
}

proof fn lemma_string_stop_over(line: Seq<char>, from: int, s: Seq<char>)
    requires
        quotable(s),
        at(line, from, s),
        from + s.len() < line.len(),
        line[from + s.len()] == '"',
    ensures
        string_stop(line, from) == from + s.len(),
    decreases s.len(),
{
    if s.len() > 0 {
        assert(line[from] == s[0]) by {
            assert(line.subrange(from, from + s.len())[0] == line[from]);
        }
        let s2 = s.drop_first();
        assert(line.subrange(from + 1, from + 1 + s2.len()) =~= s2) by {
            assert forall|i: int| 0 <= i < s2.len() implies line.subrange(from + 1, from + 1 + s2.len())[i] == s2[i] by {
                assert(line.subrange(from, from + s.len())[i + 1] == s[i + 1]);
            }
        }
        assert(quotable(s2)) by {
            assert forall|i: int| 0 <= i < s2.len() implies #[trigger] s2[i] != '"' && s2[i] != '\\' by {
                assert(s[i + 1] == s2[i]);
            }
        }
        lemma_string_stop_over(line, from + 1, s2);
    }
}

proof fn lemma_numeral_end_over(line: Seq<char>, from: int, s: Seq<char>)
    requires
        forall|i: int| 0 <= i < s.len() ==> is_digit(#[trigger] s[i]) || s[i] == '.',
        at(line, from, s),
        numeral_stops(line, from + s.len()),
    ensures
        numeral_end(line, from) == from + s.len(),
    decreases s.len(),
{
    if s.len() > 0 {
        assert(line[from] == s[0]) by {
            assert(line.subrange(from, from + s.len())[0] == line[from]);
        }
        let s2 = s.drop_first();
        assert(line.subrange(from + 1, from + 1 + s2.len()) =~= s2) by {
            assert forall|i: int| 0 <= i < s2.len() implies line.subrange(from + 1, from + 1 + s2.len())[i] == s2[i] by {
                assert(line.subrange(from, from + s.len())[i + 1] == s[i + 1]);
            }
        }
        assert forall|i: int| 0 <= i < s2.len() implies is_digit(#[trigger] s2[i]) || s2[i] == '.' by {
            assert(s[i + 1] == s2[i]);
        }
        lemma_numeral_end_over(line, from + 1, s2);
    }
}

proof fn lemma_literal_over(line: Seq<char>, p: int, lit: Seq<char>, i: int)
    requires
        at(line, p, lit),
        0 <= i <= lit.len(),
    ensures
        literal_mismatch(line, p, lit, i) == lit.len(),
    decreases lit.len() - i,
{
    if i < lit.len() {
        assert(line[p + i] == lit[i]) by {
            assert(line.subrange(p, p + lit.len())[i] == line[p + i]);
        }
        lemma_literal_over(line, p, lit, i + 1);
    }
}

proof fn lemma_char_at(line: Seq<char>, p: int, seg: Seq<char>, i: int)
    requires
        at(line, p, seg),
        0 <= i < seg.len(),
    ensures
        line[p + i] == seg[i],
{
    assert(line.subrange(p, p + seg.len())[i] == line[p + i]);
}

proof fn lemma_lex_literal(line: Seq<char>, p: int, lit: Seq<char>, t: Token<Seq<char>>)
    requires
        at(line, p, lit),
        lit.len() > 0,
        (lit == seq!['t', 'r', 'u', 'e'] && t == Token::<Seq<char>>::True) || (lit == seq![
            'f',
            'a',
            'l',
            's',
            'e',
        ] && t == Token::<Seq<char>>::False) || (lit == seq!['n', 'u', 'l', 'l'] && t
            == Token::<Seq<char>>::Null),
    ensures
        tokenize_from(line, p) == prefix_tokens(seq![t], tokenize_from(line, p + lit.len())),
{
    lemma_literal_over(line, p, lit, 0);
    lemma_char_at(line, p, lit, 0);
    assert(read_literal_spec(line, p, lit) == Ok::<int, LexError<Seq<char>>>(p + lit.len()));
}

proof fn lemma_lex_string(line: Seq<char>, p: int, s: Seq<char>)
    requires
        quotable(s),
        at(line, p, seq!['"'] + s + seq!['"']),
    ensures
        tokenize_from(line, p) == prefix_tokens(
            seq![Token::StringToken(s)],
            tokenize_from(line, p + s.len() + 2),
        ),
{
    let r = seq!['"'] + s + seq!['"'];
    lemma_char_at(line, p, r, 0);
    lemma_char_at(line, p, r, s.len() + 1int);
    lemma_at_split(line, p, seq!['"'] + s, seq!['"']);
    lemma_at_split(line, p, seq!['"'], s);
    lemma_string_stop_over(line, p + 1, s);
    assert(line.subrange(p + 1, p + 1 + s.len()) == s);
    assert(read_string_spec(line, p) == Ok::<(Seq<char>, int), LexError<Seq<char>>>((s, p + s.len() + 2)));
}

proof fn lemma_lex_number(line: Seq<char>, p: int, t: Seq<char>)
    requires
        lexable_numeral(t),
        at(line, p, t),
        numeral_stops(line, p + t.len()),
    ensures
        tokenize_from(line, p) == prefix_tokens(seq![Token::NumToken(t)], tokenize_from(line, p + t.len())),
{
    lemma_char_at(line, p, t, 0);
    let body = numeral_body(t);
    if t[0] == '-' {
        assert(t =~= seq!['-'] + body);
        lemma_at_split(line, p, seq!['-'], body);
        lemma_numeral_end_over(line, p + 1, body);
        assert(scan_numeral(line, p).0 =~= t);
    } else {
        assert(body == t);
        lemma_numeral_end_over(line, p, t);
        assert(scan_numeral(line, p).0 =~= t);
    }
    assert(read_number_spec(line, p) == Ok::<(Seq<char>, int), LexError<Seq<char>>>((t, p + t.len())));
}

#[verifier::rlimit(40)]
proof fn lemma_lex_value(line: Seq<char>, p: int, j: Json)
    requires
        lexable(j),
        at(line, p, render(j)),
        numeral_stops(line, p + render(j).len()),
    ensures
        tokenize_from(line, p) == prefix_tokens(value_tokens(j), tokenize_from(line, p + render(j).len())),
    decreases j, 0int,
{
    match j {
        Json::Null => {
            lemma_lex_literal(line, p, seq!['n', 'u', 'l', 'l'], Token::Null);
        },
        Json::Bool(b) => {
            if b {
                lemma_lex_literal(line, p, seq!['t', 'r', 'u', 'e'], Token::True);
            } else {
                lemma_lex_literal(line, p, seq!['f', 'a', 'l', 's', 'e'], Token::False);
            }
        },
        Json::Str(text) => {
            lemma_lex_string(line, p, text);
        },
        Json::Num(t) => {
            lemma_lex_number(line, p, t);
        },
        Json::Array(items) => {
            let ri = render_items(items, 0);
            let r = render(j);
            assert(r =~= seq!['['] + (ri + seq![']']));
            lemma_at_split(line, p, seq!['['], ri + seq![']']);
            lemma_char_at(line, p, r, 0);
            lemma_at_split(line, p + 1, ri, seq![']']);
            lemma_char_at(line, p + 1 + ri.len(), seq![']'], 0);
            let end = p + r.len();
            let after = tokenize_from(line, end);
            lemma_cons_prefix(Token::RightBracket, after);
            if items.len() == 0 {
                assert(ri.len() == 0);
                assert(value_tokens(j) =~= seq![Token::LeftBracket] + seq![Token::RightBracket]);
                lemma_prefix_assoc(seq![Token::LeftBracket], seq![Token::RightBracket], after);
            } else {
                lemma_lex_items(line, p + 1, items, 0);
                let it = item_tokens(items, 0);
                lemma_prefix_assoc(it, seq![Token::RightBracket], after);
                lemma_prefix_assoc(seq![Token::LeftBracket], it + seq![Token::RightBracket], after);
                assert(value_tokens(j) =~= seq![Token::LeftBracket] + (it + seq![Token::RightBracket]));
            }
        },
        Json::Object(pairs) => {
            let rm = render_members(pairs, 0);
            let r = render(j);
            assert(r =~= seq!['{'] + (rm + seq!['}']));
            lemma_at_split(line, p, seq!['{'], rm + seq!['}']);
            lemma_char_at(line, p, r, 0);
            lemma_at_split(line, p + 1, rm, seq!['}']);
            lemma_char_at(line, p + 1 + rm.len(), seq!['}'], 0);
            let end = p + r.len();
            let after = tokenize_from(line, end);
            lemma_cons_prefix(Token::RightBrace, after);
            if pairs.len() == 0 {
                assert(rm.len() == 0);
                assert(value_tokens(j) =~= seq![Token::LeftBrace] + seq![Token::RightBrace]);
                lemma_prefix_assoc(seq![Token::LeftBrace], seq![Token::RightBrace], after);
            } else {
                lemma_lex_members(line, p + 1, pairs, 0);
                let mt = member_tokens(pairs, 0);
                lemma_prefix_assoc(mt, seq![Token::RightBrace], after);
                lemma_prefix_assoc(seq![Token::LeftBrace], mt + seq![Token::RightBrace], after);
                assert(value_tokens(j) =~= seq![Token::LeftBrace] + (mt + seq![Token::RightBrace]));
            }
        },
    }
}

proof fn lemma_lex_items(line: Seq<char>, p: int, items: Seq<Json>, k: int)
    requires
        0 <= k < items.len(),
        lexable_items(items, k),
        at(line, p, render_items(items, k) + seq![']']),
    ensures
        tokenize_from(line, p) == prefix_tokens(
            item_tokens(items, k),
            tokenize_from(line, p + render_items(items, k).len()),
        ),
    decreases items, items.len() - k,
{
    let r = render(items[k]);
    let vt = value_tokens(items[k]);
    if k + 1 == items.len() {
        lemma_at_split(line, p, r, seq![']']);
        lemma_char_at(line, p + r.len(), seq![']'], 0);
        lemma_lex_value(line, p, items[k]);
    } else {
        let rest = render_items(items, k + 1);
        assert(render_items(items, k) + seq![']'] =~= r + (seq![','] + (rest + seq![']'])));
        lemma_at_split(line, p, r, seq![','] + (rest + seq![']']));
        lemma_at_split(line, p + r.len(), seq![','], rest + seq![']']);
        lemma_char_at(line, p + r.len(), seq![','], 0);
        lemma_lex_value(line, p, items[k]);
        lemma_lex_items(line, p + r.len() + 1, items, k + 1);
        let end = p + r.len() + 1 + rest.len();
        let after = tokenize_from(line, end);
        let it2 = item_tokens(items, k + 1);
        lemma_cons_prefix(Token::Comma, prefix_tokens(it2, after));
        lemma_prefix_assoc(seq![Token::Comma], it2, after);
        lemma_prefix_assoc(vt, seq![Token::Comma] + it2, after);
        assert(item_tokens(items, k) =~= vt + (seq![Token::Comma] + it2));
    }
}

proof fn lemma_lex_members(line: Seq<char>, p: int, pairs: Seq<(Seq<char>, Json)>, k: int)
    requires
        0 <= k < pairs.len(),
        lexable_members(pairs, k),
        at(line, p, render_members(pairs, k) + seq!['}']),
    ensures
        tokenize_from(line, p) == prefix_tokens(
            member_tokens(pairs, k),
            tokenize_from(line, p + render_members(pairs, k).len()),
        ),
    decreases pairs, pairs.len() - k,
{
    let key = pairs[k].0;
    let v = pairs[k].1;
    let quoted = seq!['"'] + key + seq!['"'];
    let rv = render(v);
    let vt = value_tokens(v);
    let rm = render_member(key, v);
    assert(rm =~= quoted + (seq![':'] + rv));
    let tail = if k + 1 == pairs.len() {
        seq!['}']
    } else {
        seq![','] + (render_members(pairs, k + 1) + seq!['}'])
    };
    assert(render_members(pairs, k) + seq!['}'] =~= quoted + (seq![':'] + (rv + tail)));
    lemma_at_split(line, p, quoted, seq![':'] + (rv + tail));
    lemma_at_split(line, p + quoted.len(), seq![':'], rv + tail);
    lemma_char_at(line, p + quoted.len(), seq![':'], 0);
    lemma_at_split(line, p + quoted.len() + 1, rv, tail);
    lemma_char_at(line, p + quoted.len() + 1 + rv.len(), tail, 0);
    lemma_lex_string(line, p, key);
    lemma_lex_value(line, p + quoted.len() + 1, v);
    let q = p + quoted.len() + 1 + rv.len();
    let mts = member_token_seq(key, v);
    assert(mts == seq![Token::StringToken(key), Token::Colon] + vt);
    if k + 1 == pairs.len() {
        let after = tokenize_from(line, q);
        lemma_cons_prefix(Token::Colon, prefix_tokens(vt, after));
        lemma_prefix_assoc(seq![Token::Colon], vt, after);
        lemma_prefix_assoc(seq![Token::StringToken(key)], seq![Token::Colon] + vt, after);
        assert(seq![Token::StringToken(key)] + (seq![Token::Colon] + vt) =~= mts);
    } else {
        let rest = render_members(pairs, k + 1);
        lemma_at_split(line, q, seq![','], rest + seq!['}']);
        lemma_lex_members(line, q + 1, pairs, k + 1);
        let end = q + 1 + rest.len();
        let after = tokenize_from(line, end);
        let mt2 = member_tokens(pairs, k + 1);
        lemma_cons_prefix(Token::Comma, prefix_tokens(mt2, after));
        lemma_prefix_assoc(seq![Token::Comma], mt2, after);
        let x = seq![Token::Comma] + mt2;
        lemma_prefix_assoc(vt, x, after);
        lemma_cons_prefix(Token::Colon, prefix_tokens(vt + x, after));
        lemma_prefix_assoc(seq![Token::Colon], vt + x, after);
        lemma_prefix_assoc(seq![Token::StringToken(key)], seq![Token::Colon] + (vt + x), after);
        assert(seq![Token::StringToken(key)] + (seq![Token::Colon] + (vt + x)) =~= member_tokens(pairs, k));
    }
}

/// Reading back a value's text gives the tokens of the value, for values
/// whose strings, keys and numerals read back as written.
pub proof fn lemma_lex_render(j: Json)
    requires
        lexable(j),
    ensures
        tokenize_from(render(j), 0) == Ok::<Seq<Token<Seq<char>>>, LexError<Seq<char>>>(value_tokens(j)),
{
    let line = render(j);
    assert(line.subrange(0, line.len() as int) =~= line);
    lemma_lex_value(line, 0, j);
    assert(value_tokens(j) + Seq::<Token<Seq<char>>>::empty() =~= value_tokens(j));
}

/// The text of a plain, lexable object, read back and parsed as a document,
/// gives the object back.
pub proof fn lemma_roundtrip(j: Json)
    requires
        j is Object,
        plain(j),
        lexable(j),
    ensures
        tokenize_from(render(j), 0) == Ok::<Seq<Token<Seq<char>>>, LexError<Seq<char>>>(value_tokens(j)),
        parse_object_at(value_tokens(j), 0) == Ok::<(Json, int), crate::parser::ParseError>(
            (j, value_tokens(j).len() as int),
        ),
{
    lemma_lex_render(j);
    lemma_parse_object_tokens(j, Seq::empty());
    assert(value_tokens(j) + Seq::<Token<Seq<char>>>::empty() =~= value_tokens(j));
}

proof fn lemma_whole_at<T>(s: Seq<T>)
    ensures
        at(s, 0, s),
{
    assert(s.subrange(0, s.len() as int) =~= s);
}

/// The sign-free part of a written decimal: `t` without a leading `-`.
pub open spec fn unsigned_part(t: Seq<char>) -> Seq<char> {
    if t.len() > 0 && t[0] == '-' {
        t.subrange(1, t.len() as int)
    } else {
        t
    }
}

/// `t` is written as a decimal: it starts with `-` or a character from `0`
/// to `9`; after the sign come only the characters `0` to `9` and `.`, with
/// at most one `.` and at least one character from `0` to `9`.
pub open spec fn written_decimal(t: Seq<char>) -> bool {
    let u = unsigned_part(t);
    &&& t.len() > 0
    &&& (t[0] == '-' || ('0' <= t[0] <= '9'))
    &&& forall|i: int| 0 <= i < u.len() ==> ('0' <= #[trigger] u[i] <= '9') || u[i] == '.'
    &&& forall|i: int, j: int| 0 <= i < j < u.len() && #[trigger] u[i] == '.' ==> #[trigger] u[j] != '.'
    &&& exists|i: int| 0 <= i < u.len() && '0' <= #[trigger] u[i] <= '9'
}

/// Every written decimal (see `written_decimal`; `0`, `-0`, `0.0`, `00`
/// included) lexes as one number token holding exactly that numeral.
pub proof fn lemma_numeral_lexes(t: Seq<char>)
    requires
        written_decimal(t),
    ensures
        tokenize_from(t, 0) == Ok::<Seq<Token<Seq<char>>>, LexError<Seq<char>>>(seq![Token::NumToken(t)]),
{
    let u = unsigned_part(t);
    let nb = numeral_body(t);
    assert(nb =~= u);
    let i = choose|i: int| 0 <= i < u.len() && '0' <= #[trigger] u[i] <= '9';
    assert(is_digit(nb[i]));
    assert forall|k: int| 0 <= k < nb.len() implies is_digit(#[trigger] nb[k]) || nb[k] == '.' by {
        assert(('0' <= u[k] <= '9') || u[k] == '.');
    }
    assert forall|a: int, b: int| 0 <= a < b < nb.len() && #[trigger] nb[a] == '.' implies #[trigger] nb[b] != '.' by {
        assert(u[a] == '.');
    }
    assert(is_numeral(t));
    lemma_whole_at(t);
    lemma_lex_number(t, 0, t);
    assert(tokenize_from(t, t.len() as int) == Ok::<Seq<Token<Seq<char>>>, LexError<Seq<char>>>(Seq::empty()));
    assert(seq![Token::NumToken(t)] + Seq::<Token<Seq<char>>>::empty() =~= seq![Token::NumToken(t)]);
}

/// Lexing a token's printed text gives that token back: each punctuation
/// token and keyword, a string whose text has no `"` or backslash, and a
/// numeral that the lexer reads back as written.
pub proof fn lemma_token_text_lexes(t: Token<Seq<char>>)
    requires
        t matches Token::StringToken(s) ==> quotable(s),
        t matches Token::NumToken(n) ==> lexable_numeral(n),
    ensures
        tokenize_from(token_text(t), 0) == Ok::<Seq<Token<Seq<char>>>, LexError<Seq<char>>>(seq![t]),
{
    let line = token_text(t);
    lemma_whole_at(line);
    let len = line.len() as int;
    assert(tokenize_from(line, len) == Ok::<Seq<Token<Seq<char>>>, LexError<Seq<char>>>(Seq::empty()));
    assert(seq![t] + Seq::<Token<Seq<char>>>::empty() =~= seq![t]);
    match t {
        Token::StringToken(s) => {
            lemma_lex_string(line, 0, s);
        },
        Token::NumToken(n) => {
            lemma_lex_number(line, 0, n);
        },
        Token::True => {
            lemma_lex_literal(line, 0, line, t);
        },
        Token::False => {
            lemma_lex_literal(line, 0, line, t);
        },
        Token::Null => {
            lemma_lex_literal(line, 0, line, t);
        },
        _ => {
            assert(line.len() == 1);
            assert(tokenize_from(line, 0) == cons_token(t, tokenize_from(line, 1)));
        },
    }
}

} // verus!
