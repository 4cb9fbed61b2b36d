//! What the tokens depend on, and what follows from it: the tokens from a
//! position on are those of the text from that position on, and a sequence
//! of tokens written out as text is read back as the same tokens.

use crate::renderer::css::token::{
    digit_values, ident_at, lemma_pull_at, lemma_whitespace_is_skipped, numeric_at, pull_at,
    string_at, token_at, tokens_from, CssNumberModel, CssPull, CssTokenModel,
};
use crate::text::{in_class, is_ascii_alpha, is_ascii_digit, lemma_span_end, span_end, CharClass};
use vstd::prelude::*;

verus! {

/// A run in the second of two texts put together ends where it ends in
/// that text alone.
pub proof fn lemma_span_shift(a: Seq<char>, b: Seq<char>, k: int, class: CharClass)
    requires
        0 <= k <= b.len(),
    ensures
        span_end(a + b, a.len() + k, class) == a.len() + span_end(b, k, class),
    decreases b.len() - k,
{
    if k < b.len() {
        assert((a + b)[a.len() + k] == b[k]);
        if in_class(class, b[k]) {
            lemma_span_shift(a, b, k + 1, class);
        }
    }
}

/// A part of the second of two texts put together is that part of the
/// second text.
proof fn lemma_subrange_shift(a: Seq<char>, b: Seq<char>, from: int, to: int)
    requires
        0 <= from <= to <= b.len(),
    ensures
        (a + b).subrange(a.len() + from, a.len() + to) == b.subrange(from, to),
{
    assert((a + b).subrange(a.len() + from, a.len() + to) =~= b.subrange(from, to));
}

/// A string in the second of two texts put together is the string in that
/// text alone.
proof fn lemma_string_shift(a: Seq<char>, b: Seq<char>, k: int)
    requires
        0 <= k < b.len(),
    ensures
        string_at(a + b, a.len() + k).0 == string_at(b, k).0,
        string_at(a + b, a.len() + k).1 == a.len() + string_at(b, k).1,
{
    assert((a + b)[a.len() + k] == b[k]);
    lemma_span_shift(a, b, k + 1, CharClass::Not(b[k]));
    lemma_span_end(b, k + 1, CharClass::Not(b[k]));
    lemma_subrange_shift(a, b, k + 1, string_at(b, k).1);
}

/// An identifier in the second of two texts put together is the
/// identifier in that text alone.
proof fn lemma_ident_shift(a: Seq<char>, b: Seq<char>, k: int)
    requires
        0 <= k <= b.len(),
    ensures
        ident_at(a + b, a.len() + k).0 == ident_at(b, k).0,
        ident_at(a + b, a.len() + k).1 == a.len() + ident_at(b, k).1,
{
    lemma_span_shift(a, b, k, CharClass::Ident);
    lemma_span_end(b, k, CharClass::Ident);
    lemma_subrange_shift(a, b, k, ident_at(b, k).1);
}

/// A number in the second of two texts put together is the number in that
/// text alone.
proof fn lemma_numeric_shift(a: Seq<char>, b: Seq<char>, k: int)
    requires
        0 <= k <= b.len(),
    ensures
        numeric_at(a + b, a.len() + k).0 == numeric_at(b, k).0,
        numeric_at(a + b, a.len() + k).1 == a.len() + numeric_at(b, k).1,
{
    lemma_span_shift(a, b, k, CharClass::Digit);
    lemma_span_end(b, k, CharClass::Digit);
    let whole = span_end(b, k, CharClass::Digit);
    lemma_subrange_shift(a, b, k, whole);
    if whole < b.len() {
        assert((a + b)[a.len() + whole] == b[whole]);
        lemma_span_shift(a, b, whole + 1, CharClass::Digit);
        lemma_span_end(b, whole + 1, CharClass::Digit);
        lemma_subrange_shift(a, b, whole + 1, span_end(b, whole + 1, CharClass::Digit));
    }
}

/// A pull from a position in the second of two texts put together finds
/// what a pull in that text alone finds.
pub proof fn lemma_pull_shift(a: Seq<char>, b: Seq<char>, k: int)
    requires
        0 <= k <= b.len(),
    ensures
        pull_at(a + b, a.len() + k).0 == pull_at(b, k).0,
        pull_at(a + b, a.len() + k).1 == a.len() + pull_at(b, k).1,
{
    lemma_span_shift(a, b, k, CharClass::Whitespace);
    lemma_span_end(b, k, CharClass::Whitespace);
    let at = span_end(b, k, CharClass::Whitespace);
    if at < b.len() {
        assert((a + b)[a.len() + at] == b[at]);
        lemma_string_shift(a, b, at);
        lemma_numeric_shift(a, b, at);
        lemma_ident_shift(a, b, at);
        lemma_ident_shift(a, b, at + 1);
        if at + 1 < b.len() {
            assert((a + b)[a.len() + at + 1] == b[at + 1]);
        }
        assert(token_at(a + b, a.len() + at).0 == token_at(b, at).0);
        assert(token_at(a + b, a.len() + at).1 == a.len() + token_at(b, at).1);
    }
}

/// The tokens from a position on are the tokens of the text from that
/// position on: what stands before it does not count.
pub proof fn lemma_tokens_shift(a: Seq<char>, b: Seq<char>, k: int)
    requires
        0 <= k <= b.len(),
    ensures
        tokens_from(a + b, a.len() + k) == tokens_from(b, k),
    decreases b.len() - k,
{
    lemma_pull_shift(a, b, k);
    lemma_pull_at(b, k);
    lemma_pull_at(a + b, a.len() + k);
    let (pull, next) = pull_at(b, k);
    if pull is Token {
        lemma_tokens_shift(a, b, next);
    }
}

/// A run of characters of a class that ends before a character outside the
/// class ends there.
proof fn lemma_span_stops(s: Seq<char>, from: int, end: int, class: CharClass)
    requires
        0 <= from <= end < s.len(),
        forall|i: int| from <= i < end ==> in_class(class, #[trigger] s[i]),
        !in_class(class, s[end]),
    ensures
        span_end(s, from, class) == end,
    decreases end - from,
{
    if from < end {
        lemma_span_stops(s, from + 1, end, class);
    }
}

/// The character that spells the digit `d`.
pub open spec fn digit_char(d: u8) -> char {
    ((d + 48) as u8) as char
}

/// The characters that spell the digits `d`.
pub open spec fn digit_chars(d: Seq<u8>) -> Seq<char> {
    Seq::new(d.len(), |i: int| digit_char(d[i]))
}

/// A number written out: its digits, with a point before the last `scale`
/// of them where `scale` is not zero.
pub open spec fn number_text(n: CssNumberModel) -> Seq<char> {
    let whole = n.digits.len() - n.scale;
    if n.scale == 0 {
        digit_chars(n.digits)
    } else {
        digit_chars(n.digits.take(whole)) + seq!['.'] + digit_chars(n.digits.skip(whole))
    }
}

/// A token written out as text. A string is written between double quotes.
pub open spec fn token_text(t: CssTokenModel) -> Seq<char> {
    match t {
        CssTokenModel::HashToken(v) => v,
        CssTokenModel::Delim(c) => seq![c],
        CssTokenModel::Number(n) => number_text(n),
        CssTokenModel::Colon => seq![':'],
        CssTokenModel::SemiColon => seq![';'],
        CssTokenModel::OpenParenthesis => seq!['('],
        CssTokenModel::CloseParenthesis => seq![')'],
        CssTokenModel::OpenCurly => seq!['{'],
        CssTokenModel::CloseCurly => seq!['}'],
        CssTokenModel::Ident(v) => v,
        CssTokenModel::StringToken(v) => seq!['"'] + v + seq!['"'],
        CssTokenModel::AtKeyword(v) => seq!['@'] + v,
    }
}

/// Every character of `s` from index `from` on may stand in an identifier.
pub open spec fn ident_chars(s: Seq<char>, from: int) -> bool {
    forall|i: int| from <= i < s.len() ==> in_class(CharClass::Ident, #[trigger] s[i])
}

/// A token as the tokenizer hands it out, and, if it is a string, without
/// a double quote in it.
pub open spec fn plain(t: CssTokenModel) -> bool {
    match t {
        CssTokenModel::HashToken(v) => v.len() >= 1 && v[0] == '#' && ident_chars(v, 1),
        CssTokenModel::Delim(c) => c == ',' || c == '.' || c == '@',
        CssTokenModel::Number(n) => n.scale < n.digits.len() && forall|i: int|
            0 <= i < n.digits.len() ==> (#[trigger] n.digits[i]) < 10,
        CssTokenModel::Ident(v) => v.len() >= 1 && (v[0] == '-' || v[0] == '_' || is_ascii_alpha(
            v[0],
        )) && ident_chars(v, 0),
        CssTokenModel::StringToken(v) => forall|i: int| 0 <= i < v.len() ==> (#[trigger] v[i]) != '"',
        CssTokenModel::AtKeyword(v) => v.len() >= 1 && is_ascii_alpha(v[0]) && ident_chars(v, 0),
        _ => true,
    }
}

/// Tokens written out as text, with one space after each.
pub open spec fn written(ts: Seq<CssTokenModel>) -> Seq<char>
    decreases ts.len(),
{
    if ts.len() == 0 {
        Seq::empty()
    } else {
        token_text(ts[0]) + seq![' '] + written(ts.skip(1))
    }
}

/// The digits that are written out are read back as they were.
proof fn lemma_digits_read_back(d: Seq<u8>)
    requires
        forall|i: int| 0 <= i < d.len() ==> (#[trigger] d[i]) < 10,
    ensures
        digit_values(digit_chars(d)) == d,
        forall|i: int| 0 <= i < d.len() ==> is_ascii_digit(#[trigger] digit_chars(d)[i]),
{
    assert forall|i: int| 0 <= i < d.len() implies digit_values(digit_chars(d))[i] == d[i]
        && is_ascii_digit(#[trigger] digit_chars(d)[i]) by {
        assert(d[i] < 10);
        assert(digit_chars(d)[i] == digit_char(d[i]));
    }
    assert(digit_values(digit_chars(d)) =~= d);
}

/// A number that is written out before a space is read back as it was.
proof fn lemma_number_read_back(n: CssNumberModel, rest: Seq<char>)
    requires
        plain(CssTokenModel::Number(n)),
    ensures
        numeric_at(number_text(n) + seq![' '] + rest, 0) == (n, number_text(n).len() as int),
        number_text(n).len() >= 1,
        is_ascii_digit(number_text(n)[0]),
{
    let text = number_text(n);
    let s = text + seq![' '] + rest;
    let whole: int = n.digits.len() - n.scale;
    let before = n.digits.take(whole);
    let behind = n.digits.skip(whole);
    lemma_digits_read_back(before);
    lemma_digits_read_back(behind);
    lemma_digits_read_back(n.digits);
    assert(before.len() == whole);
    assert forall|i: int| 0 <= i < whole implies in_class(CharClass::Digit, #[trigger] s[i]) by {
        assert(s[i] == digit_chars(before)[i]);
    }
    if n.scale == 0 {
        assert(before =~= n.digits);
        assert(text == digit_chars(n.digits));
        assert(s[whole] == ' ');
        lemma_span_stops(s, 0, whole, CharClass::Digit);
        assert(s.subrange(0, whole) =~= digit_chars(n.digits));
    } else {
        assert(s[whole] == '.');
        lemma_span_stops(s, 0, whole, CharClass::Digit);
        let end: int = whole + 1 + n.scale;
        assert forall|i: int| whole + 1 <= i < end implies in_class(
            CharClass::Digit,
            #[trigger] s[i],
        ) by {
            assert(s[i] == digit_chars(behind)[i - whole - 1]);
        }
        assert(s[end] == ' ');
        lemma_span_stops(s, whole + 1, end, CharClass::Digit);
        assert(s.subrange(0, whole) =~= digit_chars(before));
        assert(s.subrange(whole + 1, end) =~= digit_chars(behind));
        assert(digit_chars(before) + digit_chars(behind) =~= digit_chars(n.digits)) by {
            assert(before + behind =~= n.digits);
            assert forall|i: int| 0 <= i < n.digits.len() implies (digit_chars(before)
                + digit_chars(behind))[i] == digit_chars(n.digits)[i] by {
                if i < whole {
                    assert(before[i] == n.digits[i]);
                } else {
                    assert(behind[i - whole] == n.digits[i]);
                }
            }
        }
    }
}

/// An identifier that is written out before a space ends at that space.
proof fn lemma_ident_read_back(before: Seq<char>, v: Seq<char>, rest: Seq<char>)
    requires
        ident_chars(v, 0),
    ensures
        ident_at(before + v + seq![' '] + rest, before.len() as int) == (
            v,
            (before.len() + v.len()) as int,
        ),
{
    let s = before + v + seq![' '] + rest;
    let from = before.len() as int;
    let end = from + v.len();
    assert forall|i: int| from <= i < end implies in_class(CharClass::Ident, #[trigger] s[i]) by {
        assert(s[i] == v[i - from]);
    }
    assert(s[end] == ' ');
    lemma_span_stops(s, from, end, CharClass::Ident);
    assert(s.subrange(from, end) =~= v);
}

/// A plain token that is written out before a space is the token that a
/// pull finds there, and the pull ends behind its text.
pub proof fn lemma_token_read_back(t: CssTokenModel, rest: Seq<char>)
    requires
        plain(t),
    ensures
        token_text(t).len() >= 1,
        pull_at(token_text(t) + seq![' '] + rest, 0) == (
            CssPull::Token(t),
            token_text(t).len() as int,
        ),
{
    let text = token_text(t);
    let s = text + seq![' '] + rest;
    match t {
        CssTokenModel::Number(n) => {
            lemma_number_read_back(n, rest);
        },
        _ => {},
    }
    assert(text.len() >= 1);
    assert(s[0] == text[0]);
    assert(!in_class(CharClass::Whitespace, s[0])) by {
        match t {
            CssTokenModel::HashToken(v) => {},
            CssTokenModel::Ident(v) => {
                assert(in_class(CharClass::Ident, v[0]));
            },
            _ => {},
        }
    }
    assert(span_end(s, 0, CharClass::Whitespace) == 0);
    assert(pull_at(s, 0) == token_at(s, 0));
    match t {
        CssTokenModel::HashToken(v) => {
            let name = v.subrange(1, v.len() as int);
            assert(v =~= seq!['#'] + name);
            assert(ident_chars(name, 0)) by {
                assert forall|i: int| 0 <= i < name.len() implies in_class(
                    CharClass::Ident,
                    #[trigger] name[i],
                ) by {
                    assert(name[i] == v[i + 1]);
                }
            }
            assert(s =~= seq!['#'] + name + seq![' '] + rest);
            lemma_ident_read_back(seq!['#'], name, rest);
        },
        CssTokenModel::Delim(c) => {
            assert(s[1] == ' ');
        },
        CssTokenModel::Ident(v) => {
            assert(s =~= Seq::<char>::empty() + v + seq![' '] + rest);
            lemma_ident_read_back(Seq::empty(), v, rest);
            assert(in_class(CharClass::Ident, v[0]));
        },
        CssTokenModel::StringToken(v) => {
            let end: int = v.len() as int + 1;
            assert forall|i: int| 1 <= i < end implies in_class(
                CharClass::Not('"'),
                #[trigger] s[i],
            ) by {
                assert(s[i] == v[i - 1]);
            }
            assert(s[end] == '"');
            lemma_span_stops(s, 1, end, CharClass::Not('"'));
            assert(s.subrange(1, end) =~= v);
        },
        CssTokenModel::AtKeyword(v) => {
            assert(s[1] == v[0]);
            assert(s =~= seq!['@'] + v + seq![' '] + rest);
            lemma_ident_read_back(seq!['@'], v, rest);
        },
        _ => {},
    }
}

/// Plain tokens that are written out, with a space after each, are read
/// back as the same tokens.
pub proof fn lemma_written_is_read_back(ts: Seq<CssTokenModel>)
    requires
        forall|i: int| 0 <= i < ts.len() ==> plain(#[trigger] ts[i]),
    ensures
        tokens_from(written(ts), 0) == Ok::<Seq<CssTokenModel>, char>(ts),
    decreases ts.len(),
{
    if ts.len() == 0 {
        assert(ts =~= Seq::empty());
    } else {
        let first = ts[0];
        let others = ts.skip(1);
        let text = token_text(first);
        let tail = seq![' '] + written(others);
        let s = written(ts);
        assert(plain(first));
        assert forall|i: int| 0 <= i < others.len() implies plain(#[trigger] others[i]) by {
            assert(others[i] == ts[i + 1]);
        }
        lemma_token_read_back(first, written(others));
        lemma_written_is_read_back(others);
        assert(s =~= text + tail);
        lemma_tokens_shift(text, tail, 0);
        lemma_whitespace_is_skipped(tail, 0);
        lemma_tokens_shift(seq![' '], written(others), 0);
        assert(tokens_from(s, text.len() as int) == Ok::<Seq<CssTokenModel>, char>(others));
        assert(seq![first] + others =~= ts);
    }
}

/// A token is plain, but for the double quotes that it may hold if it is
/// a string.
pub open spec fn formed(t: CssTokenModel) -> bool {
    t is StringToken || plain(t)
}

/// Every token that a pull finds is formed as the tokenizer forms its
/// tokens: an identifier begins as identifiers do and holds only what may
/// stand in one, a number has a digit before its point, and so on.
pub proof fn lemma_pull_is_formed(s: Seq<char>, pos: int)
    requires
        0 <= pos <= s.len(),
    ensures
        pull_at(s, pos).0 matches CssPull::Token(t) ==> formed(t),
{
    lemma_span_end(s, pos, CharClass::Whitespace);
    let at = span_end(s, pos, CharClass::Whitespace);
    if at < s.len() {
        let c = s[at];
        lemma_span_end(s, at, CharClass::Ident);
        lemma_span_end(s, at + 1, CharClass::Ident);
        lemma_span_end(s, at, CharClass::Digit);
        if is_ascii_digit(c) {
            let whole = span_end(s, at, CharClass::Digit);
            let n = numeric_at(s, at).0;
            if whole < s.len() {
                lemma_span_end(s, whole + 1, CharClass::Digit);
            }
            assert(whole > at);
            assert forall|i: int| 0 <= i < n.digits.len() implies (#[trigger] n.digits[i]) < 10 by {
                if whole < s.len() && s[whole] == '.' {
                    let end = span_end(s, whole + 1, CharClass::Digit);
                    let chars = s.subrange(at, whole) + s.subrange(whole + 1, end);
                    if i < whole - at {
                        assert(chars[i] == s[at + i]);
                    } else {
                        assert(chars[i] == s[whole + 1 + (i - (whole - at))]);
                    }
                    assert(is_ascii_digit(chars[i]));
                } else {
                    assert(s.subrange(at, whole)[i] == s[at + i]);
                }
            }
        } else if c == '#' {
            let (name, end) = ident_at(s, at + 1);
            let v = seq!['#'] + name;
            assert forall|i: int| 1 <= i < v.len() implies in_class(
                CharClass::Ident,
                #[trigger] v[i],
            ) by {
                assert(v[i] == s[at + i]);
            }
        } else if c == '@' {
            if at + 1 < s.len() && is_ascii_alpha(s[at + 1]) {
                let (v, end) = ident_at(s, at + 1);
                assert(in_class(CharClass::Ident, s[at + 1]));
                assert(end > at + 1);
                assert(v[0] == s[at + 1]);
                assert forall|i: int| 0 <= i < v.len() implies in_class(
                    CharClass::Ident,
                    #[trigger] v[i],
                ) by {
                    assert(v[i] == s[at + 1 + i]);
                }
            }
        } else if c == '-' || c == '_' || is_ascii_alpha(c) {
            let (v, end) = ident_at(s, at);
            assert(in_class(CharClass::Ident, c));
            assert(end > at);
            assert(v[0] == c);
            assert forall|i: int| 0 <= i < v.len() implies in_class(
                CharClass::Ident,
                #[trigger] v[i],
            ) by {
                assert(v[i] == s[at + i]);
            }
        }
    }
}

/// Every token of a text is formed as the tokenizer forms its tokens.
pub proof fn lemma_tokens_are_formed(s: Seq<char>, pos: int)
    requires
        0 <= pos <= s.len(),
    ensures
        tokens_from(s, pos) matches Ok(ts) ==> forall|i: int|
            0 <= i < ts.len() ==> formed(#[trigger] ts[i]),
    decreases s.len() - pos,
{
    lemma_pull_is_formed(s, pos);
    lemma_pull_at(s, pos);
    let (pull, next) = pull_at(s, pos);
    if pull is Token {
        lemma_tokens_are_formed(s, next);
        if tokens_from(s, pos) is Ok {
            let ts = tokens_from(s, pos)->Ok_0;
            let rest = tokens_from(s, next)->Ok_0;
            assert(ts == seq![pull->Token_0] + rest);
            assert forall|i: int| 0 <= i < ts.len() implies formed(#[trigger] ts[i]) by {
                if i > 0 {
                    assert(ts[i] == rest[i - 1]);
                }
            }
        }
    }
}

/// The tokens of a text, written out and read again, are the same tokens,
/// as long as no string among them holds a double quote.
pub proof fn lemma_tokens_read_back(s: Seq<char>)
    requires
        tokens_from(s, 0) matches Ok(ts) && forall|i: int|
            0 <= i < ts.len() ==> ((#[trigger] ts[i]) matches CssTokenModel::StringToken(v)
                ==> forall|j: int| 0 <= j < v.len() ==> (#[trigger] v[j]) != '"'),
    ensures
        tokens_from(written(tokens_from(s, 0)->Ok_0), 0) == tokens_from(s, 0),
{
    let ts = tokens_from(s, 0)->Ok_0;
    lemma_tokens_are_formed(s, 0);
    assert forall|i: int| 0 <= i < ts.len() implies plain(#[trigger] ts[i]) by {
        assert(formed(ts[i]));
    }
    lemma_written_is_read_back(ts);
}

} // verus!
