//! The CSS tokenizer: one token per pull, chosen by the first character
//! after any whitespace.

use crate::error::Error;
use crate::text::{
    char_is_ascii_alpha, char_is_ascii_digit, chars_of, digit_value, is_ascii_alpha,
    is_ascii_digit, is_whitespace, lemma_span_end, scan, span_end, string_of, text_of, CharClass,
};
use vstd::prelude::*;

verus! {

/// A number as it was written: its decimal digits, those after the point
/// included, and how many of them stood after the point. It stands for the
/// digits read as one integer, divided by ten to the power `scale`.
#[derive(Debug, Clone, PartialEq, Eq)]
pub struct CssNumber {
    digits: Vec<u8>,
    scale: usize,
}

/// A number as a mathematical value.
pub struct CssNumberModel {
    pub digits: Seq<u8>,
    pub scale: nat,
}

impl View for CssNumber {
    type V = CssNumberModel;

    closed spec fn view(&self) -> CssNumberModel {
        CssNumberModel { digits: self.digits@, scale: self.scale as nat }
    }
}

/// The integer that a sequence of decimal digits spells.
pub open spec fn numerator_of(digits: Seq<u8>) -> nat
    decreases digits.len(),
{
    if digits.len() == 0 {
        0
    } else {
        10 * numerator_of(digits.drop_last()) + digits.last() as nat
    }
}

/// The integer that the first digits of a number spell is no more than the
/// integer that all of them spell.
pub proof fn lemma_numerator_grows(digits: Seq<u8>, n: int)
    requires
        0 <= n <= digits.len(),
    ensures
        numerator_of(digits.take(n)) <= numerator_of(digits),
    decreases digits.len() - n,
{
    if n < digits.len() {
        lemma_numerator_grows(digits, n + 1);
        assert(digits.take(n + 1).drop_last() =~= digits.take(n));
    } else {
        assert(digits.take(n) =~= digits);
    }
}

impl CssNumber {
    /// The digits are decimal digits, and no more of them stand after the
    /// point than there are.
    pub closed spec fn wf(&self) -> bool {
        &&& self.scale <= self.digits.len()
        &&& forall|i: int| 0 <= i < self.digits.len() ==> self.digits[i] < 10
    }

    /// The number with the digits `digits`, the last `scale` of them after
    /// the point; `None` where a digit is over 9 or `scale` is more than the
    /// number of digits.
    pub fn new(digits: Vec<u8>, scale: usize) -> (r: Option<CssNumber>)
        ensures
            match r {
                Some(n) => n.wf() && n@ == (CssNumberModel { digits: digits@, scale: scale as nat }),
                None => scale > digits.len() || exists|i: int|
                    0 <= i < digits.len() && digits[i] >= 10,
            },
    {
        if scale > digits.len() {
            return None;
        }
        let mut i: usize = 0;
        while i < digits.len()
            invariant
                i <= digits.len(),
                forall|j: int| 0 <= j < i ==> digits[j] < 10,
            decreases digits.len() - i,
        {
            if digits[i] >= 10 {
                return None;
            }
            i += 1;
        }
        Some(CssNumber { digits, scale })
    }

    /// The digits, those after the point included.
    pub fn digits(&self) -> (r: Vec<u8>)
        ensures
            r@ == self@.digits,
    {
        let mut r: Vec<u8> = Vec::new();
        let mut i: usize = 0;
        while i < self.digits.len()
            invariant
                i <= self.digits.len(),
                r@ == self.digits@.take(i as int),
            decreases self.digits.len() - i,
        {
            r.push(self.digits[i]);
            i += 1;
            assert(r@ =~= self.digits@.take(i as int));
        }
        assert(r@ =~= self.digits@);
        r
    }

    /// The digits read as one integer, or `None` where that integer does
    /// not fit 64 bits. The number is this integer divided by ten to the
    /// power `scale`.
    pub fn numerator(&self) -> (r: Option<u64>)
        ensures
            match r {
                Some(n) => n == numerator_of(self@.digits),
                None => numerator_of(self@.digits) > u64::MAX,
            },
    {
        let mut value: u64 = 0;
        let mut i: usize = 0;
        assert(self.digits@.take(0) =~= Seq::<u8>::empty());
        while i < self.digits.len()
            invariant
                i <= self.digits.len(),
                value == numerator_of(self.digits@.take(i as int)),
            decreases self.digits.len() - i,
        {
            let ghost next = self.digits@.take(i + 1);
            assert(next.drop_last() =~= self.digits@.take(i as int));
            assert(next.last() == self.digits[i as int]);
            let digit = self.digits[i];
            let grown = match value.checked_mul(10) {
                Some(tens) => tens.checked_add(digit as u64),
                None => None,
            };
            match grown {
                Some(v) => {
                    value = v;
                },
                None => {
                    proof {
                        lemma_numerator_grows(self.digits@, i + 1);
                    }
                    return None;
                },
            }
            i += 1;
        }
        assert(self.digits@.take(i as int) =~= self.digits@);
        Some(value)
    }

    /// How many of the digits stand after the point.
    pub fn scale(&self) -> (r: usize)
        ensures
            r == self@.scale,
    {
        self.scale
    }

    /// A copy of this number.
    pub fn duplicate(&self) -> (r: CssNumber)
        ensures
            r@ == self@,
            self.wf() ==> r.wf(),
    {
        CssNumber { digits: self.digits(), scale: self.scale }
    }
}

/// What the tokenizer hands out.
#[derive(Debug, Clone, PartialEq, Eq)]
pub enum CssToken {
    HashToken(String),
    Delim(char),
    Number(CssNumber),
    Colon,
    SemiColon,
    OpenParenthesis,
    CloseParenthesis,
    OpenCurly,
    CloseCurly,
    Ident(String),
    StringToken(String),
    AtKeyword(String),
}

/// A token as a mathematical value.
pub enum CssTokenModel {
    HashToken(Seq<char>),
    Delim(char),
    Number(CssNumberModel),
    Colon,
    SemiColon,
    OpenParenthesis,
    CloseParenthesis,
    OpenCurly,
    CloseCurly,
    Ident(Seq<char>),
    StringToken(Seq<char>),
    AtKeyword(Seq<char>),
}

impl View for CssToken {
    type V = CssTokenModel;

    open spec fn view(&self) -> CssTokenModel {
        match self {
            CssToken::HashToken(s) => CssTokenModel::HashToken(s@),
            CssToken::Delim(c) => CssTokenModel::Delim(*c),
            CssToken::Number(n) => CssTokenModel::Number(n@),
            CssToken::Colon => CssTokenModel::Colon,
            CssToken::SemiColon => CssTokenModel::SemiColon,
            CssToken::OpenParenthesis => CssTokenModel::OpenParenthesis,
            CssToken::CloseParenthesis => CssTokenModel::CloseParenthesis,
            CssToken::OpenCurly => CssTokenModel::OpenCurly,
            CssToken::CloseCurly => CssTokenModel::CloseCurly,
            CssToken::Ident(s) => CssTokenModel::Ident(s@),
            CssToken::StringToken(s) => CssTokenModel::StringToken(s@),
            CssToken::AtKeyword(s) => CssTokenModel::AtKeyword(s@),
        }
    }
}

impl DeepView for CssToken {
    type V = CssTokenModel;

    open spec fn deep_view(&self) -> CssTokenModel {
        self@
    }
}

impl CssToken {
    /// A copy of this token.
    pub fn duplicate(&self) -> (r: CssToken)
        ensures
            r@ == self@,
    {
        match self {
            CssToken::HashToken(s) => CssToken::HashToken(s.clone()),
            CssToken::Delim(c) => CssToken::Delim(*c),
            CssToken::Number(n) => CssToken::Number(n.duplicate()),
            CssToken::Colon => CssToken::Colon,
            CssToken::SemiColon => CssToken::SemiColon,
            CssToken::OpenParenthesis => CssToken::OpenParenthesis,
            CssToken::CloseParenthesis => CssToken::CloseParenthesis,
            CssToken::OpenCurly => CssToken::OpenCurly,
            CssToken::CloseCurly => CssToken::CloseCurly,
            CssToken::Ident(s) => CssToken::Ident(s.clone()),
            CssToken::StringToken(s) => CssToken::StringToken(s.clone()),
            CssToken::AtKeyword(s) => CssToken::AtKeyword(s.clone()),
        }
    }
}

/// The values of the digits in `s`.
pub open spec fn digit_values(s: Seq<char>) -> Seq<u8> {
    Seq::new(s.len(), |i: int| ((s[i] as u8) - ('0' as u8)) as u8)
}

/// The string that the quote at `start` opens: its characters, and the
/// index of the quote that closes it, or the length of `s` where none does.
pub open spec fn string_at(s: Seq<char>, start: int) -> (Seq<char>, int) {
    let end = span_end(s, start + 1, CharClass::Not(s[start]));
    (s.subrange(start + 1, end), end)
}

/// The number that starts at `start`: digits, then at most one point with
/// the digits after it. The index is that of the first character after
/// the number.
pub open spec fn numeric_at(s: Seq<char>, start: int) -> (CssNumberModel, int) {
    let whole = span_end(s, start, CharClass::Digit);
    if whole < s.len() && s[whole] == '.' {
        let end = span_end(s, whole + 1, CharClass::Digit);
        (
            CssNumberModel {
                digits: digit_values(s.subrange(start, whole) + s.subrange(whole + 1, end)),
                scale: (end - whole - 1) as nat,
            },
            end,
        )
    } else {
        (CssNumberModel { digits: digit_values(s.subrange(start, whole)), scale: 0 }, whole)
    }
}

/// The identifier that starts at `start`, and the index of the first
/// character after it.
pub open spec fn ident_at(s: Seq<char>, start: int) -> (Seq<char>, int) {
    let end = span_end(s, start, CharClass::Ident);
    (s.subrange(start, end), end)
}

/// What one pull finds.
pub enum CssPull {
    /// A token.
    Token(CssTokenModel),
    /// The end of the input.
    End,
    /// A character that starts no token.
    Unsupported(char),
}

/// The token that starts at `at`, where `at` is within `s` and holds no
/// whitespace, and the position after it.
pub open spec fn token_at(s: Seq<char>, at: int) -> (CssPull, int) {
    let c = s[at];
    if c == '(' {
        (CssPull::Token(CssTokenModel::OpenParenthesis), at + 1)
    } else if c == ')' {
        (CssPull::Token(CssTokenModel::CloseParenthesis), at + 1)
    } else if c == ',' || c == '.' {
        (CssPull::Token(CssTokenModel::Delim(c)), at + 1)
    } else if c == ':' {
        (CssPull::Token(CssTokenModel::Colon), at + 1)
    } else if c == ';' {
        (CssPull::Token(CssTokenModel::SemiColon), at + 1)
    } else if c == '{' {
        (CssPull::Token(CssTokenModel::OpenCurly), at + 1)
    } else if c == '}' {
        (CssPull::Token(CssTokenModel::CloseCurly), at + 1)
    } else if c == '"' || c == '\'' {
        let (text, end) = string_at(s, at);
        (
            CssPull::Token(CssTokenModel::StringToken(text)),
            if end < s.len() {
                end + 1
            } else {
                end
            },
        )
    } else if is_ascii_digit(c) {
        (CssPull::Token(CssTokenModel::Number(numeric_at(s, at).0)), numeric_at(s, at).1)
    } else if c == '#' {
        let (name, end) = ident_at(s, at + 1);
        (CssPull::Token(CssTokenModel::HashToken(seq!['#'] + name)), end)
    } else if c == '@' {
        if at + 1 < s.len() && is_ascii_alpha(s[at + 1]) {
            (CssPull::Token(CssTokenModel::AtKeyword(ident_at(s, at + 1).0)), ident_at(s, at + 1).1)
        } else {
            (CssPull::Token(CssTokenModel::Delim('@')), at + 1)
        }
    } else if c == '-' || c == '_' || is_ascii_alpha(c) {
        (CssPull::Token(CssTokenModel::Ident(ident_at(s, at).0)), ident_at(s, at).1)
    } else {
        (CssPull::Unsupported(c), at + 1)
    }
}

/// One pull from position `pos`: whitespace is skipped, then comes the
/// token that starts there, the end of the input, or a character that
/// starts no token, which is skipped too.
pub open spec fn pull_at(s: Seq<char>, pos: int) -> (CssPull, int) {
    let at = span_end(s, pos, CharClass::Whitespace);
    if at < s.len() {
        token_at(s, at)
    } else {
        (CssPull::End, at)
    }
}

/// A pull that finds a token or an unsupported character moves on by at
/// least one character and stays within the input.
pub proof fn lemma_pull_at(s: Seq<char>, pos: int)
    requires
        0 <= pos <= s.len(),
    ensures
        pos <= pull_at(s, pos).1 <= s.len(),
        !(pull_at(s, pos).0 is End) ==> pos < pull_at(s, pos).1,
{
    lemma_span_end(s, pos, CharClass::Whitespace);
    let at = span_end(s, pos, CharClass::Whitespace);
    if at < s.len() {
        lemma_span_end(s, at + 1, CharClass::Not(s[at]));
        lemma_span_end(s, at, CharClass::Digit);
        let whole = span_end(s, at, CharClass::Digit);
        if whole < s.len() {
            lemma_span_end(s, whole + 1, CharClass::Digit);
        }
        lemma_span_end(s, at + 1, CharClass::Ident);
        lemma_span_end(s, at, CharClass::Ident);
    }
}

/// Whitespace in front of a token does not count: a pull from a position
/// that holds whitespace finds what a pull from the next position finds.
pub proof fn lemma_whitespace_is_skipped(s: Seq<char>, pos: int)
    requires
        0 <= pos < s.len(),
        is_whitespace(s[pos]),
    ensures
        pull_at(s, pos) == pull_at(s, pos + 1),
        tokens_from(s, pos) == tokens_from(s, pos + 1),
{
    lemma_pull_at(s, pos);
    lemma_pull_at(s, pos + 1);
}

/// All the tokens from position `pos` to the end of the input, or the first
/// character that starts no token.
pub open spec fn tokens_from(s: Seq<char>, pos: int) -> Result<Seq<CssTokenModel>, char>
    decreases s.len() - pos,
{
    let (pull, next) = pull_at(s, pos);
    match pull {
        CssPull::End => Ok(Seq::empty()),
        CssPull::Unsupported(c) => Err(c),
        CssPull::Token(t) => if pos < next <= s.len() {
            match tokens_from(s, next) {
                Ok(rest) => Ok(seq![t] + rest),
                Err(c) => Err(c),
            }
        } else {
            Ok(seq![t])
        },
    }
}

/// Where the pulls from position `pos` on come to a halt: after the end of
/// the input was found, or after the first character that starts no token.
pub open spec fn halt_from(s: Seq<char>, pos: int) -> int
    decreases s.len() - pos,
{
    let (pull, next) = pull_at(s, pos);
    if pull is Token && pos < next <= s.len() {
        halt_from(s, next)
    } else {
        next
    }
}

/// The message of the error for a character that starts no token.
pub open spec fn unsupported_message(c: char) -> Seq<char> {
    "char "@.push(c) + " is not supported yet"@
}

/// `r` is what a pull hands out for the outcome `p`.
pub open spec fn handed(r: Result<Option<CssToken>, Error>, p: CssPull) -> bool {
    match p {
        CssPull::Token(t) => r matches Ok(Some(token)) && token@ == t,
        CssPull::End => r matches Ok(None),
        CssPull::Unsupported(c) => r matches Err(Error::UnexpectedInput(m)) && m@
            == unsupported_message(c),
    }
}

/// The tokenizer as a mathematical value: the input and the position in it.
pub struct CssTokenizerModel {
    pub input: Seq<char>,
    pub pos: nat,
}

/// The tokenizer: the input and the position in it.
#[derive(Debug, Clone, PartialEq)]
pub struct CssTokenizer {
    pos: usize,
    input: Vec<char>,
}

impl View for CssTokenizer {
    type V = CssTokenizerModel;

    closed spec fn view(&self) -> CssTokenizerModel {
        CssTokenizerModel { input: self.input@, pos: self.pos as nat }
    }
}

impl CssTokenizer {
    /// The position is within the input.
    pub open spec fn wf(&self) -> bool {
        self@.pos <= self@.input.len()
    }

    /// A tokenizer at the start of `css`.
    pub fn new(css: String) -> (r: Self)
        ensures
            r.wf(),
            r@ == (CssTokenizerModel { input: css@, pos: 0 }),
    {
        Self { pos: 0, input: chars_of(css.as_str()) }
    }

    /// Reads the string that the quote at `start` opens.
    fn consume_string_at(input: &Vec<char>, start: usize) -> (r: (String, usize))
        requires
            start < input.len(),
        ensures
            r.0@ == string_at(input@, start as int).0,
            r.1 == string_at(input@, start as int).1,
            start < r.1 <= input.len(),
    {
        let ending = input[start];
        let end = scan(input, start + 1, CharClass::Not(ending));
        (string_of(input, start + 1, end), end)
    }

    /// Reads the number that starts at `start`.
    fn consume_numeric_at(input: &Vec<char>, start: usize) -> (r: (CssNumber, usize))
        requires
            start <= input.len(),
        ensures
            r.0.wf(),
            r.0@ == numeric_at(input@, start as int).0,
            r.1 == numeric_at(input@, start as int).1,
            start <= r.1 <= input.len(),
    {
        let whole = scan(input, start, CharClass::Digit);
        let mut digits: Vec<u8> = Vec::new();
        proof {
            lemma_span_end(input@, start as int, CharClass::Digit);
        }
        Self::push_digits(&mut digits, input, start, whole);
        if whole < input.len() && input[whole] == '.' {
            let end = scan(input, whole + 1, CharClass::Digit);
            proof {
                lemma_span_end(input@, whole + 1, CharClass::Digit);
            }
            Self::push_digits(&mut digits, input, whole + 1, end);
            assert(digits@ =~= digit_values(
                input@.subrange(start as int, whole as int) + input@.subrange(
                    whole + 1,
                    end as int,
                ),
            ));
            (CssNumber { digits, scale: end - whole - 1 }, end)
        } else {
            assert(digits@ =~= digit_values(input@.subrange(start as int, whole as int)));
            (CssNumber { digits, scale: 0 }, whole)
        }
    }

    /// Appends the values of the digits `input[from..to]` to `digits`.
    fn push_digits(digits: &mut Vec<u8>, input: &Vec<char>, from: usize, to: usize)
        requires
            from <= to <= input.len(),
            forall|i: int| from <= i < to ==> is_ascii_digit(#[trigger] input[i]),
        ensures
            final(digits)@ == old(digits)@ + digit_values(input@.subrange(from as int, to as int)),
            (forall|i: int| 0 <= i < old(digits).len() ==> old(digits)[i] < 10) ==> (forall|
                i: int,
            |
                0 <= i < final(digits).len() ==> final(digits)[i] < 10),
    {
        let mut i: usize = from;
        while i < to
            invariant
                from <= i <= to <= input.len(),
                forall|j: int| from <= j < to ==> is_ascii_digit(#[trigger] input[j]),
                digits@ == old(digits)@ + digit_values(input@.subrange(from as int, i as int)),
            decreases to - i,
        {
            digits.push(digit_value(input[i]));
            i += 1;
            assert(digits@ =~= old(digits)@ + digit_values(
                input@.subrange(from as int, i as int),
            ));
        }
    }

    /// Reads the identifier that starts at `start`.
    fn consume_ident_at(input: &Vec<char>, start: usize) -> (r: (String, usize))
        requires
            start <= input.len(),
        ensures
            r.0@ == ident_at(input@, start as int).0,
            r.1 == ident_at(input@, start as int).1,
            start <= r.1 <= input.len(),
    {
        let end = scan(input, start, CharClass::Ident);
        (string_of(input, start, end), end)
    }

    /// Pulls the next token. `Ok(None)` says that the input is used up; an
    /// error names a character that starts no token, which is skipped.
    pub fn next(&mut self) -> (r: Result<Option<CssToken>, Error>)
        requires
            old(self).wf(),
        ensures
            final(self).wf(),
            final(self)@.input == old(self)@.input,
            final(self)@.pos == pull_at(old(self)@.input, old(self)@.pos as int).1,
            handed(r, pull_at(old(self)@.input, old(self)@.pos as int).0),
    {
        proof {
            lemma_pull_at(self@.input, self@.pos as int);
        }
        let at = scan(&self.input, self.pos, CharClass::Whitespace);
        if at >= self.input.len() {
            self.pos = at;
            return Ok(None);
        }
        let c = self.input[at];
        self.pos = at + 1;
        let token = if c == '(' {
            CssToken::OpenParenthesis
        } else if c == ')' {
            CssToken::CloseParenthesis
        } else if c == ',' || c == '.' {
            CssToken::Delim(c)
        } else if c == ':' {
            CssToken::Colon
        } else if c == ';' {
            CssToken::SemiColon
        } else if c == '{' {
            CssToken::OpenCurly
        } else if c == '}' {
            CssToken::CloseCurly
        } else if c == '"' || c == '\'' {
            let (text, end) = Self::consume_string_at(&self.input, at);
            self.pos = if end < self.input.len() {
                end + 1
            } else {
                end
            };
            CssToken::StringToken(text)
        } else if char_is_ascii_digit(c) {
            let (number, end) = Self::consume_numeric_at(&self.input, at);
            self.pos = end;
            CssToken::Number(number)
        } else if c == '#' {
            let (name, end) = Self::consume_ident_at(&self.input, at + 1);
            self.pos = end;
            let mut text = String::new();
            text.push('#');
            text.append(name.as_str());
            assert(text@ =~= seq!['#'] + name@);
            CssToken::HashToken(text)
        } else if c == '@' {
            if at + 1 < self.input.len() && char_is_ascii_alpha(self.input[at + 1]) {
                let (name, end) = Self::consume_ident_at(&self.input, at + 1);
                self.pos = end;
                CssToken::AtKeyword(name)
            } else {
                CssToken::Delim('@')
            }
        } else if c == '-' || c == '_' || char_is_ascii_alpha(c) {
            let (name, end) = Self::consume_ident_at(&self.input, at);
            self.pos = end;
            CssToken::Ident(name)
        } else {
            let mut message = text_of("char ");
            message.push(c);
            message.append(" is not supported yet");
            return Err(Error::UnexpectedInput(message));
        };
        Ok(Some(token))
    }
}

} // verus!
