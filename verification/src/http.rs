//! HTTP as far as fetching a document needs it: the text of a request, and
//! a response taken apart into status line, headers and body.

use crate::error::Error;
use crate::text::{
    char_is_ascii_digit, char_is_whitespace, chars_of, digit_value, is_ascii_digit, is_whitespace,
    scan, span_end, string_of, text_of, CharClass,
};
use vstd::prelude::*;

verus! {

/// `s` with every carriage return that a line feed follows taken out.
pub open spec fn without_cr(s: Seq<char>) -> Seq<char>
    decreases s.len(),
{
    if s.len() == 0 {
        s
    } else if s.len() >= 2 && s[0] == '\r' && s[1] == '\n' {
        seq!['\n'] + without_cr(s.skip(2))
    } else {
        seq![s[0]] + without_cr(s.skip(1))
    }
}

/// The length of `s` without the whitespace at its end.
pub open spec fn trimmed_len(s: Seq<char>) -> int
    decreases s.len(),
{
    if s.len() > 0 && is_whitespace(s.last()) {
        trimmed_len(s.drop_last())
    } else {
        s.len() as int
    }
}

/// `s` without the whitespace at its start and at its end.
pub open spec fn trimmed(s: Seq<char>) -> Seq<char> {
    let start = span_end(s, 0, CharClass::Whitespace);
    if start < trimmed_len(s) {
        s.subrange(start, trimmed_len(s))
    } else {
        Seq::empty()
    }
}

/// The index of the first of two line feeds in a row, from `from` on; the
/// length of `s` where there are none.
pub open spec fn blank_line(s: Seq<char>, from: int) -> int
    decreases s.len() - from,
{
    if 0 <= from && from + 1 < s.len() {
        if s[from] == '\n' && s[from + 1] == '\n' {
            from
        } else {
            blank_line(s, from + 1)
        }
    } else {
        s.len() as int
    }
}

/// Where the piece number `n` starts when `s` is split at every `sep`;
/// `None` where there are not that many pieces.
pub open spec fn piece_start(s: Seq<char>, sep: char, n: nat) -> Option<int>
    decreases n,
{
    if n == 0 {
        Some(0)
    } else {
        match piece_start(s, sep, (n - 1) as nat) {
            Some(start) => {
                let end = span_end(s, start, CharClass::Not(sep));
                if end < s.len() {
                    Some(end + 1)
                } else {
                    None
                }
            },
            None => None,
        }
    }
}

/// The piece number `n` when `s` is split at every `sep`.
pub open spec fn piece(s: Seq<char>, sep: char, n: nat) -> Option<Seq<char>> {
    match piece_start(s, sep, n) {
        Some(start) => Some(s.subrange(start, span_end(s, start, CharClass::Not(sep)))),
        None => None,
    }
}

/// The number that the decimal digits `s` spell.
pub open spec fn decimal(s: Seq<char>) -> nat
    decreases s.len(),
{
    if s.len() == 0 {
        0
    } else {
        10 * decimal(s.drop_last()) + ((s.last() as u8) - ('0' as u8)) as nat
    }
}

/// Every character of `s` is a decimal digit.
pub open spec fn all_digits(s: Seq<char>) -> bool {
    forall|i: int| 0 <= i < s.len() ==> is_ascii_digit(#[trigger] s[i])
}

/// The status code that `s` spells: decimal digits, with or without a `+`
/// before them, for a number that fits 32 bits. Anything else is read as 404.
pub open spec fn status_code_of(s: Seq<char>) -> u32 {
    let digits = if s.len() > 0 && s[0] == '+' {
        s.skip(1)
    } else {
        s
    };
    if digits.len() > 0 && all_digits(digits) && decimal(digits) <= u32::MAX {
        decimal(digits) as u32
    } else {
        404
    }
}

/// The header that a line spells: the name before the first `:` and the
/// value after it, both without the whitespace around them. `None` for a
/// line without a `:`.
pub open spec fn header_of(line: Seq<char>) -> Option<(Seq<char>, Seq<char>)> {
    let colon = span_end(line, 0, CharClass::Not(':'));
    if colon < line.len() {
        Some(
            (
                trimmed(line.subrange(0, colon)),
                trimmed(line.subrange(colon + 1, line.len() as int)),
            ),
        )
    } else {
        None
    }
}

/// The headers that the lines of `s` from `start` on spell, or the first
/// line among them that spells none.
pub open spec fn headers_from(s: Seq<char>, start: int) -> Result<
    Seq<(Seq<char>, Seq<char>)>,
    Seq<char>,
>
    decreases s.len() - start,
{
    let end = span_end(s, start, CharClass::Not('\n'));
    let line = s.subrange(start, end);
    match header_of(line) {
        None => Err(line),
        Some(h) => if start <= end < s.len() {
            match headers_from(s, end + 1) {
                Ok(rest) => Ok(seq![h] + rest),
                Err(bad) => Err(bad),
            }
        } else {
            Ok(seq![h])
        },
    }
}

/// A response as a mathematical value.
pub struct ResponseModel {
    pub version: Seq<char>,
    pub status_code: u32,
    pub reason: Seq<char>,
    pub headers: Seq<(Seq<char>, Seq<char>)>,
    pub body: Seq<char>,
}

/// The piece number `n` of the status line, or nothing where the line has
/// fewer pieces.
pub open spec fn status_piece(line: Seq<char>, n: nat) -> Seq<char> {
    match piece(line, ' ', n) {
        Some(p) => p,
        None => Seq::empty(),
    }
}

/// The text of a response as the reader sees it: without the whitespace
/// before it, and with line feeds alone at the ends of its lines.
pub open spec fn unfolded(raw: Seq<char>) -> Seq<char> {
    without_cr(raw.skip(span_end(raw, 0, CharClass::Whitespace)))
}

/// The response that the text `raw` spells, or the message of the error.
///
/// The first line is the status line: version, status code and reason,
/// with one space between them. The lines after it, up to the first empty
/// line, are the headers, and what follows that empty line is the body.
/// Where there is no empty line there are no headers, and everything
/// after the status line is the body. A text of one line is no response,
/// nor is one with a header line that has no `:`.
pub open spec fn response_of(raw: Seq<char>) -> Result<ResponseModel, Seq<char>> {
    let text = unfolded(raw);
    let end = span_end(text, 0, CharClass::Not('\n'));
    if end >= text.len() {
        Err("invalid http response: "@ + text)
    } else {
        let line = text.subrange(0, end);
        let rest = text.skip(end + 1);
        let blank = blank_line(rest, 0);
        let headers = if blank < rest.len() {
            headers_from(rest.subrange(0, blank), 0)
        } else {
            Ok(Seq::empty())
        };
        match headers {
            Err(bad) => Err("invalid http header: "@ + bad),
            Ok(headers) => Ok(
                ResponseModel {
                    version: status_piece(line, 0),
                    status_code: status_code_of(status_piece(line, 1)),
                    reason: status_piece(line, 2),
                    headers,
                    body: if blank < rest.len() {
                        rest.skip(blank + 2)
                    } else {
                        rest
                    },
                },
            ),
        }
    }
}

/// The value of the first header named `name`.
pub open spec fn value_of(headers: Seq<(Seq<char>, Seq<char>)>, name: Seq<char>) -> Option<
    Seq<char>,
>
    decreases headers.len(),
{
    if headers.len() == 0 {
        None
    } else if headers[0].0 == name {
        Some(headers[0].1)
    } else {
        value_of(headers.skip(1), name)
    }
}

/// The text of the request for the document at `path` on `host`.
pub open spec fn request_of(host: Seq<char>, path: Seq<char>) -> Seq<char> {
    "GET /"@ + path + " HTTP/1.1\n"@ + "Host: "@ + host + "\n"@ + "Accept: text/html\n"@
        + "Connection: close\n"@ + "\r\n"@
}

/// The characters `v[from..to]`.
fn slice_of(v: &Vec<char>, from: usize, to: usize) -> (r: Vec<char>)
    requires
        from <= to <= v.len(),
    ensures
        r@ == v@.subrange(from as int, to as int),
{
    let mut r: Vec<char> = Vec::new();
    let mut i: usize = from;
    while i < to
        invariant
            from <= i <= to <= v.len(),
            r@ == v@.subrange(from as int, i as int),
        decreases to - i,
    {
        r.push(v[i]);
        i += 1;
        assert(r@ =~= v@.subrange(from as int, i as int));
    }
    r
}

/// `v` with line feeds alone at the ends of its lines.
fn remove_cr(v: &Vec<char>) -> (r: Vec<char>)
    ensures
        r@ == without_cr(v@),
{
    let mut r: Vec<char> = Vec::new();
    let mut i: usize = 0;
    assert(v@.skip(0) =~= v@);
    assert(r@ + without_cr(v@) =~= without_cr(v@));
    while i < v.len()
        invariant
            i <= v.len(),
            r@ + without_cr(v@.skip(i as int)) == without_cr(v@),
        decreases v.len() - i,
    {
        let ghost rest = v@.skip(i as int);
        let ghost done = r@;
        if v[i] == '\r' && i + 1 < v.len() && v[i + 1] == '\n' {
            assert(rest[0] == '\r' && rest[1] == '\n');
            assert(rest.skip(2) =~= v@.skip(i + 2));
            r.push('\n');
            assert(done + (seq!['\n'] + without_cr(rest.skip(2))) =~= r@ + without_cr(
                rest.skip(2),
            ));
            i += 2;
        } else {
            assert(rest[0] == v[i as int]);
            assert(rest.len() >= 2 ==> rest[1] == v[i + 1]);
            assert(rest.skip(1) =~= v@.skip(i + 1));
            r.push(v[i]);
            assert(done + (seq![rest[0]] + without_cr(rest.skip(1))) =~= r@ + without_cr(
                rest.skip(1),
            ));
            i += 1;
        }
    }
    assert(r@ + without_cr(v@.skip(i as int)) =~= r@);
    r
}

/// `v` without the whitespace around it.
fn trim(v: &Vec<char>) -> (r: String)
    ensures
        r@ == trimmed(v@),
{
    let start = scan(v, 0, CharClass::Whitespace);
    let mut end: usize = v.len();
    assert(v@.take(end as int) =~= v@);
    while end > 0 && char_is_whitespace(v[end - 1])
        invariant
            end <= v.len(),
            trimmed_len(v@.take(end as int)) == trimmed_len(v@),
        decreases end,
    {
        assert(v@.take(end as int).drop_last() =~= v@.take(end - 1));
        end -= 1;
    }
    assert(v@.take(end as int).len() == end);
    assert(end > 0 ==> v@.take(end as int).last() == v[end - 1]);
    if start < end {
        string_of(v, start, end)
    } else {
        String::new()
    }
}

/// The index of the first empty line of `v`, or its length.
fn find_blank_line(v: &Vec<char>) -> (r: usize)
    ensures
        r == blank_line(v@, 0),
        r <= v.len(),
        r < v.len() ==> r + 2 <= v.len(),
{
    let mut i: usize = 0;
    while i < v.len() && i + 1 < v.len()
        invariant
            i <= v.len(),
            blank_line(v@, i as int) == blank_line(v@, 0),
        decreases v.len() - i,
    {
        if v[i] == '\n' && v[i + 1] == '\n' {
            return i;
        }
        i += 1;
    }
    v.len()
}

/// The piece number `n` of `v` split at every `sep`.
fn piece_of(v: &Vec<char>, sep: char, n: usize) -> (r: Option<Vec<char>>)
    ensures
        match piece(v@, sep, n as nat) {
            Some(p) => r matches Some(x) && x@ == p,
            None => r is None,
        },
{
    let mut start: usize = 0;
    let mut k: usize = 0;
    while k < n
        invariant
            k <= n,
            start <= v.len(),
            piece_start(v@, sep, k as nat) == Some(start as int),
        decreases n - k,
    {
        let end = scan(v, start, CharClass::Not(sep));
        if end >= v.len() {
            proof {
                lemma_no_piece(v@, sep, k as nat, n as nat);
            }
            return None;
        }
        start = end + 1;
        k += 1;
    }
    let end = scan(v, start, CharClass::Not(sep));
    Some(slice_of(v, start, end))
}

/// After the last piece there are no more.
proof fn lemma_no_piece(s: Seq<char>, sep: char, k: nat, n: nat)
    requires
        k < n,
        piece_start(s, sep, k) matches Some(start) && span_end(s, start, CharClass::Not(sep))
            >= s.len(),
    ensures
        piece_start(s, sep, n) is None,
    decreases n,
{
    if n > k + 1 {
        lemma_no_piece(s, sep, k, (n - 1) as nat);
    }
}

/// The status code that `v` spells, or 404.
fn parse_status_code(v: &Vec<char>) -> (r: u32)
    ensures
        r == status_code_of(v@),
{
    let from: usize = if v.len() > 0 && v[0] == '+' {
        1
    } else {
        0
    };
    let ghost digits = if v@.len() > 0 && v@[0] == '+' {
        v@.skip(1)
    } else {
        v@
    };
    assert(digits =~= v@.skip(from as int));
    if from >= v.len() {
        return 404;
    }
    let mut value: u64 = 0;
    let mut i: usize = from;
    assert(digits.take(0) =~= Seq::<char>::empty());
    while i < v.len()
        invariant
            from <= i <= v.len(),
            digits == v@.skip(from as int),
            digits == if v@.len() > 0 && v@[0] == '+' {
                v@.skip(1)
            } else {
                v@
            },
            all_digits(digits.take(i - from)),
            value == decimal(digits.take(i - from)),
            value <= u32::MAX,
        decreases v.len() - i,
    {
        let c = v[i];
        assert(digits[i - from] == c);
        if !char_is_ascii_digit(c) {
            assert(!all_digits(digits));
            return 404;
        }
        let ghost next = digits.take(i - from + 1);
        assert(next.drop_last() =~= digits.take(i - from));
        assert(next.last() == c);
        value = value * 10 + digit_value(c) as u64;
        assert(value == decimal(next));
        if value > 0xffff_ffff {
            proof {
                lemma_decimal_grows(digits, i - from + 1);
            }
            return 404;
        }
        assert forall|j: int| 0 <= j < next.len() implies is_ascii_digit(#[trigger] next[j]) by {
            if j < next.len() - 1 {
                assert(digits.take(i - from)[j] == next[j]);
            }
        }
        i += 1;
    }
    assert(digits.take(i - from) =~= digits);
    value as u32
}

/// The number that a prefix of `s` spells is no more than the number that
/// `s` spells.
proof fn lemma_decimal_grows(s: Seq<char>, n: int)
    requires
        0 <= n <= s.len(),
    ensures
        decimal(s.take(n)) <= decimal(s),
    decreases s.len() - n,
{
    if n < s.len() {
        lemma_decimal_grows(s, n + 1);
        assert(s.take(n + 1).drop_last() =~= s.take(n));
    } else {
        assert(s.take(n) =~= s);
    }
}

/// One header of a response: a name and a value.
#[derive(Debug, Clone)]
pub struct Header {
    name: String,
    value: String,
}

impl View for Header {
    type V = (Seq<char>, Seq<char>);

    closed spec fn view(&self) -> (Seq<char>, Seq<char>) {
        (self.name@, self.value@)
    }
}

impl DeepView for Header {
    type V = (Seq<char>, Seq<char>);

    open spec fn deep_view(&self) -> (Seq<char>, Seq<char>) {
        self@
    }
}

impl Header {
    fn new(name: String, value: String) -> (r: Self)
        ensures
            r@ == (name@, value@),
    {
        Self { name, value }
    }

    pub fn name(&self) -> (r: String)
        ensures
            r@ == self@.0,
    {
        self.name.clone()
    }

    pub fn value(&self) -> (r: String)
        ensures
            r@ == self@.1,
    {
        self.value.clone()
    }

    /// A copy of this header.
    pub fn duplicate(&self) -> (r: Self)
        ensures
            r@ == self@,
    {
        Self { name: self.name.clone(), value: self.value.clone() }
    }
}

/// The header that `line` spells.
fn parse_header(line: &Vec<char>) -> (r: Option<Header>)
    ensures
        match header_of(line@) {
            Some(h) => r matches Some(x) && x@ == h,
            None => r is None,
        },
{
    let colon = scan(line, 0, CharClass::Not(':'));
    if colon < line.len() {
        let name = trim(&slice_of(line, 0, colon));
        let value = trim(&slice_of(line, colon + 1, line.len()));
        Some(Header::new(name, value))
    } else {
        None
    }
}

/// The headers that the lines of `v` spell, or the first line that spells
/// none.
fn parse_headers(v: &Vec<char>) -> (r: Result<Vec<Header>, Vec<char>>)
    ensures
        match headers_from(v@, 0) {
            Ok(headers) => r matches Ok(x) && x.deep_view() == headers,
            Err(bad) => r matches Err(x) && x@ == bad,
        },
{
    let mut headers: Vec<Header> = Vec::new();
    let mut start: usize = 0;
    let ghost goal = headers_from(v@, 0);
    assert(headers.deep_view() =~= Seq::empty());
    loop
        invariant
            start <= v.len(),
            goal == headers_from(v@, 0),
            match headers_from(v@, start as int) {
                Ok(rest) => goal == Ok::<Seq<(Seq<char>, Seq<char>)>, Seq<char>>(
                    headers.deep_view() + rest,
                ),
                Err(bad) => goal == Err::<Seq<(Seq<char>, Seq<char>)>, Seq<char>>(bad),
            },
        decreases v.len() - start,
    {
        let ghost done = headers.deep_view();
        let end = scan(v, start, CharClass::Not('\n'));
        let line = slice_of(v, start, end);
        match parse_header(&line) {
            None => {
                return Err(line);
            },
            Some(h) => {
                proof {
                    if end < v.len() {
                        let rest = headers_from(v@, end + 1);
                        if rest is Ok {
                            assert(done + (seq![h@] + rest->Ok_0) =~= done.push(h@) + rest->Ok_0);
                        }
                    } else {
                        assert(done + seq![h@] =~= done.push(h@));
                    }
                }
                headers.push(h);
                assert(headers.deep_view() =~= done.push(h@));
                if end < v.len() {
                    start = end + 1;
                } else {
                    return Ok(headers);
                }
            },
        }
    }
}

/// The string that holds `prefix` and then the characters of `v`.
fn prefixed(prefix: &str, v: &Vec<char>) -> (r: String)
    ensures
        r@ == prefix@ + v@,
{
    let mut r = text_of(prefix);
    let tail = string_of(v, 0, v.len());
    assert(v@.subrange(0, v.len() as int) =~= v@);
    r.append(tail.as_str());
    r
}

/// A response: the three parts of its status line, its headers in their
/// order, and its body.
#[derive(Debug, Clone)]
pub struct HttpResponse {
    version: String,
    status_code: u32,
    reason: String,
    headers: Vec<Header>,
    body: String,
}

impl View for HttpResponse {
    type V = ResponseModel;

    closed spec fn view(&self) -> ResponseModel {
        ResponseModel {
            version: self.version@,
            status_code: self.status_code,
            reason: self.reason@,
            headers: self.headers.deep_view(),
            body: self.body@,
        }
    }
}

impl HttpResponse {
    /// Reads the text of a response.
    pub fn new(raw_response: String) -> (r: Result<Self, Error>)
        ensures
            match response_of(raw_response@) {
                Ok(response) => r matches Ok(x) && x@ == response,
                Err(message) => r matches Err(Error::Network(m)) && m@ == message,
            },
    {
        let raw = chars_of(raw_response.as_str());
        let first = scan(&raw, 0, CharClass::Whitespace);
        let text = remove_cr(&slice_of(&raw, first, raw.len()));
        assert(raw@.subrange(first as int, raw.len() as int) =~= raw@.skip(first as int));
        let end = scan(&text, 0, CharClass::Not('\n'));
        if end >= text.len() {
            return Err(Error::Network(prefixed("invalid http response: ", &text)));
        }
        let line = slice_of(&text, 0, end);
        let rest = slice_of(&text, end + 1, text.len());
        assert(rest@ =~= text@.skip(end + 1));
        let blank = find_blank_line(&rest);
        let (headers, body) = if blank < rest.len() {
            let body = string_of(&rest, blank + 2, rest.len());
            assert(rest@.subrange(blank + 2, rest.len() as int) =~= rest@.skip(blank + 2));
            match parse_headers(&slice_of(&rest, 0, blank)) {
                Ok(headers) => (headers, body),
                Err(bad) => {
                    return Err(Error::Network(prefixed("invalid http header: ", &bad)));
                },
            }
        } else {
            let none: Vec<Header> = Vec::new();
            assert(none.deep_view() =~= Seq::empty());
            assert(rest@.subrange(0, rest.len() as int) =~= rest@);
            (none, string_of(&rest, 0, rest.len()))
        };
        let version = Self::status_piece_of(&line, 0);
        let code = Self::status_piece_of(&line, 1);
        let reason = Self::status_piece_of(&line, 2);
        Ok(
            HttpResponse {
                version: string_of(&version, 0, version.len()),
                status_code: parse_status_code(&code),
                reason: string_of(&reason, 0, reason.len()),
                headers,
                body,
            },
        )
    }

    /// The piece number `n` of the status line, empty where there is none.
    fn status_piece_of(line: &Vec<char>, n: usize) -> (r: Vec<char>)
        ensures
            r@ == status_piece(line@, n as nat),
            r@.subrange(0, r.len() as int) == r@,
    {
        let r = match piece_of(line, ' ', n) {
            Some(p) => p,
            None => Vec::new(),
        };
        assert(r@.subrange(0, r.len() as int) =~= r@);
        r
    }

    pub fn version(&self) -> (r: String)
        ensures
            r@ == self@.version,
    {
        self.version.clone()
    }

    pub fn status_code(&self) -> (r: u32)
        ensures
            r == self@.status_code,
    {
        self.status_code
    }

    pub fn reason(&self) -> (r: String)
        ensures
            r@ == self@.reason,
    {
        self.reason.clone()
    }

    pub fn headers(&self) -> (r: Vec<Header>)
        ensures
            r.deep_view() == self@.headers,
    {
        let mut r: Vec<Header> = Vec::new();
        let mut i: usize = 0;
        while i < self.headers.len()
            invariant
                i <= self.headers.len(),
                r.len() == i,
                forall|j: int| 0 <= j < i ==> r[j]@ == self.headers[j]@,
            decreases self.headers.len() - i,
        {
            r.push(self.headers[i].duplicate());
            i += 1;
        }
        assert(r.deep_view() =~= self.headers.deep_view());
        r
    }

    pub fn body(&self) -> (r: String)
        ensures
            r@ == self@.body,
    {
        self.body.clone()
    }

    /// The value of the first header named `name`, or an error that names
    /// the header that is missing.
    pub fn header_value(&self, name: &str) -> (r: Result<String, String>)
        ensures
            match value_of(self@.headers, name@) {
                Some(value) => r matches Ok(x) && x@ == value,
                None => r matches Err(m) && m@ == "failed to find "@ + name@ + " in headers"@,
            },
    {
        let wanted = text_of(name);
        let mut i: usize = 0;
        assert(self.headers.deep_view().skip(0) =~= self.headers.deep_view());
        while i < self.headers.len()
            invariant
                i <= self.headers.len(),
                wanted@ == name@,
                value_of(self.headers.deep_view().skip(i as int), name@) == value_of(
                    self.headers.deep_view(),
                    name@,
                ),
            decreases self.headers.len() - i,
        {
            let ghost rest = self.headers.deep_view().skip(i as int);
            assert(rest[0] == self.headers[i as int]@);
            assert(rest.skip(1) =~= self.headers.deep_view().skip(i + 1));
            if self.headers[i].name == wanted {
                return Ok(self.headers[i].value.clone());
            }
            i += 1;
        }
        let mut message = text_of("failed to find ");
        message.append(name);
        message.append(" in headers");
        Err(message)
    }
}

/// What asks a server for a document.
pub struct HttpClient {}

impl HttpClient {
    pub fn new() -> (r: Self) {
        Self {  }
    }

    /// The text to send to `host` for the document at `path`.
    pub fn request(&self, host: &str, path: &str) -> (r: String)
        ensures
            r@ == request_of(host@, path@),
    {
        let mut request = text_of("GET /");
        request.append(path);
        request.append(" HTTP/1.1\n");
        request.append("Host: ");
        request.append(host);
        request.append("\n");
        request.append("Accept: text/html\n");
        request.append("Connection: close\n");
        request.append("\r\n");
        request
    }
}

} // verus!
