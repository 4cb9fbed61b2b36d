//! Absolute `http://` URLs, taken apart into host, port, path and query.

use crate::text::{chars_of, lemma_span_end, scan, span_end, string_of, text_of, CharClass};
use vstd::prelude::*;

verus! {

/// A URL: its text, and the parts that `parse` has taken from it.
#[derive(Debug, Clone, PartialEq)]
pub struct Url {
    url: String,
    host: String,
    port: String,
    path: String,
    searchpart: String,
}

/// A URL as a mathematical value: the text it was made from, and its parts.
pub struct UrlModel {
    pub url: Seq<char>,
    pub host: Seq<char>,
    pub port: Seq<char>,
    pub path: Seq<char>,
    pub searchpart: Seq<char>,
}

impl View for Url {
    type V = UrlModel;

    closed spec fn view(&self) -> UrlModel {
        UrlModel {
            url: self.url@,
            host: self.host@,
            port: self.port@,
            path: self.path@,
            searchpart: self.searchpart@,
        }
    }
}

/// The text `http://` stands in `s` at index `at`.
pub open spec fn scheme_at(s: Seq<char>, at: int) -> bool {
    &&& 0 <= at
    &&& at + 7 <= s.len()
    &&& s[at] == 'h'
    &&& s[at + 1] == 't'
    &&& s[at + 2] == 't'
    &&& s[at + 3] == 'p'
    &&& s[at + 4] == ':'
    &&& s[at + 5] == '/'
    &&& s[at + 6] == '/'
}

/// The index after every `http://` that stands at `at`, one after another.
pub open spec fn after_schemes(s: Seq<char>, at: int) -> int
    decreases s.len() - at,
{
    if scheme_at(s, at) {
        after_schemes(s, at + 7)
    } else {
        at
    }
}

/// The smaller of two indices.
pub open spec fn lesser(a: int, b: int) -> int {
    if a <= b {
        a
    } else {
        b
    }
}

/// The parts of the URL `s`, or `None` where `s` does not begin with
/// `http://`.
///
/// What follows the scheme, up to the first `/`, names the host and the
/// port: the host ends at the first `:`, the port stands between that `:`
/// and the next one, and is `80` where there is no `:`. What follows the
/// first `/` is the path up to the first `?`, and the query after it.
pub open spec fn parts_of(s: Seq<char>) -> Option<UrlModel> {
    if !scheme_at(s, 0) {
        None
    } else {
        let start = after_schemes(s, 0);
        let slash = span_end(s, start, CharClass::Not('/'));
        let colon = lesser(span_end(s, start, CharClass::Not(':')), slash);
        let port = if colon < slash {
            s.subrange(colon + 1, lesser(span_end(s, colon + 1, CharClass::Not(':')), slash))
        } else {
            "80"@
        };
        let mark = span_end(s, slash + 1, CharClass::Not('?'));
        Some(
            UrlModel {
                url: s,
                host: s.subrange(start, colon),
                port,
                path: if slash < s.len() {
                    s.subrange(slash + 1, mark)
                } else {
                    Seq::empty()
                },
                searchpart: if slash < s.len() && mark < s.len() {
                    s.subrange(mark + 1, s.len() as int)
                } else {
                    Seq::empty()
                },
            },
        )
    }
}

/// The message of the error for a URL of another scheme.
pub open spec fn unsupported_scheme_message() -> Seq<char> {
    "Only HTTP scheme is supported."@
}

/// Whether `http://` stands in `v` at index `at`.
fn has_scheme_at(v: &Vec<char>, at: usize) -> (r: bool)
    ensures
        r == scheme_at(v@, at as int),
{
    v.len() >= 7 && at <= v.len() - 7 && v[at] == 'h' && v[at + 1] == 't' && v[at + 2] == 't'
        && v[at + 3] == 'p' && v[at + 4] == ':' && v[at + 5] == '/' && v[at + 6] == '/'
}

/// The smaller of `a` and `b`.
fn least(a: usize, b: usize) -> (r: usize)
    ensures
        r == lesser(a as int, b as int),
{
    if a <= b {
        a
    } else {
        b
    }
}

impl Url {
    /// A URL that has not been taken apart yet: its parts are empty.
    pub fn new(url: &str) -> (r: Self)
        ensures
            r@ == (UrlModel {
                url: url@,
                host: Seq::empty(),
                port: Seq::empty(),
                path: Seq::empty(),
                searchpart: Seq::empty(),
            }),
    {
        Self {
            url: text_of(url),
            host: String::new(),
            port: String::new(),
            path: String::new(),
            searchpart: String::new(),
        }
    }

    /// The URL with its parts, or an error where it does not begin with
    /// `http://`.
    pub fn parse(&self) -> (r: Result<Self, String>)
        ensures
            match parts_of(self@.url) {
                Some(parts) => r matches Ok(u) && u@ == parts,
                None => r matches Err(m) && m@ == unsupported_scheme_message(),
            },
    {
        let chars = chars_of(self.url.as_str());
        if self.is_not_http(&chars) {
            return Err(text_of("Only HTTP scheme is supported."));
        }
        let start = Self::skip_schemes(&chars);
        proof {
            lemma_span_end(chars@, start as int, CharClass::Not('/'));
        }
        let slash = scan(&chars, start, CharClass::Not('/'));
        let host = self.extract_host(&chars, start, slash);
        let port = self.extract_port(&chars, start, slash);
        let path = self.extract_path(&chars, slash);
        let searchpart = self.extract_searchpart(&chars, slash);
        Ok(Url { url: self.url.clone(), host, port, path, searchpart })
    }

    /// The index after the schemes that `chars` begins with.
    fn skip_schemes(chars: &Vec<char>) -> (start: usize)
        ensures
            start == after_schemes(chars@, 0),
            start <= chars.len(),
    {
        let mut start: usize = 0;
        while has_scheme_at(chars, start)
            invariant
                start <= chars.len(),
                after_schemes(chars@, start as int) == after_schemes(chars@, 0),
            decreases chars.len() - start,
        {
            start += 7;
        }
        start
    }

    /// The host: what stands from `start` up to the first `:` before `slash`.
    fn extract_host(&self, chars: &Vec<char>, start: usize, slash: usize) -> (r: String)
        requires
            start <= slash <= chars.len(),
        ensures
            r@ == chars@.subrange(
                start as int,
                lesser(span_end(chars@, start as int, CharClass::Not(':')), slash as int),
            ),
    {
        proof {
            lemma_span_end(chars@, start as int, CharClass::Not(':'));
        }
        let colon = least(scan(chars, start, CharClass::Not(':')), slash);
        string_of(chars, start, colon)
    }

    /// The port: what stands between the first `:` and the next one, before
    /// `slash`; `80` where there is no `:`.
    fn extract_port(&self, chars: &Vec<char>, start: usize, slash: usize) -> (r: String)
        requires
            start <= slash <= chars.len(),
        ensures
            r@ == ({
                let colon = lesser(
                    span_end(chars@, start as int, CharClass::Not(':')),
                    slash as int,
                );
                if colon < slash {
                    chars@.subrange(
                        colon + 1,
                        lesser(span_end(chars@, colon + 1, CharClass::Not(':')), slash as int),
                    )
                } else {
                    "80"@
                }
            }),
    {
        proof {
            lemma_span_end(chars@, start as int, CharClass::Not(':'));
        }
        let colon = least(scan(chars, start, CharClass::Not(':')), slash);
        if colon < slash {
            proof {
                lemma_span_end(chars@, colon + 1, CharClass::Not(':'));
            }
            let end = least(scan(chars, colon + 1, CharClass::Not(':')), slash);
            string_of(chars, colon + 1, end)
        } else {
            text_of("80")
        }
    }

    /// The path: what stands after `slash`, up to the first `?`.
    fn extract_path(&self, chars: &Vec<char>, slash: usize) -> (r: String)
        requires
            slash <= chars.len(),
        ensures
            r@ == (if slash < chars.len() {
                chars@.subrange(slash + 1, span_end(chars@, slash + 1, CharClass::Not('?')))
            } else {
                Seq::empty()
            }),
    {
        if slash < chars.len() {
            let mark = scan(chars, slash + 1, CharClass::Not('?'));
            string_of(chars, slash + 1, mark)
        } else {
            String::new()
        }
    }

    /// The query: what stands after the first `?` behind `slash`.
    fn extract_searchpart(&self, chars: &Vec<char>, slash: usize) -> (r: String)
        requires
            slash <= chars.len(),
        ensures
            r@ == (if slash < chars.len() && span_end(chars@, slash + 1, CharClass::Not('?'))
                < chars.len() {
                chars@.subrange(
                    span_end(chars@, slash + 1, CharClass::Not('?')) + 1,
                    chars.len() as int,
                )
            } else {
                Seq::empty()
            }),
    {
        if slash < chars.len() {
            let mark = scan(chars, slash + 1, CharClass::Not('?'));
            if mark < chars.len() {
                return string_of(chars, mark + 1, chars.len());
            }
        }
        String::new()
    }

    /// Whether the URL begins with anything but `http://`.
    fn is_not_http(&self, chars: &Vec<char>) -> (r: bool)
        ensures
            r == !scheme_at(chars@, 0),
    {
        !has_scheme_at(chars, 0)
    }

    /// The text that the URL was made from.
    pub fn url(&self) -> (r: String)
        ensures
            r@ == self@.url,
    {
        self.url.clone()
    }

    pub fn host(&self) -> (r: String)
        ensures
            r@ == self@.host,
    {
        self.host.clone()
    }

    pub fn port(&self) -> (r: String)
        ensures
            r@ == self@.port,
    {
        self.port.clone()
    }

    pub fn path(&self) -> (r: String)
        ensures
            r@ == self@.path,
    {
        self.path.clone()
    }

    pub fn searchpart(&self) -> (r: String)
        ensures
            r@ == self@.searchpart,
    {
        self.searchpart.clone()
    }
}

} // verus!
