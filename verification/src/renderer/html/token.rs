//! The HTML tokenizer: a state machine that turns the characters of a
//! document into start tags, end tags and character tokens, one per pull.

use crate::error::Error;
use crate::renderer::html::html_tag_attribute::{attribute_with, AttributeField, HtmlTagAttribute};
use crate::renderer::html::machine::{lemma_transition, TokenizerModel};
use crate::text::{char_ascii_lower, char_is_ascii_alpha, chars_of, is_ascii_upper};
use vstd::prelude::*;

verus! {

/// What the tokenizer hands out.
#[derive(Debug, Clone, PartialEq, Eq)]
pub enum HtmlToken {
    StartTag { tag: String, self_closing: bool, attributes: Vec<HtmlTagAttribute> },
    EndTag { tag: String },
    Char(char),
    Eof,
}

/// What a token is, as plain sequences.
pub enum TokenModel {
    StartTag { tag: Seq<char>, self_closing: bool, attributes: Seq<(Seq<char>, Seq<char>)> },
    EndTag { tag: Seq<char> },
    Char(char),
    Eof,
}

impl View for HtmlToken {
    type V = TokenModel;

    open spec fn view(&self) -> TokenModel {
        match self {
            HtmlToken::StartTag { tag, self_closing, attributes } => TokenModel::StartTag {
                tag: tag@,
                self_closing: *self_closing,
                attributes: attributes.deep_view(),
            },
            HtmlToken::EndTag { tag } => TokenModel::EndTag { tag: tag@ },
            HtmlToken::Char(c) => TokenModel::Char(*c),
            HtmlToken::Eof => TokenModel::Eof,
        }
    }
}

/// No upper-case ASCII letter stands in `s`.
pub open spec fn no_upper(s: Seq<char>) -> bool {
    forall|i: int| 0 <= i < s.len() ==> !is_ascii_upper(#[trigger] s[i])
}

impl TokenModel {
    pub open spec fn is_tag(self) -> bool {
        self is StartTag || self is EndTag
    }

    /// The name of the tag and the names of its attributes are in lower
    /// case, as far as they are ASCII letters.
    pub open spec fn folded(self) -> bool {
        match self {
            TokenModel::StartTag { tag, attributes, .. } => no_upper(tag) && forall|i: int|
                0 <= i < attributes.len() ==> no_upper((#[trigger] attributes[i]).0),
            TokenModel::EndTag { tag } => no_upper(tag),
            _ => true,
        }
    }

    /// A start tag that holds at least one attribute.
    pub open spec fn has_attribute(self) -> bool {
        self matches TokenModel::StartTag { attributes, .. } && attributes.len() > 0
    }

    /// A start tag named `script`: what follows it is script text.
    pub open spec fn opens_script(self) -> bool {
        self matches TokenModel::StartTag { tag, .. } && tag == "script"@
    }

    /// The tag with `c` appended to its name.
    pub open spec fn push_tag(self, c: char) -> TokenModel {
        match self {
            TokenModel::StartTag { tag, self_closing, attributes } => TokenModel::StartTag {
                tag: tag.push(c),
                self_closing,
                attributes,
            },
            TokenModel::EndTag { tag } => TokenModel::EndTag { tag: tag.push(c) },
            t => t,
        }
    }

    /// The start tag with one more attribute, empty, after those it has.
    pub open spec fn new_attribute(self) -> TokenModel {
        match self {
            TokenModel::StartTag { tag, self_closing, attributes } => TokenModel::StartTag {
                tag,
                self_closing,
                attributes: attributes.push((Seq::empty(), Seq::empty())),
            },
            t => t,
        }
    }

    /// The start tag with `c` appended to one half of its last attribute.
    pub open spec fn push_attribute(self, c: char, field: AttributeField) -> TokenModel {
        match self {
            TokenModel::StartTag { tag, self_closing, attributes } => TokenModel::StartTag {
                tag,
                self_closing,
                attributes: attributes.update(
                    attributes.len() - 1,
                    attribute_with(attributes.last(), c, field),
                ),
            },
            t => t,
        }
    }

    /// The start tag with its self-closing flag set.
    pub open spec fn closing(self) -> TokenModel {
        match self {
            TokenModel::StartTag { tag, self_closing, attributes } => TokenModel::StartTag {
                tag,
                self_closing: true,
                attributes,
            },
            t => t,
        }
    }
}

/// The states of the tokenizer.
#[derive(Debug, Clone, Copy, PartialEq, Eq)]
pub enum TokenizerState {
    Data,
    TagOpen,
    EndTagOpen,
    TagName,
    BeforeAttributeName,
    AttributeName,
    AfterAttributeName,
    BeforeAttributeValue,
    AttributeValueDoubleQuoted,
    AttributeValueSingleQuoted,
    AttributeValueUnQuoted,
    AfterAttributeValueQuoted,
    SelfClosingStartTag,
    ScriptData,
    ScriptDataLessThanSign,
    ScriptDataEndTagOpen,
    ScriptDataEndTagName,
    TemporaryBuffer,
}

/// Input that the tokenizer has no transition for.
#[derive(Debug, Clone, Copy, PartialEq, Eq)]
pub enum Malformed {
    /// An attribute was started inside an end tag.
    AttributeOnEndTag,
    /// An end tag was closed with `/>`.
    SelfClosingEndTag,
}

/// What one transition of the machine does besides changing its state.
pub enum Step {
    /// Nothing: the next transition follows.
    Continue,
    /// It hands out a token, which ends the pull.
    Emit(TokenModel),
    /// It finds the input malformed, which ends the pull and the input.
    Fail(Malformed),
}

/// The message that an `Error::UnexpectedInput` carries for `k`.
pub open spec fn malformed_message(k: Malformed) -> Seq<char> {
    match k {
        Malformed::AttributeOnEndTag => "an end tag cannot have attributes"@,
        Malformed::SelfClosingEndTag => "an end tag cannot be self-closing"@,
    }
}

/// `r` is what a pull hands out for the outcome `p`.
pub open spec fn pulled(
    r: Result<Option<HtmlToken>, Error>,
    p: Result<Option<TokenModel>, Malformed>,
) -> bool {
    match p {
        Ok(Some(t)) => r matches Ok(Some(token)) && token@ == t,
        Ok(None) => r matches Ok(None),
        Err(k) => r matches Err(Error::UnexpectedInput(message)) && message@ == malformed_message(
            k,
        ),
    }
}

/// The outcome of one transition.
enum Pulled {
    Continue,
    Emit(HtmlToken),
    Fail(Malformed),
}

impl Pulled {
    spec fn model(self) -> Step {
        match self {
            Pulled::Continue => Step::Continue,
            Pulled::Emit(t) => Step::Emit(t@),
            Pulled::Fail(k) => Step::Fail(k),
        }
    }
}

/// The tokenizer: the input, the position in it, the state, and the token
/// that is being read.
#[derive(Debug, Clone)]
pub struct HtmlTokenizer {
    state: TokenizerState,
    pos: usize,
    past_end: bool,
    reconsume: bool,
    latest_token: Option<HtmlToken>,
    input: Vec<char>,
    buf: Vec<char>,
}

impl View for HtmlTokenizer {
    type V = TokenizerModel;

    closed spec fn view(&self) -> TokenizerModel {
        TokenizerModel {
            state: self.state,
            pos: if self.past_end {
                self.input.len() as nat + 1
            } else {
                self.pos as nat
            },
            reconsume: self.reconsume,
            latest: match self.latest_token {
                Some(t) => Some(t@),
                None => None,
            },
            input: self.input@,
            buf: self.buf@,
        }
    }
}

impl HtmlTokenizer {
    /// The tokenizer is in a state that its own operations lead to.
    pub closed spec fn wf(&self) -> bool {
        &&& self.pos <= self.input.len()
        &&& self.past_end ==> self.pos == self.input.len()
        &&& self@.wf()
    }

    /// A tokenizer that is well formed stands for a machine that is.
    pub proof fn lemma_wf(&self)
        requires
            self.wf(),
        ensures
            self@.wf(),
    {
    }

    /// A tokenizer at the start of `html`.
    pub fn new(html: String) -> (r: Self)
        ensures
            r.wf(),
            r@ == TokenizerModel::initial(html@),
    {
        Self {
            state: TokenizerState::Data,
            pos: 0,
            past_end: false,
            reconsume: false,
            latest_token: None,
            input: chars_of(html.as_str()),
            buf: Vec::new(),
        }
    }

    /// Whether the tokenizer has read past the end of the input.
    fn is_eof(&self) -> (r: bool)
        requires
            self.pos <= self.input.len(),
        ensures
            r == (self@.pos > self@.input.len()),
    {
        self.past_end
    }

    /// The character to present to the state: the current one again
    /// where a state asked for that, else the next one; `None` past the end
    /// of the input.
    fn consume_next_character(&mut self) -> (c: Option<char>)
        requires
            old(self).wf(),
        ensures
            final(self).wf(),
            (final(self)@, c) == old(self)@.fetch(),
    {
        if self.reconsume || self.past_end {
            self.reconsume = false;
        } else if self.pos < self.input.len() {
            self.pos += 1;
        } else {
            self.past_end = true;
        }
        assert(self.pos <= self.input.len());
        if !self.is_eof() && self.pos >= 1 {
            Some(self.input[self.pos - 1])
        } else {
            None
        }
    }

    /// Starts a start tag without name or attributes.
    fn create_start_tag(&mut self)
        ensures
            final(self)@ == old(self)@.with_latest(
                TokenModel::StartTag {
                    tag: Seq::empty(),
                    self_closing: false,
                    attributes: Seq::empty(),
                },
            ),
            final(self).pos == old(self).pos,
            final(self).past_end == old(self).past_end,
    {
        let attributes: Vec<HtmlTagAttribute> = Vec::new();
        assert(attributes.deep_view() =~= Seq::empty());
        self.latest_token = Some(
            HtmlToken::StartTag { tag: String::new(), self_closing: false, attributes },
        );
    }

    /// Starts an end tag without a name.
    fn create_end_tag(&mut self)
        ensures
            final(self)@ == old(self)@.with_latest(TokenModel::EndTag { tag: Seq::empty() }),
            final(self).pos == old(self).pos,
            final(self).past_end == old(self).past_end,
    {
        self.latest_token = Some(HtmlToken::EndTag { tag: String::new() });
    }

    /// Appends `c` to the name of the pending tag.
    fn append_tag_name(&mut self, c: char)
        requires
            old(self)@.latest is Some,
        ensures
            final(self)@ == old(self)@.with_latest(old(self)@.latest.unwrap().push_tag(c)),
            final(self).pos == old(self).pos,
            final(self).past_end == old(self).past_end,
    {
        let t = self.latest_token.take();
        match t {
            Some(HtmlToken::StartTag { tag, self_closing, attributes }) => {
                let mut tag = tag;
                tag.push(c);
                self.latest_token = Some(HtmlToken::StartTag { tag, self_closing, attributes });
            },
            Some(HtmlToken::EndTag { tag }) => {
                let mut tag = tag;
                tag.push(c);
                self.latest_token = Some(HtmlToken::EndTag { tag });
            },
            other => {
                self.latest_token = other;
            },
        }
    }

    /// Hands out the pending token, and goes on in script text after a
    /// start tag named `script`, in ordinary data after any other.
    fn emit_latest_token(&mut self) -> (r: Pulled)
        requires
            old(self)@.latest is Some,
        ensures
            (final(self)@, r.model()) == old(self)@.emit(),
            final(self).pos == old(self).pos,
            final(self).past_end == old(self).past_end,
    {
        let t = self.latest_token.take();
        match t {
            Some(token) => {
                let script = match &token {
                    HtmlToken::StartTag { tag, .. } => {
                        let name = String::from_str("script");
                        *tag == name
                    },
                    _ => false,
                };
                self.state = if script {
                    TokenizerState::ScriptData
                } else {
                    TokenizerState::Data
                };
                Pulled::Emit(token)
            },
            None => Pulled::Continue,
        }
    }

    /// Starts a new attribute in the pending start tag; `false`, and nothing
    /// changed, where the pending token is no start tag.
    fn start_new_attribute(&mut self) -> (r: bool)
        requires
            old(self)@.latest is Some,
        ensures
            r == (old(self)@.latest.unwrap() is StartTag),
            r ==> final(self)@ == old(self)@.with_latest(
                old(self)@.latest.unwrap().new_attribute(),
            ),
            !r ==> final(self)@ == old(self)@,
            final(self).pos == old(self).pos,
            final(self).past_end == old(self).past_end,
    {
        let t = self.latest_token.take();
        match t {
            Some(HtmlToken::StartTag { tag, self_closing, attributes }) => {
                let mut attributes = attributes;
                let ghost before = attributes.deep_view();
                let a = HtmlTagAttribute::new();
                attributes.push(a);
                assert(attributes.deep_view() =~= before.push((Seq::empty(), Seq::empty())));
                self.latest_token = Some(HtmlToken::StartTag { tag, self_closing, attributes });
                true
            },
            other => {
                self.latest_token = other;
                false
            },
        }
    }

    /// Appends `c` to the name or the value of the last attribute of the
    /// pending start tag.
    fn append_character_to_attribute(&mut self, c: char, field: AttributeField)
        requires
            old(self)@.latest is Some,
            old(self)@.latest.unwrap().has_attribute(),
        ensures
            final(self)@ == old(self)@.with_latest(
                old(self)@.latest.unwrap().push_attribute(c, field),
            ),
            final(self).pos == old(self).pos,
            final(self).past_end == old(self).past_end,
    {
        let t = self.latest_token.take();
        match t {
            Some(HtmlToken::StartTag { tag, self_closing, attributes }) => {
                let mut attributes = attributes;
                let ghost before = attributes.deep_view();
                let mut last = attributes.pop().unwrap();
                last.add_char(c, field);
                attributes.push(last);
                assert(attributes.deep_view() =~= before.update(
                    before.len() - 1,
                    attribute_with(before.last(), c, field),
                ));
                self.latest_token = Some(HtmlToken::StartTag { tag, self_closing, attributes });
            },
            other => {
                self.latest_token = other;
            },
        }
    }

    /// Sets the self-closing flag of the pending start tag; `false`, and
    /// nothing changed, where the pending token is no start tag.
    fn set_self_closing_flag(&mut self) -> (r: bool)
        requires
            old(self)@.latest is Some,
        ensures
            r == (old(self)@.latest.unwrap() is StartTag),
            r ==> final(self)@ == old(self)@.with_latest(old(self)@.latest.unwrap().closing()),
            !r ==> final(self)@ == old(self)@,
            final(self).pos == old(self).pos,
            final(self).past_end == old(self).past_end,
    {
        let t = self.latest_token.take();
        match t {
            Some(HtmlToken::StartTag { tag, self_closing, attributes }) => {
                self.latest_token = Some(
                    HtmlToken::StartTag { tag, self_closing: true, attributes },
                );
                true
            },
            other => {
                self.latest_token = other;
                false
            },
        }
    }

    /// Goes to `state`, which is presented with the current character again.
    fn reconsume_in(&mut self, state: TokenizerState)
        ensures
            final(self)@ == old(self)@.reconsume_in(state),
            final(self).pos == old(self).pos,
            final(self).past_end == old(self).past_end,
    {
        self.reconsume = true;
        self.state = state;
    }

    /// Starts an attribute and hands the current character to the
    /// attribute-name state, or fails on an end tag.
    fn start_attribute(&mut self) -> (r: Pulled)
        requires
            old(self)@.latest is Some,
        ensures
            (final(self)@, r.model()) == old(self)@.start_attribute(),
            final(self).pos == old(self).pos,
            final(self).past_end == old(self).past_end,
    {
        if self.start_new_attribute() {
            self.reconsume_in(TokenizerState::AttributeName);
            Pulled::Continue
        } else {
            Pulled::Fail(Malformed::AttributeOnEndTag)
        }
    }

    /// Whether the pending token is a start tag with an attribute.
    fn has_attribute(&self) -> (r: bool)
        requires
            self@.latest is Some,
        ensures
            r == self@.latest.unwrap().has_attribute(),
    {
        match &self.latest_token {
            Some(HtmlToken::StartTag { attributes, .. }) => attributes.len() > 0,
            _ => false,
        }
    }

    /// The transitions of the states that read a tag's name.
    fn step_tag(&mut self, c: Option<char>) -> (r: Pulled)
        requires
            old(self).wf(),
            old(self)@.state == TokenizerState::TagOpen || old(self)@.state
                == TokenizerState::EndTagOpen || old(self)@.state == TokenizerState::TagName
                || old(self)@.state == TokenizerState::SelfClosingStartTag,
        ensures
            (final(self)@, r.model()) == old(self)@.transition(c),
            final(self).pos == old(self).pos,
            final(self).past_end == old(self).past_end,
    {
        match self.state {
            TokenizerState::TagOpen => match c {
                Some(ch) => {
                    if ch == '/' {
                        self.state = TokenizerState::EndTagOpen;
                    } else if char_is_ascii_alpha(ch) {
                        self.create_start_tag();
                        self.reconsume_in(TokenizerState::TagName);
                    } else {
                        self.reconsume_in(TokenizerState::Data);
                    }
                    Pulled::Continue
                },
                None => Pulled::Emit(HtmlToken::Eof),
            },
            TokenizerState::EndTagOpen => match c {
                Some(ch) => {
                    if char_is_ascii_alpha(ch) {
                        self.create_end_tag();
                        self.reconsume_in(TokenizerState::TagName);
                    }
                    Pulled::Continue
                },
                None => Pulled::Emit(HtmlToken::Eof),
            },
            TokenizerState::TagName => match c {
                Some(ch) => {
                    if ch == ' ' {
                        self.state = TokenizerState::BeforeAttributeName;
                        Pulled::Continue
                    } else if ch == '/' {
                        self.state = TokenizerState::SelfClosingStartTag;
                        Pulled::Continue
                    } else if ch == '>' {
                        self.emit_latest_token()
                    } else {
                        self.append_tag_name(char_ascii_lower(ch));
                        Pulled::Continue
                    }
                },
                None => Pulled::Emit(HtmlToken::Eof),
            },
            _ => match c {
                Some(ch) => {
                    if ch == '>' {
                        if self.set_self_closing_flag() {
                            self.emit_latest_token()
                        } else {
                            Pulled::Fail(Malformed::SelfClosingEndTag)
                        }
                    } else {
                        Pulled::Continue
                    }
                },
                None => Pulled::Emit(HtmlToken::Eof),
            },
        }
    }

    /// The transitions of the states around an attribute's name.
    fn step_attribute_name(&mut self, c: Option<char>) -> (r: Pulled)
        requires
            old(self).wf(),
            old(self)@.state == TokenizerState::BeforeAttributeName || old(self)@.state
                == TokenizerState::AttributeName || old(self)@.state
                == TokenizerState::AfterAttributeName,
        ensures
            (final(self)@, r.model()) == old(self)@.transition(c),
            final(self).pos == old(self).pos,
            final(self).past_end == old(self).past_end,
    {
        match self.state {
            TokenizerState::BeforeAttributeName => match c {
                Some(ch) => {
                    if ch == ' ' {
                        Pulled::Continue
                    } else if ch == '/' || ch == '>' {
                        self.reconsume_in(TokenizerState::AfterAttributeName);
                        Pulled::Continue
                    } else {
                        self.start_attribute()
                    }
                },
                None => {
                    self.reconsume_in(TokenizerState::AfterAttributeName);
                    Pulled::Continue
                },
            },
            TokenizerState::AttributeName => match c {
                Some(ch) => {
                    if ch == ' ' || ch == '/' || ch == '>' {
                        self.reconsume_in(TokenizerState::AfterAttributeName);
                    } else if ch == '=' {
                        self.state = TokenizerState::BeforeAttributeValue;
                    } else {
                        self.append_character_to_attribute(
                            char_ascii_lower(ch),
                            AttributeField::Name,
                        );
                    }
                    Pulled::Continue
                },
                None => {
                    self.reconsume_in(TokenizerState::AfterAttributeName);
                    Pulled::Continue
                },
            },
            _ => match c {
                Some(ch) => {
                    if ch == ' ' {
                        Pulled::Continue
                    } else if ch == '/' {
                        self.state = TokenizerState::SelfClosingStartTag;
                        Pulled::Continue
                    } else if ch == '=' {
                        if self.has_attribute() {
                            self.state = TokenizerState::BeforeAttributeValue;
                            Pulled::Continue
                        } else {
                            Pulled::Fail(Malformed::AttributeOnEndTag)
                        }
                    } else if ch == '>' {
                        self.emit_latest_token()
                    } else {
                        self.start_attribute()
                    }
                },
                None => Pulled::Emit(HtmlToken::Eof),
            },
        }
    }

    /// The transitions of the states around an attribute's value.
    fn step_attribute_value(&mut self, c: Option<char>) -> (r: Pulled)
        requires
            old(self).wf(),
            old(self)@.state == TokenizerState::BeforeAttributeValue || old(self)@.state
                == TokenizerState::AttributeValueDoubleQuoted || old(self)@.state
                == TokenizerState::AttributeValueSingleQuoted || old(self)@.state
                == TokenizerState::AttributeValueUnQuoted || old(self)@.state
                == TokenizerState::AfterAttributeValueQuoted,
        ensures
            (final(self)@, r.model()) == old(self)@.transition(c),
            final(self).pos == old(self).pos,
            final(self).past_end == old(self).past_end,
    {
        match self.state {
            TokenizerState::BeforeAttributeValue => {
                match c {
                    Some(' ') => {},
                    Some('"') => {
                        self.state = TokenizerState::AttributeValueDoubleQuoted;
                    },
                    Some('\'') => {
                        self.state = TokenizerState::AttributeValueSingleQuoted;
                    },
                    _ => {
                        self.reconsume_in(TokenizerState::AttributeValueUnQuoted);
                    },
                }
                Pulled::Continue
            },
            TokenizerState::AttributeValueDoubleQuoted => match c {
                Some(ch) => {
                    if ch == '"' {
                        self.state = TokenizerState::AfterAttributeValueQuoted;
                    } else {
                        self.append_character_to_attribute(ch, AttributeField::Value);
                    }
                    Pulled::Continue
                },
                None => Pulled::Emit(HtmlToken::Eof),
            },
            TokenizerState::AttributeValueSingleQuoted => match c {
                Some(ch) => {
                    if ch == '\'' {
                        self.state = TokenizerState::AfterAttributeValueQuoted;
                    } else {
                        self.append_character_to_attribute(ch, AttributeField::Value);
                    }
                    Pulled::Continue
                },
                None => Pulled::Emit(HtmlToken::Eof),
            },
            TokenizerState::AttributeValueUnQuoted => match c {
                Some(ch) => {
                    if ch == ' ' {
                        self.state = TokenizerState::BeforeAttributeName;
                        Pulled::Continue
                    } else if ch == '>' {
                        self.emit_latest_token()
                    } else {
                        self.append_character_to_attribute(ch, AttributeField::Value);
                        Pulled::Continue
                    }
                },
                None => Pulled::Emit(HtmlToken::Eof),
            },
            _ => match c {
                Some(ch) => {
                    if ch == ' ' {
                        self.state = TokenizerState::BeforeAttributeName;
                        Pulled::Continue
                    } else if ch == '/' {
                        self.state = TokenizerState::SelfClosingStartTag;
                        Pulled::Continue
                    } else if ch == '>' {
                        self.emit_latest_token()
                    } else {
                        self.reconsume_in(TokenizerState::BeforeAttributeName);
                        Pulled::Continue
                    }
                },
                None => Pulled::Emit(HtmlToken::Eof),
            },
        }
    }

    /// The transitions of the states that read script text.
    fn step_script(&mut self, c: Option<char>) -> (r: Pulled)
        requires
            old(self).wf(),
            old(self)@.state == TokenizerState::ScriptData || old(self)@.state
                == TokenizerState::ScriptDataLessThanSign || old(self)@.state
                == TokenizerState::ScriptDataEndTagOpen || old(self)@.state
                == TokenizerState::ScriptDataEndTagName || old(self)@.state
                == TokenizerState::TemporaryBuffer,
        ensures
            (final(self)@, r.model()) == old(self)@.transition(c),
            final(self).pos == old(self).pos,
            final(self).past_end == old(self).past_end,
    {
        match self.state {
            TokenizerState::ScriptData => match c {
                Some(ch) => {
                    if ch == '<' {
                        self.state = TokenizerState::ScriptDataLessThanSign;
                        Pulled::Continue
                    } else {
                        Pulled::Emit(HtmlToken::Char(ch))
                    }
                },
                None => Pulled::Emit(HtmlToken::Eof),
            },
            TokenizerState::ScriptDataLessThanSign => match c {
                Some('/') => {
                    self.buf = Vec::new();
                    self.state = TokenizerState::ScriptDataEndTagOpen;
                    Pulled::Continue
                },
                _ => {
                    self.reconsume_in(TokenizerState::ScriptData);
                    Pulled::Emit(HtmlToken::Char('<'))
                },
            },
            TokenizerState::ScriptDataEndTagOpen => {
                let alpha = match c {
                    Some(ch) => char_is_ascii_alpha(ch),
                    None => false,
                };
                if alpha {
                    self.create_end_tag();
                    self.reconsume_in(TokenizerState::ScriptDataEndTagName);
                } else {
                    let mut buf: Vec<char> = Vec::new();
                    buf.push('<');
                    buf.push('/');
                    assert(buf@ =~= seq!['<', '/']);
                    self.buf = buf;
                    self.reconsume_in(TokenizerState::TemporaryBuffer);
                }
                Pulled::Continue
            },
            TokenizerState::ScriptDataEndTagName => match c {
                Some(ch) => {
                    if ch == '>' {
                        self.emit_latest_token()
                    } else if char_is_ascii_alpha(ch) {
                        self.buf.push(ch);
                        self.append_tag_name(char_ascii_lower(ch));
                        Pulled::Continue
                    } else {
                        self.open_buffer();
                        self.buf.push(ch);
                        self.state = TokenizerState::TemporaryBuffer;
                        Pulled::Continue
                    }
                },
                None => {
                    self.open_buffer();
                    self.state = TokenizerState::TemporaryBuffer;
                    Pulled::Continue
                },
            },
            _ => {
                if self.buf.len() == 0 {
                    self.reconsume_in(TokenizerState::ScriptData);
                    Pulled::Continue
                } else {
                    let ch = self.buf.remove(0);
                    assert(self.buf@ =~= old(self).buf@.drop_first());
                    self.reconsume = true;
                    Pulled::Emit(HtmlToken::Char(ch))
                }
            },
        }
    }

    /// Puts `</` in front of the letters that the buffer holds.
    fn open_buffer(&mut self)
        ensures
            final(self)@ == (TokenizerModel { buf: seq!['<', '/'] + old(self)@.buf, ..old(self)@ }),
            final(self).pos == old(self).pos,
            final(self).past_end == old(self).past_end,
    {
        self.buf.insert(0, '/');
        self.buf.insert(0, '<');
        assert(self.buf@ =~= seq!['<', '/'] + old(self).buf@);
    }

    /// One transition on the character just consumed.
    fn step(&mut self, c: Option<char>) -> (r: Pulled)
        requires
            old(self).wf(),
        ensures
            (final(self)@, r.model()) == old(self)@.transition(c),
            final(self).pos == old(self).pos,
            final(self).past_end == old(self).past_end,
    {
        match self.state {
            TokenizerState::Data => match c {
                Some(ch) => {
                    if ch == '<' {
                        self.state = TokenizerState::TagOpen;
                        Pulled::Continue
                    } else {
                        Pulled::Emit(HtmlToken::Char(ch))
                    }
                },
                None => Pulled::Emit(HtmlToken::Eof),
            },
            TokenizerState::TagOpen
            | TokenizerState::EndTagOpen
            | TokenizerState::TagName
            | TokenizerState::SelfClosingStartTag => self.step_tag(c),
            TokenizerState::BeforeAttributeName
            | TokenizerState::AttributeName
            | TokenizerState::AfterAttributeName => self.step_attribute_name(c),
            TokenizerState::BeforeAttributeValue
            | TokenizerState::AttributeValueDoubleQuoted
            | TokenizerState::AttributeValueSingleQuoted
            | TokenizerState::AttributeValueUnQuoted
            | TokenizerState::AfterAttributeValueQuoted => self.step_attribute_value(c),
            _ => self.step_script(c),
        }
    }

    /// Pulls the next token. `Ok(None)` says that the input is used up. The
    /// token `Eof` says that the input ended inside a tag or inside script
    /// text; it comes once, and `Ok(None)` after it. An error says that a
    /// tag was malformed, and leaves nothing to pull.
    pub fn next(&mut self) -> (r: Result<Option<HtmlToken>, Error>)
        requires
            old(self).wf(),
        ensures
            final(self).wf(),
            final(self)@ == old(self)@.pull().0,
            pulled(r, old(self)@.pull().1),
    {
        if self.pos >= self.input.len() && !self.reconsume {
            return Ok(None);
        }
        let ghost start = self@;
        loop
            invariant
                self.wf(),
                self@.live(),
                start == old(self)@,
                !start.exhausted(),
                self@.run() == start.run(),
            decreases self@.measure(),
        {
            let ghost before = self@;
            let c = self.consume_next_character();
            let r = self.step(c);
            proof {
                lemma_transition(before);
            }
            match r {
                Pulled::Continue => {},
                Pulled::Emit(token) => {
                    return Ok(Some(token));
                },
                Pulled::Fail(k) => {
                    self.pos = self.input.len();
                    self.past_end = true;
                    self.reconsume = false;
                    let message = match k {
                        Malformed::AttributeOnEndTag => String::from_str(
                            "an end tag cannot have attributes",
                        ),
                        Malformed::SelfClosingEndTag => String::from_str(
                            "an end tag cannot be self-closing",
                        ),
                    };
                    return Err(Error::UnexpectedInput(message));
                },
            }
        }
    }
}

} // verus!
