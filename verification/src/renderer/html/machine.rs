//! The tokenizer as a state machine over mathematical values: its states,
//! its transitions, and what a pull of the next token amounts to.

use crate::renderer::html::html_tag_attribute::AttributeField;
use crate::renderer::html::token::{Malformed, Step, TokenModel, TokenizerState};
use crate::text::{ascii_lower, is_ascii_alpha};
use vstd::prelude::*;

verus! {

/// The tokenizer as a mathematical value. `pos` counts the characters
/// consumed so far and is `input.len() + 1` once the machine has read past
/// the end of the input.
pub struct TokenizerModel {
    pub state: TokenizerState,
    pub pos: nat,
    pub reconsume: bool,
    pub latest: Option<TokenModel>,
    pub input: Seq<char>,
    pub buf: Seq<char>,
}

impl TokenizerModel {
    /// The machine before its first pull on `input`.
    pub open spec fn initial(input: Seq<char>) -> TokenizerModel {
        TokenizerModel {
            state: TokenizerState::Data,
            pos: 0,
            reconsume: false,
            latest: None,
            input,
            buf: Seq::empty(),
        }
    }

    /// The pending token fits the state: tag states hold a tag, attribute
    /// states a start tag with an attribute, and the script end-tag state an
    /// end tag, which it enters with an empty buffer. The names in the
    /// pending token are in lower case.
    pub open spec fn wf(self) -> bool {
        &&& self.pos <= self.input.len() + 1
        &&& self.reconsume ==> self.pos >= 1
        &&& self.latest matches Some(t) ==> t.folded()
        &&& match self.state {
            TokenizerState::TagName
            | TokenizerState::BeforeAttributeName
            | TokenizerState::AfterAttributeName
            | TokenizerState::SelfClosingStartTag => self.latest is Some
                && self.latest.unwrap().is_tag(),
            TokenizerState::AttributeName
            | TokenizerState::BeforeAttributeValue
            | TokenizerState::AttributeValueDoubleQuoted
            | TokenizerState::AttributeValueSingleQuoted
            | TokenizerState::AttributeValueUnQuoted
            | TokenizerState::AfterAttributeValueQuoted => self.latest is Some
                && self.latest.unwrap().has_attribute(),
            TokenizerState::ScriptDataEndTagName => self.latest is Some
                && self.latest.unwrap() is EndTag,
            TokenizerState::ScriptDataEndTagOpen => self.buf.len() == 0,
            _ => true,
        }
    }

    /// The last character consumed, or `None` before the first and past the last.
    pub open spec fn current(self) -> Option<char> {
        if 1 <= self.pos <= self.input.len() {
            Some(self.input[self.pos - 1])
        } else {
            None
        }
    }

    /// No pull will consume anything more.
    pub open spec fn exhausted(self) -> bool {
        self.pos >= self.input.len() && !self.reconsume
    }

    /// There is a character to present, or a buffer to replay.
    pub open spec fn live(self) -> bool {
        self.reconsume || self.pos <= self.input.len() || self.state
            == TokenizerState::TemporaryBuffer
    }

    pub open spec fn to(self, state: TokenizerState) -> TokenizerModel {
        TokenizerModel { state, ..self }
    }

    /// Go to `state` and present the current character to it again.
    pub open spec fn reconsume_in(self, state: TokenizerState) -> TokenizerModel {
        TokenizerModel { state, reconsume: true, ..self }
    }

    pub open spec fn with_latest(self, t: TokenModel) -> TokenizerModel {
        TokenizerModel { latest: Some(t), ..self }
    }

    /// Hand out the pending token. After a start tag named `script` the
    /// machine reads script text, after any other tag ordinary data.
    pub open spec fn emit(self) -> (TokenizerModel, Step) {
        let t = self.latest.unwrap();
        let state = if t.opens_script() {
            TokenizerState::ScriptData
        } else {
            TokenizerState::Data
        };
        (TokenizerModel { state, latest: None, ..self }, Step::Emit(t))
    }

    /// Start a new attribute and present the current character to the
    /// attribute-name state; an end tag has no attributes.
    pub open spec fn start_attribute(self) -> (TokenizerModel, Step) {
        if self.latest is Some && self.latest.unwrap() is StartTag {
            (
                self.with_latest(self.latest.unwrap().new_attribute()).reconsume_in(
                    TokenizerState::AttributeName,
                ),
                Step::Continue,
            )
        } else {
            (self, Step::Fail(Malformed::AttributeOnEndTag))
        }
    }

    /// The next character that a state is presented with, and the machine
    /// that has consumed it: the current one again where a state asked for
    /// that, `None` past the end of the input.
    pub open spec fn fetch(self) -> (TokenizerModel, Option<char>) {
        let pos = if self.reconsume || self.pos > self.input.len() {
            self.pos
        } else {
            self.pos + 1
        };
        let m = TokenizerModel { pos, reconsume: false, ..self };
        (m, m.current())
    }
}


/// The transitions, one function for each state. Each takes the machine that
/// has just consumed `c` and gives the machine after the transition.
impl TokenizerModel {
    pub open spec fn in_data(self, c: Option<char>) -> (TokenizerModel, Step) {
        match c {
            Some(ch) => if ch == '<' {
                (self.to(TokenizerState::TagOpen), Step::Continue)
            } else {
                (self, Step::Emit(TokenModel::Char(ch)))
            },
            None => (self, Step::Emit(TokenModel::Eof)),
        }
    }

    pub open spec fn in_tag_open(self, c: Option<char>) -> (TokenizerModel, Step) {
        match c {
            Some(ch) => if ch == '/' {
                (self.to(TokenizerState::EndTagOpen), Step::Continue)
            } else if is_ascii_alpha(ch) {
                (
                    self.with_latest(
                        TokenModel::StartTag {
                            tag: Seq::empty(),
                            self_closing: false,
                            attributes: Seq::empty(),
                        },
                    ).reconsume_in(TokenizerState::TagName),
                    Step::Continue,
                )
            } else {
                (self.reconsume_in(TokenizerState::Data), Step::Continue)
            },
            None => (self, Step::Emit(TokenModel::Eof)),
        }
    }

    pub open spec fn in_end_tag_open(self, c: Option<char>) -> (TokenizerModel, Step) {
        match c {
            Some(ch) => if is_ascii_alpha(ch) {
                (
                    self.with_latest(TokenModel::EndTag { tag: Seq::empty() }).reconsume_in(
                        TokenizerState::TagName,
                    ),
                    Step::Continue,
                )
            } else {
                (self, Step::Continue)
            },
            None => (self, Step::Emit(TokenModel::Eof)),
        }
    }

    pub open spec fn in_tag_name(self, c: Option<char>) -> (TokenizerModel, Step) {
        match c {
            Some(ch) => if ch == ' ' {
                (self.to(TokenizerState::BeforeAttributeName), Step::Continue)
            } else if ch == '/' {
                (self.to(TokenizerState::SelfClosingStartTag), Step::Continue)
            } else if ch == '>' {
                self.emit()
            } else {
                (self.with_latest(self.latest.unwrap().push_tag(ascii_lower(ch))), Step::Continue)
            },
            None => (self, Step::Emit(TokenModel::Eof)),
        }
    }

    /// Before the name of an attribute spaces are skipped, however many
    /// there are.
    pub open spec fn in_before_attribute_name(self, c: Option<char>) -> (TokenizerModel, Step) {
        if c == Some(' ') {
            (self, Step::Continue)
        } else if c is None || c == Some('/') || c == Some('>') {
            (self.reconsume_in(TokenizerState::AfterAttributeName), Step::Continue)
        } else {
            self.start_attribute()
        }
    }

    pub open spec fn in_attribute_name(self, c: Option<char>) -> (TokenizerModel, Step) {
        match c {
            Some(ch) => if ch == ' ' || ch == '/' || ch == '>' {
                (self.reconsume_in(TokenizerState::AfterAttributeName), Step::Continue)
            } else if ch == '=' {
                (self.to(TokenizerState::BeforeAttributeValue), Step::Continue)
            } else {
                (
                    self.with_latest(
                        self.latest.unwrap().push_attribute(ascii_lower(ch), AttributeField::Name),
                    ),
                    Step::Continue,
                )
            },
            None => (self.reconsume_in(TokenizerState::AfterAttributeName), Step::Continue),
        }
    }

    pub open spec fn in_after_attribute_name(self, c: Option<char>) -> (TokenizerModel, Step) {
        match c {
            Some(ch) => if ch == ' ' {
                (self, Step::Continue)
            } else if ch == '/' {
                (self.to(TokenizerState::SelfClosingStartTag), Step::Continue)
            } else if ch == '=' {
                if self.latest.unwrap().has_attribute() {
                    (self.to(TokenizerState::BeforeAttributeValue), Step::Continue)
                } else {
                    (self, Step::Fail(Malformed::AttributeOnEndTag))
                }
            } else if ch == '>' {
                self.emit()
            } else {
                self.start_attribute()
            },
            None => (self, Step::Emit(TokenModel::Eof)),
        }
    }

    pub open spec fn in_before_attribute_value(self, c: Option<char>) -> (TokenizerModel, Step) {
        if c == Some(' ') {
            (self, Step::Continue)
        } else if c == Some('"') {
            (self.to(TokenizerState::AttributeValueDoubleQuoted), Step::Continue)
        } else if c == Some('\'') {
            (self.to(TokenizerState::AttributeValueSingleQuoted), Step::Continue)
        } else {
            (self.reconsume_in(TokenizerState::AttributeValueUnQuoted), Step::Continue)
        }
    }

    /// Inside a quoted attribute value that `quote` closes.
    pub open spec fn in_attribute_value_quoted(self, c: Option<char>, quote: char) -> (
        TokenizerModel,
        Step,
    ) {
        match c {
            Some(ch) => if ch == quote {
                (self.to(TokenizerState::AfterAttributeValueQuoted), Step::Continue)
            } else {
                (
                    self.with_latest(self.latest.unwrap().push_attribute(ch, AttributeField::Value)),
                    Step::Continue,
                )
            },
            None => (self, Step::Emit(TokenModel::Eof)),
        }
    }

    pub open spec fn in_attribute_value_unquoted(self, c: Option<char>) -> (TokenizerModel, Step) {
        match c {
            Some(ch) => if ch == ' ' {
                (self.to(TokenizerState::BeforeAttributeName), Step::Continue)
            } else if ch == '>' {
                self.emit()
            } else {
                (
                    self.with_latest(self.latest.unwrap().push_attribute(ch, AttributeField::Value)),
                    Step::Continue,
                )
            },
            None => (self, Step::Emit(TokenModel::Eof)),
        }
    }

    pub open spec fn in_after_attribute_value_quoted(self, c: Option<char>) -> (
        TokenizerModel,
        Step,
    ) {
        match c {
            Some(ch) => if ch == ' ' {
                (self.to(TokenizerState::BeforeAttributeName), Step::Continue)
            } else if ch == '/' {
                (self.to(TokenizerState::SelfClosingStartTag), Step::Continue)
            } else if ch == '>' {
                self.emit()
            } else {
                (self.reconsume_in(TokenizerState::BeforeAttributeName), Step::Continue)
            },
            None => (self, Step::Emit(TokenModel::Eof)),
        }
    }

    pub open spec fn in_self_closing_start_tag(self, c: Option<char>) -> (TokenizerModel, Step) {
        match c {
            Some(ch) => if ch == '>' {
                if self.latest.unwrap() is StartTag {
                    self.with_latest(self.latest.unwrap().closing()).emit()
                } else {
                    (self, Step::Fail(Malformed::SelfClosingEndTag))
                }
            } else {
                (self, Step::Continue)
            },
            None => (self, Step::Emit(TokenModel::Eof)),
        }
    }

    pub open spec fn in_script_data(self, c: Option<char>) -> (TokenizerModel, Step) {
        match c {
            Some(ch) => if ch == '<' {
                (self.to(TokenizerState::ScriptDataLessThanSign), Step::Continue)
            } else {
                (self, Step::Emit(TokenModel::Char(ch)))
            },
            None => (self, Step::Emit(TokenModel::Eof)),
        }
    }

    pub open spec fn in_script_data_less_than_sign(self, c: Option<char>) -> (
        TokenizerModel,
        Step,
    ) {
        if c == Some('/') {
            (
                TokenizerModel {
                    state: TokenizerState::ScriptDataEndTagOpen,
                    buf: Seq::empty(),
                    ..self
                },
                Step::Continue,
            )
        } else {
            (self.reconsume_in(TokenizerState::ScriptData), Step::Emit(TokenModel::Char('<')))
        }
    }

    pub open spec fn in_script_data_end_tag_open(self, c: Option<char>) -> (TokenizerModel, Step) {
        if c is Some && is_ascii_alpha(c.unwrap()) {
            (
                self.with_latest(TokenModel::EndTag { tag: Seq::empty() }).reconsume_in(
                    TokenizerState::ScriptDataEndTagName,
                ),
                Step::Continue,
            )
        } else {
            (
                TokenizerModel {
                    state: TokenizerState::TemporaryBuffer,
                    reconsume: true,
                    buf: seq!['<', '/'],
                    ..self
                },
                Step::Continue,
            )
        }
    }

    pub open spec fn in_script_data_end_tag_name(self, c: Option<char>) -> (TokenizerModel, Step) {
        match c {
            Some(ch) => if ch == '>' {
                self.emit()
            } else if is_ascii_alpha(ch) {
                (
                    TokenizerModel {
                        latest: Some(self.latest.unwrap().push_tag(ascii_lower(ch))),
                        buf: self.buf.push(ch),
                        ..self
                    },
                    Step::Continue,
                )
            } else {
                (
                    TokenizerModel {
                        state: TokenizerState::TemporaryBuffer,
                        buf: (seq!['<', '/'] + self.buf).push(ch),
                        ..self
                    },
                    Step::Continue,
                )
            },
            None => (
                TokenizerModel {
                    state: TokenizerState::TemporaryBuffer,
                    buf: seq!['<', '/'] + self.buf,
                    ..self
                },
                Step::Continue,
            ),
        }
    }

    /// Replays the buffer one character a pull; the character consumed on
    /// the way in is kept for the script-data state.
    pub open spec fn in_temporary_buffer(self, c: Option<char>) -> (TokenizerModel, Step) {
        if self.buf.len() == 0 {
            (self.reconsume_in(TokenizerState::ScriptData), Step::Continue)
        } else {
            (
                TokenizerModel { reconsume: true, buf: self.buf.drop_first(), ..self },
                Step::Emit(TokenModel::Char(self.buf[0])),
            )
        }
    }

    /// One transition: what the state the machine is in does with `c`.
    pub open spec fn transition(self, c: Option<char>) -> (TokenizerModel, Step) {
        match self.state {
            TokenizerState::Data => self.in_data(c),
            TokenizerState::TagOpen => self.in_tag_open(c),
            TokenizerState::EndTagOpen => self.in_end_tag_open(c),
            TokenizerState::TagName => self.in_tag_name(c),
            TokenizerState::BeforeAttributeName => self.in_before_attribute_name(c),
            TokenizerState::AttributeName => self.in_attribute_name(c),
            TokenizerState::AfterAttributeName => self.in_after_attribute_name(c),
            TokenizerState::BeforeAttributeValue => self.in_before_attribute_value(c),
            TokenizerState::AttributeValueDoubleQuoted => self.in_attribute_value_quoted(c, '"'),
            TokenizerState::AttributeValueSingleQuoted => self.in_attribute_value_quoted(c, '\''),
            TokenizerState::AttributeValueUnQuoted => self.in_attribute_value_unquoted(c),
            TokenizerState::AfterAttributeValueQuoted => self.in_after_attribute_value_quoted(c),
            TokenizerState::SelfClosingStartTag => self.in_self_closing_start_tag(c),
            TokenizerState::ScriptData => self.in_script_data(c),
            TokenizerState::ScriptDataLessThanSign => self.in_script_data_less_than_sign(c),
            TokenizerState::ScriptDataEndTagOpen => self.in_script_data_end_tag_open(c),
            TokenizerState::ScriptDataEndTagName => self.in_script_data_end_tag_name(c),
            TokenizerState::TemporaryBuffer => self.in_temporary_buffer(c),
        }
    }

    /// Orders the states by how many transitions can follow one another on
    /// the same character.
    pub open spec fn rank(self) -> nat {
        let c = self.current();
        match self.state {
            TokenizerState::TagOpen
            | TokenizerState::EndTagOpen
            | TokenizerState::BeforeAttributeValue
            | TokenizerState::ScriptDataLessThanSign
            | TokenizerState::TemporaryBuffer => 1,
            TokenizerState::BeforeAttributeName => 2,
            TokenizerState::AfterAttributeValueQuoted => 3,
            TokenizerState::ScriptDataEndTagName => 8,
            TokenizerState::ScriptDataEndTagOpen => 10,
            TokenizerState::AttributeName => if c is None || c == Some(' ') || c == Some('/') || c
                == Some('>') {
                1
            } else {
                0
            },
            TokenizerState::AfterAttributeName => if c is None || c == Some(' ') || c == Some('/')
                || c == Some('=') || c == Some('>') {
                0
            } else {
                1
            },
            _ => 0,
        }
    }

    /// What bounds the work left in this machine: every transition that
    /// does not fail makes it smaller. It counts the characters not yet
    /// consumed, the buffered characters not yet replayed, and the
    /// transitions that can still follow on the current character.
    pub open spec fn measure(self) -> nat {
        let left = (self.input.len() + 1 - self.pos) as nat;
        let buffered = if self.state == TokenizerState::ScriptDataEndTagName || self.state
            == TokenizerState::TemporaryBuffer {
            2 * self.buf.len()
        } else {
            0
        };
        let again: nat = if self.reconsume {
            1
        } else {
            0
        };
        if self.reconsume || self.pos > self.input.len() {
            32 * left + buffered + 1 + 2 * self.rank() + again
        } else {
            32 * left + buffered
        }
    }

    /// The machine after input that it has no transition for: nothing is
    /// left to pull.
    pub open spec fn finished(self) -> TokenizerModel {
        TokenizerModel { pos: self.input.len() + 1, reconsume: false, ..self }
    }

    /// Transitions up to the first that emits a token or fails.
    pub open spec fn run(self) -> (TokenizerModel, Result<Option<TokenModel>, Malformed>)
        decreases self.measure(),
    {
        let (consumed, c) = self.fetch();
        let (after, step) = consumed.transition(c);
        match step {
            Step::Continue => if after.measure() < self.measure() {
                after.run()
            } else {
                (after, Ok(None))
            },
            Step::Emit(t) => (after, Ok(Some(t))),
            Step::Fail(k) => (after.finished(), Err(k)),
        }
    }

    /// One pull. A machine that has consumed its input, and holds no
    /// character to present again, gives `Ok(None)`. From any other machine
    /// transitions follow one another up to the first that emits a token or
    /// fails. The token `Eof` is what a state emits that reaches for a
    /// character and finds the input at its end: it comes where the input
    /// ends inside a tag or inside script text.
    pub open spec fn pull(self) -> (TokenizerModel, Result<Option<TokenModel>, Malformed>) {
        if self.exhausted() {
            (self, Ok(None))
        } else {
            self.run()
        }
    }
}

/// A transition keeps the machine well formed, and unless it fails it
/// brings the machine nearer to its end.
pub proof fn lemma_transition(m: TokenizerModel)
    requires
        m.wf(),
        m.live(),
    ensures
        m.fetch().0.transition(m.fetch().1).0.wf(),
        !(m.fetch().0.transition(m.fetch().1).1 is Fail) ==> m.fetch().0.transition(
            m.fetch().1,
        ).0.measure() < m.measure(),
        m.fetch().0.transition(m.fetch().1).1 is Continue ==> m.fetch().0.transition(
            m.fetch().1,
        ).0.live(),
{
}

/// A pull keeps the machine well formed, and one that hands out a token
/// brings the machine nearer to its end.
pub proof fn lemma_run(m: TokenizerModel)
    requires
        m.wf(),
        m.live(),
    ensures
        m.run().0.wf(),
        m.run().1 is Ok ==> m.run().0.measure() < m.measure(),
        m.run().1 is Ok ==> m.run().1 != Ok::<Option<TokenModel>, Malformed>(None),
    decreases m.measure(),
{
    lemma_transition(m);
    let (consumed, c) = m.fetch();
    let (after, step) = consumed.transition(c);
    if step is Continue {
        lemma_run(after);
    }
}

/// The tokens that the machine hands out from here on, up to the end of
/// its input or to the first malformed tag.
pub open spec fn tokens_of(m: TokenizerModel) -> Seq<TokenModel>
    decreases m.measure(),
{
    if m.exhausted() {
        Seq::empty()
    } else {
        match m.run().1 {
            Ok(Some(t)) => if m.run().0.measure() < m.measure() {
                seq![t] + tokens_of(m.run().0)
            } else {
                seq![t]
            },
            _ => Seq::empty(),
        }
    }
}

/// The token `Eof` comes at most once, and as the last token.
pub proof fn lemma_eof_ends_the_tokens(m: TokenizerModel)
    requires
        m.wf(),
    ensures
        forall|i: int|
            0 <= i < tokens_of(m).len() && (#[trigger] tokens_of(m)[i]) is Eof ==> i
                == tokens_of(m).len() - 1,
    decreases m.measure(),
{
    if !m.exhausted() {
        lemma_run(m);
        if m.run().1 is Ok {
            let first = m.run().1->Ok_0.unwrap();
            let rest = tokens_of(m.run().0);
            assert(tokens_of(m) == seq![first] + rest);
            if first is Eof {
                lemma_eof_is_last(m);
            } else {
                lemma_eof_ends_the_tokens(m.run().0);
                assert forall|i: int|
                    0 <= i < tokens_of(m).len() && (#[trigger] tokens_of(m)[i]) is Eof implies i
                    == tokens_of(m).len() - 1 by {
                    assert(tokens_of(m)[i] == rest[i - 1]);
                }
            }
        }
    }
}

/// Every tag that the machine hands out has its name and the names of its
/// attributes in lower case.
pub proof fn lemma_names_are_folded(m: TokenizerModel)
    requires
        m.wf(),
        m.live(),
    ensures
        m.run().1 matches Ok(Some(t)) ==> t.folded(),
    decreases m.measure(),
{
    lemma_transition(m);
    let (consumed, c) = m.fetch();
    let (after, step) = consumed.transition(c);
    if step is Continue {
        lemma_names_are_folded(after);
    }
}

/// Every tag among the tokens of a machine has its name and the names of
/// its attributes in lower case.
pub proof fn lemma_tokens_are_folded(m: TokenizerModel)
    requires
        m.wf(),
    ensures
        forall|i: int| 0 <= i < tokens_of(m).len() ==> (#[trigger] tokens_of(m)[i]).folded(),
    decreases m.measure(),
{
    if !m.exhausted() {
        lemma_names_are_folded(m);
        lemma_run(m);
        if m.run().1 is Ok {
            let first = m.run().1->Ok_0.unwrap();
            let rest = tokens_of(m.run().0);
            lemma_tokens_are_folded(m.run().0);
            assert(tokens_of(m) == seq![first] + rest);
            assert forall|i: int| 0 <= i < tokens_of(m).len() implies (#[trigger] tokens_of(
                m,
            )[i]).folded() by {
                if i > 0 {
                    assert(tokens_of(m)[i] == rest[i - 1]);
                }
            }
        }
    }
}

/// After the token `Eof`, and after malformed input, nothing is left to
/// pull: every later pull gives `Ok(None)` and leaves the machine as it is.
pub proof fn lemma_eof_is_last(m: TokenizerModel)
    requires
        m.wf(),
        m.live(),
        m.run().1 == Ok::<Option<TokenModel>, Malformed>(Some(TokenModel::Eof)) || m.run().1 is Err,
    ensures
        m.run().0.exhausted(),
        m.run().0.pull() == (m.run().0, Ok::<Option<TokenModel>, Malformed>(None)),
    decreases m.measure(),
{
    lemma_transition(m);
    let (consumed, c) = m.fetch();
    let (after, step) = consumed.transition(c);
    if step is Continue {
        lemma_eof_is_last(after);
    }
}

} // verus!
