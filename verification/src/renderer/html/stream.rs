//! What holds of every token stream: it depends on the state of the
//! machine and on the characters left to read alone; a space more where
//! spaces are skipped changes nothing; text comes out character by
//! character, and a tag of letters as one tag with its name in lower case.

use crate::renderer::html::html_tag_attribute::{attribute_with, AttributeField};
use crate::renderer::html::machine::{
    lemma_run, lemma_transition, tokens_of, TokenizerModel,
};
use crate::renderer::html::token::{Malformed, Step, TokenModel, TokenizerState};
use crate::text::{ascii_lower, is_ascii_alpha};
use vstd::prelude::*;

verus! {

/// The characters that the machine has not consumed yet.
pub open spec fn unread(m: TokenizerModel) -> Seq<char> {
    if m.pos <= m.input.len() {
        m.input.skip(m.pos as int)
    } else {
        Seq::empty()
    }
}

/// Two machines are in the same state and have the same characters left
/// to read; what they have read before may differ.
pub open spec fn agree(a: TokenizerModel, b: TokenizerModel) -> bool {
    &&& a.state == b.state
    &&& a.reconsume == b.reconsume
    &&& a.latest == b.latest
    &&& a.buf == b.buf
    &&& unread(a) == unread(b)
    &&& (a.pos > a.input.len()) == (b.pos > b.input.len())
    &&& a.reconsume ==> a.current() == b.current()
}

/// Machines that agree make the same transition and agree after it.
pub proof fn lemma_agree_transition(a: TokenizerModel, b: TokenizerModel)
    requires
        a.wf(),
        b.wf(),
        agree(a, b),
    ensures
        a.fetch().1 == b.fetch().1,
        a.fetch().0.transition(a.fetch().1).1 == b.fetch().0.transition(b.fetch().1).1,
        agree(a.fetch().0.transition(a.fetch().1).0, b.fetch().0.transition(b.fetch().1).0),
{
    let (a1, ca) = a.fetch();
    let (b1, cb) = b.fetch();
    assert(unread(a).len() == unread(b).len());
    if !a.reconsume && a.pos < a.input.len() {
        assert(unread(a)[0] == a.input[a.pos as int]);
        assert(unread(b)[0] == b.input[b.pos as int]);
        assert(unread(a1) =~= unread(a).skip(1));
        assert(unread(b1) =~= unread(b).skip(1));
    } else {
        assert(unread(a1) =~= unread(a));
        assert(unread(b1) =~= unread(b));
    }
    assert(ca == cb);
}

/// Machines that agree hand out the same token and agree after it.
pub proof fn lemma_agree_run(a: TokenizerModel, b: TokenizerModel)
    requires
        a.wf(),
        b.wf(),
        a.live(),
        agree(a, b),
    ensures
        a.run().1 == b.run().1,
        agree(a.run().0, b.run().0),
    decreases a.measure(),
{
    lemma_agree_transition(a, b);
    lemma_transition(a);
    lemma_transition(b);
    let (a1, c) = a.fetch();
    let (a2, step) = a1.transition(c);
    let (b2, _) = b.fetch().0.transition(c);
    if step is Continue {
        lemma_agree_run(a2, b2);
    } else if step is Fail {
        assert(unread(a2.finished()) =~= unread(b2.finished()));
    }
}

/// The tokens that a machine hands out depend on its state and on the
/// characters that it has yet to read, and on nothing else.
pub proof fn lemma_agree_tokens(a: TokenizerModel, b: TokenizerModel)
    requires
        a.wf(),
        b.wf(),
        agree(a, b),
    ensures
        tokens_of(a) == tokens_of(b),
    decreases a.measure(),
{
    assert(unread(a).len() == unread(b).len());
    if !a.exhausted() {
        lemma_agree_run(a, b);
        lemma_run(a);
        lemma_run(b);
        if a.run().1 is Ok {
            lemma_agree_tokens(a.run().0, b.run().0);
        }
    }
}

/// The machine `m` with the character `c` put into its input at the
/// position where it reads next.
pub open spec fn with_inserted(m: TokenizerModel, c: char) -> TokenizerModel {
    TokenizerModel {
        input: m.input.take(m.pos as int).push(c) + m.input.skip(m.pos as int),
        ..m
    }
}

/// The machine stands where spaces are skipped: before the name of an
/// attribute, between the name and its `=`, or between the `=` and the
/// value.
pub open spec fn skips_spaces(state: TokenizerState) -> bool {
    state == TokenizerState::BeforeAttributeName || state == TokenizerState::AfterAttributeName
        || state == TokenizerState::BeforeAttributeValue
}

/// Before the name of an attribute, between the name and its `=`, and
/// between the `=` and the value, one space more changes no token: the
/// tokens with a space put in at such a place are the tokens without it.
pub proof fn lemma_space_is_skipped(m: TokenizerModel)
    requires
        m.wf(),
        !m.reconsume,
        m.pos < m.input.len(),
        skips_spaces(m.state),
    ensures
        tokens_of(with_inserted(m, ' ')) == tokens_of(m),
        with_inserted(m, ' ').run().1 == m.run().1,
        m.run().1 is Ok ==> tokens_of(with_inserted(m, ' ').run().0) == tokens_of(m.run().0),
{
    let spaced = with_inserted(m, ' ');
    assert(spaced.input[m.pos as int] == ' ');
    let (consumed, c) = spaced.fetch();
    assert(c == Some(' '));
    let (after, step) = consumed.transition(c);
    assert(step is Continue);
    assert(after == TokenizerModel { pos: m.pos + 1, ..spaced });
    assert(unread(after) =~= unread(m));
    assert(agree(after, m));
    lemma_transition(spaced);
    lemma_agree_run(after, m);
    lemma_run(spaced);
    lemma_run(m);
    assert(spaced.run() == after.run());
    if m.run().1 is Ok {
        lemma_agree_tokens(spaced.run().0, m.run().0);
    }
}

impl TokenizerModel {
    /// The machine after one transition, whether it emitted a token or not.
    pub open spec fn stepped(self) -> TokenizerModel {
        let (consumed, c) = self.fetch();
        let (after, step) = consumed.transition(c);
        if step is Fail {
            after.finished()
        } else {
            after
        }
    }

    /// The machine after `k` transitions.
    pub open spec fn stepped_by(self, k: nat) -> TokenizerModel
        decreases k,
    {
        if k == 0 {
            self
        } else {
            self.stepped().stepped_by((k - 1) as nat)
        }
    }

    /// The tokens that the next `k` transitions emit.
    pub open spec fn emitted_by(self, k: nat) -> Seq<TokenModel>
        decreases k,
    {
        if k == 0 {
            Seq::empty()
        } else {
            let (consumed, c) = self.fetch();
            let first = match consumed.transition(c).1 {
                Step::Emit(t) => seq![t],
                _ => Seq::empty(),
            };
            first + self.stepped().emitted_by((k - 1) as nat)
        }
    }

    /// The tokens that the machine hands out when it goes on from where it
    /// is, in the middle of a pull or at the start of one.
    pub open spec fn stream(self) -> Seq<TokenModel> {
        match self.run().1 {
            Ok(Some(t)) => if self.run().0.measure() < self.measure() {
                seq![t] + tokens_of(self.run().0)
            } else {
                seq![t]
            },
            _ => Seq::empty(),
        }
    }
}

/// Two machines are in the same state at the same position; their inputs
/// may differ.
pub open spec fn same_state(a: TokenizerModel, b: TokenizerModel) -> bool {
    &&& a.state == b.state
    &&& a.pos == b.pos
    &&& a.reconsume == b.reconsume
    &&& a.latest == b.latest
    &&& a.buf == b.buf
}

/// A transition keeps the input, does not go back in it, and keeps the
/// machine well formed.
pub proof fn lemma_stepped(m: TokenizerModel)
    requires
        m.wf(),
    ensures
        m.stepped().wf(),
        m.stepped().input == m.input,
        m.pos <= m.stepped().pos,
{
}

/// Transitions keep the input, do not go back in it, and keep the machine
/// well formed.
pub proof fn lemma_stepped_by(m: TokenizerModel, k: nat)
    requires
        m.wf(),
    ensures
        m.stepped_by(k).wf(),
        m.stepped_by(k).input == m.input,
        m.pos <= m.stepped_by(k).pos,
    decreases k,
{
    if k > 0 {
        lemma_stepped(m);
        lemma_stepped_by(m.stepped(), (k - 1) as nat);
    }
}

/// The tokens from a machine on are those that its next `k` transitions
/// emit and then those from the machine after them on, as long as that
/// machine has input left.
pub proof fn lemma_stream_after(m: TokenizerModel, k: nat)
    requires
        m.wf(),
        m.live(),
        m.stepped_by(k).pos < m.input.len(),
    ensures
        m.stream() == m.emitted_by(k) + m.stepped_by(k).stream(),
    decreases k,
{
    if k == 0 {
        assert(Seq::<TokenModel>::empty() + m.stream() =~= m.stream());
    } else {
        let next = m.stepped();
        let (consumed, c) = m.fetch();
        let (after, step) = consumed.transition(c);
        lemma_transition(m);
        lemma_stepped(m);
        lemma_stepped_by(next, (k - 1) as nat);
        lemma_run(m);
        lemma_stream_after(next, (k - 1) as nat);
        lemma_run(next);
        let emitted = next.emitted_by((k - 1) as nat);
        let rest = next.stepped_by((k - 1) as nat).stream();
        assert(m.stepped_by(k) == next.stepped_by((k - 1) as nat));
        assert(next.stream() == emitted + rest);
        match step {
            Step::Continue => {
                assert(m.run() == next.run());
                assert(m.stream() == next.stream());
                assert(m.emitted_by(k) =~= emitted);
            },
            Step::Emit(t) => {
                assert(m.run() == (next, Ok::<Option<TokenModel>, Malformed>(Some(t))));
                assert(!next.exhausted());
                assert(tokens_of(next) == next.stream());
                assert(m.stream() == seq![t] + next.stream());
                assert(m.emitted_by(k) == seq![t] + emitted);
                assert(seq![t] + (emitted + rest) =~= (seq![t] + emitted) + rest);
            },
            Step::Fail(_) => {},
        }
    }
}

/// Two machines in the same state whose inputs are the same up to index
/// `upto` make the same transitions and emit the same tokens until one of
/// them reads beyond that index.
pub proof fn lemma_same_until(a: TokenizerModel, b: TokenizerModel, upto: int, k: nat)
    requires
        a.wf(),
        b.wf(),
        same_state(a, b),
        0 <= upto <= a.input.len(),
        upto <= b.input.len(),
        a.input.take(upto) == b.input.take(upto),
        a.stepped_by(k).pos <= upto,
    ensures
        same_state(a.stepped_by(k), b.stepped_by(k)),
        a.emitted_by(k) == b.emitted_by(k),
    decreases k,
{
    if k > 0 {
        lemma_stepped(a);
        lemma_stepped(b);
        lemma_stepped_by(a.stepped(), (k - 1) as nat);
        let (a1, ca) = a.fetch();
        let (b1, cb) = b.fetch();
        assert(a1.pos <= upto) by {
            assert(a1.pos == a.stepped().pos);
        }
        if 1 <= a1.pos {
            assert(a.input.take(upto)[a1.pos - 1] == a.input[a1.pos - 1]);
            assert(b.input.take(upto)[a1.pos - 1] == b.input[a1.pos - 1]);
        }
        assert(ca == cb);
        assert(same_state(a.stepped(), b.stepped()));
        lemma_same_until(a.stepped(), b.stepped(), upto, (k - 1) as nat);
    }
}

/// Where the tokenizer skips spaces, a run of spaces may be as long as it
/// likes. Let the machine that reads `before + after` stand, after `k`
/// transitions, in front of `after`, before the name of an attribute,
/// between the name and its `=`, or between the `=` and the value. Then one
/// space more at that place changes no token.
pub proof fn lemma_one_space_more(before: Seq<char>, after: Seq<char>, k: nat)
    requires
        after.len() > 0,
        ({
            let m = TokenizerModel::initial(before + after).stepped_by(k);
            &&& m.pos == before.len()
            &&& !m.reconsume
            &&& skips_spaces(m.state)
        }),
    ensures
        tokens_of(TokenizerModel::initial(before.push(' ') + after)) == tokens_of(
            TokenizerModel::initial(before + after),
        ),
{
    let plain = TokenizerModel::initial(before + after);
    let spaced = TokenizerModel::initial(before.push(' ') + after);
    let upto = before.len() as int;
    assert(plain.input.take(upto) =~= before);
    assert(spaced.input.take(upto) =~= before);
    lemma_stepped_by(plain, k);
    lemma_stepped_by(spaced, k);
    lemma_same_until(plain, spaced, upto, k);
    let m = plain.stepped_by(k);
    let n = spaced.stepped_by(k);
    assert(n == with_inserted(m, ' ')) by {
        assert(m.input.take(m.pos as int) =~= before);
        assert(m.input.skip(m.pos as int) =~= after);
        assert(n.input =~= m.input.take(m.pos as int).push(' ') + m.input.skip(m.pos as int));
    }
    lemma_stream_after(plain, k);
    lemma_stream_after(spaced, k);
    lemma_space_is_skipped(m);
    lemma_run(m);
    lemma_run(n);
    assert(n.stream() == m.stream());
}

/// The attributes of a tag stand in the order in which they were read: a
/// transition leaves the attributes before the last one as they are, and
/// changes the last one, if at all, by one character more at the end of its
/// name or of its value. A new attribute comes after those that are there.
pub proof fn lemma_attributes_keep_order(m: TokenizerModel, c: Option<char>)
    requires
        m.wf(),
        m.state != TokenizerState::TagOpen,
        m.state != TokenizerState::EndTagOpen,
        m.state != TokenizerState::ScriptDataEndTagOpen,
        m.latest matches Some(TokenModel::StartTag { .. }),
        m.transition(c).0.latest is Some,
    ensures
        m.transition(c).0.latest.unwrap() matches TokenModel::StartTag { attributes, .. } && {
            let before = m.latest.unwrap()->StartTag_attributes;
            &&& before.len() <= attributes.len() <= before.len() + 1
            &&& forall|i: int| 0 <= i < before.len() - 1 ==> attributes[i] == before[i]
            &&& before.len() > 0 ==> {
                let old = before.last();
                let new = attributes[before.len() - 1];
                ||| new == old
                ||| exists|x: char| new == (old.0.push(x), old.1)
                ||| exists|x: char| new == (old.0, old.1.push(x))
            }
        },
{
    let before = m.latest.unwrap()->StartTag_attributes;
    let after = m.transition(c).0.latest.unwrap();
    if before.len() > 0 && c is Some {
        let old = before.last();
        let x = c.unwrap();
        let lower = ascii_lower(x);
        assert(attribute_with(old, lower, AttributeField::Name) == (old.0.push(lower), old.1));
        assert(attribute_with(old, x, AttributeField::Value) == (old.0, old.1.push(x)));
    }
}

/// One character token for each character of `s`, in their order.
pub open spec fn characters(s: Seq<char>) -> Seq<TokenModel>
    decreases s.len(),
{
    if s.len() == 0 {
        Seq::empty()
    } else {
        seq![TokenModel::Char(s[0])] + characters(s.skip(1))
    }
}

/// Text without a `<`, be it ordinary text or the text of a script, comes
/// out as one character token for each of its characters, in their order,
/// and nothing else.
pub proof fn lemma_text_is_characters(m: TokenizerModel)
    requires
        m.wf(),
        m.state == TokenizerState::Data || m.state == TokenizerState::ScriptData,
        !m.reconsume,
        forall|i: int| 0 <= i < unread(m).len() ==> unread(m)[i] != '<',
    ensures
        tokens_of(m) == characters(unread(m)),
    decreases m.measure(),
{
    if !m.exhausted() {
        let c = m.input[m.pos as int];
        assert(unread(m)[0] == c);
        let next = TokenizerModel { pos: m.pos + 1, ..m };
        assert(m.run() == (next, Ok::<Option<TokenModel>, Malformed>(Some(TokenModel::Char(c)))));
        lemma_run(m);
        assert(unread(next) =~= unread(m).skip(1));
        assert forall|i: int| 0 <= i < unread(next).len() implies unread(next)[i] != '<' by {
            assert(unread(next)[i] == unread(m)[i + 1]);
        }
        lemma_text_is_characters(next);
    }
}

/// `s` with its upper-case ASCII letters in lower case.
pub open spec fn lowered(s: Seq<char>) -> Seq<char>
    decreases s.len(),
{
    if s.len() == 0 {
        Seq::empty()
    } else {
        seq![ascii_lower(s[0])] + lowered(s.skip(1))
    }
}

/// The tag `t` with `more` appended to its name.
pub open spec fn named_on(t: TokenModel, more: Seq<char>) -> TokenModel {
    match t {
        TokenModel::StartTag { tag, self_closing, attributes } => TokenModel::StartTag {
            tag: tag + more,
            self_closing,
            attributes,
        },
        TokenModel::EndTag { tag } => TokenModel::EndTag { tag: tag + more },
        t => t,
    }
}

/// `name` stands in the input of `m` where `m` reads next, and `>` after it.
pub open spec fn reads_name(m: TokenizerModel, name: Seq<char>) -> bool {
    &&& m.pos + name.len() < m.input.len()
    &&& forall|i: int| 0 <= i < name.len() ==> m.input[m.pos + i] == #[trigger] name[i]
    &&& m.input[(m.pos + name.len()) as int] == '>'
}

/// The machine that has handed out the tag `t` whose `>` stood at index
/// `pos - 1`.
pub open spec fn after_tag(m: TokenizerModel, t: TokenModel, pos: nat) -> TokenizerModel {
    TokenizerModel {
        state: if t.opens_script() {
            TokenizerState::ScriptData
        } else {
            TokenizerState::Data
        },
        pos,
        reconsume: false,
        latest: None,
        ..m
    }
}

/// In the name of a tag, letters up to a `>` are the rest of the name, in
/// lower case, and the `>` hands out the tag.
pub proof fn lemma_name_is_read(m: TokenizerModel, name: Seq<char>)
    requires
        m.wf(),
        m.state == TokenizerState::TagName,
        !m.reconsume,
        forall|i: int| 0 <= i < name.len() ==> is_ascii_alpha(#[trigger] name[i]),
        reads_name(m, name),
    ensures
        m.run() == (
            after_tag(
                m,
                named_on(m.latest.unwrap(), lowered(name)),
                m.pos + name.len() + 1,
            ),
            Ok::<Option<TokenModel>, Malformed>(
                Some(named_on(m.latest.unwrap(), lowered(name))),
            ),
        ),
    decreases name.len(),
{
    let t = m.latest.unwrap();
    lemma_transition(m);
    if name.len() == 0 {
        assert(lowered(name) =~= Seq::empty());
        match t {
            TokenModel::StartTag { tag, self_closing, attributes } => {
                assert(tag + lowered(name) =~= tag);
            },
            TokenModel::EndTag { tag } => {
                assert(tag + lowered(name) =~= tag);
            },
            _ => {},
        }
    } else {
        let c = name[0];
        assert(m.input[m.pos as int] == c);
        assert(is_ascii_alpha(c));
        let next = TokenizerModel {
            pos: m.pos + 1,
            latest: Some(t.push_tag(ascii_lower(c))),
            ..m
        };
        let rest = name.skip(1);
        assert forall|i: int| 0 <= i < rest.len() implies is_ascii_alpha(#[trigger] rest[i]) by {
            assert(rest[i] == name[i + 1]);
        }
        assert(reads_name(next, rest)) by {
            assert forall|i: int| 0 <= i < rest.len() implies next.input[next.pos + i]
                == #[trigger] rest[i] by {
                assert(rest[i] == name[i + 1]);
            }
        }
        lemma_name_is_read(next, rest);
        assert(m.run() == next.run());
        let pushed = t.push_tag(ascii_lower(c));
        assert(named_on(pushed, lowered(rest)) == named_on(t, lowered(name))) by {
            match t {
                TokenModel::StartTag { tag, self_closing, attributes } => {
                    assert(tag.push(ascii_lower(c)) + lowered(rest) =~= tag + lowered(name));
                },
                TokenModel::EndTag { tag } => {
                    assert(tag.push(ascii_lower(c)) + lowered(rest) =~= tag + lowered(name));
                },
                _ => {},
            }
        }
    }
}

/// A start tag without attributes: `<`, letters and `>` in ordinary text
/// are handed out as one start tag that has the letters in lower case as
/// its name.
pub proof fn lemma_start_tag(m: TokenizerModel, name: Seq<char>)
    requires
        m.wf(),
        m.state == TokenizerState::Data,
        !m.reconsume,
        name.len() > 0,
        forall|i: int| 0 <= i < name.len() ==> is_ascii_alpha(#[trigger] name[i]),
        m.pos < m.input.len(),
        m.input[m.pos as int] == '<',
        reads_name(TokenizerModel { pos: m.pos + 1, ..m }, name),
    ensures
        ({
            let tag = TokenModel::StartTag {
                tag: lowered(name),
                self_closing: false,
                attributes: Seq::empty(),
            };
            m.run() == (
                after_tag(m, tag, m.pos + name.len() + 2),
                Ok::<Option<TokenModel>, Malformed>(Some(tag)),
            )
        }),
{
    let opened = TokenizerModel { state: TokenizerState::TagOpen, pos: m.pos + 1, ..m };
    lemma_transition(m);
    assert(m.run() == opened.run());
    let empty = TokenModel::StartTag {
        tag: Seq::empty(),
        self_closing: false,
        attributes: Seq::empty(),
    };
    assert(opened.input[opened.pos as int] == name[0]);
    let named = TokenizerModel {
        state: TokenizerState::TagName,
        pos: m.pos + 2,
        reconsume: true,
        latest: Some(empty),
        ..m
    };
    lemma_transition(opened);
    assert(opened.run() == named.run());
    let first = TokenizerModel {
        reconsume: false,
        latest: Some(empty.push_tag(ascii_lower(name[0]))),
        ..named
    };
    lemma_transition(named);
    assert(named.current() == Some(name[0]));
    assert(named.run() == first.run());
    let rest = name.skip(1);
    assert forall|i: int| 0 <= i < rest.len() implies is_ascii_alpha(#[trigger] rest[i]) by {
        assert(rest[i] == name[i + 1]);
    }
    assert(reads_name(first, rest)) by {
        assert forall|i: int| 0 <= i < rest.len() implies first.input[first.pos + i]
            == #[trigger] rest[i] by {
            assert(rest[i] == name[i + 1]);
        }
    }
    lemma_name_is_read(first, rest);
    assert(Seq::<char>::empty().push(ascii_lower(name[0])) + lowered(rest) =~= lowered(name));
}

/// An end tag: `</`, letters and `>` in ordinary text are handed out as one
/// end tag that has the letters in lower case as its name.
pub proof fn lemma_end_tag(m: TokenizerModel, name: Seq<char>)
    requires
        m.wf(),
        m.state == TokenizerState::Data,
        !m.reconsume,
        name.len() > 0,
        forall|i: int| 0 <= i < name.len() ==> is_ascii_alpha(#[trigger] name[i]),
        m.pos + 1 < m.input.len(),
        m.input[m.pos as int] == '<',
        m.input[(m.pos + 1) as int] == '/',
        reads_name(TokenizerModel { pos: m.pos + 2, ..m }, name),
    ensures
        ({
            let tag = TokenModel::EndTag { tag: lowered(name) };
            m.run() == (
                after_tag(m, tag, m.pos + name.len() + 3),
                Ok::<Option<TokenModel>, Malformed>(Some(tag)),
            )
        }),
{
    let opened = TokenizerModel { state: TokenizerState::TagOpen, pos: m.pos + 1, ..m };
    lemma_transition(m);
    assert(m.run() == opened.run());
    let closing = TokenizerModel { state: TokenizerState::EndTagOpen, pos: m.pos + 2, ..m };
    lemma_transition(opened);
    assert(opened.run() == closing.run());
    let empty = TokenModel::EndTag { tag: Seq::empty() };
    assert(closing.input[closing.pos as int] == name[0]);
    let named = TokenizerModel {
        state: TokenizerState::TagName,
        pos: m.pos + 3,
        reconsume: true,
        latest: Some(empty),
        ..m
    };
    lemma_transition(closing);
    assert(closing.run() == named.run());
    let first = TokenizerModel {
        reconsume: false,
        latest: Some(empty.push_tag(ascii_lower(name[0]))),
        ..named
    };
    lemma_transition(named);
    assert(named.current() == Some(name[0]));
    assert(named.run() == first.run());
    let rest = name.skip(1);
    assert forall|i: int| 0 <= i < rest.len() implies is_ascii_alpha(#[trigger] rest[i]) by {
        assert(rest[i] == name[i + 1]);
    }
    assert(reads_name(first, rest)) by {
        assert forall|i: int| 0 <= i < rest.len() implies first.input[first.pos + i]
            == #[trigger] rest[i] by {
            assert(rest[i] == name[i + 1]);
        }
    }
    lemma_name_is_read(first, rest);
    assert(Seq::<char>::empty().push(ascii_lower(name[0])) + lowered(rest) =~= lowered(name));
}

} // verus!
