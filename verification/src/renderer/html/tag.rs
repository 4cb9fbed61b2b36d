//! A start tag with attributes, read as a whole: the attributes come out in
//! the order in which they are written, each with its own name and value,
//! and the runs of spaces between them may be as long as they like.

use crate::renderer::html::html_tag_attribute::AttributeField;
use crate::renderer::html::machine::{lemma_transition, TokenizerModel};
use crate::renderer::html::stream::{after_tag, lowered, named_on};
use crate::renderer::html::token::{Malformed, Step, TokenModel, TokenizerState};
use crate::text::{ascii_lower, is_ascii_alpha};
use vstd::prelude::*;

verus! {

/// The characters `text` stand in `input` from index `at` on.
pub open spec fn holds_at(input: Seq<char>, at: int, text: Seq<char>) -> bool {
    &&& 0 <= at
    &&& at + text.len() <= input.len()
    &&& forall|k: int| 0 <= k < text.len() ==> input[at + k] == #[trigger] text[k]
}

/// Where two texts put together stand, the first stands, and the second
/// stands behind it.
pub proof fn lemma_holds_apart(input: Seq<char>, at: int, a: Seq<char>, b: Seq<char>)
    requires
        holds_at(input, at, a + b),
    ensures
        holds_at(input, at, a),
        holds_at(input, at + a.len(), b),
{
    assert forall|k: int| 0 <= k < a.len() implies input[at + k] == #[trigger] a[k] by {
        assert((a + b)[k] == a[k]);
    }
    assert forall|k: int| 0 <= k < b.len() implies input[at + a.len() + k] == #[trigger] b[k] by {
        assert((a + b)[a.len() + k] == b[k]);
    }
}

/// Every character of `s` is an ASCII letter.
pub open spec fn letters(s: Seq<char>) -> bool {
    forall|i: int| 0 <= i < s.len() ==> is_ascii_alpha(#[trigger] s[i])
}

/// No character of `s` is a double quote.
pub open spec fn unquoted(s: Seq<char>) -> bool {
    forall|i: int| 0 <= i < s.len() ==> (#[trigger] s[i]) != '"'
}

/// The start tag `t` with `name` and `value` appended to the name and the
/// value of its last attribute.
pub open spec fn grown(t: TokenModel, name: Seq<char>, value: Seq<char>) -> TokenModel {
    match t {
        TokenModel::StartTag { tag, self_closing, attributes } => TokenModel::StartTag {
            tag,
            self_closing,
            attributes: attributes.update(
                attributes.len() - 1,
                (attributes.last().0 + name, attributes.last().1 + value),
            ),
        },
        t => t,
    }
}

/// The start tag `t` with `more` after the attributes that it has.
pub open spec fn with_attributes(t: TokenModel, more: Seq<(Seq<char>, Seq<char>)>) -> TokenModel {
    match t {
        TokenModel::StartTag { tag, self_closing, attributes } => TokenModel::StartTag {
            tag,
            self_closing,
            attributes: attributes + more,
        },
        t => t,
    }
}

/// A transition that hands out nothing leaves the pull to the machine
/// after it.
proof fn lemma_goes_on(m: TokenizerModel, after: TokenizerModel)
    requires
        m.wf(),
        m.live(),
        m.fetch().0.transition(m.fetch().1) == (after, Step::Continue),
    ensures
        m.run() == after.run(),
        after.wf(),
{
    lemma_transition(m);
}

/// Letters in the name of an attribute are appended to it, in lower case.
proof fn lemma_attribute_name_is_read(m: TokenizerModel, n: Seq<char>)
    requires
        m.wf(),
        m.state == TokenizerState::AttributeName,
        !m.reconsume,
        letters(n),
        holds_at(m.input, m.pos as int, n),
    ensures
        m.run() == (TokenizerModel {
            pos: m.pos + n.len(),
            latest: Some(grown(m.latest.unwrap(), lowered(n), Seq::empty())),
            ..m
        }).run(),
        (TokenizerModel {
            pos: m.pos + n.len(),
            latest: Some(grown(m.latest.unwrap(), lowered(n), Seq::empty())),
            ..m
        }).wf(),
    decreases n.len(),
{
    let t = m.latest.unwrap();
    let attributes = t->StartTag_attributes;
    let last = attributes.last();
    if n.len() == 0 {
        assert(lowered(n) =~= Seq::empty());
        assert(last.0 + Seq::<char>::empty() =~= last.0);
        assert(last.1 + Seq::<char>::empty() =~= last.1);
        assert(attributes.update(attributes.len() - 1, last) =~= attributes);
        assert(grown(t, lowered(n), Seq::empty()) == t);
        assert(m == TokenizerModel { pos: m.pos + n.len(), latest: Some(t), ..m });
    } else {
        let c = n[0];
        let l = ascii_lower(c);
        let rest = n.skip(1);
        assert(m.input[m.pos as int] == c);
        assert(is_ascii_alpha(c));
        let pushed = t.push_attribute(l, AttributeField::Name);
        let next = TokenizerModel { pos: m.pos + 1, latest: Some(pushed), ..m };
        lemma_goes_on(m, next);
        assert(letters(rest)) by {
            assert forall|i: int| 0 <= i < rest.len() implies is_ascii_alpha(#[trigger] rest[i]) by {
                assert(rest[i] == n[i + 1]);
            }
        }
        assert(holds_at(next.input, next.pos as int, rest)) by {
            assert forall|k: int| 0 <= k < rest.len() implies next.input[next.pos + k]
                == #[trigger] rest[k] by {
                assert(rest[k] == n[k + 1]);
            }
        }
        lemma_attribute_name_is_read(next, rest);
        assert(grown(pushed, lowered(rest), Seq::empty()) == grown(t, lowered(n), Seq::empty())) by {
            let after = pushed->StartTag_attributes;
            assert(after.last() == (last.0.push(l), last.1));
            assert(last.0.push(l) + lowered(rest) =~= last.0 + lowered(n));
            assert(after.update(
                after.len() - 1,
                (after.last().0 + lowered(rest), after.last().1 + Seq::<char>::empty()),
            ) =~= attributes.update(
                attributes.len() - 1,
                (last.0 + lowered(n), last.1 + Seq::<char>::empty()),
            ));
        }
    }
}

/// Between double quotes, characters are appended to the value of the
/// attribute as they are.
proof fn lemma_attribute_value_is_read(m: TokenizerModel, v: Seq<char>)
    requires
        m.wf(),
        m.state == TokenizerState::AttributeValueDoubleQuoted,
        !m.reconsume,
        unquoted(v),
        holds_at(m.input, m.pos as int, v),
    ensures
        m.run() == (TokenizerModel {
            pos: m.pos + v.len(),
            latest: Some(grown(m.latest.unwrap(), Seq::empty(), v)),
            ..m
        }).run(),
        (TokenizerModel {
            pos: m.pos + v.len(),
            latest: Some(grown(m.latest.unwrap(), Seq::empty(), v)),
            ..m
        }).wf(),
    decreases v.len(),
{
    let t = m.latest.unwrap();
    let attributes = t->StartTag_attributes;
    let last = attributes.last();
    if v.len() == 0 {
        assert(last.0 + Seq::<char>::empty() =~= last.0);
        assert(last.1 + v =~= last.1);
        assert(attributes.update(attributes.len() - 1, last) =~= attributes);
        assert(grown(t, Seq::empty(), v) == t);
        assert(m == TokenizerModel { pos: m.pos + v.len(), latest: Some(t), ..m });
    } else {
        let c = v[0];
        let rest = v.skip(1);
        assert(m.input[m.pos as int] == c);
        assert(c != '"');
        let pushed = t.push_attribute(c, AttributeField::Value);
        let next = TokenizerModel { pos: m.pos + 1, latest: Some(pushed), ..m };
        lemma_goes_on(m, next);
        assert(unquoted(rest)) by {
            assert forall|i: int| 0 <= i < rest.len() implies (#[trigger] rest[i]) != '"' by {
                assert(rest[i] == v[i + 1]);
            }
        }
        assert(holds_at(next.input, next.pos as int, rest)) by {
            assert forall|k: int| 0 <= k < rest.len() implies next.input[next.pos + k]
                == #[trigger] rest[k] by {
                assert(rest[k] == v[k + 1]);
            }
        }
        lemma_attribute_value_is_read(next, rest);
        assert(grown(pushed, Seq::empty(), rest) == grown(t, Seq::empty(), v)) by {
            let after = pushed->StartTag_attributes;
            assert(after.last() == (last.0, last.1.push(c)));
            assert(last.1.push(c) + rest =~= last.1 + v);
            assert(after.update(
                after.len() - 1,
                (after.last().0 + Seq::<char>::empty(), after.last().1 + rest),
            ) =~= attributes.update(
                attributes.len() - 1,
                (last.0 + Seq::<char>::empty(), last.1 + v),
            ));
        }
    }
}

/// A run of `k` spaces.
pub open spec fn spaces(k: nat) -> Seq<char> {
    Seq::new(k, |i: int| ' ')
}

/// An attribute as it is written in a tag: the name, `=`, and the value
/// between double quotes.
pub open spec fn attribute_text(a: (Seq<char>, Seq<char>)) -> Seq<char> {
    a.0 + seq!['=', '"'] + a.1 + seq!['"']
}

/// Attributes as they are written in a tag, one after another, each after
/// a run of spaces: `gaps[i]` spaces stand before the attribute at index `i`.
pub open spec fn attributes_text(attributes: Seq<(Seq<char>, Seq<char>)>, gaps: Seq<nat>) -> Seq<
    char,
>
    decreases attributes.len(),
{
    if attributes.len() == 0 {
        Seq::empty()
    } else {
        spaces(gaps[0]) + attribute_text(attributes[0]) + attributes_text(
            attributes.skip(1),
            gaps.skip(1),
        )
    }
}

/// There is a run of at least one space for each attribute.
pub open spec fn gaps_wf(attributes: Seq<(Seq<char>, Seq<char>)>, gaps: Seq<nat>) -> bool {
    &&& gaps.len() == attributes.len()
    &&& forall|k: int| 0 <= k < gaps.len() ==> (#[trigger] gaps[k]) >= 1
}

/// The attributes with their names in lower case.
pub open spec fn folded_names(attributes: Seq<(Seq<char>, Seq<char>)>) -> Seq<
    (Seq<char>, Seq<char>),
>
    decreases attributes.len(),
{
    if attributes.len() == 0 {
        Seq::empty()
    } else {
        seq![(lowered(attributes[0].0), attributes[0].1)] + folded_names(attributes.skip(1))
    }
}

/// Every attribute has a name of one letter or more, and a value without a
/// double quote.
pub open spec fn writable(attributes: Seq<(Seq<char>, Seq<char>)>) -> bool {
    forall|k: int|
        0 <= k < attributes.len() ==> (#[trigger] attributes[k]).0.len() > 0 && letters(
            attributes[k].0,
        ) && unquoted(attributes[k].1)
}

/// Letters in the name of a tag are appended to it, in lower case.
proof fn lemma_tag_name_is_read(m: TokenizerModel, name: Seq<char>)
    requires
        m.wf(),
        m.state == TokenizerState::TagName,
        !m.reconsume,
        m.latest.unwrap() is StartTag,
        letters(name),
        holds_at(m.input, m.pos as int, name),
    ensures
        m.run() == (TokenizerModel {
            pos: m.pos + name.len(),
            latest: Some(named_on(m.latest.unwrap(), lowered(name))),
            ..m
        }).run(),
        (TokenizerModel {
            pos: m.pos + name.len(),
            latest: Some(named_on(m.latest.unwrap(), lowered(name))),
            ..m
        }).wf(),
    decreases name.len(),
{
    let t = m.latest.unwrap();
    let tag = t->StartTag_tag;
    if name.len() == 0 {
        assert(lowered(name) =~= Seq::empty());
        assert(tag + Seq::<char>::empty() =~= tag);
        assert(named_on(t, lowered(name)) == t);
        assert(m == TokenizerModel { pos: m.pos + name.len(), latest: Some(t), ..m });
    } else {
        let c = name[0];
        let l = ascii_lower(c);
        let rest = name.skip(1);
        assert(m.input[m.pos as int] == c);
        assert(is_ascii_alpha(c));
        let pushed = t.push_tag(l);
        let next = TokenizerModel { pos: m.pos + 1, latest: Some(pushed), ..m };
        lemma_goes_on(m, next);
        assert(letters(rest)) by {
            assert forall|i: int| 0 <= i < rest.len() implies is_ascii_alpha(#[trigger] rest[i]) by {
                assert(rest[i] == name[i + 1]);
            }
        }
        assert(holds_at(next.input, next.pos as int, rest)) by {
            assert forall|k: int| 0 <= k < rest.len() implies next.input[next.pos + k]
                == #[trigger] rest[k] by {
                assert(rest[k] == name[k + 1]);
            }
        }
        lemma_tag_name_is_read(next, rest);
        assert(tag.push(l) + lowered(rest) =~= tag + lowered(name));
        assert(named_on(pushed, lowered(rest)) == named_on(t, lowered(name)));
    }
}

/// One attribute, written as a name of letters, `=`, and a value between
/// double quotes, becomes the last attribute of the tag, with its name in
/// lower case and its value as it is.
proof fn lemma_attribute_is_read(m: TokenizerModel, a: (Seq<char>, Seq<char>))
    requires
        m.wf(),
        m.state == TokenizerState::BeforeAttributeName,
        !m.reconsume,
        m.latest.unwrap() is StartTag,
        a.0.len() > 0,
        letters(a.0),
        unquoted(a.1),
        holds_at(m.input, m.pos as int, attribute_text(a)),
    ensures
        m.run() == (TokenizerModel {
            state: TokenizerState::AfterAttributeValueQuoted,
            pos: m.pos + a.0.len() + a.1.len() + 3,
            latest: Some(with_attributes(m.latest.unwrap(), seq![(lowered(a.0), a.1)])),
            ..m
        }).run(),
        (TokenizerModel {
            state: TokenizerState::AfterAttributeValueQuoted,
            pos: m.pos + a.0.len() + a.1.len() + 3,
            latest: Some(with_attributes(m.latest.unwrap(), seq![(lowered(a.0), a.1)])),
            ..m
        }).wf(),
{
    let n = a.0;
    let v = a.1;
    let t = m.latest.unwrap();
    let attributes = t->StartTag_attributes;
    let at = m.pos as int;
    let between = seq!['=', '"'];
    let quote = seq!['"'];
    lemma_holds_apart(m.input, at, n + between + v, quote);
    lemma_holds_apart(m.input, at, n + between, v);
    lemma_holds_apart(m.input, at, n, between);
    assert(m.input[at + n.len()] == '=') by {
        assert(between[0] == '=');
    }
    assert(m.input[at + n.len() + 1] == '"') by {
        assert(between[1] == '"');
    }
    assert(m.input[at + n.len() + 2 + v.len()] == '"') by {
        assert(quote[0] == '"');
    }
    let c = n[0];
    let l = ascii_lower(c);
    let rest = n.skip(1);
    assert(m.input[at] == c);
    assert(is_ascii_alpha(c));
    let started = t.new_attribute();
    let m1 = TokenizerModel {
        state: TokenizerState::AttributeName,
        pos: m.pos + 1,
        reconsume: true,
        latest: Some(started),
        ..m
    };
    lemma_goes_on(m, m1);
    let named = started.push_attribute(l, AttributeField::Name);
    let m2 = TokenizerModel { reconsume: false, latest: Some(named), ..m1 };
    assert(m1.current() == Some(c));
    lemma_goes_on(m1, m2);
    assert(letters(rest)) by {
        assert forall|i: int| 0 <= i < rest.len() implies is_ascii_alpha(#[trigger] rest[i]) by {
            assert(rest[i] == n[i + 1]);
        }
    }
    assert(holds_at(m2.input, m2.pos as int, rest)) by {
        assert forall|k: int| 0 <= k < rest.len() implies m2.input[m2.pos + k]
            == #[trigger] rest[k] by {
            assert(rest[k] == n[k + 1]);
        }
    }
    lemma_attribute_name_is_read(m2, rest);
    let whole = grown(named, lowered(rest), Seq::empty());
    let m3 = TokenizerModel { pos: m2.pos + rest.len(), latest: Some(whole), ..m2 };
    assert(m3.pos == at + n.len());
    let m4 = TokenizerModel {
        state: TokenizerState::BeforeAttributeValue,
        pos: m3.pos + 1,
        ..m3
    };
    lemma_goes_on(m3, m4);
    let m5 = TokenizerModel {
        state: TokenizerState::AttributeValueDoubleQuoted,
        pos: m4.pos + 1,
        ..m4
    };
    lemma_goes_on(m4, m5);
    assert(holds_at(m5.input, m5.pos as int, v));
    lemma_attribute_value_is_read(m5, v);
    let valued = grown(whole, Seq::empty(), v);
    let m6 = TokenizerModel { pos: m5.pos + v.len(), latest: Some(valued), ..m5 };
    let m7 = TokenizerModel {
        state: TokenizerState::AfterAttributeValueQuoted,
        pos: m6.pos + 1,
        ..m6
    };
    lemma_goes_on(m6, m7);
    assert(valued == with_attributes(t, seq![(lowered(n), v)])) by {
        let empty = Seq::<char>::empty();
        let a0 = attributes.push((empty, empty));
        assert(started->StartTag_attributes == a0);
        let a1 = a0.update(a0.len() - 1, (empty.push(l), empty));
        assert(named->StartTag_attributes == a1);
        assert(empty.push(l) + lowered(rest) =~= lowered(n));
        assert(empty + empty =~= empty);
        let a2 = a1.update(a1.len() - 1, (lowered(n), empty));
        assert(whole->StartTag_attributes =~= a2);
        assert(lowered(n) + empty =~= lowered(n));
        assert(empty + v =~= v);
        let a3 = a2.update(a2.len() - 1, (lowered(n), v));
        assert(valued->StartTag_attributes =~= a3);
        assert(a3 =~= attributes + seq![(lowered(n), v)]);
    }
}

/// Before the name of an attribute a run of spaces is skipped.
proof fn lemma_spaces_are_skipped(m: TokenizerModel, k: nat)
    requires
        m.wf(),
        m.state == TokenizerState::BeforeAttributeName,
        !m.reconsume,
        holds_at(m.input, m.pos as int, spaces(k)),
    ensures
        m.run() == (TokenizerModel { pos: m.pos + k, ..m }).run(),
        (TokenizerModel { pos: m.pos + k, ..m }).wf(),
    decreases k,
{
    if k == 0 {
        assert(m == TokenizerModel { pos: m.pos + k, ..m });
    } else {
        assert(m.input[m.pos as int] == ' ') by {
            assert(spaces(k)[0] == ' ');
        }
        let next = TokenizerModel { pos: m.pos + 1, ..m };
        lemma_goes_on(m, next);
        assert(holds_at(next.input, next.pos as int, spaces((k - 1) as nat))) by {
            assert forall|i: int| 0 <= i < k - 1 implies next.input[next.pos + i]
                == #[trigger] spaces((k - 1) as nat)[i] by {
                assert(spaces(k)[i + 1] == ' ');
            }
        }
        lemma_spaces_are_skipped(next, (k - 1) as nat);
    }
}

/// After the name of a tag or after an attribute, a run of spaces and the
/// `>` after it hand out the tag as it is.
proof fn lemma_tag_is_closed(m: TokenizerModel, trailing: nat)
    requires
        m.wf(),
        m.state == TokenizerState::TagName || m.state
            == TokenizerState::AfterAttributeValueQuoted,
        !m.reconsume,
        m.latest.unwrap() is StartTag,
        holds_at(m.input, m.pos as int, spaces(trailing) + seq!['>']),
    ensures
        m.run() == (
            after_tag(m, m.latest.unwrap(), m.pos + trailing + 1),
            Ok::<Option<TokenModel>, Malformed>(Some(m.latest.unwrap())),
        ),
{
    let at = m.pos as int;
    lemma_holds_apart(m.input, at, spaces(trailing), seq!['>']);
    assert(m.input[at + trailing] == '>') by {
        assert(seq!['>'][0] == '>');
    }
    lemma_transition(m);
    if trailing > 0 {
        assert(m.input[at] == ' ') by {
            assert(spaces(trailing)[0] == ' ');
        }
        let m1 = TokenizerModel {
            state: TokenizerState::BeforeAttributeName,
            pos: m.pos + 1,
            ..m
        };
        lemma_goes_on(m, m1);
        assert(holds_at(m1.input, m1.pos as int, spaces((trailing - 1) as nat))) by {
            assert forall|i: int| 0 <= i < trailing - 1 implies m1.input[m1.pos + i]
                == #[trigger] spaces((trailing - 1) as nat)[i] by {
                assert(spaces(trailing)[i + 1] == ' ');
            }
        }
        lemma_spaces_are_skipped(m1, (trailing - 1) as nat);
        let m2 = TokenizerModel { pos: m.pos + trailing, ..m1 };
        let m3 = TokenizerModel {
            state: TokenizerState::AfterAttributeName,
            pos: m2.pos + 1,
            reconsume: true,
            ..m2
        };
        lemma_goes_on(m2, m3);
        assert(m3.current() == Some('>'));
        lemma_transition(m3);
    }
}

/// The attributes of a tag, each written after a run of spaces, then a run
/// of spaces, which may be empty, and the `>`: the tag is handed out with
/// these attributes after those that it had, in the order in which they
/// are written, however long the runs of spaces are.
proof fn lemma_attributes_are_read(
    m: TokenizerModel,
    attributes: Seq<(Seq<char>, Seq<char>)>,
    gaps: Seq<nat>,
    trailing: nat,
)
    requires
        m.wf(),
        m.state == TokenizerState::TagName || m.state
            == TokenizerState::AfterAttributeValueQuoted,
        !m.reconsume,
        m.latest.unwrap() is StartTag,
        writable(attributes),
        gaps_wf(attributes, gaps),
        holds_at(
            m.input,
            m.pos as int,
            attributes_text(attributes, gaps) + spaces(trailing) + seq!['>'],
        ),
    ensures
        m.run() == (
            after_tag(
                m,
                with_attributes(m.latest.unwrap(), folded_names(attributes)),
                m.pos + attributes_text(attributes, gaps).len() + trailing + 1,
            ),
            Ok::<Option<TokenModel>, Malformed>(
                Some(with_attributes(m.latest.unwrap(), folded_names(attributes))),
            ),
        ),
    decreases attributes.len(),
{
    let t = m.latest.unwrap();
    let had = t->StartTag_attributes;
    let at = m.pos as int;
    let text = attributes_text(attributes, gaps);
    let end = spaces(trailing) + seq!['>'];
    assert(text + spaces(trailing) + seq!['>'] =~= text + end);
    if attributes.len() == 0 {
        assert(text + end =~= end);
        lemma_tag_is_closed(m, trailing);
        assert(had + folded_names(attributes) =~= had);
        assert(with_attributes(t, folded_names(attributes)) == t);
    } else {
        let a = attributes[0];
        let gap = gaps[0];
        let others = attributes.skip(1);
        let other_gaps = gaps.skip(1);
        let tail = attributes_text(others, other_gaps) + end;
        assert(gap >= 1);
        assert(text + end =~= spaces(gap) + (attribute_text(a) + tail));
        lemma_holds_apart(m.input, at, spaces(gap), attribute_text(a) + tail);
        lemma_holds_apart(m.input, at + gap, attribute_text(a), tail);
        assert(m.input[at] == ' ') by {
            assert(spaces(gap)[0] == ' ');
        }
        lemma_transition(m);
        let m1 = TokenizerModel {
            state: TokenizerState::BeforeAttributeName,
            pos: m.pos + 1,
            ..m
        };
        lemma_goes_on(m, m1);
        assert(holds_at(m1.input, m1.pos as int, spaces((gap - 1) as nat))) by {
            assert forall|i: int| 0 <= i < gap - 1 implies m1.input[m1.pos + i]
                == #[trigger] spaces((gap - 1) as nat)[i] by {
                assert(spaces(gap)[i + 1] == ' ');
            }
        }
        lemma_spaces_are_skipped(m1, (gap - 1) as nat);
        let m2 = TokenizerModel { pos: m.pos + gap, ..m1 };
        assert(writable(others)) by {
            assert forall|k: int| 0 <= k < others.len() implies (#[trigger] others[k]).0.len() > 0
                && letters(others[k].0) && unquoted(others[k].1) by {
                assert(others[k] == attributes[k + 1]);
            }
        }
        assert(gaps_wf(others, other_gaps)) by {
            assert forall|k: int| 0 <= k < other_gaps.len() implies (#[trigger] other_gaps[k])
                >= 1 by {
                assert(other_gaps[k] == gaps[k + 1]);
            }
        }
        lemma_attribute_is_read(m2, a);
        let first = with_attributes(t, seq![(lowered(a.0), a.1)]);
        let m3 = TokenizerModel {
            state: TokenizerState::AfterAttributeValueQuoted,
            pos: m2.pos + a.0.len() + a.1.len() + 3,
            latest: Some(first),
            ..m2
        };
        assert(attribute_text(a).len() == a.0.len() + a.1.len() + 3);
        assert(m3.pos == at + gap + attribute_text(a).len());
        assert(tail =~= attributes_text(others, other_gaps) + spaces(trailing) + seq!['>']);
        lemma_attributes_are_read(m3, others, other_gaps, trailing);
        assert(with_attributes(first, folded_names(others)) == with_attributes(
            t,
            folded_names(attributes),
        )) by {
            assert((had + seq![(lowered(a.0), a.1)]) + folded_names(others) =~= had
                + folded_names(attributes));
        }
    }
}

/// A start tag with attributes, read as a whole. In ordinary text, `<`, a
/// name of letters, then for each attribute a run of spaces, a name of
/// letters, `=` and a value between double quotes, then a run of spaces,
/// which may be empty, and `>`, are handed out as one start tag. It has the
/// name in lower case and exactly these attributes: as many as are
/// written, in the order in which they are written, names that repeat
/// included, each with its name in lower case and its value as it is. How
/// long the runs of spaces are makes no difference to the tag.
pub proof fn lemma_tag_is_read(
    m: TokenizerModel,
    name: Seq<char>,
    attributes: Seq<(Seq<char>, Seq<char>)>,
    gaps: Seq<nat>,
    trailing: nat,
)
    requires
        m.wf(),
        m.state == TokenizerState::Data,
        !m.reconsume,
        name.len() > 0,
        letters(name),
        writable(attributes),
        gaps_wf(attributes, gaps),
        holds_at(
            m.input,
            m.pos as int,
            seq!['<'] + name + attributes_text(attributes, gaps) + spaces(trailing) + seq!['>'],
        ),
    ensures
        ({
            let tag = TokenModel::StartTag {
                tag: lowered(name),
                self_closing: false,
                attributes: folded_names(attributes),
            };
            m.run() == (
                after_tag(
                    m,
                    tag,
                    m.pos + name.len() + attributes_text(attributes, gaps).len() + trailing + 2,
                ),
                Ok::<Option<TokenModel>, Malformed>(Some(tag)),
            )
        }),
{
    let at = m.pos as int;
    let tail = attributes_text(attributes, gaps) + spaces(trailing) + seq!['>'];
    assert(seq!['<'] + name + attributes_text(attributes, gaps) + spaces(trailing) + seq!['>']
        =~= (seq!['<'] + name) + tail);
    lemma_holds_apart(m.input, at, seq!['<'] + name, tail);
    lemma_holds_apart(m.input, at, seq!['<'], name);
    assert(m.input[at] == '<') by {
        assert(seq!['<'][0] == '<');
    }
    let m1 = TokenizerModel { state: TokenizerState::TagOpen, pos: m.pos + 1, ..m };
    lemma_goes_on(m, m1);
    let c = name[0];
    assert(m.input[at + 1] == c);
    assert(is_ascii_alpha(c));
    let empty = TokenModel::StartTag {
        tag: Seq::empty(),
        self_closing: false,
        attributes: Seq::empty(),
    };
    let m2 = TokenizerModel {
        state: TokenizerState::TagName,
        pos: m.pos + 2,
        reconsume: true,
        latest: Some(empty),
        ..m
    };
    lemma_goes_on(m1, m2);
    let begun = empty.push_tag(ascii_lower(c));
    let m3 = TokenizerModel { reconsume: false, latest: Some(begun), ..m2 };
    assert(m2.current() == Some(c));
    lemma_goes_on(m2, m3);
    let rest = name.skip(1);
    assert(letters(rest)) by {
        assert forall|i: int| 0 <= i < rest.len() implies is_ascii_alpha(#[trigger] rest[i]) by {
            assert(rest[i] == name[i + 1]);
        }
    }
    assert(holds_at(m3.input, m3.pos as int, rest)) by {
        assert forall|k: int| 0 <= k < rest.len() implies m3.input[m3.pos + k]
            == #[trigger] rest[k] by {
            assert(rest[k] == name[k + 1]);
        }
    }
    lemma_tag_name_is_read(m3, rest);
    let named = named_on(begun, lowered(rest));
    let m4 = TokenizerModel { pos: m3.pos + rest.len(), latest: Some(named), ..m3 };
    assert(m4.pos == at + 1 + name.len());
    assert(Seq::<char>::empty().push(ascii_lower(c)) + lowered(rest) =~= lowered(name));
    assert(named == TokenModel::StartTag {
        tag: lowered(name),
        self_closing: false,
        attributes: Seq::empty(),
    });
    lemma_attributes_are_read(m4, attributes, gaps, trailing);
    assert(Seq::<(Seq<char>, Seq<char>)>::empty() + folded_names(attributes) =~= folded_names(
        attributes,
    ));
}

/// The tag that comes out does not depend on the runs of spaces: two texts
/// that differ in nothing but the lengths of these runs give the same tag.
pub proof fn lemma_spaces_make_no_difference(
    a: TokenizerModel,
    b: TokenizerModel,
    name: Seq<char>,
    attributes: Seq<(Seq<char>, Seq<char>)>,
    gaps_a: Seq<nat>,
    trailing_a: nat,
    gaps_b: Seq<nat>,
    trailing_b: nat,
)
    requires
        a.wf(),
        b.wf(),
        a.state == TokenizerState::Data,
        b.state == TokenizerState::Data,
        !a.reconsume,
        !b.reconsume,
        name.len() > 0,
        letters(name),
        writable(attributes),
        gaps_wf(attributes, gaps_a),
        gaps_wf(attributes, gaps_b),
        holds_at(
            a.input,
            a.pos as int,
            seq!['<'] + name + attributes_text(attributes, gaps_a) + spaces(trailing_a)
                + seq!['>'],
        ),
        holds_at(
            b.input,
            b.pos as int,
            seq!['<'] + name + attributes_text(attributes, gaps_b) + spaces(trailing_b)
                + seq!['>'],
        ),
    ensures
        a.run().1 == b.run().1,
        a.run().1 == Ok::<Option<TokenModel>, Malformed>(
            Some(
                TokenModel::StartTag {
                    tag: lowered(name),
                    self_closing: false,
                    attributes: folded_names(attributes),
                },
            ),
        ),
{
    lemma_tag_is_read(a, name, attributes, gaps_a, trailing_a);
    lemma_tag_is_read(b, name, attributes, gaps_b, trailing_b);
}

/// The attributes that come out are as many as are written, and each is
/// the one written at its place, with its name in lower case.
pub proof fn lemma_folded_names(attributes: Seq<(Seq<char>, Seq<char>)>)
    ensures
        folded_names(attributes).len() == attributes.len(),
        forall|i: int|
            0 <= i < attributes.len() ==> (#[trigger] folded_names(attributes)[i]) == (
                lowered(attributes[i].0),
                attributes[i].1,
            ),
    decreases attributes.len(),
{
    if attributes.len() > 0 {
        let others = attributes.skip(1);
        lemma_folded_names(others);
        assert forall|i: int| 0 <= i < attributes.len() implies (#[trigger] folded_names(
            attributes,
        )[i]) == (lowered(attributes[i].0), attributes[i].1) by {
            if i > 0 {
                assert(folded_names(attributes)[i] == folded_names(others)[i - 1]);
                assert(others[i - 1] == attributes[i]);
            }
        }
    }
}

} // verus!
