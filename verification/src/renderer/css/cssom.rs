//! The CSS parser: reads the tokens of a style sheet into its rules.

use crate::error::Error;
use crate::renderer::css::token::{
    halt_from, lemma_pull_at, tokens_from, unsupported_message, CssToken, CssTokenModel,
    CssTokenizer, CssTokenizerModel,
};
use crate::text::{chars_of, string_of, text_of};
use vstd::prelude::*;

verus! {

/// What a rule applies to: elements of a type, of a class, or the one with
/// an id. A selector of any other form is unknown.
pub enum Selector {
    TypeSelector(String),
    ClassSelector(String),
    IdSelector(String),
    UnknownSelector,
}

/// A selector as a mathematical value.
pub enum SelectorModel {
    TypeSelector(Seq<char>),
    ClassSelector(Seq<char>),
    IdSelector(Seq<char>),
    UnknownSelector,
}

impl View for Selector {
    type V = SelectorModel;

    open spec fn view(&self) -> SelectorModel {
        match self {
            Selector::TypeSelector(s) => SelectorModel::TypeSelector(s@),
            Selector::ClassSelector(s) => SelectorModel::ClassSelector(s@),
            Selector::IdSelector(s) => SelectorModel::IdSelector(s@),
            Selector::UnknownSelector => SelectorModel::UnknownSelector,
        }
    }
}

/// One declaration of a rule: a property and the token that is its value.
pub struct Declaration {
    pub property: String,
    pub value: CssToken,
}

/// A declaration as a mathematical value.
pub struct DeclarationModel {
    pub property: Seq<char>,
    pub value: CssTokenModel,
}

impl View for Declaration {
    type V = DeclarationModel;

    open spec fn view(&self) -> DeclarationModel {
        DeclarationModel { property: self.property@, value: self.value@ }
    }
}

impl DeepView for Declaration {
    type V = DeclarationModel;

    open spec fn deep_view(&self) -> DeclarationModel {
        self@
    }
}

impl Declaration {
    pub fn new() -> (r: Self)
        ensures
            r@ == (DeclarationModel {
                property: Seq::empty(),
                value: CssTokenModel::Ident(Seq::empty()),
            }),
    {
        Self { property: String::new(), value: CssToken::Ident(String::new()) }
    }

    pub fn set_property(&mut self, property: String)
        ensures
            final(self)@ == (DeclarationModel { property: property@, ..old(self)@ }),
    {
        self.property = property;
    }

    pub fn set_value(&mut self, value: CssToken)
        ensures
            final(self)@ == (DeclarationModel { value: value@, ..old(self)@ }),
    {
        self.value = value;
    }
}

/// A rule: a selector and the declarations in its block.
pub struct QualifiedRule {
    pub selector: Selector,
    pub declarations: Vec<Declaration>,
}

/// A rule as a mathematical value.
pub struct RuleModel {
    pub selector: SelectorModel,
    pub declarations: Seq<DeclarationModel>,
}

impl View for QualifiedRule {
    type V = RuleModel;

    open spec fn view(&self) -> RuleModel {
        RuleModel { selector: self.selector@, declarations: self.declarations.deep_view() }
    }
}

impl DeepView for QualifiedRule {
    type V = RuleModel;

    open spec fn deep_view(&self) -> RuleModel {
        self@
    }
}

impl QualifiedRule {
    pub fn new() -> (r: Self)
        ensures
            r@ == (RuleModel {
                selector: SelectorModel::TypeSelector(Seq::empty()),
                declarations: Seq::empty(),
            }),
    {
        let declarations: Vec<Declaration> = Vec::new();
        assert(declarations.deep_view() =~= Seq::empty());
        Self { selector: Selector::TypeSelector(String::new()), declarations }
    }

    pub fn set_selector(&mut self, selector: Selector)
        ensures
            final(self)@ == (RuleModel { selector: selector@, ..old(self)@ }),
    {
        self.selector = selector;
    }

    pub fn set_declarations(&mut self, declarations: Vec<Declaration>)
        ensures
            final(self)@ == (RuleModel { declarations: declarations.deep_view(), ..old(self)@ }),
    {
        self.declarations = declarations;
    }
}

/// A style sheet: its rules in their order.
pub struct StyleSheet {
    pub rules: Vec<QualifiedRule>,
}

impl View for StyleSheet {
    type V = Seq<RuleModel>;

    open spec fn view(&self) -> Seq<RuleModel> {
        self.rules.deep_view()
    }
}

impl StyleSheet {
    pub fn new() -> (r: Self)
        ensures
            r@ == Seq::<RuleModel>::empty(),
    {
        let rules: Vec<QualifiedRule> = Vec::new();
        assert(rules.deep_view() =~= Seq::empty());
        Self { rules }
    }

    pub fn set_rules(&mut self, rules: Vec<QualifiedRule>)
        ensures
            final(self)@ == rules.deep_view(),
    {
        self.rules = rules;
    }
}

/// The index of the first `{` from `i` on, or the number of tokens where
/// there is none.
pub open spec fn skip_to_curly(ts: Seq<CssTokenModel>, i: int) -> int
    decreases ts.len() - i,
{
    if 0 <= i < ts.len() && !(ts[i] is OpenCurly) {
        skip_to_curly(ts, i + 1)
    } else {
        i
    }
}

/// `s` without its first character.
pub open spec fn without_first(s: Seq<char>) -> Seq<char> {
    if s.len() > 0 {
        s.subrange(1, s.len() as int)
    } else {
        s
    }
}

/// The selector that starts with the token at `i`, and the index of the
/// first token after it. `Err` where a `.` is followed by no identifier.
///
/// A hash token gives an id selector, a `.` with the identifier after it a
/// class selector, an identifier a type selector; a `:` after that
/// identifier has everything up to the next `{` skipped. An at-keyword
/// gives no selector, and skips everything up to the next `{`. Any other
/// token gives no selector either, and is the one token that is read.
pub open spec fn selector_at(ts: Seq<CssTokenModel>, i: int) -> Result<(SelectorModel, int), ()> {
    match ts[i] {
        CssTokenModel::HashToken(value) => Ok(
            (SelectorModel::IdSelector(without_first(value)), i + 1),
        ),
        CssTokenModel::Delim(c) if c == '.' => if i + 1 < ts.len() && ts[i + 1] is Ident {
            Ok((SelectorModel::ClassSelector(ts[i + 1]->Ident_0), i + 2))
        } else {
            Err(())
        },
        CssTokenModel::Ident(name) => if i + 1 < ts.len() && ts[i + 1] is Colon {
            Ok((SelectorModel::TypeSelector(name), skip_to_curly(ts, i + 1)))
        } else {
            Ok((SelectorModel::TypeSelector(name), i + 1))
        },
        CssTokenModel::AtKeyword(_) => Ok(
            (SelectorModel::UnknownSelector, skip_to_curly(ts, i + 1)),
        ),
        _ => Ok((SelectorModel::UnknownSelector, i + 1)),
    }
}

/// A token that starts no selector is read alone: the selector is unknown,
/// and the token after it is the next to be read.
pub proof fn lemma_stray_selector_token(ts: Seq<CssTokenModel>, i: int)
    requires
        0 <= i < ts.len(),
        !(ts[i] is HashToken),
        !(ts[i] is Ident),
        !(ts[i] is AtKeyword),
        ts[i] != CssTokenModel::Delim('.'),
    ensures
        selector_at(ts, i) == Ok::<(SelectorModel, int), ()>(
            (SelectorModel::UnknownSelector, i + 1),
        ),
{
}

/// The declaration that starts with the identifier at `i`, and the index
/// of the first token after it: the identifier, a `:`, and one token as the
/// value. Where the `:` or the value is missing there is no declaration,
/// and what was read is skipped.
pub open spec fn declaration_at(ts: Seq<CssTokenModel>, i: int) -> (Option<DeclarationModel>, int) {
    if i + 1 >= ts.len() {
        (None, i + 1)
    } else if !(ts[i + 1] is Colon) {
        (None, i + 2)
    } else if i + 2 >= ts.len() {
        (None, i + 2)
    } else {
        (Some(DeclarationModel { property: ts[i]->Ident_0, value: ts[i + 2] }), i + 3)
    }
}

/// The declarations from `i` up to the `}` that ends the list, or to the
/// end of the tokens, and the index of the first token after the list. A
/// `;` separates, an identifier starts a declaration, and any other token
/// is skipped.
pub open spec fn declarations_from(ts: Seq<CssTokenModel>, i: int) -> (Seq<DeclarationModel>, int)
    decreases ts.len() - i,
{
    if !(0 <= i < ts.len()) {
        (Seq::empty(), i)
    } else {
        match ts[i] {
            CssTokenModel::CloseCurly => (Seq::empty(), i + 1),
            CssTokenModel::Ident(_) => {
                let (declaration, next) = declaration_at(ts, i);
                let (rest, end) = declarations_from(ts, next);
                match declaration {
                    Some(d) => (seq![d] + rest, end),
                    None => (rest, end),
                }
            },
            _ => declarations_from(ts, i + 1),
        }
    }
}

/// The rule whose selector tokens start at `i`, and the index of the first
/// token after it; `selector` is the selector read so far. Selectors are
/// read up to the `{`, and the last one read is the rule's. There is no
/// rule where the tokens end before a `{`.
pub open spec fn rule_from(ts: Seq<CssTokenModel>, i: int, selector: SelectorModel) -> Result<
    (Option<RuleModel>, int),
    (),
>
    decreases ts.len() - i,
{
    if !(0 <= i < ts.len()) {
        Ok((None, i))
    } else if ts[i] is OpenCurly {
        let (declarations, end) = declarations_from(ts, i + 1);
        Ok((Some(RuleModel { selector, declarations }), end))
    } else {
        match selector_at(ts, i) {
            Ok((read, next)) => if i < next <= ts.len() {
                rule_from(ts, next, read)
            } else {
                Ok((None, i))
            },
            Err(e) => Err(e),
        }
    }
}

/// The rules from `i` on. A rule that starts with an at-keyword is read
/// and left out.
pub open spec fn rules_from(ts: Seq<CssTokenModel>, i: int) -> Result<Seq<RuleModel>, ()>
    decreases ts.len() - i,
{
    if !(0 <= i < ts.len()) {
        Ok(Seq::empty())
    } else {
        match rule_from(ts, i, SelectorModel::TypeSelector(Seq::empty())) {
            Ok((Some(rule), next)) => if i < next <= ts.len() {
                match rules_from(ts, next) {
                    Ok(rest) => if ts[i] is AtKeyword {
                        Ok(rest)
                    } else {
                        Ok(seq![rule] + rest)
                    },
                    Err(e) => Err(e),
                }
            } else {
                Ok(Seq::empty())
            },
            Ok((None, _)) => Ok(Seq::empty()),
            Err(e) => Err(e),
        }
    }
}

/// The message of the error for a `.` that no identifier follows.
pub open spec fn expected_ident_message() -> Seq<char> {
    "expected an identifier"@
}

/// What parsing the text `s` from position `pos` on gives: the rules, or
/// the message of the first error.
pub open spec fn parsed(s: Seq<char>, pos: int) -> Result<Seq<RuleModel>, Seq<char>> {
    match tokens_from(s, pos) {
        Ok(ts) => match rules_from(ts, 0) {
            Ok(rules) => Ok(rules),
            Err(_) => Err(expected_ident_message()),
        },
        Err(c) => Err(unsupported_message(c)),
    }
}

/// A declaration that lacks its `:` is skipped, together with the token
/// that stands in the place of the `:`, and the list goes on after it as if
/// the two had not been there.
pub proof fn lemma_declaration_without_colon(ts: Seq<CssTokenModel>, i: int)
    requires
        0 <= i,
        i + 1 < ts.len(),
        ts[i] is Ident,
        !(ts[i + 1] is Colon),
    ensures
        declarations_from(ts, i) == declarations_from(ts, i + 2),
{
}

/// A declaration that is complete is the first of the list that starts
/// with it, and the list goes on after its value.
pub proof fn lemma_declaration_complete(ts: Seq<CssTokenModel>, i: int)
    requires
        0 <= i,
        i + 2 < ts.len(),
        ts[i] is Ident,
        ts[i + 1] is Colon,
    ensures
        declarations_from(ts, i).0 == seq![
            DeclarationModel { property: ts[i]->Ident_0, value: ts[i + 2] },
        ] + declarations_from(ts, i + 3).0,
        declarations_from(ts, i).1 == declarations_from(ts, i + 3).1,
{
}

/// One entry of a block of declarations as it is written.
pub enum Entry {
    /// A property, a `:` and one token as the value.
    Complete { property: Seq<char>, value: CssTokenModel },
    /// A property and, in the place of the `:`, another token.
    WithoutColon { property: Seq<char>, other: CssTokenModel },
}

/// The tokens of an entry.
pub open spec fn entry_tokens(e: Entry) -> Seq<CssTokenModel> {
    match e {
        Entry::Complete { property, value } => seq![
            CssTokenModel::Ident(property),
            CssTokenModel::Colon,
            value,
        ],
        Entry::WithoutColon { property, other } => seq![CssTokenModel::Ident(property), other],
    }
}

/// What follows an entry of a block: each of `entries` after a `;`, and
/// then the `}` that ends the block.
pub open spec fn block_tail(entries: Seq<Entry>) -> Seq<CssTokenModel>
    decreases entries.len(),
{
    if entries.len() == 0 {
        seq![CssTokenModel::CloseCurly]
    } else {
        seq![CssTokenModel::SemiColon] + entry_tokens(entries[0]) + block_tail(entries.skip(1))
    }
}

/// The tokens of a block: the entries with a `;` between them, and the `}`
/// that ends the block.
pub open spec fn block_tokens(entries: Seq<Entry>) -> Seq<CssTokenModel> {
    if entries.len() == 0 {
        seq![CssTokenModel::CloseCurly]
    } else {
        entry_tokens(entries[0]) + block_tail(entries.skip(1))
    }
}

/// The declarations that the entries spell: those of the complete entries,
/// in their order.
pub open spec fn declared(entries: Seq<Entry>) -> Seq<DeclarationModel>
    decreases entries.len(),
{
    if entries.len() == 0 {
        Seq::empty()
    } else {
        match entries[0] {
            Entry::Complete { property, value } => seq![DeclarationModel { property, value }]
                + declared(entries.skip(1)),
            Entry::WithoutColon { .. } => declared(entries.skip(1)),
        }
    }
}

/// No entry without a `:` has a `:` in its place.
pub open spec fn entries_wf(entries: Seq<Entry>) -> bool {
    forall|k: int|
        0 <= k < entries.len() ==> ((#[trigger] entries[k]) matches Entry::WithoutColon {
            other,
            ..
        } ==> !(other is Colon))
}

/// The tokens `text` stand in `ts` from index `i` on.
pub open spec fn stands_at(ts: Seq<CssTokenModel>, i: int, text: Seq<CssTokenModel>) -> bool {
    &&& 0 <= i
    &&& i + text.len() <= ts.len()
    &&& forall|k: int| 0 <= k < text.len() ==> ts[i + k] == #[trigger] text[k]
}

/// Where two texts put together stand, the first stands, and the second
/// stands behind it.
proof fn lemma_stands_apart(
    ts: Seq<CssTokenModel>,
    i: int,
    a: Seq<CssTokenModel>,
    b: Seq<CssTokenModel>,
)
    requires
        stands_at(ts, i, a + b),
    ensures
        stands_at(ts, i, a),
        stands_at(ts, i + a.len(), b),
{
    assert forall|k: int| 0 <= k < a.len() implies ts[i + k] == #[trigger] a[k] by {
        assert((a + b)[k] == a[k]);
    }
    assert forall|k: int| 0 <= k < b.len() implies ts[i + a.len() + k] == #[trigger] b[k] by {
        assert((a + b)[a.len() + k] == b[k]);
    }
}

/// The entry that stands at `i`, before a `;` or a `}`, gives its
/// declaration if it is complete and none if it lacks its `:`, and the
/// list goes on behind it.
proof fn lemma_entry(ts: Seq<CssTokenModel>, i: int, e: Entry)
    requires
        stands_at(ts, i, entry_tokens(e)),
        i + entry_tokens(e).len() < ts.len(),
        e matches Entry::WithoutColon { other, .. } ==> !(other is Colon),
    ensures
        declarations_from(ts, i).0 == declared(seq![e]) + declarations_from(
            ts,
            i + entry_tokens(e).len(),
        ).0,
        declarations_from(ts, i).1 == declarations_from(ts, i + entry_tokens(e).len()).1,
{
    let text = entry_tokens(e);
    assert(ts[i] == text[0]);
    assert(ts[i + 1] == text[1]);
    assert(seq![e].skip(1) =~= Seq::<Entry>::empty());
    assert(declared(seq![e].skip(1)) =~= Seq::<DeclarationModel>::empty());
    match e {
        Entry::Complete { property, value } => {
            assert(ts[i + 2] == text[2]);
            let d = DeclarationModel { property, value };
            assert(declared(seq![e]) =~= seq![d]);
        },
        Entry::WithoutColon { property, other } => {
            assert(declared(seq![e]) =~= Seq::<DeclarationModel>::empty());
            assert(Seq::<DeclarationModel>::empty() + declarations_from(ts, i + 2).0
                =~= declarations_from(ts, i + 2).0);
        },
    }
}

/// What follows an entry of a block is read to the `}`: every complete
/// entry gives its declaration, and every entry without its `:` gives none
/// and takes nothing from those that follow it.
proof fn lemma_block_tail(ts: Seq<CssTokenModel>, i: int, entries: Seq<Entry>)
    requires
        entries_wf(entries),
        stands_at(ts, i, block_tail(entries)),
    ensures
        declarations_from(ts, i) == (declared(entries), i + block_tail(entries).len()),
    decreases entries.len(),
{
    let tail = block_tail(entries);
    assert(ts[i] == tail[0]);
    if entries.len() > 0 {
        let e = entries[0];
        let others = entries.skip(1);
        let text = entry_tokens(e);
        assert(tail == seq![CssTokenModel::SemiColon] + text + block_tail(others));
        lemma_stands_apart(ts, i, seq![CssTokenModel::SemiColon] + text, block_tail(others));
        lemma_stands_apart(ts, i, seq![CssTokenModel::SemiColon], text);
        assert(entries_wf(others)) by {
            assert forall|k: int| 0 <= k < others.len() implies ((#[trigger] others[k])
                matches Entry::WithoutColon { other, .. } ==> !(other is Colon)) by {
                assert(others[k] == entries[k + 1]);
            }
        }
        assert(block_tail(others).len() >= 1);
        lemma_entry(ts, i + 1, e);
        lemma_block_tail(ts, i + 1 + text.len(), others);
        lemma_declared_first(entries);
        assert(declarations_from(ts, i) == declarations_from(ts, i + 1));
    }
}

/// The declarations of entries are those of the first and then those of
/// the others.
proof fn lemma_declared_first(entries: Seq<Entry>)
    requires
        entries.len() > 0,
    ensures
        declared(entries) == declared(seq![entries[0]]) + declared(entries.skip(1)),
{
    let one = seq![entries[0]];
    assert(one.skip(1) =~= Seq::<Entry>::empty());
    assert(declared(one.skip(1)) =~= Seq::<DeclarationModel>::empty());
    match entries[0] {
        Entry::Complete { property, value } => {
            let d = DeclarationModel { property, value };
            assert(declared(one) =~= seq![d]);
        },
        Entry::WithoutColon { .. } => {
            assert(declared(one) =~= Seq::<DeclarationModel>::empty());
            assert(Seq::<DeclarationModel>::empty() + declared(entries.skip(1)) =~= declared(
                entries.skip(1),
            ));
        },
    }
}

/// A block of entries with a `;` between them, up to its `}`, gives the
/// declarations of its complete entries, in their order and as often as
/// they are written. An entry that lacks its `:` gives none and takes
/// nothing from the entries after it. The list ends right behind the `}`.
pub proof fn lemma_block_is_read(ts: Seq<CssTokenModel>, i: int, entries: Seq<Entry>)
    requires
        entries_wf(entries),
        stands_at(ts, i, block_tokens(entries)),
    ensures
        declarations_from(ts, i) == (declared(entries), i + block_tokens(entries).len()),
{
    let block = block_tokens(entries);
    assert(ts[i] == block[0]);
    if entries.len() > 0 {
        let e = entries[0];
        let others = entries.skip(1);
        let text = entry_tokens(e);
        lemma_stands_apart(ts, i, text, block_tail(others));
        assert(entries_wf(others)) by {
            assert forall|k: int| 0 <= k < others.len() implies ((#[trigger] others[k])
                matches Entry::WithoutColon { other, .. } ==> !(other is Colon)) by {
                assert(others[k] == entries[k + 1]);
            }
        }
        assert(block_tail(others).len() >= 1);
        lemma_entry(ts, i, e);
        lemma_block_tail(ts, i + text.len(), others);
        lemma_declared_first(entries);
    }
}

/// A style sheet of one rule, a type selector with a block of entries,
/// is read as that rule with the declarations of its complete entries.
pub proof fn lemma_rule_is_read(ts: Seq<CssTokenModel>, name: Seq<char>, entries: Seq<Entry>)
    requires
        entries_wf(entries),
        ts == seq![CssTokenModel::Ident(name), CssTokenModel::OpenCurly] + block_tokens(entries),
    ensures
        rules_from(ts, 0) == Ok::<Seq<RuleModel>, ()>(
            seq![
                RuleModel {
                    selector: SelectorModel::TypeSelector(name),
                    declarations: declared(entries),
                },
            ],
        ),
{
    let block = block_tokens(entries);
    let rule = RuleModel {
        selector: SelectorModel::TypeSelector(name),
        declarations: declared(entries),
    };
    assert(block.len() >= 1);
    assert(ts[0] == CssTokenModel::Ident(name));
    assert(ts[1] == CssTokenModel::OpenCurly);
    assert(stands_at(ts, 2, block)) by {
        assert forall|k: int| 0 <= k < block.len() implies ts[2 + k] == #[trigger] block[k] by {}
    }
    lemma_block_is_read(ts, 2, entries);
    assert(selector_at(ts, 0) == Ok::<(SelectorModel, int), ()>(
        (SelectorModel::TypeSelector(name), 1),
    ));
    assert(rule_from(ts, 1, SelectorModel::TypeSelector(name)) == Ok::<
        (Option<RuleModel>, int),
        (),
    >((Some(rule), ts.len() as int)));
    assert(rule_from(ts, 0, SelectorModel::TypeSelector(Seq::empty())) == rule_from(
        ts,
        1,
        SelectorModel::TypeSelector(name),
    ));
    assert(rules_from(ts, ts.len() as int) == Ok::<Seq<RuleModel>, ()>(Seq::empty()));
    assert(seq![rule] + Seq::<RuleModel>::empty() =~= seq![rule]);
}

/// `skip_to_curly` stays within the tokens and does not go back.
pub proof fn lemma_skip_to_curly(ts: Seq<CssTokenModel>, i: int)
    requires
        0 <= i <= ts.len(),
    ensures
        i <= skip_to_curly(ts, i) <= ts.len(),
        skip_to_curly(ts, i) < ts.len() ==> ts[skip_to_curly(ts, i)] is OpenCurly,
    decreases ts.len() - i,
{
    if i < ts.len() && !(ts[i] is OpenCurly) {
        lemma_skip_to_curly(ts, i + 1);
    }
}

/// A list of declarations ends within the tokens and does not go back.
pub proof fn lemma_declarations_from(ts: Seq<CssTokenModel>, i: int)
    requires
        0 <= i <= ts.len(),
    ensures
        i <= declarations_from(ts, i).1 <= ts.len(),
    decreases ts.len() - i,
{
    if i < ts.len() {
        match ts[i] {
            CssTokenModel::CloseCurly => {},
            CssTokenModel::Ident(_) => {
                let next = declaration_at(ts, i).1;
                if next <= ts.len() {
                    lemma_declarations_from(ts, next);
                }
            },
            _ => {
                lemma_declarations_from(ts, i + 1);
            },
        }
    }
}


/// `done`, then what `rest` gives where it gives something.
pub open spec fn after<T, E>(done: Seq<T>, rest: Result<Seq<T>, E>) -> Result<Seq<T>, E> {
    match rest {
        Ok(more) => Ok(done + more),
        Err(e) => Err(e),
    }
}

/// The parser, which reads from a tokenizer.
#[derive(Debug, Clone)]
pub struct CssParser {
    tokenizer: CssTokenizer,
}

impl CssParser {
    /// The text that the parser reads, and how far it has read it.
    pub closed spec fn source(&self) -> CssTokenizerModel {
        self.tokenizer@
    }

    /// The tokenizer is well formed.
    pub closed spec fn wf(&self) -> bool {
        self.tokenizer.wf()
    }

    /// A parser for what `tokenizer` has yet to read.
    pub fn new(tokenizer: CssTokenizer) -> (r: Self)
        requires
            tokenizer.wf(),
        ensures
            r.wf(),
            r.source() == tokenizer@,
    {
        Self { tokenizer }
    }

    /// Reads the rest of the text into a style sheet. An error comes where
    /// a character starts no token, and where a `.` in a selector is
    /// followed by no identifier.
    pub fn parse_stylesheet(&mut self) -> (r: Result<StyleSheet, Error>)
        requires
            old(self).wf(),
        ensures
            final(self).wf(),
            final(self).source().input == old(self).source().input,
            final(self).source().pos == halt_from(
                old(self).source().input,
                old(self).source().pos as int,
            ),
            match parsed(old(self).source().input, old(self).source().pos as int) {
                Ok(rules) => r matches Ok(sheet) && sheet@ == rules,
                Err(message) => r matches Err(Error::UnexpectedInput(m)) && m@ == message,
            },
    {
        let tokens = match self.consume_tokens() {
            Ok(tokens) => tokens,
            Err(e) => {
                return Err(e);
            },
        };
        match Self::consume_list_of_rules(&tokens) {
            Ok(rules) => {
                let mut sheet = StyleSheet::new();
                sheet.set_rules(rules);
                Ok(sheet)
            },
            Err(e) => Err(e),
        }
    }

    /// Pulls every token that is left.
    fn consume_tokens(&mut self) -> (r: Result<Vec<CssToken>, Error>)
        requires
            old(self).wf(),
        ensures
            final(self).wf(),
            final(self).source().input == old(self).source().input,
            final(self).source().pos == halt_from(
                old(self).source().input,
                old(self).source().pos as int,
            ),
            match tokens_from(old(self).source().input, old(self).source().pos as int) {
                Ok(ts) => r matches Ok(tokens) && tokens.deep_view() == ts,
                Err(c) => r matches Err(Error::UnexpectedInput(m)) && m@ == unsupported_message(c),
            },
    {
        let mut tokens: Vec<CssToken> = Vec::new();
        let ghost input = self.tokenizer@.input;
        let ghost goal = tokens_from(input, self.tokenizer@.pos as int);
        assert(tokens.deep_view() =~= Seq::empty());
        assert(after(tokens.deep_view(), goal) == goal) by {
            if goal is Ok {
                assert(Seq::<CssTokenModel>::empty() + goal->Ok_0 =~= goal->Ok_0);
            }
        }
        loop
            invariant
                self.tokenizer.wf(),
                self.tokenizer@.input == input,
                input == old(self).source().input,
                goal == tokens_from(input, old(self).source().pos as int),
                after(tokens.deep_view(), tokens_from(input, self.tokenizer@.pos as int)) == goal,
                halt_from(input, self.tokenizer@.pos as int) == halt_from(
                    input,
                    old(self).source().pos as int,
                ),
            decreases input.len() - self.tokenizer@.pos,
        {
            let ghost pos = self.tokenizer@.pos as int;
            let ghost done = tokens.deep_view();
            proof {
                lemma_pull_at(input, pos);
            }
            match self.tokenizer.next() {
                Ok(Some(token)) => {
                    tokens.push(token);
                    proof {
                        let rest = tokens_from(input, self.tokenizer@.pos as int);
                        assert(tokens.deep_view() =~= done.push(token@));
                        if rest is Ok {
                            assert(done + (seq![token@] + rest->Ok_0) =~= done.push(token@)
                                + rest->Ok_0);
                        }
                    }
                },
                Ok(None) => {
                    assert(done + Seq::<CssTokenModel>::empty() =~= done);
                    return Ok(tokens);
                },
                Err(e) => {
                    return Err(e);
                },
            }
        }
    }

    /// Reads the rules that `tokens` spell.
    fn consume_list_of_rules(tokens: &Vec<CssToken>) -> (r: Result<Vec<QualifiedRule>, Error>)
        ensures
            match rules_from(tokens.deep_view(), 0) {
                Ok(rules) => r matches Ok(read) && read.deep_view() == rules,
                Err(_) => r matches Err(Error::UnexpectedInput(m)) && m@
                    == expected_ident_message(),
            },
    {
        let ghost ts = tokens.deep_view();
        let mut rules: Vec<QualifiedRule> = Vec::new();
        let mut pos: usize = 0;
        assert(rules.deep_view() =~= Seq::empty());
        assert(after(rules.deep_view(), rules_from(ts, 0)) == rules_from(ts, 0)) by {
            if rules_from(ts, 0) is Ok {
                assert(Seq::<RuleModel>::empty() + rules_from(ts, 0)->Ok_0 =~= rules_from(
                    ts,
                    0,
                )->Ok_0);
            }
        }
        while pos < tokens.len()
            invariant
                ts == tokens.deep_view(),
                pos <= tokens.len(),
                after(rules.deep_view(), rules_from(ts, pos as int)) == rules_from(ts, 0),
            decreases tokens.len() - pos,
        {
            let ghost done = rules.deep_view();
            let at_rule = match &tokens[pos] {
                CssToken::AtKeyword(_) => true,
                _ => false,
            };
            assert(at_rule == (ts[pos as int] is AtKeyword));
            match Self::consume_qualified_rule(tokens, pos) {
                Ok((Some(rule), next)) => {
                    proof {
                        let rest = rules_from(ts, next as int);
                        if rest is Ok && !at_rule {
                            assert(done + (seq![rule@] + rest->Ok_0) =~= done.push(rule@)
                                + rest->Ok_0);
                        }
                    }
                    if !at_rule {
                        rules.push(rule);
                        assert(rules.deep_view() =~= done.push(rule@));
                    }
                    pos = next;
                },
                Ok((None, _)) => {
                    assert(done + Seq::<RuleModel>::empty() =~= done);
                    return Ok(rules);
                },
                Err(e) => {
                    return Err(e);
                },
            }
        }
        assert(rules.deep_view() + Seq::<RuleModel>::empty() =~= rules.deep_view());
        Ok(rules)
    }

    /// Reads one rule from index `start` on: its selector, up to the `{`,
    /// and the declarations in its block.
    fn consume_qualified_rule(tokens: &Vec<CssToken>, start: usize) -> (r: Result<
        (Option<QualifiedRule>, usize),
        Error,
    >)
        requires
            start < tokens.len(),
        ensures
            match rule_from(
                tokens.deep_view(),
                start as int,
                SelectorModel::TypeSelector(Seq::empty()),
            ) {
                Ok((Some(rule), next)) => r matches Ok((Some(read), end)) && read@ == rule && end
                    == next && start < end <= tokens.len(),
                Ok((None, _)) => r matches Ok((None, _)),
                Err(_) => r matches Err(Error::UnexpectedInput(m)) && m@
                    == expected_ident_message(),
            },
    {
        let ghost ts = tokens.deep_view();
        let mut rule = QualifiedRule::new();
        let mut pos: usize = start;
        while pos < tokens.len()
            invariant
                ts == tokens.deep_view(),
                start <= pos <= tokens.len(),
                rule@.declarations == Seq::<DeclarationModel>::empty(),
                rule_from(ts, pos as int, rule@.selector) == rule_from(
                    ts,
                    start as int,
                    SelectorModel::TypeSelector(Seq::empty()),
                ),
            decreases tokens.len() - pos,
        {
            let open = match &tokens[pos] {
                CssToken::OpenCurly => true,
                _ => false,
            };
            assert(open == (ts[pos as int] is OpenCurly));
            if open {
                proof {
                    lemma_declarations_from(ts, pos + 1);
                }
                let (declarations, end) = Self::consume_list_of_declarations(tokens, pos + 1);
                rule.set_declarations(declarations);
                return Ok((Some(rule), end));
            }
            proof {
                lemma_skip_to_curly(ts, pos + 1);
            }
            match Self::consume_selector(tokens, pos) {
                Ok((selector, next)) => {
                    rule.set_selector(selector);
                    pos = next;
                },
                Err(e) => {
                    return Err(e);
                },
            }
        }
        Ok((None, pos))
    }

    /// The index of the first `{` from `start` on, or the number of tokens.
    fn skip_to_open_curly(tokens: &Vec<CssToken>, start: usize) -> (end: usize)
        requires
            start <= tokens.len(),
        ensures
            end == skip_to_curly(tokens.deep_view(), start as int),
            start <= end <= tokens.len(),
    {
        let mut i: usize = start;
        while i < tokens.len()
            invariant
                start <= i <= tokens.len(),
                skip_to_curly(tokens.deep_view(), i as int) == skip_to_curly(
                    tokens.deep_view(),
                    start as int,
                ),
            decreases tokens.len() - i,
        {
            let open = match &tokens[i] {
                CssToken::OpenCurly => true,
                _ => false,
            };
            assert(open == (tokens.deep_view()[i as int] is OpenCurly));
            if open {
                return i;
            }
            i += 1;
        }
        i
    }

    /// Reads the selector that starts with the token at `pos`.
    fn consume_selector(tokens: &Vec<CssToken>, pos: usize) -> (r: Result<(Selector, usize), Error>)
        requires
            pos < tokens.len(),
        ensures
            match selector_at(tokens.deep_view(), pos as int) {
                Ok((selector, next)) => r matches Ok((read, end)) && read@ == selector && end
                    == next && pos < end <= tokens.len(),
                Err(_) => r matches Err(Error::UnexpectedInput(m)) && m@
                    == expected_ident_message(),
            },
    {
        let ghost ts = tokens.deep_view();
        assert(ts[pos as int] == tokens[pos as int]@);
        match &tokens[pos] {
            CssToken::HashToken(value) => {
                let chars = chars_of(value.as_str());
                let name = if chars.len() > 0 {
                    string_of(&chars, 1, chars.len())
                } else {
                    String::new()
                };
                assert(name@ =~= without_first(value@));
                Ok((Selector::IdSelector(name), pos + 1))
            },
            CssToken::Delim(delim) => {
                if *delim == '.' {
                    match Self::consume_ident(tokens, pos + 1) {
                        Ok((name, end)) => Ok((Selector::ClassSelector(name), end)),
                        Err(e) => Err(e),
                    }
                } else {
                    Ok((Selector::UnknownSelector, pos + 1))
                }
            },
            CssToken::Ident(ident) => {
                let colon = if pos + 1 < tokens.len() {
                    match &tokens[pos + 1] {
                        CssToken::Colon => true,
                        _ => false,
                    }
                } else {
                    false
                };
                assert(colon == (pos + 1 < ts.len() && ts[pos + 1] is Colon));
                let end = if colon {
                    Self::skip_to_open_curly(tokens, pos + 1)
                } else {
                    pos + 1
                };
                Ok((Selector::TypeSelector(ident.clone()), end))
            },
            CssToken::AtKeyword(_) => Ok(
                (Selector::UnknownSelector, Self::skip_to_open_curly(tokens, pos + 1)),
            ),
            _ => Ok((Selector::UnknownSelector, pos + 1)),
        }
    }

    /// Reads the declarations from index `start` up to the `}` that ends
    /// their list.
    fn consume_list_of_declarations(tokens: &Vec<CssToken>, start: usize) -> (r: (
        Vec<Declaration>,
        usize,
    ))
        requires
            start <= tokens.len(),
        ensures
            r.0.deep_view() == declarations_from(tokens.deep_view(), start as int).0,
            r.1 == declarations_from(tokens.deep_view(), start as int).1,
            start <= r.1 <= tokens.len(),
    {
        let ghost ts = tokens.deep_view();
        let mut declarations: Vec<Declaration> = Vec::new();
        let mut pos: usize = start;
        assert(declarations.deep_view() =~= Seq::empty());
        assert(Seq::<DeclarationModel>::empty() + declarations_from(ts, start as int).0
            =~= declarations_from(ts, start as int).0);
        while pos < tokens.len()
            invariant
                ts == tokens.deep_view(),
                start <= pos <= tokens.len(),
                declarations.deep_view() + declarations_from(ts, pos as int).0
                    == declarations_from(ts, start as int).0,
                declarations_from(ts, pos as int).1 == declarations_from(ts, start as int).1,
            decreases tokens.len() - pos,
        {
            let ghost done = declarations.deep_view();
            assert(ts[pos as int] == tokens[pos as int]@);
            match &tokens[pos] {
                CssToken::CloseCurly => {
                    assert(done + Seq::<DeclarationModel>::empty() =~= done);
                    return (declarations, pos + 1);
                },
                CssToken::Ident(_) => {
                    let (declaration, next) = Self::consume_declaration(tokens, pos);
                    match declaration {
                        Some(d) => {
                            proof {
                                let rest = declarations_from(ts, next as int).0;
                                assert(done + (seq![d@] + rest) =~= done.push(d@) + rest);
                            }
                            declarations.push(d);
                            assert(declarations.deep_view() =~= done.push(d@));
                        },
                        None => {},
                    }
                    pos = next;
                },
                _ => {
                    pos += 1;
                },
            }
        }
        assert(declarations.deep_view() + Seq::<DeclarationModel>::empty()
            =~= declarations.deep_view());
        (declarations, pos)
    }

    /// Reads the declaration that starts with the identifier at `pos`.
    fn consume_declaration(tokens: &Vec<CssToken>, pos: usize) -> (r: (Option<Declaration>, usize))
        requires
            pos < tokens.len(),
            tokens.deep_view()[pos as int] is Ident,
        ensures
            match declaration_at(tokens.deep_view(), pos as int).0 {
                Some(d) => r.0 matches Some(read) && read@ == d,
                None => r.0 is None,
            },
            r.1 == declaration_at(tokens.deep_view(), pos as int).1,
            pos < r.1 <= tokens.len(),
    {
        let ghost ts = tokens.deep_view();
        let mut declaration = Declaration::new();
        match Self::consume_ident(tokens, pos) {
            Ok((property, _)) => {
                declaration.set_property(property);
            },
            Err(_) => {
                return (None, pos + 1);
            },
        }
        if pos + 1 >= tokens.len() {
            return (None, pos + 1);
        }
        assert(ts[pos + 1] == tokens[pos + 1]@);
        match &tokens[pos + 1] {
            CssToken::Colon => {},
            _ => {
                return (None, pos + 2);
            },
        }
        match Self::consume_component_value(tokens, pos + 2) {
            Some(value) => {
                declaration.set_value(value);
                (Some(declaration), pos + 3)
            },
            None => (None, pos + 2),
        }
    }

    /// The identifier at `pos`, and the index after it; an error where the
    /// token at `pos` is no identifier or the tokens have ended.
    fn consume_ident(tokens: &Vec<CssToken>, pos: usize) -> (r: Result<(String, usize), Error>)
        requires
            pos <= tokens.len(),
        ensures
            if pos < tokens.len() && tokens.deep_view()[pos as int] is Ident {
                r matches Ok((name, end)) && name@ == tokens.deep_view()[pos as int]->Ident_0
                    && end == pos + 1
            } else {
                r matches Err(Error::UnexpectedInput(m)) && m@ == expected_ident_message()
            },
    {
        if pos < tokens.len() {
            assert(tokens.deep_view()[pos as int] == tokens[pos as int]@);
            match &tokens[pos] {
                CssToken::Ident(i) => {
                    return Ok((i.clone(), pos + 1));
                },
                _ => {},
            }
        }
        Err(Error::UnexpectedInput(text_of("expected an identifier")))
    }

    /// The token at `pos`, as the value of a declaration.
    fn consume_component_value(tokens: &Vec<CssToken>, pos: usize) -> (r: Option<CssToken>)
        ensures
            match r {
                Some(t) => pos < tokens.len() && t@ == tokens.deep_view()[pos as int],
                None => pos >= tokens.len(),
            },
    {
        if pos < tokens.len() {
            assert(tokens.deep_view()[pos as int] == tokens[pos as int]@);
            Some(tokens[pos].duplicate())
        } else {
            None
        }
    }
}

} // verus!
