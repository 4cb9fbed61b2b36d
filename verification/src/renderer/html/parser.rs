//! The tree constructor: an insertion-mode machine that reads the tokens of
//! a document one by one and builds the document tree.

use crate::renderer::dom::node::{
    duplicate_attributes, element_kind_of, kind_of_name, Element, ElementKind, ElementModel,
    NodeKind, NodeKindModel, Window,
};
use crate::renderer::html::html_tag_attribute::HtmlTagAttribute;
use crate::renderer::html::insertion::{
    build, holds, lemma_close, lemma_handle, lemma_insert_char, lemma_insert_element,
    lemma_pop_until, open_at, popped_until, top_is, TreeModel,
};
use crate::renderer::html::machine::{lemma_run, tokens_of};
use crate::renderer::html::token::{HtmlToken, HtmlTokenizer, TokenModel};
use vstd::prelude::*;

verus! {

/// How the constructor reads the next token: where in the document it
/// takes itself to be.
#[derive(Debug, Clone, Copy, PartialEq, Eq, Structural)]
pub enum InsertionMode {
    Initial,
    BeforeHtml,
    BeforeHead,
    InHead,
    AfterHead,
    InBody,
    Text,
    AfterBody,
    AfterAfterBody,
}

/// What the constructor does with a token once a mode has handled it.
#[derive(Debug, Clone, Copy, PartialEq, Eq, Structural)]
pub enum Next {
    /// Go on with the next token.
    Advance,
    /// Hand the same token to the mode that the constructor is now in.
    Again,
    /// The document is complete.
    Done,
}

/// Whether `tag` is the name `name`.
fn is_named(tag: &String, name: &str) -> (r: bool)
    ensures
        r == (tag@ == name@),
{
    let other = String::from_str(name);
    *tag == other
}

/// The element kind that `tag` names, if it names one.
fn kind_named(tag: &String) -> (r: Option<ElementKind>)
    ensures
        r == kind_of_name(tag@),
{
    match ElementKind::from_str(tag.as_str()) {
        Ok(kind) => Some(kind),
        Err(_) => None,
    }
}

/// The tree constructor: the document built so far, the insertion mode,
/// the elements that are open, and the tokenizer that it reads from.
#[derive(Debug, Clone)]
pub struct HtmlParser {
    window: Window,
    current_mode: InsertionMode,
    original_mode: InsertionMode,
    stack_of_open_elements: Vec<usize>,
    tokenizer: HtmlTokenizer,
}

impl HtmlParser {
    /// The state of the constructor.
    pub closed spec fn tree(&self) -> TreeModel {
        TreeModel {
            nodes: self.window@,
            mode: self.current_mode,
            original_mode: self.original_mode,
            stack: self.stack_of_open_elements@,
        }
    }

    /// The tokens that the constructor has yet to read.
    pub closed spec fn tokens(&self) -> Seq<TokenModel> {
        tokens_of(self.tokenizer@)
    }

    /// The constructor and its tokenizer are well formed.
    pub closed spec fn wf(&self) -> bool {
        self.tree().wf() && self.tokenizer.wf()
    }

    /// A constructor that has read nothing of `tokenizer` yet.
    pub fn new(tokenizer: HtmlTokenizer) -> (r: Self)
        requires
            tokenizer.wf(),
        ensures
            r.wf(),
            r.tree() == TreeModel::initial(),
            r.tokens() == tokens_of(tokenizer@),
    {
        Self {
            window: Window::new(),
            current_mode: InsertionMode::Initial,
            original_mode: InsertionMode::Initial,
            stack_of_open_elements: Vec::new(),
            tokenizer,
        }
    }

    /// Reads the tokens to their end and gives the document built from them.
    pub fn construct_tree(self) -> (w: Window)
        requires
            self.wf(),
        ensures
            w.wf(),
            w@ == build(self.tree(), self.tokens()).nodes,
    {
        let mut parser = self;
        let ghost goal = build(self.tree(), self.tokens());
        let mut token = match parser.next_token() {
            Some(t) => t,
            None => {
                return parser.window;
            },
        };
        loop
            invariant
                parser.wf(),
                goal == build(self.tree(), self.tokens()),
                build(parser.tree(), seq![token@] + parser.tokens()) == goal,
            decreases parser.tokenizer@.measure(), parser.tree().rank(token@),
        {
            let ghost before = parser.tree();
            let ghost rest = parser.tokens();
            proof {
                lemma_handle(before, token@);
                assert((seq![token@] + rest).drop_first() =~= rest);
                assert((seq![token@] + rest)[0] == token@);
            }
            match parser.handle(&token) {
                Next::Advance => {
                    match parser.next_token() {
                        Some(t) => {
                            token = t;
                        },
                        None => {
                            assert(rest.len() == 0);
                            assert(build(parser.tree(), rest) == parser.tree());
                            return parser.window;
                        },
                    }
                },
                Next::Again => {},
                Next::Done => {
                    return parser.window;
                },
            }
        }
    }

    /// The next token; `None` at the end of the input, and where the rest
    /// of the input is malformed, which ends the document too.
    fn next_token(&mut self) -> (r: Option<HtmlToken>)
        requires
            old(self).wf(),
        ensures
            final(self).wf(),
            final(self).tree() == old(self).tree(),
            match r {
                Some(t) => old(self).tokens() == seq![t@] + final(self).tokens()
                    && final(self).tokenizer@.measure() < old(self).tokenizer@.measure(),
                None => old(self).tokens() == Seq::<TokenModel>::empty(),
            },
    {
        proof {
            self.tokenizer.lemma_wf();
            if !self.tokenizer@.exhausted() {
                lemma_run(self.tokenizer@);
            }
        }
        match self.tokenizer.next() {
            Ok(Some(t)) => Some(t),
            _ => None,
        }
    }

    /// The node kind of an element of kind `kind` with `attributes`.
    fn create_element(&self, kind: ElementKind, attributes: Vec<HtmlTagAttribute>) -> (r: NodeKind)
        ensures
            r@ == NodeKindModel::Element(
                ElementModel { kind, attributes: attributes.deep_view() },
            ),
    {
        NodeKind::Element(Element::of_kind(kind, attributes))
    }

    /// The node kind of a text that holds `c` alone.
    fn create_char(&self, c: char) -> (r: NodeKind)
        ensures
            r@ == NodeKindModel::Text(seq![c]),
    {
        let mut s = String::new();
        s.push(c);
        assert(s@ =~= seq![c]);
        NodeKind::Text(s)
    }

    /// Where new nodes go: the innermost open element, or the document.
    fn current(&self) -> (r: usize)
        requires
            self.wf(),
        ensures
            r == self.tree().current(),
            r < self.tree().nodes.len(),
            !(self.tree().nodes[r as int].kind is Text),
    {
        let n = self.stack_of_open_elements.len();
        if n > 0 {
            assert(open_at(self.tree().nodes, self.tree().stack, n - 1));
            self.stack_of_open_elements[n - 1]
        } else {
            self.window.document()
        }
    }

    /// Adds an element as the last child of the current node and opens it.
    fn insert_element(&mut self, kind: ElementKind, attributes: Vec<HtmlTagAttribute>)
        requires
            old(self).wf(),
        ensures
            final(self).wf(),
            final(self).tree() == old(self).tree().insert_element(kind, attributes.deep_view()),
            final(self).tokenizer == old(self).tokenizer,
    {
        proof {
            lemma_insert_element(self.tree(), kind, attributes.deep_view());
        }
        if self.window.len() < usize::MAX {
            let current = self.current();
            let node = self.create_element(kind, attributes);
            let id = self.window.append_child(current, node);
            self.stack_of_open_elements.push(id);
        }
    }

    /// Adds `c` to the text at the end of the innermost open element, or
    /// starts a text there.
    fn insert_char(&mut self, c: char)
        requires
            old(self).wf(),
        ensures
            final(self).wf(),
            final(self).tree() == old(self).tree().insert_char(c),
            final(self).tokenizer == old(self).tokenizer,
    {
        proof {
            lemma_insert_char(self.tree(), c);
        }
        if self.stack_of_open_elements.len() == 0 {
            return ;
        }
        let current = self.current();
        match self.window.trailing_text_of(current) {
            Some(text) => {
                self.window.append_text(text, c);
            },
            None => {
                if c == ' ' || c == '\n' || self.window.len() >= usize::MAX {
                    return ;
                }
                let node = self.create_char(c);
                self.window.append_child(current, node);
            },
        }
    }

    /// Closes the open elements down to and including the innermost of
    /// kind `kind`.
    fn pop_until(&mut self, kind: ElementKind)
        requires
            old(self).wf(),
        ensures
            final(self).wf(),
            final(self).tree() == old(self).tree().pop_until(kind),
            final(self).tokenizer == old(self).tokenizer,
    {
        proof {
            lemma_pop_until(self.tree(), kind);
        }
        loop
            invariant
                self.window == old(self).window,
                self.current_mode == old(self).current_mode,
                self.original_mode == old(self).original_mode,
                self.tokenizer == old(self).tokenizer,
                old(self).wf(),
                self.stack_of_open_elements@.len() <= old(self).stack_of_open_elements@.len(),
                self.stack_of_open_elements@ == old(self).stack_of_open_elements@.take(
                    self.stack_of_open_elements@.len() as int,
                ),
                popped_until(self.window@, self.stack_of_open_elements@, kind) == popped_until(
                    old(self).window@,
                    old(self).stack_of_open_elements@,
                    kind,
                ),
            decreases self.stack_of_open_elements.len(),
        {
            let ghost stack = self.stack_of_open_elements@;
            match self.stack_of_open_elements.pop() {
                Some(id) => {
                    assert(stack.drop_last() =~= old(self).stack_of_open_elements@.take(
                        stack.len() - 1,
                    ));
                    assert(open_at(old(self).tree().nodes, old(self).tree().stack, stack.len() - 1));
                    if self.window.element_kind_at(id) == Some(kind) {
                        return ;
                    }
                },
                None => {
                    return ;
                },
            }
        }
    }

    /// Whether an element of kind `kind` is open.
    fn contain_in_stack(&self, kind: ElementKind) -> (r: bool)
        requires
            self.wf(),
        ensures
            r == holds(self.tree().nodes, self.tree().stack, kind),
    {
        let mut i: usize = 0;
        while i < self.stack_of_open_elements.len()
            invariant
                self.wf(),
                i <= self.stack_of_open_elements.len(),
                forall|j: int|
                    0 <= j < i ==> element_kind_of(
                        self.window@[#[trigger] self.stack_of_open_elements@[j] as int].kind,
                    ) != Some(kind),
            decreases self.stack_of_open_elements.len() - i,
        {
            assert(open_at(self.tree().nodes, self.tree().stack, i as int));
            if self.window.element_kind_at(self.stack_of_open_elements[i]) == Some(kind) {
                return true;
            }
            i += 1;
        }
        false
    }

    /// Closes the innermost open element if it is of kind `kind`, and says
    /// whether it did.
    fn pop_current_node(&mut self, kind: ElementKind) -> (r: bool)
        requires
            old(self).wf(),
        ensures
            final(self).wf(),
            r == top_is(old(self).tree().nodes, old(self).tree().stack, kind),
            final(self).tree() == old(self).tree().with_stack(
                if r {
                    old(self).tree().stack.drop_last()
                } else {
                    old(self).tree().stack
                },
            ),
            final(self).tokenizer == old(self).tokenizer,
    {
        let n = self.stack_of_open_elements.len();
        if n == 0 {
            return false;
        }
        assert(open_at(self.tree().nodes, self.tree().stack, n - 1));
        if self.window.element_kind_at(self.stack_of_open_elements[n - 1]) == Some(kind) {
            proof {
                lemma_close(self.tree(), n - 1);
                assert(self.stack_of_open_elements@.take(n - 1)
                    =~= self.stack_of_open_elements@.drop_last());
            }
            self.stack_of_open_elements.pop();
            return true;
        }
        false
    }

    /// The modes that wait for one element and insert it themselves where
    /// the document leaves it out.
    fn awaiting(
        &mut self,
        token: &HtmlToken,
        kind: ElementKind,
        name: &str,
        then: InsertionMode,
    ) -> (r: Next)
        requires
            old(self).wf(),
            then != InsertionMode::Text,
        ensures
            final(self).wf(),
            (final(self).tree(), r) == old(self).tree().awaiting(token@, kind, name@, then),
            final(self).tokenizer == old(self).tokenizer,
    {
        match token {
            HtmlToken::Char(c) => {
                if *c == ' ' || *c == '\n' {
                    return Next::Advance;
                }
            },
            HtmlToken::StartTag { tag, self_closing: _, attributes } => {
                if is_named(tag, name) {
                    self.insert_element(kind, duplicate_attributes(attributes));
                    self.current_mode = then;
                    return Next::Advance;
                }
            },
            HtmlToken::Eof => {
                return Next::Done;
            },
            _ => {},
        }
        let none: Vec<HtmlTagAttribute> = Vec::new();
        assert(none.deep_view() =~= Seq::empty());
        self.insert_element(kind, none);
        self.current_mode = then;
        Next::Again
    }

    /// Inside the head: `style` and `script` start raw text, the end of the
    /// head and the start of any other known element lead on to the body.
    fn in_head(&mut self, token: &HtmlToken) -> (r: Next)
        requires
            old(self).wf(),
        ensures
            final(self).wf(),
            (final(self).tree(), r) == old(self).tree().in_head(token@),
            final(self).tokenizer == old(self).tokenizer,
    {
        match token {
            HtmlToken::StartTag { tag, self_closing: _, attributes } => {
                if is_named(tag, "style") {
                    self.insert_element(ElementKind::Style, duplicate_attributes(attributes));
                    self.original_mode = InsertionMode::InHead;
                    self.current_mode = InsertionMode::Text;
                    Next::Advance
                } else if is_named(tag, "script") {
                    self.insert_element(ElementKind::Script, duplicate_attributes(attributes));
                    self.original_mode = InsertionMode::InHead;
                    self.current_mode = InsertionMode::Text;
                    Next::Advance
                } else if kind_named(tag).is_some() {
                    self.pop_until(ElementKind::Head);
                    self.current_mode = InsertionMode::AfterHead;
                    Next::Again
                } else {
                    Next::Advance
                }
            },
            HtmlToken::EndTag { tag } => {
                if is_named(tag, "head") {
                    self.current_mode = InsertionMode::AfterHead;
                    self.pop_until(ElementKind::Head);
                }
                Next::Advance
            },
            HtmlToken::Char(_) => Next::Advance,
            HtmlToken::Eof => Next::Done,
        }
    }

    /// Inside the body: known elements are opened and closed as their tags
    /// come, and characters become text.
    fn in_body(&mut self, token: &HtmlToken) -> (r: Next)
        requires
            old(self).wf(),
        ensures
            final(self).wf(),
            (final(self).tree(), r) == old(self).tree().in_body(token@),
            final(self).tokenizer == old(self).tokenizer,
    {
        match token {
            HtmlToken::StartTag { tag, self_closing: _, attributes } => {
                match kind_named(tag) {
                    Some(kind) => {
                        self.insert_element(kind, duplicate_attributes(attributes));
                    },
                    None => {},
                }
                Next::Advance
            },
            HtmlToken::EndTag { tag } => {
                if is_named(tag, "body") {
                    self.current_mode = InsertionMode::AfterBody;
                    if self.contain_in_stack(ElementKind::Body) {
                        self.pop_until(ElementKind::Body);
                    }
                    Next::Advance
                } else if is_named(tag, "html") {
                    if self.pop_current_node(ElementKind::Body) {
                        if self.pop_current_node(ElementKind::Html) {
                            self.current_mode = InsertionMode::AfterBody;
                            return Next::Again;
                        }
                    }
                    Next::Advance
                } else {
                    match kind_named(tag) {
                        Some(kind) => {
                            self.pop_until(kind);
                        },
                        None => {},
                    }
                    Next::Advance
                }
            },
            HtmlToken::Char(c) => {
                self.insert_char(*c);
                Next::Advance
            },
            HtmlToken::Eof => Next::Done,
        }
    }

    /// Inside raw text: characters become text up to the end tag of
    /// `style` or `script`.
    fn in_text(&mut self, token: &HtmlToken) -> (r: Next)
        requires
            old(self).wf(),
        ensures
            final(self).wf(),
            (final(self).tree(), r) == old(self).tree().in_text(token@),
            final(self).tokenizer == old(self).tokenizer,
    {
        match token {
            HtmlToken::EndTag { tag } => {
                if is_named(tag, "style") {
                    self.pop_until(ElementKind::Style);
                    self.current_mode = self.original_mode;
                    return Next::Advance;
                }
                if is_named(tag, "script") {
                    self.pop_until(ElementKind::Script);
                    self.current_mode = self.original_mode;
                    return Next::Advance;
                }
            },
            HtmlToken::Char(c) => {
                self.insert_char(*c);
                return Next::Advance;
            },
            HtmlToken::Eof => {
                return Next::Done;
            },
            _ => {},
        }
        self.current_mode = self.original_mode;
        Next::Again
    }

    /// Hands `token` to the mode that the constructor is in.
    fn handle(&mut self, token: &HtmlToken) -> (r: Next)
        requires
            old(self).wf(),
        ensures
            final(self).wf(),
            (final(self).tree(), r) == old(self).tree().handle(token@),
            final(self).tokenizer == old(self).tokenizer,
    {
        match self.current_mode {
            InsertionMode::Initial => match token {
                HtmlToken::Char(_) => Next::Advance,
                _ => {
                    self.current_mode = InsertionMode::BeforeHtml;
                    Next::Again
                },
            },
            InsertionMode::BeforeHtml => self.awaiting(
                token,
                ElementKind::Html,
                "html",
                InsertionMode::BeforeHead,
            ),
            InsertionMode::BeforeHead => self.awaiting(
                token,
                ElementKind::Head,
                "head",
                InsertionMode::InHead,
            ),
            InsertionMode::InHead => self.in_head(token),
            InsertionMode::AfterHead => self.awaiting(
                token,
                ElementKind::Body,
                "body",
                InsertionMode::InBody,
            ),
            InsertionMode::InBody => self.in_body(token),
            InsertionMode::Text => self.in_text(token),
            InsertionMode::AfterBody => {
                match token {
                    HtmlToken::Char(_) => {
                        return Next::Advance;
                    },
                    HtmlToken::EndTag { tag } => {
                        if is_named(tag, "html") {
                            self.current_mode = InsertionMode::AfterAfterBody;
                            return Next::Advance;
                        }
                    },
                    HtmlToken::Eof => {
                        return Next::Done;
                    },
                    _ => {},
                }
                self.current_mode = InsertionMode::InBody;
                Next::Again
            },
            InsertionMode::AfterAfterBody => {
                match token {
                    HtmlToken::Char(_) => {
                        return Next::Advance;
                    },
                    HtmlToken::Eof => {
                        return Next::Done;
                    },
                    _ => {},
                }
                self.current_mode = InsertionMode::InBody;
                Next::Again
            },
        }
    }
}

} // verus!
