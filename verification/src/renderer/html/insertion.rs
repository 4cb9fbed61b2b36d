//! The insertion modes as a state machine over mathematical values: what
//! each mode does with a token, and the tree that a sequence of tokens
//! builds.

use crate::renderer::dom::node::{
    element_kind_of, kind_of_name, ElementKind, ElementModel, NodeKindModel, NodeModel,
};
use crate::renderer::dom::tree::{
    lemma_with_child, lemma_with_text, node_wf, trails_text, tree_wf, with_child, with_text,
};
use crate::renderer::html::parser::{InsertionMode, Next};
use crate::renderer::html::token::TokenModel;
use vstd::prelude::*;

verus! {

/// The characters that the modes before the body skip.
pub open spec fn is_space(c: char) -> bool {
    c == ' ' || c == '\n'
}

/// The open elements down to and including the topmost one of kind `kind`
/// are closed; if there is none of that kind, all are.
pub open spec fn popped_until(nodes: Seq<NodeModel>, stack: Seq<usize>, kind: ElementKind) -> Seq<
    usize,
>
    decreases stack.len(),
{
    if stack.len() == 0 {
        stack
    } else if element_kind_of(nodes[stack.last() as int].kind) == Some(kind) {
        stack.drop_last()
    } else {
        popped_until(nodes, stack.drop_last(), kind)
    }
}

/// An element of kind `kind` is open.
pub open spec fn holds(nodes: Seq<NodeModel>, stack: Seq<usize>, kind: ElementKind) -> bool {
    exists|i: int| 0 <= i < stack.len() && element_kind_of(nodes[#[trigger] stack[i] as int].kind) == Some(kind)
}

/// The innermost open element is of kind `kind`.
pub open spec fn top_is(nodes: Seq<NodeModel>, stack: Seq<usize>, kind: ElementKind) -> bool {
    stack.len() > 0 && element_kind_of(nodes[stack.last() as int].kind) == Some(kind)
}

/// The open element at index `i` is an element of the tree, and a child of
/// the open element before it, or of the document if it is the outermost.
pub open spec fn open_at(nodes: Seq<NodeModel>, stack: Seq<usize>, i: int) -> bool {
    &&& stack[i] < nodes.len()
    &&& nodes[stack[i] as int].kind is Element
    &&& nodes[stack[i] as int].parent == Some(
        if i == 0 {
            0usize
        } else {
            stack[i - 1]
        },
    )
}

/// If the node at index `i` is a text node, its parent is an element.
pub open spec fn text_in_element(nodes: Seq<NodeModel>, i: int) -> bool {
    nodes[i].kind is Text ==> (nodes[i].parent matches Some(p) && p < nodes.len()
        && nodes[p as int].kind is Element)
}

/// The state of the tree constructor: the tree built so far, the insertion
/// mode, the mode to come back to after raw text, and the open elements from
/// the outermost to the innermost.
pub struct TreeModel {
    pub nodes: Seq<NodeModel>,
    pub mode: InsertionMode,
    pub original_mode: InsertionMode,
    pub stack: Seq<usize>,
}

impl TreeModel {
    /// The constructor before its first token: a document without children.
    pub open spec fn initial() -> TreeModel {
        TreeModel {
            nodes: seq![NodeModel::lone(NodeKindModel::Document)],
            mode: InsertionMode::Initial,
            original_mode: InsertionMode::Initial,
            stack: Seq::empty(),
        }
    }

    /// The tree is well formed; the open elements are a chain of ancestors
    /// in it, each a child of the one before; and text stands inside
    /// elements only, never right under the document.
    pub open spec fn wf(self) -> bool {
        &&& tree_wf(self.nodes)
        &&& self.original_mode != InsertionMode::Text
        &&& forall|i: int|
            #![trigger self.stack[i]]
            #![trigger open_at(self.nodes, self.stack, i)]
            0 <= i < self.stack.len() ==> open_at(self.nodes, self.stack, i)
        &&& forall|i: int|
            0 <= i < self.nodes.len() ==> #[trigger] text_in_element(self.nodes, i)
    }

    /// Where new nodes go: the innermost open element, or the document
    /// when no element is open.
    pub open spec fn current(self) -> usize {
        if self.stack.len() > 0 {
            self.stack.last()
        } else {
            0
        }
    }

    pub open spec fn to(self, mode: InsertionMode) -> TreeModel {
        TreeModel { mode, ..self }
    }

    pub open spec fn with_stack(self, stack: Seq<usize>) -> TreeModel {
        TreeModel { stack, ..self }
    }

    /// A new element becomes the last child of the current node and the
    /// innermost open element. A tree that can hold no more nodes stays as
    /// it is.
    pub open spec fn insert_element(
        self,
        kind: ElementKind,
        attributes: Seq<(Seq<char>, Seq<char>)>,
    ) -> TreeModel {
        if self.nodes.len() < usize::MAX {
            TreeModel {
                nodes: with_child(
                    self.nodes,
                    self.current(),
                    NodeKindModel::Element(ElementModel { kind, attributes }),
                ),
                stack: self.stack.push(self.nodes.len() as usize),
                ..self
            }
        } else {
            self
        }
    }

    /// A character goes to the end of the text that is the last child of
    /// the innermost open element. Where that element has no text at its
    /// end, a space or a line feed is dropped and any other character
    /// starts a new text node there. Outside every element the character
    /// is dropped.
    pub open spec fn insert_char(self, c: char) -> TreeModel {
        if self.stack.len() == 0 {
            self
        } else {
            let current = self.stack.last();
            let last = self.nodes[current as int].last_child;
            if trails_text(self.nodes, current) {
                TreeModel { nodes: with_text(self.nodes, last.unwrap(), c), ..self }
            } else if is_space(c) || self.nodes.len() >= usize::MAX {
                self
            } else {
                TreeModel {
                    nodes: with_child(self.nodes, current, NodeKindModel::Text(seq![c])),
                    ..self
                }
            }
        }
    }

    pub open spec fn pop_until(self, kind: ElementKind) -> TreeModel {
        self.with_stack(popped_until(self.nodes, self.stack, kind))
    }

    pub open spec fn in_initial(self, token: TokenModel) -> (TreeModel, Next) {
        if token is Char {
            (self, Next::Advance)
        } else {
            (self.to(InsertionMode::BeforeHtml), Next::Again)
        }
    }

    /// The modes that wait for one element, `kind`, named `name`, and go to
    /// `then` once it is there: whitespace is skipped, the element's own
    /// start tag inserts it, the end of the document ends the work, and
    /// any other token has the element inserted without attributes and is
    /// handled again in `then`.
    pub open spec fn awaiting(
        self,
        token: TokenModel,
        kind: ElementKind,
        name: Seq<char>,
        then: InsertionMode,
    ) -> (TreeModel, Next) {
        match token {
            TokenModel::Char(c) if is_space(c) => (self, Next::Advance),
            TokenModel::StartTag { tag, attributes, .. } if tag == name => (
                self.insert_element(kind, attributes).to(then),
                Next::Advance,
            ),
            TokenModel::Eof => (self, Next::Done),
            _ => (self.insert_element(kind, Seq::empty()).to(then), Next::Again),
        }
    }

    pub open spec fn in_head(self, token: TokenModel) -> (TreeModel, Next) {
        match token {
            TokenModel::StartTag { tag, attributes, .. } => if tag == "style"@ {
                (
                    TreeModel {
                        mode: InsertionMode::Text,
                        original_mode: InsertionMode::InHead,
                        ..self.insert_element(ElementKind::Style, attributes)
                    },
                    Next::Advance,
                )
            } else if tag == "script"@ {
                (
                    TreeModel {
                        mode: InsertionMode::Text,
                        original_mode: InsertionMode::InHead,
                        ..self.insert_element(ElementKind::Script, attributes)
                    },
                    Next::Advance,
                )
            } else if kind_of_name(tag) is Some {
                (self.pop_until(ElementKind::Head).to(InsertionMode::AfterHead), Next::Again)
            } else {
                (self, Next::Advance)
            },
            TokenModel::EndTag { tag } => if tag == "head"@ {
                (self.pop_until(ElementKind::Head).to(InsertionMode::AfterHead), Next::Advance)
            } else {
                (self, Next::Advance)
            },
            TokenModel::Char(_) => (self, Next::Advance),
            TokenModel::Eof => (self, Next::Done),
        }
    }

    pub open spec fn in_body(self, token: TokenModel) -> (TreeModel, Next) {
        match token {
            TokenModel::StartTag { tag, attributes, .. } => match kind_of_name(tag) {
                Some(kind) => (self.insert_element(kind, attributes), Next::Advance),
                None => (self, Next::Advance),
            },
            TokenModel::EndTag { tag } => if tag == "body"@ {
                if holds(self.nodes, self.stack, ElementKind::Body) {
                    (self.pop_until(ElementKind::Body).to(InsertionMode::AfterBody), Next::Advance)
                } else {
                    (self.to(InsertionMode::AfterBody), Next::Advance)
                }
            } else if tag == "html"@ {
                if top_is(self.nodes, self.stack, ElementKind::Body) {
                    let rest = self.stack.drop_last();
                    if top_is(self.nodes, rest, ElementKind::Html) {
                        (
                            self.with_stack(rest.drop_last()).to(InsertionMode::AfterBody),
                            Next::Again,
                        )
                    } else {
                        (self.with_stack(rest), Next::Advance)
                    }
                } else {
                    (self, Next::Advance)
                }
            } else {
                match kind_of_name(tag) {
                    Some(kind) => (self.pop_until(kind), Next::Advance),
                    None => (self, Next::Advance),
                }
            },
            TokenModel::Char(c) => (self.insert_char(c), Next::Advance),
            TokenModel::Eof => (self, Next::Done),
        }
    }

    pub open spec fn in_text(self, token: TokenModel) -> (TreeModel, Next) {
        match token {
            TokenModel::EndTag { tag } if tag == "style"@ => (
                self.pop_until(ElementKind::Style).to(self.original_mode),
                Next::Advance,
            ),
            TokenModel::EndTag { tag } if tag == "script"@ => (
                self.pop_until(ElementKind::Script).to(self.original_mode),
                Next::Advance,
            ),
            TokenModel::Char(c) => (self.insert_char(c), Next::Advance),
            TokenModel::Eof => (self, Next::Done),
            _ => (self.to(self.original_mode), Next::Again),
        }
    }

    pub open spec fn in_after_body(self, token: TokenModel) -> (TreeModel, Next) {
        match token {
            TokenModel::Char(_) => (self, Next::Advance),
            TokenModel::EndTag { tag } if tag == "html"@ => (
                self.to(InsertionMode::AfterAfterBody),
                Next::Advance,
            ),
            TokenModel::Eof => (self, Next::Done),
            _ => (self.to(InsertionMode::InBody), Next::Again),
        }
    }

    pub open spec fn in_after_after_body(self, token: TokenModel) -> (TreeModel, Next) {
        match token {
            TokenModel::Char(_) => (self, Next::Advance),
            TokenModel::Eof => (self, Next::Done),
            _ => (self.to(InsertionMode::InBody), Next::Again),
        }
    }

    /// What the mode that the constructor is in does with `token`.
    pub open spec fn handle(self, token: TokenModel) -> (TreeModel, Next) {
        match self.mode {
            InsertionMode::Initial => self.in_initial(token),
            InsertionMode::BeforeHtml => self.awaiting(
                token,
                ElementKind::Html,
                "html"@,
                InsertionMode::BeforeHead,
            ),
            InsertionMode::BeforeHead => self.awaiting(
                token,
                ElementKind::Head,
                "head"@,
                InsertionMode::InHead,
            ),
            InsertionMode::InHead => self.in_head(token),
            InsertionMode::AfterHead => self.awaiting(
                token,
                ElementKind::Body,
                "body"@,
                InsertionMode::InBody,
            ),
            InsertionMode::InBody => self.in_body(token),
            InsertionMode::Text => self.in_text(token),
            InsertionMode::AfterBody => self.in_after_body(token),
            InsertionMode::AfterAfterBody => self.in_after_after_body(token),
        }
    }

    /// Orders the modes by how often one token can still be handed on.
    pub open spec fn rank(self, token: TokenModel) -> nat {
        match self.mode {
            InsertionMode::Text => 9,
            InsertionMode::Initial => 8,
            InsertionMode::BeforeHtml => 7,
            InsertionMode::BeforeHead => 6,
            InsertionMode::InHead => 5,
            InsertionMode::AfterHead => 4,
            InsertionMode::AfterAfterBody => 3,
            InsertionMode::InBody => if token matches TokenModel::EndTag { tag } && tag
                == "html"@ {
                2
            } else {
                0
            },
            InsertionMode::AfterBody => 1,
        }
    }
}

/// The constructor after `tokens`: each token is handled by the mode that
/// the constructor is in, again where that mode hands it on, and the end of
/// the document ends the work.
pub open spec fn build(b: TreeModel, tokens: Seq<TokenModel>) -> TreeModel
    decreases tokens.len(), b.rank(tokens[0]),
{
    if tokens.len() == 0 {
        b
    } else {
        let (after, next) = b.handle(tokens[0]);
        match next {
            Next::Done => after,
            Next::Advance => build(after, tokens.drop_first()),
            Next::Again => if after.rank(tokens[0]) < b.rank(tokens[0]) {
                build(after, tokens)
            } else {
                after
            },
        }
    }
}

/// Closing elements keeps every open element an element of the tree.
pub proof fn lemma_popped_until(nodes: Seq<NodeModel>, stack: Seq<usize>, kind: ElementKind)
    ensures
        popped_until(nodes, stack, kind).len() <= stack.len(),
        popped_until(nodes, stack, kind) == stack.take(
            popped_until(nodes, stack, kind).len() as int,
        ),
    decreases stack.len(),
{
    if stack.len() == 0 {
        assert(stack.take(0) =~= stack);
    } else if element_kind_of(nodes[stack.last() as int].kind) == Some(kind) {
        assert(stack.drop_last() =~= stack.take(stack.len() - 1));
    } else {
        lemma_popped_until(nodes, stack.drop_last(), kind);
        let r = popped_until(nodes, stack, kind);
        assert(stack.drop_last().take(r.len() as int) =~= stack.take(r.len() as int));
    }
}

/// Inserting an element keeps the constructor well formed.
pub proof fn lemma_insert_element(
    b: TreeModel,
    kind: ElementKind,
    attributes: Seq<(Seq<char>, Seq<char>)>,
)
    requires
        b.wf(),
    ensures
        b.insert_element(kind, attributes).wf(),
{
    let after = b.insert_element(kind, attributes);
    if b.nodes.len() < usize::MAX {
        if b.stack.len() > 0 {
            assert(open_at(b.nodes, b.stack, b.stack.len() - 1));
        }
        lemma_with_child(
            b.nodes,
            b.current(),
            NodeKindModel::Element(ElementModel { kind, attributes }),
        );
        assert forall|i: int| 0 <= i < after.stack.len() implies #[trigger] open_at(
            after.nodes,
            after.stack,
            i,
        ) by {
            if i < b.stack.len() {
                assert(open_at(b.nodes, b.stack, i));
                assert(after.nodes[b.stack[i] as int].kind == b.nodes[b.stack[i] as int].kind);
            }
        }
        assert forall|i: int| 0 <= i < after.nodes.len() implies #[trigger] text_in_element(
            after.nodes,
            i,
        ) by {
            if i < b.nodes.len() {
                assert(text_in_element(b.nodes, i));
                assert(after.nodes[i].kind == b.nodes[i].kind);
            }
        }
    }
}

/// Inserting a character keeps the constructor well formed.
pub proof fn lemma_insert_char(b: TreeModel, c: char)
    requires
        b.wf(),
    ensures
        b.insert_char(c).wf(),
{
    let after = b.insert_char(c);
    if b.stack.len() > 0 {
        let current = b.stack.last();
        assert(open_at(b.nodes, b.stack, b.stack.len() - 1));
        assert(node_wf(b.nodes, current as int));
        let last = b.nodes[current as int].last_child;
        if trails_text(b.nodes, current) {
            lemma_with_text(b.nodes, last.unwrap(), c);
        } else if !(is_space(c) || b.nodes.len() >= usize::MAX) {
            lemma_with_child(b.nodes, current, NodeKindModel::Text(seq![c]));
        }
        assert forall|i: int| 0 <= i < after.stack.len() implies #[trigger] open_at(
            after.nodes,
            after.stack,
            i,
        ) by {
            assert(open_at(b.nodes, b.stack, i));
            assert(after.nodes[b.stack[i] as int].kind is Element
                <==> b.nodes[b.stack[i] as int].kind is Element);
        }
        assert forall|i: int| 0 <= i < after.nodes.len() implies #[trigger] text_in_element(
            after.nodes,
            i,
        ) by {
            if i < b.nodes.len() {
                assert(text_in_element(b.nodes, i));
                assert(after.nodes[i].kind is Text <==> b.nodes[i].kind is Text);
                if b.nodes[i].kind is Text {
                    let p = b.nodes[i].parent.unwrap();
                    assert(after.nodes[p as int].kind is Element <==> b.nodes[p as int].kind
                        is Element);
                }
            }
        }
    }
}

/// Closing the innermost open elements keeps the constructor well formed.
pub proof fn lemma_close(b: TreeModel, left: int)
    requires
        b.wf(),
        0 <= left <= b.stack.len(),
    ensures
        b.with_stack(b.stack.take(left)).wf(),
{
    let after = b.with_stack(b.stack.take(left));
    assert forall|i: int| 0 <= i < after.stack.len() implies #[trigger] open_at(
        after.nodes,
        after.stack,
        i,
    ) by {
        assert(open_at(b.nodes, b.stack, i));
    }
}

/// Closing elements keeps the constructor well formed.
pub proof fn lemma_pop_until(b: TreeModel, kind: ElementKind)
    requires
        b.wf(),
    ensures
        b.pop_until(kind).wf(),
{
    lemma_popped_until(b.nodes, b.stack, kind);
    lemma_close(b, popped_until(b.nodes, b.stack, kind).len() as int);
}

/// Another mode keeps the constructor well formed.
pub proof fn lemma_to(b: TreeModel, mode: InsertionMode)
    requires
        b.wf(),
    ensures
        b.to(mode).wf(),
{
}

/// A mode that waits for one element keeps the constructor well formed.
proof fn lemma_awaiting(
    b: TreeModel,
    token: TokenModel,
    kind: ElementKind,
    name: Seq<char>,
    then: InsertionMode,
)
    requires
        b.wf(),
    ensures
        b.awaiting(token, kind, name, then).0.wf(),
{
    let given = match token {
        TokenModel::StartTag { attributes, .. } => attributes,
        _ => Seq::empty(),
    };
    lemma_insert_element(b, kind, given);
    lemma_insert_element(b, kind, Seq::empty());
    lemma_to(b.insert_element(kind, given), then);
    lemma_to(b.insert_element(kind, Seq::empty()), then);
}

/// The head keeps the constructor well formed.
proof fn lemma_in_head(b: TreeModel, token: TokenModel)
    requires
        b.wf(),
    ensures
        b.in_head(token).0.wf(),
{
    let given = match token {
        TokenModel::StartTag { attributes, .. } => attributes,
        _ => Seq::empty(),
    };
    lemma_insert_element(b, ElementKind::Style, given);
    lemma_insert_element(b, ElementKind::Script, given);
    lemma_pop_until(b, ElementKind::Head);
    lemma_to(b.pop_until(ElementKind::Head), InsertionMode::AfterHead);
}

/// The body keeps the constructor well formed.
proof fn lemma_in_body(b: TreeModel, token: TokenModel)
    requires
        b.wf(),
    ensures
        b.in_body(token).0.wf(),
{
    match token {
        TokenModel::StartTag { tag, attributes, .. } => {
            if kind_of_name(tag) is Some {
                lemma_insert_element(b, kind_of_name(tag).unwrap(), attributes);
            }
        },
        TokenModel::EndTag { tag } => {
            lemma_pop_until(b, ElementKind::Body);
            lemma_to(b.pop_until(ElementKind::Body), InsertionMode::AfterBody);
            lemma_to(b, InsertionMode::AfterBody);
            if kind_of_name(tag) is Some {
                lemma_pop_until(b, kind_of_name(tag).unwrap());
            }
            if b.stack.len() >= 1 {
                lemma_close(b, b.stack.len() - 1);
                assert(b.stack.take(b.stack.len() - 1) =~= b.stack.drop_last());
            }
            if b.stack.len() >= 2 {
                lemma_close(b, b.stack.len() - 2);
                assert(b.stack.take(b.stack.len() - 2) =~= b.stack.drop_last().drop_last());
                lemma_to(
                    b.with_stack(b.stack.drop_last().drop_last()),
                    InsertionMode::AfterBody,
                );
            }
        },
        TokenModel::Char(c) => {
            lemma_insert_char(b, c);
        },
        TokenModel::Eof => {},
    }
}

/// Raw text keeps the constructor well formed.
proof fn lemma_in_text(b: TreeModel, token: TokenModel)
    requires
        b.wf(),
    ensures
        b.in_text(token).0.wf(),
{
    lemma_pop_until(b, ElementKind::Style);
    lemma_pop_until(b, ElementKind::Script);
    lemma_to(b.pop_until(ElementKind::Style), b.original_mode);
    lemma_to(b.pop_until(ElementKind::Script), b.original_mode);
    lemma_to(b, b.original_mode);
    if token is Char {
        lemma_insert_char(b, token->Char_0);
    }
}

/// Handling a token keeps the constructor well formed, and a token that is
/// handed on goes to a mode of lower rank.
pub proof fn lemma_handle(b: TreeModel, token: TokenModel)
    requires
        b.wf(),
    ensures
        b.handle(token).0.wf(),
        b.handle(token).1 == Next::Again ==> b.handle(token).0.rank(token) < b.rank(token),
{
    match b.mode {
        InsertionMode::Initial => {
            lemma_to(b, InsertionMode::BeforeHtml);
        },
        InsertionMode::BeforeHtml => {
            lemma_awaiting(b, token, ElementKind::Html, "html"@, InsertionMode::BeforeHead);
        },
        InsertionMode::BeforeHead => {
            lemma_awaiting(b, token, ElementKind::Head, "head"@, InsertionMode::InHead);
        },
        InsertionMode::InHead => {
            lemma_in_head(b, token);
        },
        InsertionMode::AfterHead => {
            lemma_awaiting(b, token, ElementKind::Body, "body"@, InsertionMode::InBody);
        },
        InsertionMode::InBody => {
            lemma_in_body(b, token);
        },
        InsertionMode::Text => {
            lemma_in_text(b, token);
        },
        InsertionMode::AfterBody => {
            lemma_to(b, InsertionMode::AfterAfterBody);
            lemma_to(b, InsertionMode::InBody);
        },
        InsertionMode::AfterAfterBody => {
            lemma_to(b, InsertionMode::InBody);
        },
    }
}

/// Whatever the tokens are, the constructor that has read them is well
/// formed: the nodes form a tree, and the open elements are a chain of
/// ancestors in it.
pub proof fn lemma_build(b: TreeModel, tokens: Seq<TokenModel>)
    requires
        b.wf(),
    ensures
        build(b, tokens).wf(),
    decreases tokens.len(), b.rank(tokens[0]),
{
    if tokens.len() > 0 {
        lemma_handle(b, tokens[0]);
        let (after, next) = b.handle(tokens[0]);
        match next {
            Next::Done => {},
            Next::Advance => {
                lemma_build(after, tokens.drop_first());
            },
            Next::Again => {
                lemma_build(after, tokens);
            },
        }
    }
}

} // verus!
