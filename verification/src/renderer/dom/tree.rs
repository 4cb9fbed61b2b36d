//! The shape of the document tree: what makes the links between the nodes
//! consistent, what adding a node does to them, and how the children of a
//! node are reached from it.

use crate::renderer::dom::node::{NodeKindModel, NodeModel};
use vstd::prelude::*;

verus! {

/// The node at index `i` is linked consistently with the nodes around it.
pub open spec fn node_wf(nodes: Seq<NodeModel>, i: int) -> bool {
    let n = nodes[i];
    &&& i > 0 ==> n.parent is Some && n.parent.unwrap() < i
    &&& n.first_child is Some <==> n.last_child is Some
    &&& n.kind matches NodeKindModel::Text(text) ==> n.first_child is None && text.len() > 0 && (
    n.next_sibling matches Some(s) ==> !(nodes[s as int].kind is Text))
    &&& n.first_child matches Some(c) ==> i < c < nodes.len() && nodes[c as int].parent == Some(
        i as usize,
    ) && nodes[c as int].previous_sibling is None
    &&& n.last_child matches Some(c) ==> i < c < nodes.len() && nodes[c as int].parent == Some(
        i as usize,
    ) && nodes[c as int].next_sibling is None
    &&& n.next_sibling matches Some(s) ==> i < s < nodes.len() && nodes[s as int].previous_sibling
        == Some(i as usize) && nodes[s as int].parent == n.parent
    &&& n.previous_sibling matches Some(s) ==> s < i && nodes[s as int].next_sibling == Some(
        i as usize,
    ) && nodes[s as int].parent == n.parent
    &&& i > 0 && n.previous_sibling is None ==> nodes[n.parent.unwrap() as int].first_child
        == Some(i as usize)
    &&& i > 0 && n.next_sibling is None ==> nodes[n.parent.unwrap() as int].last_child == Some(
        i as usize,
    )
}

/// The nodes form one tree under the document at index 0: every other node
/// has one parent, which is older than it, so that no chain of parents
/// comes back to where it began; siblings point at each other; a parent's
/// first and last child are the two ends of its chain of children. A text
/// node has no children and at least one character, and the sibling after
/// it is no text node.
pub open spec fn tree_wf(nodes: Seq<NodeModel>) -> bool {
    &&& 1 <= nodes.len() <= usize::MAX
    &&& nodes[0].kind is Document
    &&& nodes[0].parent is None
    &&& nodes[0].previous_sibling is None
    &&& nodes[0].next_sibling is None
    &&& forall|i: int| 0 <= i < nodes.len() ==> #[trigger] node_wf(nodes, i)
}

/// The last child of `parent` is a text node.
pub open spec fn trails_text(nodes: Seq<NodeModel>, parent: usize) -> bool {
    nodes[parent as int].last_child matches Some(l) && nodes[l as int].kind is Text
}

/// The tree with one more node, of kind `kind`, as the last child of `parent`.
pub open spec fn with_child(nodes: Seq<NodeModel>, parent: usize, kind: NodeKindModel) -> Seq<
    NodeModel,
> {
    let id = nodes.len() as usize;
    let p = nodes[parent as int];
    let child = NodeModel {
        kind,
        parent: Some(parent),
        first_child: None,
        last_child: None,
        previous_sibling: p.last_child,
        next_sibling: None,
    };
    let linked = match p.last_child {
        Some(l) => nodes.update(l as int, NodeModel { next_sibling: Some(id), ..nodes[l as int] }),
        None => nodes,
    };
    let first_child = if p.first_child is None {
        Some(id)
    } else {
        p.first_child
    };
    linked.update(parent as int, NodeModel { first_child, last_child: Some(id), ..p }).push(child)
}

/// The tree in which the text node `id` holds one more character.
pub open spec fn with_text(nodes: Seq<NodeModel>, id: usize, c: char) -> Seq<NodeModel> {
    match nodes[id as int].kind {
        NodeKindModel::Text(s) => nodes.update(
            id as int,
            NodeModel { kind: NodeKindModel::Text(s.push(c)), ..nodes[id as int] },
        ),
        _ => nodes,
    }
}

/// What `with_child` changes: the new node, the parent's two child links,
/// and the next-sibling link of the child that was last.
pub proof fn lemma_with_child_changes(nodes: Seq<NodeModel>, parent: usize, kind: NodeKindModel)
    requires
        tree_wf(nodes),
        nodes.len() < usize::MAX,
        parent < nodes.len(),
    ensures
        with_child(nodes, parent, kind).len() == nodes.len() + 1,
        with_child(nodes, parent, kind)[nodes.len() as int] == (NodeModel {
            kind,
            parent: Some(parent),
            first_child: None,
            last_child: None,
            previous_sibling: nodes[parent as int].last_child,
            next_sibling: None,
        }),
        with_child(nodes, parent, kind)[parent as int] == (NodeModel {
            first_child: if nodes[parent as int].first_child is None {
                Some(nodes.len() as usize)
            } else {
                nodes[parent as int].first_child
            },
            last_child: Some(nodes.len() as usize),
            ..nodes[parent as int]
        }),
        nodes[parent as int].last_child matches Some(l) ==> parent < l < nodes.len()
            && with_child(nodes, parent, kind)[l as int] == (NodeModel {
            next_sibling: Some(nodes.len() as usize),
            ..nodes[l as int]
        }),
        forall|j: int|
            0 <= j < nodes.len() && j != parent && Some(j as usize) != nodes[parent as int].last_child
                ==> (#[trigger] with_child(nodes, parent, kind)[j]) == nodes[j],
        forall|j: int|
            0 <= j < nodes.len() ==> (#[trigger] with_child(nodes, parent, kind)[j]).kind
                == nodes[j].kind && with_child(nodes, parent, kind)[j].parent == nodes[j].parent
                && with_child(nodes, parent, kind)[j].previous_sibling
                == nodes[j].previous_sibling,
{
    assert(node_wf(nodes, parent as int));
}

/// A new last child keeps the tree well formed.
pub proof fn lemma_with_child(nodes: Seq<NodeModel>, parent: usize, kind: NodeKindModel)
    requires
        tree_wf(nodes),
        nodes.len() < usize::MAX,
        parent < nodes.len(),
        !(nodes[parent as int].kind is Text),
        !(kind is Document),
        kind matches NodeKindModel::Text(text) ==> text.len() > 0 && !trails_text(nodes, parent),
    ensures
        tree_wf(with_child(nodes, parent, kind)),
        with_child(nodes, parent, kind).len() == nodes.len() + 1,
        with_child(nodes, parent, kind)[nodes.len() as int].kind == kind,
        with_child(nodes, parent, kind)[nodes.len() as int].parent == Some(parent),
        forall|j: int|
            0 <= j < nodes.len() ==> (#[trigger] with_child(nodes, parent, kind)[j]).kind
                == nodes[j].kind && with_child(nodes, parent, kind)[j].parent == nodes[j].parent,
{
    let after = with_child(nodes, parent, kind);
    let id = nodes.len() as usize;
    lemma_with_child_changes(nodes, parent, kind);
    assert(node_wf(nodes, parent as int));
    assert forall|i: int| 0 <= i < after.len() implies #[trigger] node_wf(after, i) by {
        if i == id {
            lemma_new_child_wf(nodes, parent, kind);
        } else {
            lemma_old_node_wf(nodes, parent, kind, i);
        }
    }
}

/// The node that `with_child` adds is linked consistently.
proof fn lemma_new_child_wf(nodes: Seq<NodeModel>, parent: usize, kind: NodeKindModel)
    requires
        tree_wf(nodes),
        nodes.len() < usize::MAX,
        parent < nodes.len(),
        kind matches NodeKindModel::Text(text) ==> text.len() > 0,
    ensures
        node_wf(with_child(nodes, parent, kind), nodes.len() as int),
{
    lemma_with_child_changes(nodes, parent, kind);
    assert(node_wf(nodes, parent as int));
}

/// A node that was there before `with_child` stays linked consistently.
proof fn lemma_old_node_wf(nodes: Seq<NodeModel>, parent: usize, kind: NodeKindModel, i: int)
    requires
        tree_wf(nodes),
        nodes.len() < usize::MAX,
        parent < nodes.len(),
        0 <= i < nodes.len(),
        !(nodes[parent as int].kind is Text),
        kind is Text ==> !trails_text(nodes, parent),
    ensures
        node_wf(with_child(nodes, parent, kind), i),
{
    let after = with_child(nodes, parent, kind);
    lemma_with_child_changes(nodes, parent, kind);
    assert(node_wf(nodes, parent as int));
    assert(node_wf(nodes, i));
    let n = nodes[i];
    if n.first_child is Some {
        assert(node_wf(nodes, n.first_child.unwrap() as int));
    }
    if n.last_child is Some {
        assert(node_wf(nodes, n.last_child.unwrap() as int));
    }
    if n.next_sibling is Some {
        assert(node_wf(nodes, n.next_sibling.unwrap() as int));
    }
    if n.previous_sibling is Some {
        assert(node_wf(nodes, n.previous_sibling.unwrap() as int));
    }
    if n.parent is Some {
        assert(node_wf(nodes, n.parent.unwrap() as int));
    }
}

/// One more character in a text node keeps the tree well formed.
pub proof fn lemma_with_text(nodes: Seq<NodeModel>, id: usize, c: char)
    requires
        tree_wf(nodes),
        id < nodes.len(),
    ensures
        tree_wf(with_text(nodes, id, c)),
        with_text(nodes, id, c).len() == nodes.len(),
        forall|j: int|
            0 <= j < nodes.len() ==> ((#[trigger] with_text(nodes, id, c)[j]).kind is Element
                <==> nodes[j].kind is Element) && (with_text(nodes, id, c)[j].kind is Text
                <==> nodes[j].kind is Text) && with_text(nodes, id, c)[j].parent
                == nodes[j].parent,
{
    let after = with_text(nodes, id, c);
    assert forall|i: int| 0 <= i < after.len() implies #[trigger] node_wf(after, i) by {
        assert(node_wf(nodes, i));
    }
}

/// The nodes from `start` on, each followed by its next sibling.
pub open spec fn chain(nodes: Seq<NodeModel>, start: Option<usize>) -> Seq<usize>
    decreases
            match start {
                Some(i) => nodes.len() - i,
                None => 0,
            },
{
    match start {
        Some(i) => if i < nodes.len() {
            match nodes[i as int].next_sibling {
                Some(n) => if i < n < nodes.len() {
                    seq![i] + chain(nodes, Some(n))
                } else {
                    seq![i]
                },
                None => seq![i],
            }
        } else {
            Seq::empty()
        },
        None => Seq::empty(),
    }
}

/// The children of the node `parent`, from the first to the last.
pub open spec fn children(nodes: Seq<NodeModel>, parent: usize) -> Seq<usize> {
    chain(nodes, nodes[parent as int].first_child)
}

/// The chain of siblings from a node on holds that node first and the
/// parent's last child last, and every node in it has the same parent.
pub proof fn lemma_chain(nodes: Seq<NodeModel>, i: usize)
    requires
        tree_wf(nodes),
        0 < i < nodes.len(),
    ensures
        chain(nodes, Some(i)).len() > 0,
        chain(nodes, Some(i))[0] == i,
        Some(chain(nodes, Some(i)).last()) == nodes[nodes[i as int].parent.unwrap() as int].last_child,
        forall|k: int|
            0 <= k < chain(nodes, Some(i)).len() ==> 0 < (#[trigger] chain(nodes, Some(i))[k])
                < nodes.len() && nodes[chain(nodes, Some(i))[k] as int].parent
                == nodes[i as int].parent,
    decreases nodes.len() - i,
{
    assert(node_wf(nodes, i as int));
    match nodes[i as int].next_sibling {
        Some(n) => {
            lemma_chain(nodes, n);
            let rest = chain(nodes, Some(n));
            assert(chain(nodes, Some(i)) == seq![i] + rest);
            assert forall|k: int| 0 <= k < chain(nodes, Some(i)).len() implies 0 < (
            #[trigger] chain(nodes, Some(i))[k]) < nodes.len() && nodes[chain(
                nodes,
                Some(i),
            )[k] as int].parent == nodes[i as int].parent by {
                if k > 0 {
                    assert(chain(nodes, Some(i))[k] == rest[k - 1]);
                }
            }
        },
        None => {},
    }
}

/// A parent's last child is the last node of the chain of siblings that
/// starts at its first child.
pub proof fn lemma_last_child_ends_children(nodes: Seq<NodeModel>, parent: usize)
    requires
        tree_wf(nodes),
        parent < nodes.len(),
    ensures
        nodes[parent as int].first_child is None ==> children(nodes, parent).len() == 0,
        nodes[parent as int].first_child is Some ==> children(nodes, parent).len() > 0 && Some(
            children(nodes, parent).last(),
        ) == nodes[parent as int].last_child && Some(children(nodes, parent)[0])
            == nodes[parent as int].first_child,
        forall|k: int|
            0 <= k < children(nodes, parent).len() ==> 0 < (#[trigger] children(nodes, parent)[k])
                < nodes.len() && nodes[children(nodes, parent)[k] as int].parent == Some(parent),
{
    assert(node_wf(nodes, parent as int));
    if nodes[parent as int].first_child is Some {
        lemma_chain(nodes, nodes[parent as int].first_child.unwrap());
    }
}

/// What follows a node in a chain of siblings is the chain from that node on.
pub proof fn lemma_chain_from_member(nodes: Seq<NodeModel>, start: Option<usize>, k: int)
    requires
        0 <= k < chain(nodes, start).len(),
    ensures
        chain(nodes, start).skip(k) == chain(nodes, Some(chain(nodes, start)[k])),
    decreases k,
{
    let i = start.unwrap();
    if k == 0 {
        assert(chain(nodes, start).skip(0) =~= chain(nodes, start));
    } else {
        let n = nodes[i as int].next_sibling;
        assert(chain(nodes, start) == seq![i] + chain(nodes, n));
        lemma_chain_from_member(nodes, n, k - 1);
        assert(chain(nodes, start).skip(k) =~= chain(nodes, n).skip(k - 1));
        assert(chain(nodes, start)[k] == chain(nodes, n)[k - 1]);
    }
}

/// Every node but the document is one of the children of its parent: the
/// whole tree is reached from the document by first-child and
/// next-sibling steps.
pub proof fn lemma_child_of_parent(nodes: Seq<NodeModel>, i: usize)
    requires
        tree_wf(nodes),
        0 < i < nodes.len(),
    ensures
        children(nodes, nodes[i as int].parent.unwrap()).contains(i),
    decreases i,
{
    assert(node_wf(nodes, i as int));
    let parent = nodes[i as int].parent.unwrap();
    let all = children(nodes, parent);
    match nodes[i as int].previous_sibling {
        None => {
            lemma_chain(nodes, i);
            assert(all[0] == i);
        },
        Some(s) => {
            assert(node_wf(nodes, s as int));
            lemma_child_of_parent(nodes, s);
            let k = choose|k: int| 0 <= k < all.len() && all[k] == s;
            lemma_chain_from_member(nodes, nodes[parent as int].first_child, k);
            lemma_chain(nodes, i);
            let tail = chain(nodes, Some(s));
            assert(tail == seq![s] + chain(nodes, Some(i)));
            assert(tail[1] == i);
            assert(all.skip(k)[1] == all[k + 1]);
            assert(all[k + 1] == i);
        },
    }
}

/// Siblings point at each other, and a parent is older than its children,
/// so that no chain of parents comes back to where it began.
pub proof fn lemma_links(nodes: Seq<NodeModel>, i: usize)
    requires
        tree_wf(nodes),
        i < nodes.len(),
    ensures
        i > 0 ==> nodes[i as int].parent is Some && nodes[i as int].parent.unwrap() < i,
        nodes[i as int].next_sibling matches Some(n) ==> n < nodes.len()
            && nodes[n as int].previous_sibling == Some(i),
        nodes[i as int].previous_sibling matches Some(p) ==> p < nodes.len()
            && nodes[p as int].next_sibling == Some(i),
{
    assert(node_wf(nodes, i as int));
}

/// The chain of siblings from a child of `parent` on, after a node was
/// added to `parent`: the chain before with the new node at its end.
proof fn lemma_chain_with_child(
    nodes: Seq<NodeModel>,
    parent: usize,
    kind: NodeKindModel,
    i: usize,
)
    requires
        tree_wf(nodes),
        nodes.len() < usize::MAX,
        parent < nodes.len(),
        0 < i < nodes.len(),
    ensures
        nodes[i as int].parent == Some(parent) ==> chain(
            with_child(nodes, parent, kind),
            Some(i),
        ) == chain(nodes, Some(i)).push(nodes.len() as usize),
        nodes[i as int].parent != Some(parent) ==> chain(
            with_child(nodes, parent, kind),
            Some(i),
        ) == chain(nodes, Some(i)),
    decreases nodes.len() - i,
{
    let after = with_child(nodes, parent, kind);
    let id = nodes.len() as usize;
    assert(node_wf(nodes, i as int));
    assert(node_wf(nodes, parent as int));
    match nodes[i as int].next_sibling {
        Some(n) => {
            assert(after[i as int].next_sibling == Some(n));
            lemma_chain_with_child(nodes, parent, kind, n);
            assert(chain(after, Some(i)) == seq![i] + chain(after, Some(n)));
            assert(chain(nodes, Some(i)) == seq![i] + chain(nodes, Some(n)));
            if nodes[i as int].parent == Some(parent) {
                assert(seq![i] + chain(nodes, Some(n)).push(id) =~= (seq![i] + chain(
                    nodes,
                    Some(n),
                )).push(id));
            }
        },
        None => {
            if nodes[i as int].parent == Some(parent) {
                assert(nodes[parent as int].last_child == Some(i));
                assert(after[i as int].next_sibling == Some(id));
                assert(after[id as int].next_sibling is None);
                assert(chain(after, Some(id)) == seq![id]);
                assert(chain(after, Some(i)) == seq![i] + seq![id]);
                assert(seq![i] + seq![id] =~= seq![i].push(id));
            } else {
                assert(after[i as int].next_sibling is None);
            }
        },
    }
}

/// A node added to `parent` is the last of the children of `parent`, has
/// no children itself, and leaves the children of every other node as
/// they are.
pub proof fn lemma_children_with_child(
    nodes: Seq<NodeModel>,
    parent: usize,
    kind: NodeKindModel,
    other: usize,
)
    requires
        tree_wf(nodes),
        nodes.len() < usize::MAX,
        parent < nodes.len(),
        other < nodes.len(),
    ensures
        children(with_child(nodes, parent, kind), parent) == children(nodes, parent).push(
            nodes.len() as usize,
        ),
        children(with_child(nodes, parent, kind), nodes.len() as usize) == Seq::<usize>::empty(),
        other != parent ==> children(with_child(nodes, parent, kind), other) == children(
            nodes,
            other,
        ),
{
    let after = with_child(nodes, parent, kind);
    let id = nodes.len() as usize;
    assert(node_wf(nodes, parent as int));
    assert(node_wf(nodes, other as int));
    match nodes[parent as int].first_child {
        Some(first) => {
            lemma_chain_with_child(nodes, parent, kind, first);
        },
        None => {
            assert(after[parent as int].first_child == Some(id));
            assert(after[id as int].next_sibling is None);
            assert(chain(after, Some(id)) == seq![id]);
            assert(seq![id] =~= Seq::<usize>::empty().push(id));
        },
    }
    if other != parent {
        assert(after[other as int].first_child == nodes[other as int].first_child);
        match nodes[other as int].first_child {
            Some(first) => {
                lemma_chain_with_child(nodes, parent, kind, first);
            },
            None => {},
        }
    }
}

/// One more character in a text node changes no chain of siblings.
proof fn lemma_chain_with_text(nodes: Seq<NodeModel>, id: usize, c: char, start: Option<usize>)
    requires
        id < nodes.len(),
    ensures
        chain(with_text(nodes, id, c), start) == chain(nodes, start),
    decreases
            match start {
                Some(i) => nodes.len() - i,
                None => 0,
            },
{
    let after = with_text(nodes, id, c);
    match start {
        Some(i) => {
            if i < nodes.len() {
                assert(after[i as int].next_sibling == nodes[i as int].next_sibling);
                match nodes[i as int].next_sibling {
                    Some(n) => {
                        if i < n < nodes.len() {
                            lemma_chain_with_text(nodes, id, c, Some(n));
                        }
                    },
                    None => {},
                }
            }
        },
        None => {},
    }
}

/// One more character in a text node leaves the children of every node as
/// they are.
pub proof fn lemma_children_with_text(nodes: Seq<NodeModel>, id: usize, c: char, parent: usize)
    requires
        id < nodes.len(),
        parent < nodes.len(),
    ensures
        children(with_text(nodes, id, c), parent) == children(nodes, parent),
{
    assert(with_text(nodes, id, c)[parent as int].first_child == nodes[parent as int].first_child);
    lemma_chain_with_text(nodes, id, c, nodes[parent as int].first_child);
}

} // verus!
