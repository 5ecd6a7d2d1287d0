//! Append-only node arena for the concrete syntax tree.
//!
//! Nodes are addressed by stable integer handles (`NodeRef`): a handle stays
//! valid for the life of the parse, later allocations never move or
//! invalidate earlier nodes, and parent-to-child edges are handles rather
//! than owning pointers, so the tree has no ownership cycles and O(1) random
//! access. A node's rule and token range never change once allocated; only
//! its child list grows, through `attach_child`.

use vstd::prelude::*;

verus! {

/// The grammar productions a node can be labelled with.
#[derive(Clone, Copy, Debug, PartialEq, Eq, Structural)]
pub enum Rule {
    /// The whole buffer: a sequence of statements.
    Root,
    /// A keyword (`if` or `while`) followed by a block.
    Stmt,
    /// `{`, a sequence of statements, `}`.
    Block,
}

/// An opaque handle to a node inside its owning arena.
///
/// A `NodeRef` is only a relation between arena and node: it implies no
/// ownership and has no meaning for any other arena.
#[derive(Clone, Copy, Debug, PartialEq, Eq, Structural)]
pub struct NodeRef {
    idx: usize,
}

impl NodeRef {
    /// The position of the referenced node in allocation order.
    pub closed spec fn index(self) -> int {
        self.idx as int
    }
}

/// One syntax node: a rule tag, a half-open range of token indices, and the
/// ordered child handles. A leaf simply has no children.
#[derive(Clone, Debug, PartialEq)]
pub struct CstNode {
    pub rule: Rule,
    /// First token index the node covers.
    pub tok_start: usize,
    /// One past the last token index the node covers.
    pub tok_end: usize,
    pub children: Vec<NodeRef>,
}

/// Whether the `c`-th child edge of node `n` is sound: the handle is in
/// bounds, the child's token range nests inside `n`'s own, and the child
/// starts no earlier than the end of its previous sibling.
pub open spec fn child_ok(nodes: Seq<CstNode>, n: CstNode, c: int) -> bool {
    let r = n.children@[c].index();
    &&& 0 <= r < nodes.len()
    &&& n.tok_start <= nodes[r].tok_start
    &&& nodes[r].tok_end <= n.tok_end
    &&& (c > 0 ==> nodes[n.children@[c - 1].index()].tok_end <= nodes[r].tok_start)
}

/// Well-formedness of one node against the arena it lives in: its token
/// range is ordered, every child handle is in bounds, every child's token
/// range nests inside the node's own, and the children sit in
/// non-decreasing source order without overlap.
pub open spec fn node_wf(nodes: Seq<CstNode>, n: CstNode) -> bool {
    &&& n.tok_start <= n.tok_end
    &&& forall|c: int| 0 <= c < n.children@.len() ==> #[trigger] child_ok(nodes, n, c)
}

/// Well-formedness of a whole arena: every node is well formed.
pub open spec fn arena_wf(nodes: Seq<CstNode>) -> bool {
    forall|k: int| 0 <= k < nodes.len() ==> #[trigger] node_wf(nodes, nodes[k])
}

/// Attaching one in-order, nested child to a node keeps the arena well
/// formed: `nodes` differs from `prev` only in that the node at `pi` gained
/// `child` at the end of its child list.
#[verifier::rlimit(100)]
proof fn lemma_attach_preserves_wf(prev: Seq<CstNode>, nodes: Seq<CstNode>, pi: int, child: NodeRef)
    requires
        arena_wf(prev),
        0 <= pi < prev.len(),
        0 <= child.index() < prev.len(),
        nodes.len() == prev.len(),
        forall|k: int| 0 <= k < prev.len() && k != pi ==> nodes[k] == prev[k],
        nodes[pi].tok_start == prev[pi].tok_start,
        nodes[pi].tok_end == prev[pi].tok_end,
        nodes[pi].children@ == prev[pi].children@.push(child),
        prev[pi].tok_start <= prev[child.index()].tok_start,
        prev[child.index()].tok_end <= prev[pi].tok_end,
        prev[pi].children@.len() > 0 ==> prev[prev[pi].children@.last().index()].tok_end
            <= prev[child.index()].tok_start,
    ensures
        arena_wf(nodes),
{
    assert forall|k: int| 0 <= k < nodes.len() implies #[trigger] node_wf(nodes, nodes[k]) by {
        let n = nodes[k];
        let prev_n = prev[k];
        assert(node_wf(prev, prev_n));
        assert forall|c: int| 0 <= c < n.children@.len() implies #[trigger] child_ok(
            nodes,
            n,
            c,
        ) by {
            if k != pi || c < n.children@.len() - 1 {
                assert(n.children@[c] == prev_n.children@[c]);
                assert(child_ok(prev, prev_n, c));
                let cr = n.children@[c].index();
                assert(nodes[cr].tok_start == prev[cr].tok_start);
                assert(nodes[cr].tok_end == prev[cr].tok_end);
                if c > 0 {
                    assert(n.children@[c - 1] == prev_n.children@[c - 1]);
                    assert(child_ok(prev, prev_n, c - 1));
                    let pr = n.children@[c - 1].index();
                    assert(nodes[pr].tok_end == prev[pr].tok_end);
                }
            } else {
                assert(n.children@[c] == child);
                let cr = child.index();
                assert(nodes[cr].tok_start == prev[cr].tok_start);
                assert(nodes[cr].tok_end == prev[cr].tok_end);
                if c > 0 {
                    assert(n.children@[c - 1] == prev_n.children@.last());
                    assert(child_ok(prev, prev_n, c - 1));
                    let pr = n.children@[c - 1].index();
                    assert(nodes[pr].tok_end == prev[pr].tok_end);
                }
            }
        }
    }
}

/// The append-only table of syntax nodes, in allocation order.
pub struct Arena {
    nodes: Vec<CstNode>,
}

impl View for Arena {
    type V = Seq<CstNode>;

    closed spec fn view(&self) -> Seq<CstNode> {
        self.nodes@
    }
}

impl Arena {
    pub open spec fn wf(&self) -> bool {
        arena_wf(self@)
    }

    pub fn new() -> (a: Arena)
        ensures
            a@.len() == 0,
            a.wf(),
    {
        Arena { nodes: Vec::new() }
    }

    pub fn len(&self) -> (n: usize)
        ensures
            n == self@.len(),
    {
        self.nodes.len()
    }

    /// O(1) lookup of the node a handle refers to.
    pub fn get(&self, r: NodeRef) -> (node: &CstNode)
        requires
            0 <= r.index() < self@.len(),
        ensures
            *node == self@[r.index()],
    {
        &self.nodes[r.idx]
    }

    /// Appends a new node with no children yet and returns its stable
    /// handle. Existing nodes are untouched.
    pub fn allocate(&mut self, rule: Rule, tok_start: usize, tok_end: usize) -> (r: NodeRef)
        requires
            old(self).wf(),
            tok_start <= tok_end,
        ensures
            r.index() == old(self)@.len(),
            final(self)@.len() == old(self)@.len() + 1,
            forall|k: int| 0 <= k < old(self)@.len() ==> final(self)@[k] == old(self)@[k],
            final(self)@[r.index()].rule == rule,
            final(self)@[r.index()].tok_start == tok_start,
            final(self)@[r.index()].tok_end == tok_end,
            final(self)@[r.index()].children@.len() == 0,
            final(self).wf(),
    {
        let r = NodeRef { idx: self.nodes.len() };
        self.nodes.push(CstNode { rule, tok_start, tok_end, children: Vec::new() });
        proof {
            let nodes = self@;
            let prev = old(self)@;
            assert forall|k: int| 0 <= k < nodes.len() implies #[trigger] node_wf(
                nodes,
                nodes[k],
            ) by {
                if k < prev.len() {
                    assert(node_wf(prev, prev[k]));
                    let n = nodes[k];
                    assert(n == prev[k]);
                    assert forall|c: int| 0 <= c < n.children@.len() implies #[trigger] child_ok(
                        nodes,
                        n,
                        c,
                    ) by {
                        assert(child_ok(prev, n, c));
                        let cr = n.children@[c].index();
                        assert(nodes[cr] == prev[cr]);
                        if c > 0 {
                            assert(child_ok(prev, n, c - 1));
                            let pr = n.children@[c - 1].index();
                            assert(nodes[pr] == prev[pr]);
                        }
                    }
                }
            }
        }
        r
    }

    /// Appends `child` to `parent`'s child list. The caller must hand
    /// children over in source order: the child's token range has to nest
    /// inside the parent's and start no earlier than the end of the last
    /// sibling already attached. A driver that violates this is defective,
    /// so the conditions are preconditions rather than runtime failures.
    #[verifier::rlimit(50)]
    pub fn attach_child(&mut self, parent: NodeRef, child: NodeRef)
        requires
            old(self).wf(),
            0 <= parent.index() < old(self)@.len(),
            0 <= child.index() < old(self)@.len(),
            old(self)@[parent.index()].tok_start <= old(self)@[child.index()].tok_start,
            old(self)@[child.index()].tok_end <= old(self)@[parent.index()].tok_end,
            old(self)@[parent.index()].children@.len() > 0 ==> old(self)@[old(
                self,
            )@[parent.index()].children@.last().index()].tok_end <= old(
                self,
            )@[child.index()].tok_start,
        ensures
            final(self)@.len() == old(self)@.len(),
            forall|k: int|
                0 <= k < old(self)@.len() && k != parent.index() ==> final(self)@[k] == old(
                    self,
                )@[k],
            final(self)@[parent.index()].rule == old(self)@[parent.index()].rule,
            final(self)@[parent.index()].tok_start == old(self)@[parent.index()].tok_start,
            final(self)@[parent.index()].tok_end == old(self)@[parent.index()].tok_end,
            final(self)@[parent.index()].children@ == old(self)@[parent.index()].children@.push(
                child,
            ),
            final(self).wf(),
    {
        let p = parent.idx;
        let mut node = self.nodes.remove(p);
        node.children.push(child);
        self.nodes.insert(p, node);
        proof {
            let nodes = self@;
            let prev = old(self)@;
            let pi = parent.index();
            assert(nodes =~= prev.update(pi, nodes[pi]));
            assert(nodes[pi].children@ =~= prev[pi].children@.push(child));
            lemma_attach_preserves_wf(prev, nodes, pi, child);
        }
    }
}

} // verus!
