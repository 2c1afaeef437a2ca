//! The abstract syntax tree: a flat, insertion-ordered arena of nodes that
//! reference their children by index. Children always have smaller indices
//! than their parent, so the structure is acyclic by construction.
use vstd::prelude::*;

verus! {

use crate::diag::Span;

/// One node of the syntax tree. Block nodes (`If`, `For`, `Define`) hold the
/// arena indices of their children, in source order.
#[derive(Clone, Debug, PartialEq, Eq)]
pub enum Node {
    Text { text: Vec<u8>, span: Span },
    Interpolation { name: Vec<u8>, span: Span },
    If { cond: Vec<u8>, children: Vec<usize>, span: Span },
    For { var: Vec<u8>, children: Vec<usize>, span: Span },
    Include { target: Vec<u8>, span: Span },
    Call { target: Vec<u8>, span: Span },
    Define { name: Vec<u8>, children: Vec<usize>, span: Span },
}

/// Mathematical model of `Node`.
pub enum NodeV {
    Text { text: Seq<u8>, span: Span },
    Interpolation { name: Seq<u8>, span: Span },
    If { cond: Seq<u8>, children: Seq<usize>, span: Span },
    For { var: Seq<u8>, children: Seq<usize>, span: Span },
    Include { target: Seq<u8>, span: Span },
    Call { target: Seq<u8>, span: Span },
    Define { name: Seq<u8>, children: Seq<usize>, span: Span },
}

impl View for Node {
    type V = NodeV;

    open spec fn view(&self) -> NodeV {
        match self {
            Node::Text { text, span } => NodeV::Text { text: text@, span: *span },
            Node::Interpolation { name, span } => NodeV::Interpolation {
                name: name@,
                span: *span,
            },
            Node::If { cond, children, span } => NodeV::If {
                cond: cond@,
                children: children@,
                span: *span,
            },
            Node::For { var, children, span } => NodeV::For {
                var: var@,
                children: children@,
                span: *span,
            },
            Node::Include { target, span } => NodeV::Include { target: target@, span: *span },
            Node::Call { target, span } => NodeV::Call { target: target@, span: *span },
            Node::Define { name, children, span } => NodeV::Define {
                name: name@,
                children: children@,
                span: *span,
            },
        }
    }
}

/// View of a list of nodes.
pub open spec fn nodes_view(s: Seq<Node>) -> Seq<NodeV> {
    s.map_values(|n: Node| n@)
}

/// A whole parsed fragment: the arena plus the indices of the top-level
/// nodes, in source order.
#[derive(Clone, Debug, PartialEq, Eq)]
pub struct Document {
    pub arena: Vec<Node>,
    pub roots: Vec<usize>,
}

/// Mathematical model of `Document`.
pub struct DocV {
    pub arena: Seq<NodeV>,
    pub roots: Seq<usize>,
}

impl View for Document {
    type V = DocV;

    open spec fn view(&self) -> DocV {
        DocV { arena: nodes_view(self.arena@), roots: self.roots@ }
    }
}

/// The child indices of a node; empty for leaves.
pub open spec fn node_children(n: NodeV) -> Seq<usize> {
    match n {
        NodeV::If { children, .. } => children,
        NodeV::For { children, .. } => children,
        NodeV::Define { children, .. } => children,
        _ => Seq::empty(),
    }
}

/// The structure of a node with spans stripped: what the binary encoding
/// preserves.
pub enum Tree {
    Text(Seq<u8>),
    Interpolation(Seq<u8>),
    If(Seq<u8>, Seq<Tree>),
    For(Seq<u8>, Seq<Tree>),
    Include(Seq<u8>),
    Call(Seq<u8>),
    Define(Seq<u8>, Seq<Tree>),
}

/// The tree rooted at arena index `i`. Out-of-range indices give an empty
/// text node; a well-formed document never reaches them.
pub open spec fn tree_of(arena: Seq<NodeV>, i: int) -> Tree
    decreases i, node_children(arena[i]).len() + 1,
{
    if 0 <= i < arena.len() {
        match arena[i] {
            NodeV::Text { text, .. } => Tree::Text(text),
            NodeV::Interpolation { name, .. } => Tree::Interpolation(name),
            NodeV::If { cond, children, .. } => Tree::If(cond, trees_of(arena, children, i)),
            NodeV::For { var, children, .. } => Tree::For(var, trees_of(arena, children, i)),
            NodeV::Include { target, .. } => Tree::Include(target),
            NodeV::Call { target, .. } => Tree::Call(target),
            NodeV::Define { name, children, .. } => Tree::Define(
                name,
                trees_of(arena, children, i),
            ),
        }
    } else {
        Tree::Text(Seq::empty())
    }
}

/// The trees rooted at the indices `ch`, all of which must lie below
/// `bound`; indices at or above `bound` are skipped.
pub open spec fn trees_of(arena: Seq<NodeV>, ch: Seq<usize>, bound: int) -> Seq<Tree>
    decreases bound, ch.len(),
{
    if ch.len() == 0 {
        Seq::empty()
    } else if (ch[0] as int) < bound {
        seq![tree_of(arena, ch[0] as int)] + trees_of(arena, ch.drop_first(), bound)
    } else {
        trees_of(arena, ch.drop_first(), bound)
    }
}

/// Compares two byte vectors.
pub fn bytes_eq(a: &Vec<u8>, b: &Vec<u8>) -> (r: bool)
    ensures
        r == (a@ == b@),
{
    if a.len() != b.len() {
        proof {
            if a@ == b@ {
                assert(a@.len() == b@.len());
            }
        }
        return false;
    }
    let mut x: usize = 0;
    while x < a.len()
        invariant
            x <= a.len(),
            a@.len() == b@.len(),
            forall|q: int| 0 <= q < x ==> a@[q] == b@[q],
        decreases a.len() - x,
    {
        if a[x] != b[x] {
            return false;
        }
        x = x + 1;
    }
    proof {
        assert(a@ =~= b@);
    }
    true
}

/// Copies a byte vector.
pub fn dup_bytes(v: &Vec<u8>) -> (r: Vec<u8>)
    ensures
        r@ == v@,
{
    let s = v.as_slice();
    let r = crate::lexer::copy_range(s, 0, v.len());
    proof {
        assert(s@.subrange(0, s@.len() as int) =~= v@);
    }
    r
}

/// Copies a boolean vector.
pub fn dup_bools(v: &Vec<bool>) -> (r: Vec<bool>)
    ensures
        r@ == v@,
{
    let mut r: Vec<bool> = Vec::new();
    let mut x: usize = 0;
    while x < v.len()
        invariant
            x <= v.len(),
            r@ == v@.subrange(0, x as int),
        decreases v.len() - x,
    {
        r.push(v[x]);
        x = x + 1;
        proof {
            assert(r@ =~= v@.subrange(0, x as int));
        }
    }
    proof {
        assert(v@.subrange(0, v@.len() as int) =~= v@);
    }
    r
}

/// The top-level trees of a document.
pub open spec fn doc_trees(d: DocV) -> Seq<Tree> {
    trees_of(d.arena, d.roots, d.arena.len() as int)
}

} // verus!
