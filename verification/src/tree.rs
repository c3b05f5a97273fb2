use vstd::prelude::*;
use crate::token::Op;

verus! {

/// A node of the program tree.  A `Leaf` holds one operation.  An
/// `Internal` node holds a loop body: it stands immediately after the
/// `Leaf` of the `JumpZero` that opens the loop, and its branch contains
/// everything up to and including the matching `JumpNonZero` leaf.
#[derive(Debug, PartialEq)]
pub enum Node<T> {
    Internal(Branch<T>),
    Leaf(T),
}

/// One level of the tree: an ordered sequence of nodes.
pub type Branch<T> = Vec<Node<T>>;

/// A whole program tree is its outermost level.
pub type Tree<T> = Branch<T>;

/// The mathematical shape of a node: the same tree, with levels as `Seq`.
/// Contracts and lemmas speak of trees through this type.
pub enum NodeV {
    Internal(Seq<NodeV>),
    Leaf(Op),
}

/// The mathematical value of a node.
pub open spec fn node_view(n: Node<Op>) -> NodeV
    decreases n, 0int,
{
    match n {
        Node::Internal(b) => NodeV::Internal(branch_view(b)),
        Node::Leaf(op) => NodeV::Leaf(op),
    }
}

/// The mathematical value of the level `b`, from index `i` on.
pub open spec fn branch_view_from(b: Branch<Op>, i: int) -> Seq<NodeV>
    decreases b, b@.len() - i,
{
    if i < 0 || i >= b@.len() {
        Seq::empty()
    } else {
        seq![node_view(b[i])] + branch_view_from(b, i + 1)
    }
}

/// The mathematical value of a tree level.
pub open spec fn branch_view(b: Branch<Op>) -> Seq<NodeV>
    decreases b, b@.len() + 1,
{
    branch_view_from(b, 0)
}

/// The view of a level has one node view per node, in order.
pub proof fn lemma_branch_view_from(b: Branch<Op>, i: int)
    requires
        0 <= i <= b@.len(),
    ensures
        branch_view_from(b, i).len() == b@.len() - i,
        forall|j: int|
            i <= j < b@.len() ==> branch_view_from(b, i)[j - i] == node_view(b[j]),
    decreases b@.len() - i,
{
    if i < b@.len() {
        lemma_branch_view_from(b, i + 1);
    }
}

/// Appending a node to a level appends its view.
pub proof fn lemma_branch_view_push(b: Branch<Op>, b2: Branch<Op>, n: Node<Op>)
    requires
        b2@ == b@.push(n),
    ensures
        branch_view(b2) == branch_view(b).push(node_view(n)),
{
    lemma_branch_view_push_from(b, b2, n, 0);
}

proof fn lemma_branch_view_push_from(b: Branch<Op>, b2: Branch<Op>, n: Node<Op>, i: int)
    requires
        b2@ == b@.push(n),
        0 <= i <= b@.len(),
    ensures
        branch_view_from(b2, i) == branch_view_from(b, i).push(node_view(n)),
    decreases b@.len() - i,
{
    if i == b@.len() {
        assert(b2[i] == n);
        assert(branch_view_from(b2, i + 1) =~= Seq::<NodeV>::empty());
        assert(branch_view_from(b, i) =~= Seq::<NodeV>::empty());
        assert(branch_view_from(b2, i) == seq![node_view(n)] + branch_view_from(b2, i + 1));
        assert(branch_view_from(b2, i) =~= branch_view_from(b, i).push(node_view(n)));
    } else {
        lemma_branch_view_push_from(b, b2, n, i + 1);
        assert(b2[i] == b[i]);
        assert(branch_view_from(b2, i) == seq![node_view(b2[i])] + branch_view_from(b2, i + 1));
        assert(branch_view_from(b, i) == seq![node_view(b[i])] + branch_view_from(b, i + 1));
        assert(branch_view_from(b2, i) =~= branch_view_from(b, i).push(node_view(n)));
    }
}

} // verus!
