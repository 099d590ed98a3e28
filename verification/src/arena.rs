//! The node type, the arena that holds it, and the specification model:
//! which index sets and key sets a link reaches, and what it means for a
//! subtree to be well formed.

use vstd::prelude::*;

verus! {

/// One tree node.  `key` is `None` only on sentinel placeholders; every
/// node that takes part in a tree holds a key.  `parent` is a non-owning
/// back-reference (an arena index), `left` and `right` are the owning
/// downward links.
#[derive(Clone, Copy, Debug)]
pub struct BstNode {
    pub key: Option<i32>,
    pub parent: Option<usize>,
    pub left: Option<usize>,
    pub right: Option<usize>,
}

/// The arena: all nodes ever created, and the link to the current root.
/// Slots that no link reaches any more (after a deletion, say) simply
/// stay behind; nothing in the tree can see them.
pub struct Bst {
    pub nodes: Vec<BstNode>,
    pub root: Option<usize>,
}

/// Whether a key lies inside the half-open window `[lo, hi)`; an absent
/// bound is no bound.  Left subtrees are strictly below their node's key,
/// right subtrees start at it (equal keys are routed right).
pub open spec fn key_in_range(k: int, lo: Option<int>, hi: Option<int>) -> bool {
    &&& (lo is Some ==> lo.unwrap() <= k)
    &&& (hi is Some ==> k < hi.unwrap())
}

/// Whether a key lies strictly between both bounds; an absent bound is
/// no bound.
pub open spec fn key_strictly_inside(k: int, lo: Option<int>, hi: Option<int>) -> bool {
    &&& (lo is Some ==> lo.unwrap() < k)
    &&& (hi is Some ==> k < hi.unwrap())
}

/// The set of arena indices a link reaches within `fuel` steps.
pub open spec fn link_nodes(nodes: Seq<BstNode>, link: Option<usize>, fuel: nat) -> Set<int>
    decreases fuel,
{
    match link {
        None => Set::empty(),
        Some(i) => {
            if fuel == 0 || nodes.len() <= i {
                Set::empty()
            } else {
                link_nodes(nodes, nodes[i as int].left, (fuel - 1) as nat).union(
                    link_nodes(nodes, nodes[i as int].right, (fuel - 1) as nat),
                ).insert(i as int)
            }
        },
    }
}

/// The set of keys a link reaches within `fuel` steps.
pub open spec fn link_keys(nodes: Seq<BstNode>, link: Option<usize>, fuel: nat) -> Set<int>
    decreases fuel,
{
    match link {
        None => Set::empty(),
        Some(i) => {
            if fuel == 0 || nodes.len() <= i {
                Set::empty()
            } else {
                let below = link_keys(nodes, nodes[i as int].left, (fuel - 1) as nat).union(
                    link_keys(nodes, nodes[i as int].right, (fuel - 1) as nat),
                );
                match nodes[i as int].key {
                    None => below,
                    Some(k) => below.insert(k as int),
                }
            }
        },
    }
}

/// Well-formedness of the subtree a link reaches: every node holds a key
/// inside its window, its `parent` back-reference names the node it was
/// reached from, the two child subtrees are well formed in their narrowed
/// windows, and no node is reachable twice (neither through both children
/// nor through a cycle).
pub open spec fn wf_link(
    nodes: Seq<BstNode>,
    link: Option<usize>,
    parent: Option<usize>,
    lo: Option<int>,
    hi: Option<int>,
    fuel: nat,
) -> bool
    decreases fuel,
{
    match link {
        None => true,
        Some(i) => {
            &&& fuel > 0
            &&& i < nodes.len()
            &&& nodes[i as int].key is Some
            &&& key_in_range(nodes[i as int].key.unwrap() as int, lo, hi)
            &&& nodes[i as int].parent == parent
            &&& wf_link(
                nodes,
                nodes[i as int].left,
                Some(i),
                lo,
                Some(nodes[i as int].key.unwrap() as int),
                (fuel - 1) as nat,
            )
            &&& wf_link(
                nodes,
                nodes[i as int].right,
                Some(i),
                Some(nodes[i as int].key.unwrap() as int),
                hi,
                (fuel - 1) as nat,
            )
            &&& !link_nodes(nodes, nodes[i as int].left, (fuel - 1) as nat).contains(i as int)
            &&& !link_nodes(nodes, nodes[i as int].right, (fuel - 1) as nat).contains(i as int)
            &&& link_nodes(nodes, nodes[i as int].left, (fuel - 1) as nat).disjoint(
                link_nodes(nodes, nodes[i as int].right, (fuel - 1) as nat),
            )
        },
    }
}

/// How many steps down from the root of `link` the node `i` sits; 0 when
/// `i` is the link's own node or not reachable at all.
pub open spec fn link_depth(nodes: Seq<BstNode>, link: Option<usize>, i: int, fuel: nat) -> nat
    decreases fuel,
{
    match link {
        None => 0,
        Some(r) => {
            if fuel == 0 || nodes.len() <= r {
                0
            } else if i == r as int {
                0
            } else if link_nodes(nodes, nodes[r as int].left, (fuel - 1) as nat).contains(i) {
                1 + link_depth(nodes, nodes[r as int].left, i, (fuel - 1) as nat)
            } else {
                1 + link_depth(nodes, nodes[r as int].right, i, (fuel - 1) as nat)
            }
        },
    }
}

impl Bst {
    /// The tree reachable from `root` is well formed; slots outside it
    /// are unconstrained.
    pub open spec fn wf(self) -> bool {
        wf_link(self.nodes@, self.root, None, None, None, self.nodes@.len() as nat)
    }

    /// The arena indices of the tree's nodes.
    pub open spec fn node_set(self) -> Set<int> {
        link_nodes(self.nodes@, self.root, self.nodes@.len() as nat)
    }

    /// The keys the tree holds.
    pub open spec fn key_set(self) -> Set<int> {
        link_keys(self.nodes@, self.root, self.nodes@.len() as nat)
    }

    /// Whether index `i` is a node of the tree.
    pub open spec fn in_tree(self, i: usize) -> bool {
        self.node_set().contains(i as int)
    }

    /// The key of node `i` as a mathematical integer.
    pub open spec fn node_key(self, i: usize) -> int {
        self.nodes@[i as int].key.unwrap() as int
    }

    /// No two nodes of the tree hold the same key.
    pub open spec fn distinct_keys(self) -> bool {
        forall|j1: int, j2: int|
            #![trigger self.node_set().contains(j1), self.node_set().contains(j2)]
            self.node_set().contains(j1) && self.node_set().contains(j2) && j1 != j2
                ==> self.nodes@[j1].key != self.nodes@[j2].key
    }

    /// An empty tree: no nodes, no root.
    pub fn new() -> (t: Bst)
        ensures
            t.wf(),
            t.root is None,
            t.nodes@.len() == 0,
            t.key_set() == Set::<int>::empty(),
            t.node_set() == Set::<int>::empty(),
    {
        Bst { nodes: Vec::new(), root: None }
    }
}

} // verus!
