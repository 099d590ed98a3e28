//! The tree operations: construction, queries, successor, insertion,
//! transplantation and deletion.

use vstd::prelude::*;

use crate::arena::Bst;
use crate::arena::BstNode;
use crate::arena::key_in_range;
use crate::arena::key_strictly_inside;
use crate::arena::link_depth;
use crate::arena::link_keys;
use crate::arena::link_nodes;
use crate::arena::wf_link;
use crate::facts::lemma_frame;
use crate::facts::lemma_keys_are_node_keys;
use crate::facts::lemma_fuel_mono;
use crate::facts::lemma_link_basics;
use crate::facts::lemma_node_facts;
use crate::facts::lemma_parent_step;
use crate::facts::lemma_position_window;
use crate::facts::lemma_raise_lo;
use crate::facts::lemma_subtree_wf;
use crate::facts::lemma_widen;

verus! {

impl BstNode {
    /// A fresh parentless, childless node holding `key`.
    fn new(key: i32) -> (n: BstNode)
        ensures
            n.key == Some(key),
            n.parent is None,
            n.left is None,
            n.right is None,
    {
        BstNode { key: Some(key), parent: None, left: None, right: None }
    }

    /// A fresh childless node holding `value`, with its back-reference
    /// already wired to `parent`.
    fn new_with_parent(parent: usize, value: i32) -> (n: BstNode)
        ensures
            n.key == Some(value),
            n.parent == Some(parent),
            n.left is None,
            n.right is None,
    {
        let mut n = BstNode::new(value);
        n.parent = Some(parent);
        n
    }

    /// Create a fresh detached node holding `value` in the arena and
    /// return its link.  The node belongs to no tree yet: it has no
    /// parent and no children, and the tree hanging from `root` is
    /// untouched.
    pub fn new_bst_nodelink(tree: &mut Bst, value: i32) -> (link: usize)
        requires
            old(tree).wf(),
        ensures
            final(tree).wf(),
            final(tree).root == old(tree).root,
            final(tree).nodes@.len() == old(tree).nodes@.len() + 1,
            link as int == old(tree).nodes@.len(),
            final(tree).nodes@[link as int].key == Some(value),
            final(tree).nodes@[link as int].parent is None,
            final(tree).nodes@[link as int].left is None,
            final(tree).nodes@[link as int].right is None,
            final(tree).node_set() == old(tree).node_set(),
            final(tree).key_set() == old(tree).key_set(),
            forall|t: int|
                0 <= t < old(tree).nodes@.len() ==> final(tree).nodes@[t] == old(tree).nodes@[t],
    {
        let link = tree.nodes.len();
        tree.nodes.push(BstNode::new(value));
        proof {
            let n1 = old(tree).nodes@;
            let n2 = tree.nodes@;
            let len1 = n1.len() as nat;
            lemma_link_basics(n1, old(tree).root, None, None, None, len1);
            lemma_frame(n1, n2, old(tree).root, None, None, None, len1);
            lemma_fuel_mono(n2, tree.root, None, None, None, len1, n2.len() as nat);
        }
        link
    }

    /// A detached copy of node `node`: a fresh slot holding the same
    /// key, parent and child links, decoupled from further mutation of
    /// the original.  The tree itself is untouched.
    pub fn get_bst_nodelink_copy(tree: &mut Bst, node: usize) -> (link: usize)
        requires
            old(tree).wf(),
            node < old(tree).nodes@.len(),
        ensures
            final(tree).wf(),
            final(tree).root == old(tree).root,
            final(tree).nodes@.len() == old(tree).nodes@.len() + 1,
            link as int == old(tree).nodes@.len(),
            final(tree).nodes@[link as int] == old(tree).nodes@[node as int],
            final(tree).node_set() == old(tree).node_set(),
            final(tree).key_set() == old(tree).key_set(),
            forall|t: int|
                0 <= t < old(tree).nodes@.len() ==> final(tree).nodes@[t] == old(tree).nodes@[t],
    {
        let link = tree.nodes.len();
        let copy = tree.nodes[node];
        tree.nodes.push(copy);
        proof {
            let n1 = old(tree).nodes@;
            let n2 = tree.nodes@;
            let len1 = n1.len() as nat;
            lemma_link_basics(n1, old(tree).root, None, None, None, len1);
            lemma_frame(n1, n2, old(tree).root, None, None, None, len1);
            lemma_fuel_mono(n2, tree.root, None, None, None, len1, n2.len() as nat);
        }
        link
    }

    /// Attach a fresh node holding `value` as the left child of `node`,
    /// wiring the back-reference at creation time.  This is a raw
    /// builder: it overwrites any existing left link and checks no key
    /// order, so it maintains the search invariant only if the caller
    /// picks `value` accordingly.
    pub fn add_left_child(tree: &mut Bst, node: usize, value: i32)
        requires
            node < old(tree).nodes@.len(),
        ensures
            final(tree).root == old(tree).root,
            final(tree).nodes@.len() == old(tree).nodes@.len() + 1,
            ({
                let c = old(tree).nodes@.len() as int;
                &&& final(tree).nodes@[c].key == Some(value)
                &&& final(tree).nodes@[c].parent == Some(node)
                &&& final(tree).nodes@[c].left is None
                &&& final(tree).nodes@[c].right is None
                &&& final(tree).nodes@[node as int].left == Some(old(tree).nodes@.len() as usize)
            }),
            final(tree).nodes@[node as int].key == old(tree).nodes@[node as int].key,
            final(tree).nodes@[node as int].parent == old(tree).nodes@[node as int].parent,
            final(tree).nodes@[node as int].right == old(tree).nodes@[node as int].right,
            forall|t: int|
                0 <= t < old(tree).nodes@.len() && t != node ==> final(tree).nodes@[t] == old(
                    tree,
                ).nodes@[t],
    {
        let link = tree.nodes.len();
        let child = BstNode::new_with_parent(node, value);
        tree.nodes.push(child);
        let mut n = tree.nodes[node];
        n.left = Some(link);
        tree.nodes[node] = n;
    }

    /// Attach a fresh node holding `value` as the right child of
    /// `node`, wiring the back-reference at creation time.  A raw
    /// builder, like `add_left_child`.
    pub fn add_right_child(tree: &mut Bst, node: usize, value: i32)
        requires
            node < old(tree).nodes@.len(),
        ensures
            final(tree).root == old(tree).root,
            final(tree).nodes@.len() == old(tree).nodes@.len() + 1,
            ({
                let c = old(tree).nodes@.len() as int;
                &&& final(tree).nodes@[c].key == Some(value)
                &&& final(tree).nodes@[c].parent == Some(node)
                &&& final(tree).nodes@[c].left is None
                &&& final(tree).nodes@[c].right is None
                &&& final(tree).nodes@[node as int].right == Some(old(tree).nodes@.len() as usize)
            }),
            final(tree).nodes@[node as int].key == old(tree).nodes@[node as int].key,
            final(tree).nodes@[node as int].parent == old(tree).nodes@[node as int].parent,
            final(tree).nodes@[node as int].left == old(tree).nodes@[node as int].left,
            forall|t: int|
                0 <= t < old(tree).nodes@.len() && t != node ==> final(tree).nodes@[t] == old(
                    tree,
                ).nodes@[t],
    {
        let link = tree.nodes.len();
        let child = BstNode::new_with_parent(node, value);
        tree.nodes.push(child);
        let mut n = tree.nodes[node];
        n.right = Some(link);
        tree.nodes[node] = n;
    }

    /// Descend from `i` and hang the detached leaf `new_idx` at the
    /// first empty link on `value`'s search path: left on strictly
    /// smaller, right otherwise.
    fn insert_at(
        nodes: &mut Vec<BstNode>,
        i: usize,
        new_idx: usize,
        value: i32,
        Ghost(p): Ghost<Option<usize>>,
        Ghost(lo): Ghost<Option<int>>,
        Ghost(hi): Ghost<Option<int>>,
        Ghost(f): Ghost<nat>,
    )
        requires
            wf_link(old(nodes)@, Some(i), p, lo, hi, f),
            new_idx < old(nodes)@.len(),
            !link_nodes(old(nodes)@, Some(i), f).contains(new_idx as int),
            old(nodes)@[new_idx as int].key == Some(value),
            old(nodes)@[new_idx as int].left is None,
            old(nodes)@[new_idx as int].right is None,
            key_in_range(value as int, lo, hi),
        ensures
            final(nodes)@.len() == old(nodes)@.len(),
            wf_link(final(nodes)@, Some(i), p, lo, hi, (f + 1) as nat),
            link_nodes(final(nodes)@, Some(i), (f + 1) as nat) == link_nodes(
                old(nodes)@,
                Some(i),
                f,
            ).insert(new_idx as int),
            link_keys(final(nodes)@, Some(i), (f + 1) as nat) == link_keys(
                old(nodes)@,
                Some(i),
                f,
            ).insert(value as int),
            forall|t: int|
                0 <= t < old(nodes)@.len() && t != new_idx && !link_nodes(
                    old(nodes)@,
                    Some(i),
                    f,
                ).contains(t) ==> final(nodes)@[t] == old(nodes)@[t],
            forall|t: int|
                0 <= t < old(nodes)@.len() ==> final(nodes)@[t].key == old(nodes)@[t].key,
            final(nodes)@[new_idx as int].key == Some(value),
            final(nodes)@[new_idx as int].left is None,
            final(nodes)@[new_idx as int].right is None,
            exists|a: usize|
                {
                    &&& #[trigger] link_nodes(old(nodes)@, Some(i), f).contains(a as int)
                    &&& final(nodes)@[new_idx as int].parent == Some(a)
                    &&& old(nodes)@[a as int].key is Some
                    &&& (if (value as int) < old(nodes)@[a as int].key.unwrap() as int {
                        old(nodes)@[a as int].left is None && final(nodes)@[a as int].left == Some(
                            new_idx,
                        ) && final(nodes)@[a as int].right == old(nodes)@[a as int].right
                    } else {
                        old(nodes)@[a as int].right is None && final(nodes)@[a as int].right
                            == Some(new_idx) && final(nodes)@[a as int].left == old(nodes)@[a
                            as int].left
                    })
                    &&& final(nodes)@[a as int].key == old(nodes)@[a as int].key
                    &&& final(nodes)@[a as int].parent == old(nodes)@[a as int].parent
                    &&& forall|t: int|
                        0 <= t < old(nodes)@.len() && t != a as int && t != new_idx
                            ==> final(nodes)@[t] == old(nodes)@[t]
                },
        decreases f,
    {
        let k = nodes[i].key.unwrap();
        let ghost fm = (f - 1) as nat;
        if value < k {
            let l = nodes[i].left;
            match l {
                None => {
                    let mut nd = nodes[i];
                    nd.left = Some(new_idx);
                    nodes[i] = nd;
                    let mut c = nodes[new_idx];
                    c.parent = Some(i);
                    nodes[new_idx] = c;
                    proof {
                        reveal_with_fuel(wf_link, 3);
                        reveal_with_fuel(link_nodes, 3);
                        reveal_with_fuel(link_keys, 3);
                        let n1 = old(nodes)@;
                        let n2 = nodes@;
                        let ki = n1[i as int].key.unwrap() as int;
                        lemma_link_basics(n1, Some(i), p, lo, hi, f);
                        assert forall|t: int|
                            link_nodes(n1, n1[i as int].right, fm).contains(t) implies n2[t]
                            == n1[t] by {
                            assert(link_nodes(n1, Some(i), f).contains(t));
                        };
                        lemma_frame(n1, n2, n1[i as int].right, Some(i), Some(ki), hi, fm);
                        lemma_fuel_mono(n2, n1[i as int].right, Some(i), Some(ki), hi, fm, f);
                        assert(wf_link(n2, Some(new_idx), Some(i), lo, Some(ki), f));
                        assert(wf_link(n2, Some(i), p, lo, hi, f + 1));
                        assert(link_nodes(n2, Some(i), f + 1) =~= link_nodes(
                            n1,
                            Some(i),
                            f,
                        ).insert(new_idx as int));
                        assert(link_keys(n2, Some(i), f + 1) =~= link_keys(n1, Some(i), f).insert(
                            value as int,
                        ));
                        assert(link_nodes(n1, Some(i), f).contains(i as int));
                        assert(exists|a: usize|
                            {
                                &&& #[trigger] link_nodes(n1, Some(i), f).contains(a as int)
                                &&& n2[new_idx as int].parent == Some(a)
                                &&& n1[a as int].key is Some
                                &&& (if (value as int) < n1[a as int].key.unwrap() as int {
                                    n1[a as int].left is None && n2[a as int].left == Some(new_idx)
                                        && n2[a as int].right == n1[a as int].right
                                } else {
                                    n1[a as int].right is None && n2[a as int].right == Some(
                                        new_idx,
                                    ) && n2[a as int].left == n1[a as int].left
                                })
                                &&& n2[a as int].key == n1[a as int].key
                                &&& n2[a as int].parent == n1[a as int].parent
                                &&& forall|t: int|
                                    0 <= t < n1.len() && t != a as int && t != new_idx ==> n2[t]
                                        == n1[t]
                            });
                    }
                },
                Some(li) => {
                    proof {
                        let n1 = old(nodes)@;
                        assert(forall|t: int|
                            link_nodes(n1, n1[i as int].left, fm).contains(t)
                                ==> link_nodes(n1, Some(i), f).contains(t));
                    }
                    Self::insert_at(
                        nodes,
                        li,
                        new_idx,
                        value,
                        Ghost(Some(i)),
                        Ghost(lo),
                        Ghost(Some(k as int)),
                        Ghost(fm),
                    );
                    proof {
                        let n1 = old(nodes)@;
                        let n2 = nodes@;
                        let ki = n1[i as int].key.unwrap() as int;
                        lemma_link_basics(n1, Some(i), p, lo, hi, f);
                        assert(n2[i as int] == n1[i as int]);
                        assert forall|t: int|
                            link_nodes(n1, n1[i as int].right, fm).contains(t) implies n2[t]
                            == n1[t] by {
                            assert(link_nodes(n1, Some(i), f).contains(t));
                            assert(!link_nodes(n1, n1[i as int].left, fm).contains(t));
                        };
                        lemma_frame(n1, n2, n1[i as int].right, Some(i), Some(ki), hi, fm);
                        lemma_fuel_mono(n2, n1[i as int].right, Some(i), Some(ki), hi, fm, f);
                        assert(wf_link(n2, Some(i), p, lo, hi, f + 1));
                        assert(link_nodes(n2, Some(i), f + 1) =~= link_nodes(
                            n1,
                            Some(i),
                            f,
                        ).insert(new_idx as int));
                        assert(link_keys(n2, Some(i), f + 1) =~= link_keys(n1, Some(i), f).insert(
                            value as int,
                        ));
                        let a = choose|a: usize|
                            {
                                &&& #[trigger] link_nodes(n1, Some(li), fm).contains(a as int)
                                &&& n2[new_idx as int].parent == Some(a)
                                &&& n1[a as int].key is Some
                                &&& (if (value as int) < n1[a as int].key.unwrap() as int {
                                    n1[a as int].left is None && n2[a as int].left == Some(new_idx)
                                        && n2[a as int].right == n1[a as int].right
                                } else {
                                    n1[a as int].right is None && n2[a as int].right == Some(
                                        new_idx,
                                    ) && n2[a as int].left == n1[a as int].left
                                })
                                &&& n2[a as int].key == n1[a as int].key
                                &&& n2[a as int].parent == n1[a as int].parent
                                &&& forall|t: int|
                                    0 <= t < n1.len() && t != a as int && t != new_idx ==> n2[t]
                                        == n1[t]
                            };
                        assert(link_nodes(n1, Some(i), f).contains(a as int));
                        assert(exists|a: usize|
                            {
                                &&& #[trigger] link_nodes(n1, Some(i), f).contains(a as int)
                                &&& n2[new_idx as int].parent == Some(a)
                                &&& n1[a as int].key is Some
                                &&& (if (value as int) < n1[a as int].key.unwrap() as int {
                                    n1[a as int].left is None && n2[a as int].left == Some(new_idx)
                                        && n2[a as int].right == n1[a as int].right
                                } else {
                                    n1[a as int].right is None && n2[a as int].right == Some(
                                        new_idx,
                                    ) && n2[a as int].left == n1[a as int].left
                                })
                                &&& n2[a as int].key == n1[a as int].key
                                &&& n2[a as int].parent == n1[a as int].parent
                                &&& forall|t: int|
                                    0 <= t < n1.len() && t != a as int && t != new_idx ==> n2[t]
                                        == n1[t]
                            });
                    }
                },
            }
        } else {
            let r = nodes[i].right;
            match r {
                None => {
                    let mut nd = nodes[i];
                    nd.right = Some(new_idx);
                    nodes[i] = nd;
                    let mut c = nodes[new_idx];
                    c.parent = Some(i);
                    nodes[new_idx] = c;
                    proof {
                        reveal_with_fuel(wf_link, 3);
                        reveal_with_fuel(link_nodes, 3);
                        reveal_with_fuel(link_keys, 3);
                        let n1 = old(nodes)@;
                        let n2 = nodes@;
                        let ki = n1[i as int].key.unwrap() as int;
                        lemma_link_basics(n1, Some(i), p, lo, hi, f);
                        assert forall|t: int|
                            link_nodes(n1, n1[i as int].left, fm).contains(t) implies n2[t]
                            == n1[t] by {
                            assert(link_nodes(n1, Some(i), f).contains(t));
                        };
                        lemma_frame(n1, n2, n1[i as int].left, Some(i), lo, Some(ki), fm);
                        lemma_fuel_mono(n2, n1[i as int].left, Some(i), lo, Some(ki), fm, f);
                        assert(wf_link(n2, Some(new_idx), Some(i), Some(ki), hi, f));
                        assert(wf_link(n2, Some(i), p, lo, hi, f + 1));
                        assert(link_nodes(n2, Some(i), f + 1) =~= link_nodes(
                            n1,
                            Some(i),
                            f,
                        ).insert(new_idx as int));
                        assert(link_keys(n2, Some(i), f + 1) =~= link_keys(n1, Some(i), f).insert(
                            value as int,
                        ));
                        assert(link_nodes(n1, Some(i), f).contains(i as int));
                        assert(exists|a: usize|
                            {
                                &&& #[trigger] link_nodes(n1, Some(i), f).contains(a as int)
                                &&& n2[new_idx as int].parent == Some(a)
                                &&& n1[a as int].key is Some
                                &&& (if (value as int) < n1[a as int].key.unwrap() as int {
                                    n1[a as int].left is None && n2[a as int].left == Some(new_idx)
                                        && n2[a as int].right == n1[a as int].right
                                } else {
                                    n1[a as int].right is None && n2[a as int].right == Some(
                                        new_idx,
                                    ) && n2[a as int].left == n1[a as int].left
                                })
                                &&& n2[a as int].key == n1[a as int].key
                                &&& n2[a as int].parent == n1[a as int].parent
                                &&& forall|t: int|
                                    0 <= t < n1.len() && t != a as int && t != new_idx ==> n2[t]
                                        == n1[t]
                            });
                    }
                },
                Some(ri) => {
                    proof {
                        let n1 = old(nodes)@;
                        assert(forall|t: int|
                            link_nodes(n1, n1[i as int].right, fm).contains(t)
                                ==> link_nodes(n1, Some(i), f).contains(t));
                    }
                    Self::insert_at(
                        nodes,
                        ri,
                        new_idx,
                        value,
                        Ghost(Some(i)),
                        Ghost(Some(k as int)),
                        Ghost(hi),
                        Ghost(fm),
                    );
                    proof {
                        let n1 = old(nodes)@;
                        let n2 = nodes@;
                        let ki = n1[i as int].key.unwrap() as int;
                        lemma_link_basics(n1, Some(i), p, lo, hi, f);
                        assert(n2[i as int] == n1[i as int]);
                        assert forall|t: int|
                            link_nodes(n1, n1[i as int].left, fm).contains(t) implies n2[t]
                            == n1[t] by {
                            assert(link_nodes(n1, Some(i), f).contains(t));
                            assert(!link_nodes(n1, n1[i as int].right, fm).contains(t));
                        };
                        lemma_frame(n1, n2, n1[i as int].left, Some(i), lo, Some(ki), fm);
                        lemma_fuel_mono(n2, n1[i as int].left, Some(i), lo, Some(ki), fm, f);
                        assert(wf_link(n2, Some(i), p, lo, hi, f + 1));
                        assert(link_nodes(n2, Some(i), f + 1) =~= link_nodes(
                            n1,
                            Some(i),
                            f,
                        ).insert(new_idx as int));
                        assert(link_keys(n2, Some(i), f + 1) =~= link_keys(n1, Some(i), f).insert(
                            value as int,
                        ));
                        let a = choose|a: usize|
                            {
                                &&& #[trigger] link_nodes(n1, Some(ri), fm).contains(a as int)
                                &&& n2[new_idx as int].parent == Some(a)
                                &&& n1[a as int].key is Some
                                &&& (if (value as int) < n1[a as int].key.unwrap() as int {
                                    n1[a as int].left is None && n2[a as int].left == Some(new_idx)
                                        && n2[a as int].right == n1[a as int].right
                                } else {
                                    n1[a as int].right is None && n2[a as int].right == Some(
                                        new_idx,
                                    ) && n2[a as int].left == n1[a as int].left
                                })
                                &&& n2[a as int].key == n1[a as int].key
                                &&& n2[a as int].parent == n1[a as int].parent
                                &&& forall|t: int|
                                    0 <= t < n1.len() && t != a as int && t != new_idx ==> n2[t]
                                        == n1[t]
                            };
                        assert(link_nodes(n1, Some(i), f).contains(a as int));
                        assert(exists|a: usize|
                            {
                                &&& #[trigger] link_nodes(n1, Some(i), f).contains(a as int)
                                &&& n2[new_idx as int].parent == Some(a)
                                &&& n1[a as int].key is Some
                                &&& (if (value as int) < n1[a as int].key.unwrap() as int {
                                    n1[a as int].left is None && n2[a as int].left == Some(new_idx)
                                        && n2[a as int].right == n1[a as int].right
                                } else {
                                    n1[a as int].right is None && n2[a as int].right == Some(
                                        new_idx,
                                    ) && n2[a as int].left == n1[a as int].left
                                })
                                &&& n2[a as int].key == n1[a as int].key
                                &&& n2[a as int].parent == n1[a as int].parent
                                &&& forall|t: int|
                                    0 <= t < n1.len() && t != a as int && t != new_idx ==> n2[t]
                                        == n1[t]
                            });
                    }
                },
            }
        }
    }

    /// Whether two nodes hold equal keys.  This compares by key value,
    /// not by identity: two distinct nodes match when their keys agree.
    fn is_node_match(tree: &Bst, a: usize, b: usize) -> (r: bool)
        requires
            a < tree.nodes@.len(),
            b < tree.nodes@.len(),
            tree.nodes@[a as int].key is Some,
            tree.nodes@[b as int].key is Some,
        ensures
            r == (tree.nodes@[a as int].key.unwrap() == tree.nodes@[b as int].key.unwrap()),
    {
        tree.nodes[a].key.unwrap() == tree.nodes[b].key.unwrap()
    }

    /// Whether two optional nodes match: both absent, or both present
    /// with equal keys.
    fn is_node_match_option(tree: &Bst, a: Option<usize>, b: Option<usize>) -> (r: bool)
        requires
            a is Some ==> a.unwrap() < tree.nodes@.len() && tree.nodes@[a.unwrap() as int].key
                is Some,
            b is Some ==> b.unwrap() < tree.nodes@.len() && tree.nodes@[b.unwrap() as int].key
                is Some,
        ensures
            r == match (a, b) {
                (None, None) => true,
                (Some(an), Some(bn)) => tree.nodes@[an as int].key.unwrap() == tree.nodes@[bn
                    as int].key.unwrap(),
                _ => false,
            },
    {
        match (a, b) {
            (None, None) => true,
            (Some(an), Some(bn)) => Self::is_node_match(tree, an, bn),
            _ => false,
        }
    }

    /// The historical "nil-like" probe: a link counts as nil when it is
    /// absent, or when its node is missing any one of parent, left or
    /// right.  Ordinary leaves are therefore nil-like too; this is kept
    /// only for the legacy successor variant.
    fn is_nil(tree: &Bst, link: Option<usize>) -> (r: bool)
        requires
            link is Some ==> link.unwrap() < tree.nodes@.len(),
        ensures
            r == match link {
                None => true,
                Some(x) => tree.nodes@[x as int].parent is None || tree.nodes@[x as int].left
                    is None || tree.nodes@[x as int].right is None,
            },
    {
        match link {
            None => true,
            Some(x) => {
                tree.nodes[x].parent.is_none() || tree.nodes[x].left.is_none()
                    || tree.nodes[x].right.is_none()
            },
        }
    }

    /// Search the subtree under `i` for `value`, descending as the
    /// historical code does: equal stops, strictly smaller goes left
    /// only when a left child exists, and everything else falls through
    /// to the right.  The fall-through is a deviation from the textbook
    /// descent, kept as-is; the contract proves it harmless here, since
    /// on a well-formed subtree the right branch cannot hold a smaller
    /// key, so a node is found exactly when the subtree's key set holds
    /// `value`.
    fn search_at(
        nodes: &Vec<BstNode>,
        i: usize,
        value: i32,
        Ghost(p): Ghost<Option<usize>>,
        Ghost(lo): Ghost<Option<int>>,
        Ghost(hi): Ghost<Option<int>>,
        Ghost(f): Ghost<nat>,
    ) -> (r: Option<usize>)
        requires
            wf_link(nodes@, Some(i), p, lo, hi, f),
        ensures
            r is Some <==> link_keys(nodes@, Some(i), f).contains(value as int),
            r is Some ==> link_nodes(nodes@, Some(i), f).contains(r.unwrap() as int)
                && nodes@[r.unwrap() as int].key == Some(value),
        decreases f,
    {
        let k = nodes[i].key.unwrap();
        let ghost fm = (f - 1) as nat;
        let ghost ki = k as int;
        if value == k {
            proof {
                assert(link_keys(nodes@, Some(i), f).contains(value as int));
                assert(link_nodes(nodes@, Some(i), f).contains(i as int));
            }
            Some(i)
        } else if value < k && nodes[i].left.is_some() {
            let li = nodes[i].left.unwrap();
            let r = Self::search_at(
                nodes,
                li,
                value,
                Ghost(Some(i)),
                Ghost(lo),
                Ghost(Some(ki)),
                Ghost(fm),
            );
            proof {
                lemma_link_basics(nodes@, nodes@[i as int].right, Some(i), Some(ki), hi, fm);
                assert(!link_keys(nodes@, nodes@[i as int].right, fm).contains(value as int));
                assert(link_keys(nodes@, Some(i), f).contains(value as int) == link_keys(
                    nodes@,
                    nodes@[i as int].left,
                    fm,
                ).contains(value as int));
                if r is Some {
                    assert(link_nodes(nodes@, Some(i), f).contains(r.unwrap() as int));
                }
            }
            r
        } else {
            let rl = nodes[i].right;
            match rl {
                None => {
                    proof {
                        lemma_link_basics(nodes@, nodes@[i as int].left, Some(i), lo, Some(ki), fm);
                        assert(link_keys(nodes@, Some(i), f) =~= link_keys(
                            nodes@,
                            nodes@[i as int].left,
                            fm,
                        ).union(link_keys(nodes@, nodes@[i as int].right, fm)).insert(ki));
                        assert(link_keys(nodes@, nodes@[i as int].right, fm) =~= Set::<
                            int,
                        >::empty());
                        if value < k {
                            assert(nodes@[i as int].left is None);
                            assert(link_keys(nodes@, nodes@[i as int].left, fm) =~= Set::<
                                int,
                            >::empty());
                        }
                        assert(!link_keys(nodes@, Some(i), f).contains(value as int));
                    }
                    None
                },
                Some(ri) => {
                    let r = Self::search_at(
                        nodes,
                        ri,
                        value,
                        Ghost(Some(i)),
                        Ghost(Some(ki)),
                        Ghost(hi),
                        Ghost(fm),
                    );
                    proof {
                        lemma_link_basics(nodes@, nodes@[i as int].left, Some(i), lo, Some(ki), fm);
                        assert(!link_keys(nodes@, nodes@[i as int].left, fm).contains(
                            value as int,
                        ));
                        assert(link_keys(nodes@, Some(i), f).contains(value as int) == link_keys(
                            nodes@,
                            nodes@[i as int].right,
                            fm,
                        ).contains(value as int));
                        if r is Some {
                            assert(link_nodes(nodes@, Some(i), f).contains(r.unwrap() as int));
                        }
                    }
                    r
                },
            }
        }
    }

    /// Search the tree hanging below `node` for `value`.  A node is
    /// returned exactly when the subtree's key set holds `value`, and
    /// the returned node holds exactly that key; searching from the
    /// root decides membership in the whole tree.
    pub fn tree_search(tree: &Bst, node: usize, value: i32) -> (r: Option<usize>)
        requires
            tree.wf(),
            tree.in_tree(node),
        ensures
            r is Some <==> link_keys(tree.nodes@, Some(node), tree.nodes@.len() as nat).contains(
                value as int,
            ),
            r is Some ==> tree.in_tree(r.unwrap()) && link_nodes(
                tree.nodes@,
                Some(node),
                tree.nodes@.len() as nat,
            ).contains(r.unwrap() as int) && tree.nodes@[r.unwrap() as int].key == Some(value),
            tree.root == Some(node) ==> (r is Some <==> tree.key_set().contains(value as int)),
    {
        let ghost nodes = tree.nodes@;
        let ghost len = nodes.len() as nat;
        proof {
            lemma_subtree_wf(nodes, tree.root, None, None, None, len, node);
        }
        let ghost pair = choose|lo: Option<int>, hi: Option<int>|
            #[trigger] wf_link(nodes, Some(node), nodes[node as int].parent, lo, hi, len);
        let r = Self::search_at(
            &tree.nodes,
            node,
            value,
            Ghost(nodes[node as int].parent),
            Ghost(pair.0),
            Ghost(pair.1),
            Ghost(len),
        );
        r
    }

    /// The node with the least key in the subtree under `i`: follow
    /// `left` links while they exist.
    fn min_at(
        nodes: &Vec<BstNode>,
        i: usize,
        Ghost(p): Ghost<Option<usize>>,
        Ghost(lo): Ghost<Option<int>>,
        Ghost(hi): Ghost<Option<int>>,
        Ghost(f): Ghost<nat>,
    ) -> (m: usize)
        requires
            wf_link(nodes@, Some(i), p, lo, hi, f),
        ensures
            link_nodes(nodes@, Some(i), f).contains(m as int),
            nodes@[m as int].key is Some,
            nodes@[m as int].left is None,
            link_keys(nodes@, Some(i), f).contains(nodes@[m as int].key.unwrap() as int),
            forall|y: int|
                #[trigger] link_keys(nodes@, Some(i), f).contains(y) ==> nodes@[m
                    as int].key.unwrap() as int <= y,
        decreases f,
    {
        let ghost fm = (f - 1) as nat;
        let ghost ki = nodes@[i as int].key.unwrap() as int;
        let l = nodes[i].left;
        match l {
            None => {
                proof {
                    lemma_link_basics(nodes@, nodes@[i as int].right, Some(i), Some(ki), hi, fm);
                    assert(link_nodes(nodes@, Some(i), f).contains(i as int));
                    assert(link_keys(nodes@, Some(i), f).contains(ki));
                    assert(link_keys(nodes@, Some(i), f) =~= link_keys(
                        nodes@,
                        nodes@[i as int].left,
                        fm,
                    ).union(link_keys(nodes@, nodes@[i as int].right, fm)).insert(ki));
                    assert(link_keys(nodes@, nodes@[i as int].left, fm) =~= Set::<int>::empty());
                    assert forall|y: int| #[trigger] link_keys(nodes@, Some(i), f).contains(y)
                        implies ki <= y by {
                        if y != ki {
                            assert(link_keys(nodes@, nodes@[i as int].right, fm).contains(y));
                        }
                    };
                }
                i
            },
            Some(li) => {
                let m = Self::min_at(nodes, li, Ghost(Some(i)), Ghost(lo), Ghost(Some(ki)), Ghost(fm));
                proof {
                    let mk = nodes@[m as int].key.unwrap() as int;
                    lemma_link_basics(nodes@, nodes@[i as int].left, Some(i), lo, Some(ki), fm);
                    lemma_link_basics(nodes@, nodes@[i as int].right, Some(i), Some(ki), hi, fm);
                    assert(link_nodes(nodes@, Some(i), f).contains(m as int));
                    assert(link_keys(nodes@, Some(i), f).contains(mk));
                    assert(mk < ki);
                    assert(link_keys(nodes@, Some(i), f) =~= link_keys(
                        nodes@,
                        nodes@[i as int].left,
                        fm,
                    ).union(link_keys(nodes@, nodes@[i as int].right, fm)).insert(ki));
                    assert forall|y: int| #[trigger] link_keys(nodes@, Some(i), f).contains(y)
                        implies mk <= y by {
                        if y != ki && !link_keys(nodes@, nodes@[i as int].left, fm).contains(y) {
                            assert(link_keys(nodes@, nodes@[i as int].right, fm).contains(y));
                        }
                    };
                }
                m
            },
        }
    }

    /// The node with the greatest key in the subtree under `i`: follow
    /// `right` links while they exist.
    fn max_at(
        nodes: &Vec<BstNode>,
        i: usize,
        Ghost(p): Ghost<Option<usize>>,
        Ghost(lo): Ghost<Option<int>>,
        Ghost(hi): Ghost<Option<int>>,
        Ghost(f): Ghost<nat>,
    ) -> (m: usize)
        requires
            wf_link(nodes@, Some(i), p, lo, hi, f),
        ensures
            link_nodes(nodes@, Some(i), f).contains(m as int),
            nodes@[m as int].key is Some,
            nodes@[m as int].right is None,
            link_keys(nodes@, Some(i), f).contains(nodes@[m as int].key.unwrap() as int),
            forall|y: int|
                #[trigger] link_keys(nodes@, Some(i), f).contains(y) ==> y <= nodes@[m
                    as int].key.unwrap() as int,
        decreases f,
    {
        let ghost fm = (f - 1) as nat;
        let ghost ki = nodes@[i as int].key.unwrap() as int;
        let r = nodes[i].right;
        match r {
            None => {
                proof {
                    lemma_link_basics(nodes@, nodes@[i as int].left, Some(i), lo, Some(ki), fm);
                    assert(link_nodes(nodes@, Some(i), f).contains(i as int));
                    assert(link_keys(nodes@, Some(i), f).contains(ki));
                    assert(link_keys(nodes@, Some(i), f) =~= link_keys(
                        nodes@,
                        nodes@[i as int].left,
                        fm,
                    ).union(link_keys(nodes@, nodes@[i as int].right, fm)).insert(ki));
                    assert(link_keys(nodes@, nodes@[i as int].right, fm) =~= Set::<int>::empty());
                    assert forall|y: int| #[trigger] link_keys(nodes@, Some(i), f).contains(y)
                        implies y <= ki by {
                        if y != ki {
                            assert(link_keys(nodes@, nodes@[i as int].left, fm).contains(y));
                        }
                    };
                }
                i
            },
            Some(ri) => {
                let m = Self::max_at(nodes, ri, Ghost(Some(i)), Ghost(Some(ki)), Ghost(hi), Ghost(fm));
                proof {
                    let mk = nodes@[m as int].key.unwrap() as int;
                    lemma_link_basics(nodes@, nodes@[i as int].left, Some(i), lo, Some(ki), fm);
                    lemma_link_basics(nodes@, nodes@[i as int].right, Some(i), Some(ki), hi, fm);
                    assert(link_nodes(nodes@, Some(i), f).contains(m as int));
                    assert(link_keys(nodes@, Some(i), f).contains(mk));
                    assert(ki <= mk);
                    assert(link_keys(nodes@, Some(i), f) =~= link_keys(
                        nodes@,
                        nodes@[i as int].left,
                        fm,
                    ).union(link_keys(nodes@, nodes@[i as int].right, fm)).insert(ki));
                    assert forall|y: int| #[trigger] link_keys(nodes@, Some(i), f).contains(y)
                        implies y <= mk by {
                        if y != ki && !link_keys(nodes@, nodes@[i as int].right, fm).contains(y) {
                            assert(link_keys(nodes@, nodes@[i as int].left, fm).contains(y));
                        }
                    };
                }
                m
            },
        }
    }

    /// The node holding the least key of the subtree under `node`: the
    /// bottom of the left spine, so it has no left child.
    pub fn minimum(tree: &Bst, node: usize) -> (m: usize)
        requires
            tree.wf(),
            tree.in_tree(node),
        ensures
            tree.in_tree(m),
            link_nodes(tree.nodes@, Some(node), tree.nodes@.len() as nat).contains(m as int),
            tree.nodes@[m as int].key is Some,
            tree.nodes@[m as int].left is None,
            link_keys(tree.nodes@, Some(node), tree.nodes@.len() as nat).contains(tree.node_key(m)),
            forall|y: int|
                #[trigger] link_keys(tree.nodes@, Some(node), tree.nodes@.len() as nat).contains(y)
                    ==> tree.node_key(m) <= y,
    {
        let ghost nodes = tree.nodes@;
        let ghost len = nodes.len() as nat;
        proof {
            lemma_subtree_wf(nodes, tree.root, None, None, None, len, node);
        }
        let ghost pair = choose|lo: Option<int>, hi: Option<int>|
            #[trigger] wf_link(nodes, Some(node), nodes[node as int].parent, lo, hi, len);
        let m = Self::min_at(
            &tree.nodes,
            node,
            Ghost(nodes[node as int].parent),
            Ghost(pair.0),
            Ghost(pair.1),
            Ghost(len),
        );
        m
    }

    /// The node holding the greatest key of the subtree under `node`:
    /// the bottom of the right spine, so it has no right child — with
    /// duplicate maximal keys, the lowest of them, as the walk goes.
    pub fn maximum(tree: &Bst, node: usize) -> (m: usize)
        requires
            tree.wf(),
            tree.in_tree(node),
        ensures
            tree.in_tree(m),
            link_nodes(tree.nodes@, Some(node), tree.nodes@.len() as nat).contains(m as int),
            tree.nodes@[m as int].key is Some,
            tree.nodes@[m as int].right is None,
            link_keys(tree.nodes@, Some(node), tree.nodes@.len() as nat).contains(tree.node_key(m)),
            forall|y: int|
                #[trigger] link_keys(tree.nodes@, Some(node), tree.nodes@.len() as nat).contains(y)
                    ==> y <= tree.node_key(m),
    {
        let ghost nodes = tree.nodes@;
        let ghost len = nodes.len() as nat;
        proof {
            lemma_subtree_wf(nodes, tree.root, None, None, None, len, node);
        }
        let ghost pair = choose|lo: Option<int>, hi: Option<int>|
            #[trigger] wf_link(nodes, Some(node), nodes[node as int].parent, lo, hi, len);
        let m = Self::max_at(
            &tree.nodes,
            node,
            Ghost(nodes[node as int].parent),
            Ghost(pair.0),
            Ghost(pair.1),
            Ghost(len),
        );
        m
    }

    /// Walk the parent back-references up from `node` until none is
    /// left: that node is the tree's root.
    pub fn get_root(tree: &Bst, node: usize) -> (r: usize)
        requires
            tree.wf(),
            tree.in_tree(node),
        ensures
            Some(r) == tree.root,
            tree.in_tree(r),
    {
        let mut cur = node;
        proof {
            lemma_link_basics(tree.nodes@, tree.root, None, None, None, tree.nodes@.len() as nat);
        }
        while tree.nodes[cur].parent.is_some()
            invariant
                tree.wf(),
                tree.in_tree(cur),
                cur < tree.nodes@.len(),
            decreases link_depth(tree.nodes@, tree.root, cur as int, tree.nodes@.len() as nat),
        {
            proof {
                lemma_parent_step(
                    tree.nodes@,
                    tree.root,
                    None,
                    None,
                    None,
                    tree.nodes@.len() as nat,
                    cur,
                );
                lemma_link_basics(
                    tree.nodes@,
                    tree.root,
                    None,
                    None,
                    None,
                    tree.nodes@.len() as nat,
                );
            }
            cur = tree.nodes[cur].parent.unwrap();
        }
        proof {
            lemma_parent_step(
                tree.nodes@,
                tree.root,
                None,
                None,
                None,
                tree.nodes@.len() as nat,
                cur,
            );
        }
        cur
    }

    /// Re-target the parent back-reference of subtree root `j` without
    /// touching anything else: the subtree keeps its shape, keys and
    /// well-formedness, now hanging from `newp`.
    fn set_parent(
        nodes: &mut Vec<BstNode>,
        j: usize,
        newp: Option<usize>,
        Ghost(oldp): Ghost<Option<usize>>,
        Ghost(lo): Ghost<Option<int>>,
        Ghost(hi): Ghost<Option<int>>,
        Ghost(f): Ghost<nat>,
    )
        requires
            wf_link(old(nodes)@, Some(j), oldp, lo, hi, f),
        ensures
            final(nodes)@.len() == old(nodes)@.len(),
            wf_link(final(nodes)@, Some(j), newp, lo, hi, f),
            link_nodes(final(nodes)@, Some(j), f) == link_nodes(old(nodes)@, Some(j), f),
            link_keys(final(nodes)@, Some(j), f) == link_keys(old(nodes)@, Some(j), f),
            forall|t: int|
                0 <= t < old(nodes)@.len() && t != j ==> final(nodes)@[t] == old(nodes)@[t],
            final(nodes)@[j as int].key == old(nodes)@[j as int].key,
            final(nodes)@[j as int].left == old(nodes)@[j as int].left,
            final(nodes)@[j as int].right == old(nodes)@[j as int].right,
            final(nodes)@[j as int].parent == newp,
    {
        let mut n = nodes[j];
        n.parent = newp;
        nodes[j] = n;
        proof {
            let n1 = old(nodes)@;
            let n2 = nodes@;
            let nd = n1[j as int];
            let kj = nd.key.unwrap() as int;
            let fm = (f - 1) as nat;
            lemma_link_basics(n1, Some(j), oldp, lo, hi, f);
            assert forall|t: int| link_nodes(n1, nd.left, fm).contains(t) implies n2[t]
                == n1[t] by {
                assert(link_nodes(n1, Some(j), f).contains(t));
            };
            assert forall|t: int| link_nodes(n1, nd.right, fm).contains(t) implies n2[t]
                == n1[t] by {
                assert(link_nodes(n1, Some(j), f).contains(t));
            };
            lemma_frame(n1, n2, nd.left, Some(j), lo, Some(kj), fm);
            lemma_frame(n1, n2, nd.right, Some(j), Some(kj), hi, fm);
            assert(wf_link(n2, Some(j), newp, lo, hi, f));
            assert(link_nodes(n2, Some(j), f) =~= link_nodes(n1, Some(j), f));
            assert(link_keys(n2, Some(j), f) =~= link_keys(n1, Some(j), f));
        }
    }

    /// Detach the minimum node of the subtree under `i` (whose current
    /// parent is `parent`) and return the link that takes the subtree's
    /// place together with the detached node.  The detached node's key
    /// stays in its slot, but the slot's links are stale until the
    /// caller rewires them.
    fn extract_min(
        nodes: &mut Vec<BstNode>,
        i: usize,
        parent: Option<usize>,
        Ghost(lo): Ghost<Option<int>>,
        Ghost(hi): Ghost<Option<int>>,
        Ghost(f): Ghost<nat>,
    ) -> (res: (Option<usize>, usize))
        requires
            wf_link(old(nodes)@, Some(i), parent, lo, hi, f),
        ensures
            final(nodes)@.len() == old(nodes)@.len(),
            wf_link(final(nodes)@, res.0, parent, lo, hi, f),
            link_nodes(old(nodes)@, Some(i), f).contains(res.1 as int),
            old(nodes)@[res.1 as int].key is Some,
            final(nodes)@[res.1 as int].key == old(nodes)@[res.1 as int].key,
            ({
                let mk = old(nodes)@[res.1 as int].key.unwrap() as int;
                &&& link_keys(old(nodes)@, Some(i), f).contains(mk)
                &&& (forall|y: int|
                    #[trigger] link_keys(old(nodes)@, Some(i), f).contains(y) ==> mk <= y)
                &&& link_keys(final(nodes)@, res.0, f).subset_of(
                    link_keys(old(nodes)@, Some(i), f),
                )
                &&& link_keys(old(nodes)@, Some(i), f).remove(mk).subset_of(
                    link_keys(final(nodes)@, res.0, f),
                )
            }),
            link_nodes(final(nodes)@, res.0, f) == link_nodes(old(nodes)@, Some(i), f).remove(
                res.1 as int,
            ),
            forall|t: int|
                0 <= t < old(nodes)@.len() && !link_nodes(old(nodes)@, Some(i), f).contains(t)
                    ==> final(nodes)@[t] == old(nodes)@[t],
            forall|t: int|
                0 <= t < old(nodes)@.len() ==> final(nodes)@[t].key == old(nodes)@[t].key,
        decreases f,
    {
        let ghost fm = (f - 1) as nat;
        let ghost ki = old(nodes)@[i as int].key.unwrap() as int;
        let l = nodes[i].left;
        match l {
            None => {
                let r = nodes[i].right;
                proof {
                    lemma_link_basics(old(nodes)@, Some(i), parent, lo, hi, f);
                    lemma_link_basics(
                        old(nodes)@,
                        old(nodes)@[i as int].right,
                        Some(i),
                        Some(ki),
                        hi,
                        fm,
                    );
                    assert(link_keys(old(nodes)@, Some(i), f) =~= link_keys(
                        old(nodes)@,
                        old(nodes)@[i as int].left,
                        fm,
                    ).union(link_keys(old(nodes)@, old(nodes)@[i as int].right, fm)).insert(ki));
                    assert(link_keys(old(nodes)@, old(nodes)@[i as int].left, fm) =~= Set::<
                        int,
                    >::empty());
                    assert(link_nodes(old(nodes)@, Some(i), f) =~= link_nodes(
                        old(nodes)@,
                        old(nodes)@[i as int].right,
                        fm,
                    ).insert(i as int));
                }
                match r {
                    None => {
                        proof {
                            let n1 = old(nodes)@;
                            assert(link_nodes(n1, None, f) =~= link_nodes(n1, Some(i), f).remove(
                                i as int,
                            ));
                        }
                        (None, i)
                    },
                    Some(ri) => {
                        Self::set_parent(
                            nodes,
                            ri,
                            parent,
                            Ghost(Some(i)),
                            Ghost(Some(ki)),
                            Ghost(hi),
                            Ghost(fm),
                        );
                        proof {
                            let n1 = old(nodes)@;
                            let n2 = nodes@;
                            lemma_widen(n2, Some(ri), parent, Some(ki), hi, lo, hi, fm);
                            lemma_fuel_mono(n2, Some(ri), parent, lo, hi, fm, f);
                            assert(link_nodes(n2, Some(ri), f) =~= link_nodes(
                                n1,
                                Some(i),
                                f,
                            ).remove(i as int));
                            assert(link_keys(n2, Some(ri), f).subset_of(
                                link_keys(n1, Some(i), f),
                            ));
                            assert(link_keys(n1, Some(i), f).remove(ki).subset_of(
                                link_keys(n2, Some(ri), f),
                            ));
                        }
                        (Some(ri), i)
                    },
                }
            },
            Some(li) => {
                proof {
                    lemma_link_basics(old(nodes)@, Some(i), parent, lo, hi, f);
                }
                let res = Self::extract_min(
                    nodes,
                    li,
                    Some(i),
                    Ghost(lo),
                    Ghost(Some(ki)),
                    Ghost(fm),
                );
                let (nl, m) = res;
                let ghost n_mid = nodes@;
                let mut nd = nodes[i];
                nd.left = nl;
                nodes[i] = nd;
                proof {
                    let n1 = old(nodes)@;
                    let n2 = nodes@;
                    let mk = n1[m as int].key.unwrap() as int;
                    let oleft = n1[i as int].left;
                    let oright = n1[i as int].right;
                    lemma_link_basics(n1, Some(i), parent, lo, hi, f);
                    lemma_link_basics(n1, oleft, Some(i), lo, Some(ki), fm);
                    lemma_link_basics(n1, oright, Some(i), Some(ki), hi, fm);
                    // the slot of i was untouched by the recursive call
                    assert(link_nodes(n1, Some(i), f).contains(i as int));
                    assert(n_mid[i as int] == n1[i as int]);
                    // the right subtree is framed across both mutations
                    assert forall|t: int| link_nodes(n1, oright, fm).contains(t) implies n2[t]
                        == n1[t] by {
                        assert(link_nodes(n1, Some(i), f).contains(t));
                        assert(!link_nodes(n1, oleft, fm).contains(t));
                        assert(t != i as int);
                    };
                    lemma_frame(n1, n2, oright, Some(i), Some(ki), hi, fm);
                    // the shrunken left subtree survives the write to slot i
                    assert forall|t: int| link_nodes(n_mid, nl, fm).contains(t) implies n2[t]
                        == n_mid[t] by {
                        assert(link_nodes(n1, oleft, fm).contains(t));
                        assert(t != i as int);
                    };
                    lemma_frame(n_mid, n2, nl, Some(i), lo, Some(ki), fm);
                    assert(wf_link(n2, Some(i), parent, lo, hi, f));
                    // the detached node is gone from the position's index set
                    assert(m != i && !link_nodes(n1, oright, fm).contains(m as int));
                    assert(link_nodes(n2, Some(i), f) =~= link_nodes(n1, Some(i), f).remove(
                        m as int,
                    ));
                    // key bookkeeping
                    assert(link_keys(n1, Some(i), f) =~= link_keys(n1, oleft, fm).union(
                        link_keys(n1, oright, fm),
                    ).insert(ki));
                    assert(link_keys(n2, Some(i), f) =~= link_keys(n2, nl, fm).union(
                        link_keys(n2, oright, fm),
                    ).insert(ki));
                    assert forall|y: int| #[trigger] link_keys(n1, Some(i), f).contains(y)
                        implies mk <= y by {
                        if y != ki && !link_keys(n1, oleft, fm).contains(y) {
                            assert(link_keys(n1, oright, fm).contains(y));
                        }
                    };
                    assert forall|y: int| link_keys(n2, Some(i), f).contains(y)
                        implies link_keys(n1, Some(i), f).contains(y) by {
                        if y != ki && !link_keys(n2, oright, fm).contains(y) {
                            assert(link_keys(n2, nl, fm).contains(y));
                            assert(link_keys(n_mid, nl, fm).contains(y));
                            assert(link_keys(n1, oleft, fm).contains(y));
                        }
                    };
                    assert forall|y: int|
                        link_keys(n1, Some(i), f).remove(mk).contains(y) implies link_keys(
                        n2,
                        Some(i),
                        f,
                    ).contains(y) by {
                        if y != ki {
                            if link_keys(n1, oleft, fm).contains(y) {
                                assert(link_keys(n1, oleft, fm).remove(mk).contains(y));
                                assert(link_keys(n_mid, nl, fm).contains(y));
                                assert(link_keys(n2, nl, fm).contains(y));
                            } else {
                                assert(link_keys(n1, oright, fm).contains(y));
                                assert(link_keys(n2, oright, fm).contains(y));
                            }
                        }
                    };
                }
                (Some(i), m)
            },
        }
    }

    /// Delete the first node holding `key` on its search path from the
    /// subtree behind `link`, returning the link that takes the
    /// subtree's place.  A node with no children simply vanishes, one
    /// child is spliced up, and with two children the minimum of the
    /// right subtree assumes the deleted node's position, keeping its
    /// own key.
    fn delete_link(
        nodes: &mut Vec<BstNode>,
        link: Option<usize>,
        key: i32,
        parent: Option<usize>,
        Ghost(lo): Ghost<Option<int>>,
        Ghost(hi): Ghost<Option<int>>,
        Ghost(f): Ghost<nat>,
    ) -> (nl: Option<usize>)
        requires
            wf_link(old(nodes)@, link, parent, lo, hi, f),
            f <= old(nodes)@.len(),
        ensures
            final(nodes)@.len() == old(nodes)@.len(),
            wf_link(final(nodes)@, nl, parent, lo, hi, f),
            !link_keys(old(nodes)@, link, f).contains(key as int) ==> final(nodes)@ == old(
                nodes,
            )@ && nl == link,
            link_keys(old(nodes)@, link, f).contains(key as int) ==> (exists|d: int|
                #[trigger] link_nodes(old(nodes)@, link, f).contains(d) && old(nodes)@[d].key
                    == Some(key) && link_nodes(final(nodes)@, nl, f) == link_nodes(
                    old(nodes)@,
                    link,
                    f,
                ).remove(d) && (old(nodes)@[d].left is Some && old(nodes)@[d].right is Some
                    ==> (exists|s: usize|
                    {
                        &&& #[trigger] link_nodes(
                            old(nodes)@,
                            old(nodes)@[d].right,
                            old(nodes)@.len() as nat,
                        ).contains(s as int)
                        &&& final(nodes)@[s as int].key == old(nodes)@[s as int].key
                        &&& old(nodes)@[s as int].key is Some
                        &&& (forall|y: int|
                            #[trigger] link_keys(
                                old(nodes)@,
                                old(nodes)@[d].right,
                                old(nodes)@.len() as nat,
                            ).contains(y) ==> old(nodes)@[s as int].key.unwrap() as int <= y)
                        &&& final(nodes)@[s as int].left == old(nodes)@[d].left
                        &&& final(nodes)@[s as int].parent == old(nodes)@[d].parent
                        &&& (old(nodes)@[d].parent is None ==> nl == Some(s))
                    }))),
            link_keys(final(nodes)@, nl, f).subset_of(link_keys(old(nodes)@, link, f)),
            link_keys(old(nodes)@, link, f).remove(key as int).subset_of(
                link_keys(final(nodes)@, nl, f),
            ),
            forall|t: int|
                0 <= t < old(nodes)@.len() && !link_nodes(old(nodes)@, link, f).contains(t)
                    ==> final(nodes)@[t] == old(nodes)@[t],
            forall|t: int|
                0 <= t < old(nodes)@.len() ==> final(nodes)@[t].key == old(nodes)@[t].key,
        decreases f,
    {
        let i = match link {
            None => {
                return None;
            },
            Some(i) => i,
        };
        let k = nodes[i].key.unwrap();
        let ghost fm = (f - 1) as nat;
        let ghost ki = k as int;
        proof {
            lemma_link_basics(old(nodes)@, link, parent, lo, hi, f);
            lemma_link_basics(
                old(nodes)@,
                old(nodes)@[i as int].left,
                Some(i),
                lo,
                Some(ki),
                fm,
            );
            lemma_link_basics(
                old(nodes)@,
                old(nodes)@[i as int].right,
                Some(i),
                Some(ki),
                hi,
                fm,
            );
            assert(link_keys(old(nodes)@, link, f) =~= link_keys(
                old(nodes)@,
                old(nodes)@[i as int].left,
                fm,
            ).union(link_keys(old(nodes)@, old(nodes)@[i as int].right, fm)).insert(ki));
            assert(link_nodes(old(nodes)@, link, f) =~= link_nodes(
                old(nodes)@,
                old(nodes)@[i as int].left,
                fm,
            ).union(link_nodes(old(nodes)@, old(nodes)@[i as int].right, fm)).insert(i as int));
        }
        if key == k {
            let l = nodes[i].left;
            let r = nodes[i].right;
            match (l, r) {
                (None, None) => {
                    proof {
                        let n1 = old(nodes)@;
                        assert(link_nodes(n1, None, f) =~= link_nodes(n1, link, f).remove(
                            i as int,
                        ));
                        assert(link_nodes(n1, link, f).contains(i as int) && n1[i as int].key
                            == Some(key) && link_nodes(nodes@, None, f) == link_nodes(
                            n1,
                            link,
                            f,
                        ).remove(i as int));
                    }
                    None
                },
                (Some(c), None) => {
                    Self::set_parent(
                        nodes,
                        c,
                        parent,
                        Ghost(Some(i)),
                        Ghost(lo),
                        Ghost(Some(ki)),
                        Ghost(fm),
                    );
                    proof {
                        let n1 = old(nodes)@;
                        let n2 = nodes@;
                        lemma_widen(n2, Some(c), parent, lo, Some(ki), lo, hi, fm);
                        lemma_fuel_mono(n2, Some(c), parent, lo, hi, fm, f);
                        assert(link_nodes(n2, Some(c), f) =~= link_nodes(n1, link, f).remove(
                            i as int,
                        ));
                        assert(link_nodes(n1, link, f).contains(i as int) && n1[i as int].key
                            == Some(key) && link_nodes(n2, Some(c), f) == link_nodes(
                            n1,
                            link,
                            f,
                        ).remove(i as int));
                    }
                    Some(c)
                },
                (None, Some(c)) => {
                    Self::set_parent(
                        nodes,
                        c,
                        parent,
                        Ghost(Some(i)),
                        Ghost(Some(ki)),
                        Ghost(hi),
                        Ghost(fm),
                    );
                    proof {
                        let n1 = old(nodes)@;
                        let n2 = nodes@;
                        lemma_widen(n2, Some(c), parent, Some(ki), hi, lo, hi, fm);
                        lemma_fuel_mono(n2, Some(c), parent, lo, hi, fm, f);
                        assert(link_nodes(n2, Some(c), f) =~= link_nodes(n1, link, f).remove(
                            i as int,
                        ));
                        assert(link_nodes(n1, link, f).contains(i as int) && n1[i as int].key
                            == Some(key) && link_nodes(n2, Some(c), f) == link_nodes(
                            n1,
                            link,
                            f,
                        ).remove(i as int));
                    }
                    Some(c)
                },
                (Some(li), Some(ri)) => {
                    let exres = Self::extract_min(
                        nodes,
                        ri,
                        Some(i),
                        Ghost(Some(ki)),
                        Ghost(hi),
                        Ghost(fm),
                    );
                    let (nr, m) = exres;
                    let ghost n_a = nodes@;
                    proof {
                        let n1 = old(nodes)@;
                        // the left subtree was untouched by the extraction
                        assert forall|t: int|
                            link_nodes(n1, n1[i as int].left, fm).contains(t) implies n_a[t]
                            == n1[t] by {
                            assert(!link_nodes(n1, n1[i as int].right, fm).contains(t));
                            assert(link_nodes(n1, link, f).contains(t));
                        };
                        lemma_frame(n1, n_a, n1[i as int].left, Some(i), lo, Some(ki), fm);
                    }
                    Self::set_parent(
                        nodes,
                        li,
                        Some(m),
                        Ghost(Some(i)),
                        Ghost(lo),
                        Ghost(Some(ki)),
                        Ghost(fm),
                    );
                    let ghost n_b = nodes@;
                    if let Some(nri) = nr {
                        proof {
                            let n1 = old(nodes)@;
                            // the extracted remainder was untouched by the left re-wiring
                            assert forall|t: int| link_nodes(n_a, nr, fm).contains(t) implies n_b[t]
                                == n_a[t] by {
                                assert(link_nodes(n_a, nr, fm) == link_nodes(
                                    n1,
                                    n1[i as int].right,
                                    fm,
                                ).remove(m as int));
                                assert(link_nodes(n1, n1[i as int].right, fm).contains(t));
                                assert(!link_nodes(n1, n1[i as int].left, fm).contains(t));
                                assert(t != li as int);
                            };
                            lemma_frame(n_a, n_b, nr, Some(i), Some(ki), hi, fm);
                        }
                        Self::set_parent(
                            nodes,
                            nri,
                            Some(m),
                            Ghost(Some(i)),
                            Ghost(Some(ki)),
                            Ghost(hi),
                            Ghost(fm),
                        );
                    }
                    let ghost n_c = nodes@;
                    let mut mn = nodes[m];
                    mn.parent = parent;
                    mn.left = Some(li);
                    mn.right = nr;
                    nodes[m] = mn;
                    proof {
                        let n1 = old(nodes)@;
                        let n2 = nodes@;
                        let mk = n1[m as int].key.unwrap() as int;
                        let oleft = n1[i as int].left;
                        let oright = n1[i as int].right;
                        // facts about the minimum
                        assert(link_nodes(n1, oright, fm).contains(m as int));
                        assert(ki <= mk && key_in_range(mk, Some(ki), hi));
                        assert(m != i && m != li && !link_nodes(n1, oleft, fm).contains(m as int));
                        // left subtree: framed from n_b, wider upper bound
                        assert forall|t: int| link_nodes(n_b, Some(li), fm).contains(t)
                            implies n2[t] == n_b[t] by {
                            assert(link_nodes(n_b, Some(li), fm) == link_nodes(n1, oleft, fm));
                            assert(link_nodes(n1, oleft, fm).contains(t));
                            assert(t != m as int);
                            if nr is Some {
                                assert(!link_nodes(n1, oright, fm).contains(t));
                            }
                        };
                        lemma_frame(n_b, n2, Some(li), Some(m), lo, Some(ki), fm);
                        lemma_widen(n2, Some(li), Some(m), lo, Some(ki), lo, Some(mk), fm);
                        // right remainder: framed from n_c
                        assert forall|t: int| link_nodes(n_c, nr, fm).contains(t) implies n2[t]
                            == n_c[t] by {
                            assert(link_nodes(n_c, nr, fm) == link_nodes(n1, oright, fm).remove(
                                m as int,
                            ));
                            assert(t != m as int);
                        };
                        lemma_frame(n_c, n2, nr, Some(m), Some(ki), hi, fm);
                        assert forall|y: int| link_keys(n2, nr, fm).contains(y) implies mk
                            <= y by {
                            assert(link_keys(n_a, nr, fm).contains(y));
                            assert(link_keys(n1, oright, fm).contains(y));
                        };
                        lemma_raise_lo(n2, nr, Some(m), Some(ki), hi, fm, mk);
                        // assemble the new subtree root
                        assert(wf_link(n2, Some(m), parent, lo, hi, f));
                        assert(link_nodes(n2, Some(m), f) =~= link_nodes(n1, link, f).remove(
                            i as int,
                        ));
                        assert(link_nodes(n1, link, f).contains(i as int) && n1[i as int].key
                            == Some(key) && link_nodes(n2, Some(m), f) == link_nodes(
                            n1,
                            link,
                            f,
                        ).remove(i as int));
                        // the spliced successor, at the whole arena's fuel
                        let olen = n1.len() as nat;
                        lemma_fuel_mono(n1, oright, Some(i), Some(ki), hi, fm, olen);
                        assert(link_nodes(n1, n1[i as int].right, olen).contains(m as int));
                        assert(n2[m as int].key == n1[m as int].key);
                        assert(n1[m as int].key is Some);
                        assert forall|y: int|
                            #[trigger] link_keys(n1, n1[i as int].right, olen).contains(y)
                            implies n1[m as int].key.unwrap() as int <= y by {
                            assert(link_keys(n1, oright, fm).contains(y));
                        };
                        assert(n2[m as int].left == n1[i as int].left);
                        assert(n1[i as int].parent == parent);
                        assert(n2[m as int].parent == n1[i as int].parent);
                        // key bookkeeping
                        assert(link_keys(n2, Some(m), f) =~= link_keys(n2, Some(li), fm).union(
                            link_keys(n2, nr, fm),
                        ).insert(mk));
                        assert(link_keys(n2, Some(li), fm) == link_keys(n1, oleft, fm));
                        assert forall|y: int| link_keys(n2, Some(m), f).contains(y)
                            implies link_keys(n1, link, f).contains(y) by {
                            if y != mk && !link_keys(n1, oleft, fm).contains(y) {
                                assert(link_keys(n2, nr, fm).contains(y));
                                assert(link_keys(n_a, nr, fm).contains(y));
                                assert(link_keys(n1, oright, fm).contains(y));
                            }
                        };
                        assert forall|y: int|
                            link_keys(n1, link, f).remove(key as int).contains(y)
                            implies link_keys(n2, Some(m), f).contains(y) by {
                            if y != mk && !link_keys(n1, oleft, fm).contains(y) {
                                assert(y != ki);
                                assert(link_keys(n1, oright, fm).contains(y));
                                assert(link_keys(n1, oright, fm).remove(mk).contains(y));
                                assert(link_keys(n_a, nr, fm).contains(y));
                                assert(link_keys(n2, nr, fm).contains(y));
                            }
                        };
                    }
                    Some(m)
                },
            }
        } else if key < k {
            let l = nodes[i].left;
            let nl2 = Self::delete_link(
                nodes,
                l,
                key,
                Some(i),
                Ghost(lo),
                Ghost(Some(ki)),
                Ghost(fm),
            );
            let ghost n_mid = nodes@;
            let mut nd = nodes[i];
            nd.left = nl2;
            nodes[i] = nd;
            proof {
                let n1 = old(nodes)@;
                let n2 = nodes@;
                let oleft = n1[i as int].left;
                let oright = n1[i as int].right;
                assert(n_mid[i as int] == n1[i as int]);
                assert forall|t: int| link_nodes(n1, oright, fm).contains(t) implies n2[t]
                    == n1[t] by {
                    assert(link_nodes(n1, link, f).contains(t));
                    assert(!link_nodes(n1, oleft, fm).contains(t));
                    assert(t != i as int);
                };
                lemma_frame(n1, n2, oright, Some(i), Some(ki), hi, fm);
                assert forall|t: int| link_nodes(n_mid, nl2, fm).contains(t) implies n2[t]
                    == n_mid[t] by {
                    if link_keys(n1, oleft, fm).contains(key as int) {
                        let d = choose|d: int|
                            #[trigger] link_nodes(n1, oleft, fm).contains(d) && n1[d].key == Some(
                                key,
                            ) && link_nodes(n_mid, nl2, fm) == link_nodes(n1, oleft, fm).remove(d)
                            && (n1[d].left is Some && n1[d].right is Some ==> (exists|s: usize|
                            {
                                &&& #[trigger] link_nodes(n1, n1[d].right, n1.len() as nat).contains(
                                    s as int,
                                )
                                &&& n_mid[s as int].key == n1[s as int].key
                                &&& n1[s as int].key is Some
                                &&& (forall|y: int|
                                    #[trigger] link_keys(n1, n1[d].right, n1.len() as nat).contains(
                                        y,
                                    ) ==> n1[s as int].key.unwrap() as int <= y)
                                &&& n_mid[s as int].left == n1[d].left
                                &&& n_mid[s as int].parent == n1[d].parent
                                &&& (n1[d].parent is None ==> nl2 == Some(s))
                            }));
                        assert(link_nodes(n1, oleft, fm).contains(t));
                    } else {
                        assert(n_mid == n1 && nl2 == oleft);
                        assert(link_nodes(n1, oleft, fm).contains(t));
                    }
                    assert(t != i as int);
                };
                lemma_frame(n_mid, n2, nl2, Some(i), lo, Some(ki), fm);
                assert(wf_link(n2, Some(i), parent, lo, hi, f));
                assert(!link_keys(n1, oright, fm).contains(key as int));
                if link_keys(n1, oleft, fm).contains(key as int) {
                    let d = choose|d: int|
                        #[trigger] link_nodes(n1, oleft, fm).contains(d) && n1[d].key == Some(key)
                            && link_nodes(n_mid, nl2, fm) == link_nodes(n1, oleft, fm).remove(d)
                            && (n1[d].left is Some && n1[d].right is Some ==> (exists|s: usize|
                            {
                                &&& #[trigger] link_nodes(n1, n1[d].right, n1.len() as nat).contains(
                                    s as int,
                                )
                                &&& n_mid[s as int].key == n1[s as int].key
                                &&& n1[s as int].key is Some
                                &&& (forall|y: int|
                                    #[trigger] link_keys(n1, n1[d].right, n1.len() as nat).contains(
                                        y,
                                    ) ==> n1[s as int].key.unwrap() as int <= y)
                                &&& n_mid[s as int].left == n1[d].left
                                &&& n_mid[s as int].parent == n1[d].parent
                                &&& (n1[d].parent is None ==> nl2 == Some(s))
                            }));
                    assert(link_nodes(n1, link, f).contains(d));
                    assert(link_nodes(n2, Some(i), f) =~= link_nodes(n1, link, f).remove(d));
                    assert(link_keys(n1, link, f).contains(key as int));
                    if n1[d].left is Some && n1[d].right is Some {
                        let olen = n1.len() as nat;
                        let s = choose|s: usize|
                            {
                                &&& #[trigger] link_nodes(n1, n1[d].right, n1.len() as nat).contains(
                                    s as int,
                                )
                                &&& n_mid[s as int].key == n1[s as int].key
                                &&& n1[s as int].key is Some
                                &&& (forall|y: int|
                                    #[trigger] link_keys(n1, n1[d].right, n1.len() as nat).contains(
                                        y,
                                    ) ==> n1[s as int].key.unwrap() as int <= y)
                                &&& n_mid[s as int].left == n1[d].left
                                &&& n_mid[s as int].parent == n1[d].parent
                                &&& (n1[d].parent is None ==> nl2 == Some(s))
                            };
                        lemma_link_basics(n1, oleft, Some(i), lo, Some(ki), fm);
                        vstd::std_specs::vec::axiom_spec_len(&*nodes);
                        assert(0 <= d && d < n1.len());
                        let du = d as usize;
                        assert(du as int == d);
                        lemma_subtree_wf(n1, oleft, Some(i), lo, Some(ki), fm, du);
                        lemma_parent_step(n1, oleft, Some(i), lo, Some(ki), fm, du);
                        let dw = choose|lod: Option<int>, hid: Option<int>|
                            #[trigger] wf_link(n1, Some(du), n1[du as int].parent, lod, hid, fm);
                        let kd = n1[du as int].key.unwrap() as int;
                        lemma_fuel_mono(
                            n1,
                            n1[du as int].right,
                            Some(du),
                            Some(kd),
                            dw.1,
                            (fm - 1) as nat,
                            olen,
                        );
                        lemma_link_basics(
                            n1,
                            n1[du as int].right,
                            Some(du),
                            Some(kd),
                            dw.1,
                            (fm - 1) as nat,
                        );
                        assert forall|t: int| link_nodes(n1, n1[d].right, olen).contains(t)
                            implies link_nodes(n1, oleft, fm).contains(t) by {
                            assert(link_nodes(n1, n1[du as int].right, (fm - 1) as nat).contains(
                                t,
                            ));
                            assert(link_nodes(n1, Some(du), fm).contains(t));
                        };
                        assert(!link_nodes(n1, n1[d].right, olen).contains(i as int));
                        assert((s as int) != i as int);
                        assert((s as int) < n1.len());
                        assert(n2[s as int] == n_mid[s as int]);
                        assert(n1[d].parent is Some);
                    }
                } else {
                    assert(!link_keys(n1, link, f).contains(key as int));
                    assert(n2 =~= n1);
                }
                assert(link_keys(n2, Some(i), f) =~= link_keys(n2, nl2, fm).union(
                    link_keys(n2, oright, fm),
                ).insert(ki));
                assert forall|y: int| link_keys(n2, Some(i), f).contains(y) implies link_keys(
                    n1,
                    link,
                    f,
                ).contains(y) by {
                    if y != ki && !link_keys(n2, oright, fm).contains(y) {
                        assert(link_keys(n2, nl2, fm).contains(y));
                        assert(link_keys(n_mid, nl2, fm).contains(y));
                        assert(link_keys(n1, oleft, fm).contains(y));
                    }
                };
                assert forall|y: int|
                    link_keys(n1, link, f).remove(key as int).contains(y) implies link_keys(
                    n2,
                    Some(i),
                    f,
                ).contains(y) by {
                    if y != ki && !link_keys(n1, oright, fm).contains(y) {
                        assert(link_keys(n1, oleft, fm).contains(y));
                        assert(link_keys(n1, oleft, fm).remove(key as int).contains(y));
                        assert(link_keys(n_mid, nl2, fm).contains(y));
                        assert(link_keys(n2, nl2, fm).contains(y));
                    }
                };
            }
            Some(i)
        } else {
            let r = nodes[i].right;
            let nl2 = Self::delete_link(
                nodes,
                r,
                key,
                Some(i),
                Ghost(Some(ki)),
                Ghost(hi),
                Ghost(fm),
            );
            let ghost n_mid = nodes@;
            let mut nd = nodes[i];
            nd.right = nl2;
            nodes[i] = nd;
            proof {
                let n1 = old(nodes)@;
                let n2 = nodes@;
                let oleft = n1[i as int].left;
                let oright = n1[i as int].right;
                assert(n_mid[i as int] == n1[i as int]);
                assert forall|t: int| link_nodes(n1, oleft, fm).contains(t) implies n2[t]
                    == n1[t] by {
                    assert(link_nodes(n1, link, f).contains(t));
                    assert(!link_nodes(n1, oright, fm).contains(t));
                    assert(t != i as int);
                };
                lemma_frame(n1, n2, oleft, Some(i), lo, Some(ki), fm);
                assert forall|t: int| link_nodes(n_mid, nl2, fm).contains(t) implies n2[t]
                    == n_mid[t] by {
                    if link_keys(n1, oright, fm).contains(key as int) {
                        let d = choose|d: int|
                            #[trigger] link_nodes(n1, oright, fm).contains(d) && n1[d].key == Some(
                                key,
                            ) && link_nodes(n_mid, nl2, fm) == link_nodes(n1, oright, fm).remove(
                                d,
                            ) && (n1[d].left is Some && n1[d].right is Some ==> (exists|s: usize|
                            {
                                &&& #[trigger] link_nodes(n1, n1[d].right, n1.len() as nat).contains(
                                    s as int,
                                )
                                &&& n_mid[s as int].key == n1[s as int].key
                                &&& n1[s as int].key is Some
                                &&& (forall|y: int|
                                    #[trigger] link_keys(n1, n1[d].right, n1.len() as nat).contains(
                                        y,
                                    ) ==> n1[s as int].key.unwrap() as int <= y)
                                &&& n_mid[s as int].left == n1[d].left
                                &&& n_mid[s as int].parent == n1[d].parent
                                &&& (n1[d].parent is None ==> nl2 == Some(s))
                            }));
                        assert(link_nodes(n1, oright, fm).contains(t));
                    } else {
                        assert(n_mid == n1 && nl2 == oright);
                        assert(link_nodes(n1, oright, fm).contains(t));
                    }
                    assert(t != i as int);
                };
                lemma_frame(n_mid, n2, nl2, Some(i), Some(ki), hi, fm);
                assert(wf_link(n2, Some(i), parent, lo, hi, f));
                assert(!link_keys(n1, oleft, fm).contains(key as int));
                if link_keys(n1, oright, fm).contains(key as int) {
                    let d = choose|d: int|
                        #[trigger] link_nodes(n1, oright, fm).contains(d) && n1[d].key == Some(key)
                            && link_nodes(n_mid, nl2, fm) == link_nodes(n1, oright, fm).remove(d)
                            && (n1[d].left is Some && n1[d].right is Some ==> (exists|s: usize|
                            {
                                &&& #[trigger] link_nodes(n1, n1[d].right, n1.len() as nat).contains(
                                    s as int,
                                )
                                &&& n_mid[s as int].key == n1[s as int].key
                                &&& n1[s as int].key is Some
                                &&& (forall|y: int|
                                    #[trigger] link_keys(n1, n1[d].right, n1.len() as nat).contains(
                                        y,
                                    ) ==> n1[s as int].key.unwrap() as int <= y)
                                &&& n_mid[s as int].left == n1[d].left
                                &&& n_mid[s as int].parent == n1[d].parent
                                &&& (n1[d].parent is None ==> nl2 == Some(s))
                            }));
                    assert(link_nodes(n1, link, f).contains(d));
                    assert(link_nodes(n2, Some(i), f) =~= link_nodes(n1, link, f).remove(d));
                    assert(link_keys(n1, link, f).contains(key as int));
                    if n1[d].left is Some && n1[d].right is Some {
                        let olen = n1.len() as nat;
                        let s = choose|s: usize|
                            {
                                &&& #[trigger] link_nodes(n1, n1[d].right, n1.len() as nat).contains(
                                    s as int,
                                )
                                &&& n_mid[s as int].key == n1[s as int].key
                                &&& n1[s as int].key is Some
                                &&& (forall|y: int|
                                    #[trigger] link_keys(n1, n1[d].right, n1.len() as nat).contains(
                                        y,
                                    ) ==> n1[s as int].key.unwrap() as int <= y)
                                &&& n_mid[s as int].left == n1[d].left
                                &&& n_mid[s as int].parent == n1[d].parent
                                &&& (n1[d].parent is None ==> nl2 == Some(s))
                            };
                        lemma_link_basics(n1, oright, Some(i), Some(ki), hi, fm);
                        vstd::std_specs::vec::axiom_spec_len(&*nodes);
                        assert(0 <= d && d < n1.len());
                        let du = d as usize;
                        assert(du as int == d);
                        lemma_subtree_wf(n1, oright, Some(i), Some(ki), hi, fm, du);
                        lemma_parent_step(n1, oright, Some(i), Some(ki), hi, fm, du);
                        let dw = choose|lod: Option<int>, hid: Option<int>|
                            #[trigger] wf_link(n1, Some(du), n1[du as int].parent, lod, hid, fm);
                        let kd = n1[du as int].key.unwrap() as int;
                        lemma_fuel_mono(
                            n1,
                            n1[du as int].right,
                            Some(du),
                            Some(kd),
                            dw.1,
                            (fm - 1) as nat,
                            olen,
                        );
                        lemma_link_basics(
                            n1,
                            n1[du as int].right,
                            Some(du),
                            Some(kd),
                            dw.1,
                            (fm - 1) as nat,
                        );
                        assert forall|t: int| link_nodes(n1, n1[d].right, olen).contains(t)
                            implies link_nodes(n1, oright, fm).contains(t) by {
                            assert(link_nodes(n1, n1[du as int].right, (fm - 1) as nat).contains(
                                t,
                            ));
                            assert(link_nodes(n1, Some(du), fm).contains(t));
                        };
                        assert(!link_nodes(n1, n1[d].right, olen).contains(i as int));
                        assert((s as int) != i as int);
                        assert((s as int) < n1.len());
                        assert(n2[s as int] == n_mid[s as int]);
                        assert(n1[d].parent is Some);
                    }
                } else {
                    assert(!link_keys(n1, link, f).contains(key as int));
                    assert(n2 =~= n1);
                }
                assert(link_keys(n2, Some(i), f) =~= link_keys(n2, oleft, fm).union(
                    link_keys(n2, nl2, fm),
                ).insert(ki));
                assert forall|y: int| link_keys(n2, Some(i), f).contains(y) implies link_keys(
                    n1,
                    link,
                    f,
                ).contains(y) by {
                    if y != ki && !link_keys(n2, oleft, fm).contains(y) {
                        assert(link_keys(n2, nl2, fm).contains(y));
                        assert(link_keys(n_mid, nl2, fm).contains(y));
                        assert(link_keys(n1, oright, fm).contains(y));
                    }
                };
                assert forall|y: int|
                    link_keys(n1, link, f).remove(key as int).contains(y) implies link_keys(
                    n2,
                    Some(i),
                    f,
                ).contains(y) by {
                    if y != ki && !link_keys(n1, oleft, fm).contains(y) {
                        assert(link_keys(n1, oright, fm).contains(y));
                        assert(link_keys(n1, oright, fm).remove(key as int).contains(y));
                        assert(link_keys(n_mid, nl2, fm).contains(y));
                        assert(link_keys(n2, nl2, fm).contains(y));
                    }
                };
            }
            Some(i)
        }
    }

    /// Delete the first node holding `key` on its search path, if any.
    /// The tree stays well formed; exactly one node carrying `key`
    /// leaves the tree when the key is present (the root link is
    /// updated in place if the root itself was removed), and nothing
    /// changes when it is absent.  Keys other than one occurrence of
    /// `key` all survive, and nodes outside the tree are untouched.
    /// When the removed node had two children, the contract also states
    /// the splice: the minimum of its right subtree assumes its
    /// position — same parent back-reference, the old left subtree
    /// hanging under it, its own key kept.
    pub fn delete(tree: &mut Bst, key: i32)
        requires
            old(tree).wf(),
        ensures
            final(tree).wf(),
            final(tree).nodes@.len() == old(tree).nodes@.len(),
            !old(tree).key_set().contains(key as int) ==> final(tree).nodes@ == old(tree).nodes@
                && final(tree).root == old(tree).root && final(tree).key_set() == old(
                tree,
            ).key_set(),
            old(tree).key_set().contains(key as int) ==> (exists|d: int|
                #[trigger] old(tree).node_set().contains(d) && old(tree).nodes@[d].key == Some(key)
                    && final(tree).node_set() == old(tree).node_set().remove(d) && (old(
                    tree,
                ).nodes@[d].left is Some && old(tree).nodes@[d].right is Some ==> (exists|s: usize|
                    {
                        &&& #[trigger] link_nodes(
                            old(tree).nodes@,
                            old(tree).nodes@[d].right,
                            old(tree).nodes@.len() as nat,
                        ).contains(s as int)
                        &&& final(tree).nodes@[s as int].key == old(tree).nodes@[s as int].key
                        &&& old(tree).nodes@[s as int].key is Some
                        &&& (forall|y: int|
                            #[trigger] link_keys(
                                old(tree).nodes@,
                                old(tree).nodes@[d].right,
                                old(tree).nodes@.len() as nat,
                            ).contains(y) ==> old(tree).nodes@[s as int].key.unwrap() as int <= y)
                        &&& final(tree).nodes@[s as int].left == old(tree).nodes@[d].left
                        &&& final(tree).nodes@[s as int].parent == old(tree).nodes@[d].parent
                        &&& (old(tree).nodes@[d].parent is None ==> final(tree).root == Some(s))
                    }))),
            forall|t: int|
                0 <= t < old(tree).nodes@.len() && !old(tree).node_set().contains(t)
                    ==> final(tree).nodes@[t] == old(tree).nodes@[t],
            final(tree).key_set().subset_of(old(tree).key_set()),
            old(tree).key_set().remove(key as int).subset_of(final(tree).key_set()),
            forall|t: int|
                0 <= t < old(tree).nodes@.len() ==> final(tree).nodes@[t].key == old(
                    tree,
                ).nodes@[t].key,
            old(tree).distinct_keys() ==> final(tree).distinct_keys(),
            old(tree).distinct_keys() && old(tree).key_set().contains(key as int)
                ==> final(tree).key_set() == old(tree).key_set().remove(key as int),
    {
        let root = tree.root;
        let nl = Self::delete_link(
            &mut tree.nodes,
            root,
            key,
            None,
            Ghost(None),
            Ghost(None),
            Ghost(old(tree).nodes@.len() as nat),
        );
        tree.root = nl;
        proof {
            let n1 = old(tree).nodes@;
            let len = n1.len() as nat;
            if link_keys(n1, root, len).contains(key as int) {
                let d = choose|d: int|
                    #[trigger] link_nodes(n1, root, len).contains(d) && n1[d].key == Some(key)
                        && link_nodes(tree.nodes@, nl, len) == link_nodes(n1, root, len).remove(d)
                        && (n1[d].left is Some && n1[d].right is Some ==> (exists|s: usize|
                        {
                            &&& #[trigger] link_nodes(n1, n1[d].right, n1.len() as nat).contains(
                                s as int,
                            )
                            &&& tree.nodes@[s as int].key == n1[s as int].key
                            &&& n1[s as int].key is Some
                            &&& (forall|y: int|
                                #[trigger] link_keys(n1, n1[d].right, n1.len() as nat).contains(y)
                                    ==> n1[s as int].key.unwrap() as int <= y)
                            &&& tree.nodes@[s as int].left == n1[d].left
                            &&& tree.nodes@[s as int].parent == n1[d].parent
                            &&& (n1[d].parent is None ==> nl == Some(s))
                        }));
                assert(old(tree).node_set().contains(d) && old(tree).nodes@[d].key == Some(key)
                    && tree.node_set() == old(tree).node_set().remove(d));
                if n1[d].left is Some && n1[d].right is Some {
                    let s = choose|s: usize|
                        {
                            &&& #[trigger] link_nodes(n1, n1[d].right, n1.len() as nat).contains(
                                s as int,
                            )
                            &&& tree.nodes@[s as int].key == n1[s as int].key
                            &&& n1[s as int].key is Some
                            &&& (forall|y: int|
                                #[trigger] link_keys(n1, n1[d].right, n1.len() as nat).contains(y)
                                    ==> n1[s as int].key.unwrap() as int <= y)
                            &&& tree.nodes@[s as int].left == n1[d].left
                            &&& tree.nodes@[s as int].parent == n1[d].parent
                            &&& (n1[d].parent is None ==> nl == Some(s))
                        };
                    assert(n1[d].parent is None ==> tree.root == Some(s));
                }
            }
            if old(tree).distinct_keys() {
                lemma_link_basics(n1, root, None, None, None, len);
                assert forall|j1: int, j2: int|
                    tree.node_set().contains(j1) && tree.node_set().contains(j2) && j1 != j2
                    implies tree.nodes@[j1].key != tree.nodes@[j2].key by {
                    assert(old(tree).node_set().contains(j1));
                    assert(old(tree).node_set().contains(j2));
                };
                if link_keys(n1, root, len).contains(key as int) {
                    let d = choose|d: int|
                        #[trigger] link_nodes(n1, root, len).contains(d) && n1[d].key == Some(key)
                            && link_nodes(tree.nodes@, nl, len) == link_nodes(
                            n1,
                            root,
                            len,
                        ).remove(d);
                    lemma_keys_are_node_keys(tree.nodes@, tree.root, None, None, None, len);
                    if tree.key_set().contains(key as int) {
                        let j = choose|j: int|
                            #[trigger] link_nodes(tree.nodes@, tree.root, len).contains(j)
                                && tree.nodes@[j].key is Some && tree.nodes@[j].key.unwrap() as int
                                == key as int;
                        assert(old(tree).node_set().contains(j) && j != d);
                        assert(old(tree).node_set().contains(d));
                        assert(old(tree).nodes@[j].key == Some(key));
                        assert(false);
                    }
                    assert(tree.key_set() =~= old(tree).key_set().remove(key as int));
                }
            }
        }
    }

    /// Splice the subtree `v` into the position occupied by `u`: the
    /// parent of `u` (when it has one) has whichever of its child links
    /// held `u` redirected to `v`, and `v`'s back-reference is updated
    /// to `u`'s former parent.  Both children are tested explicitly.
    /// Returns `v` — the would-be new root — when `u` had no parent,
    /// and `None` otherwise; the caller of a root transplant must
    /// update its own root link (as `delete` does).  This is a raw
    /// splice: it neither checks nor restores the ordering invariant,
    /// which is the caller's burden.
    pub fn transplant(tree: &mut Bst, u: usize, v: Option<usize>) -> (r: Option<usize>)
        requires
            u < old(tree).nodes@.len(),
            v is Some ==> v.unwrap() < old(tree).nodes@.len(),
            old(tree).nodes@[u as int].parent is Some ==> old(tree).nodes@[u
                as int].parent.unwrap() < old(tree).nodes@.len(),
        ensures
            final(tree).root == old(tree).root,
            final(tree).nodes@.len() == old(tree).nodes@.len(),
            r == (if old(tree).nodes@[u as int].parent is None {
                v
            } else {
                None::<usize>
            }),
            ({
                let n1 = old(tree).nodes@;
                let p = n1[u as int].parent;
                let n2 = (if p is Some && n1[p.unwrap() as int].left == Some(u) {
                    n1.update(
                        p.unwrap() as int,
                        (BstNode { left: v, ..n1[p.unwrap() as int] }),
                    )
                } else if p is Some && n1[p.unwrap() as int].right == Some(u) {
                    n1.update(
                        p.unwrap() as int,
                        (BstNode { right: v, ..n1[p.unwrap() as int] }),
                    )
                } else {
                    n1
                });
                let n3 = (if v is Some {
                    n2.update(
                        v.unwrap() as int,
                        (BstNode { parent: p, ..n2[v.unwrap() as int] }),
                    )
                } else {
                    n2
                });
                final(tree).nodes@ == n3
            }),
    {
        let p = tree.nodes[u].parent;
        if let Some(pi) = p {
            if tree.nodes[pi].left == Some(u) {
                let mut pn = tree.nodes[pi];
                pn.left = v;
                tree.nodes[pi] = pn;
            } else if tree.nodes[pi].right == Some(u) {
                let mut pn = tree.nodes[pi];
                pn.right = v;
                tree.nodes[pi] = pn;
            }
        }
        if let Some(vi) = v {
            let mut vn = tree.nodes[vi];
            vn.parent = p;
            tree.nodes[vi] = vn;
        }
        proof {
            assert(tree.nodes@ =~= ({
                let n1 = old(tree).nodes@;
                let pp = n1[u as int].parent;
                let n2 = (if pp is Some && n1[pp.unwrap() as int].left == Some(u) {
                    n1.update(pp.unwrap() as int, (BstNode { left: v, ..n1[pp.unwrap() as int] }))
                } else if pp is Some && n1[pp.unwrap() as int].right == Some(u) {
                    n1.update(pp.unwrap() as int, (BstNode { right: v, ..n1[pp.unwrap() as int] }))
                } else {
                    n1
                });
                if v is Some {
                    n2.update(v.unwrap() as int, (BstNode { parent: pp, ..n2[v.unwrap() as int] }))
                } else {
                    n2
                }
            }));
        }
        if p.is_none() {
            v
        } else {
            None
        }
    }

    /// The in-order successor of node `x`.  With a right child, it is
    /// the minimum of the right subtree, and the contract pins that key
    /// exactly.  Without one, the walk goes upward and returns the
    /// first ancestor whose left child's key equals the key of the node
    /// the walk came from.  That comparison is by key value, not by
    /// identity — a known historical defect, kept as-is: on trees with
    /// duplicate keys it can misidentify the ancestor, so the general
    /// upward case only promises a node of the tree.  On a tree with
    /// distinct keys the defect cannot fire, and the contract says the
    /// textbook property: the result holds the least key above `x`'s,
    /// or there is none and `x` holds the greatest key.
    pub fn tree_successor(tree: &Bst, x: usize) -> (r: Option<usize>)
        requires
            tree.wf(),
            tree.in_tree(x),
        ensures
            r is Some ==> tree.in_tree(r.unwrap()) && tree.nodes@[r.unwrap() as int].key is Some,
            tree.nodes@[x as int].right is Some ==> r is Some && link_keys(
                tree.nodes@,
                tree.nodes@[x as int].right,
                tree.nodes@.len() as nat,
            ).contains(tree.node_key(r.unwrap())) && (forall|y: int|
                #[trigger] link_keys(
                    tree.nodes@,
                    tree.nodes@[x as int].right,
                    tree.nodes@.len() as nat,
                ).contains(y) ==> tree.node_key(r.unwrap()) <= y),
            tree.nodes@[x as int].right is None && r is Some ==> tree.nodes@[r.unwrap()
                as int].left is Some,
            tree.distinct_keys() && r is Some ==> tree.node_key(x) < tree.node_key(r.unwrap())
                && (forall|y: int|
                #[trigger] tree.key_set().contains(y) && tree.node_key(x) < y ==> tree.node_key(
                    r.unwrap(),
                ) <= y),
            tree.distinct_keys() && r is None ==> (forall|y: int|
                #[trigger] tree.key_set().contains(y) ==> y <= tree.node_key(x)),
    {
        let ghost nodes = tree.nodes@;
        let ghost len = nodes.len() as nat;
        proof {
            lemma_node_facts(*tree, x);
            lemma_subtree_wf(nodes, tree.root, None, None, None, len, x);
        }
        let ghost pair = choose|lo: Option<int>, hi: Option<int>|
            #[trigger] wf_link(nodes, Some(x), nodes[x as int].parent, lo, hi, len);
        let ghost kx = nodes[x as int].key.unwrap() as int;
        let ghost fm = (len - 1) as nat;
        let rl = tree.nodes[x].right;
        match rl {
            Some(ri) => {
                let m = Self::min_at(
                    &tree.nodes,
                    ri,
                    Ghost(Some(x)),
                    Ghost(Some(kx)),
                    Ghost(pair.1),
                    Ghost(fm),
                );
                proof {
                    lemma_fuel_mono(nodes, nodes[x as int].right, Some(x), Some(kx), pair.1, fm, len);
                    assert(link_nodes(nodes, Some(x), len).contains(m as int));
                    assert(tree.in_tree(m));
                    assert(link_keys(nodes, nodes[x as int].right, len).contains(tree.node_key(m)));
                    assert forall|y: int|
                        #[trigger] link_keys(nodes, nodes[x as int].right, len).contains(y)
                        implies tree.node_key(m) <= y by {
                        assert(link_keys(nodes, nodes[x as int].right, fm).contains(y));
                    };
                    if tree.distinct_keys() {
                        let mk = tree.node_key(m);
                        // the minimum is a different node, so its key is strictly above
                        assert(tree.node_set().contains(m as int));
                        assert(tree.node_set().contains(x as int));
                        assert(m != x);
                        assert(tree.nodes@[m as int].key != tree.nodes@[x as int].key);
                        lemma_link_basics(
                            nodes,
                            nodes[x as int].right,
                            Some(x),
                            Some(kx),
                            pair.1,
                            fm,
                        );
                        assert(link_keys(nodes, nodes[x as int].right, fm).contains(mk));
                        assert(kx <= mk && mk != kx);
                        // place x's position window over the whole tree
                        lemma_position_window(nodes, tree.root, None, None, None, len, x);
                        let (lo2, hi2) = choose|lo2: Option<int>, hi2: Option<int>|
                            {
                                &&& #[trigger] wf_link(
                                    nodes,
                                    Some(x),
                                    nodes[x as int].parent,
                                    lo2,
                                    hi2,
                                    len,
                                )
                                &&& forall|y: int|
                                    #[trigger] key_strictly_inside(y, lo2, hi2) ==> key_in_range(
                                        y,
                                        None,
                                        None,
                                    )
                                &&& forall|y: int|
                                    #[trigger] link_keys(nodes, tree.root, len).contains(y)
                                        && key_strictly_inside(y, lo2, hi2) ==> link_keys(
                                        nodes,
                                        Some(x),
                                        len,
                                    ).contains(y)
                                &&& (lo2 == None::<int> || (lo2 is Some && link_keys(
                                    nodes,
                                    tree.root,
                                    len,
                                ).contains(lo2.unwrap())))
                            };
                        lemma_link_basics(nodes, Some(x), nodes[x as int].parent, lo2, hi2, len);
                        lemma_link_basics(nodes, nodes[x as int].left, Some(x), lo2, Some(kx), fm);
                        assert(link_keys(nodes, Some(x), len).contains(kx));
                        assert(link_keys(nodes, Some(x), len).contains(mk));
                        assert forall|y: int|
                            #[trigger] tree.key_set().contains(y) && kx < y implies mk <= y by {
                            assert(key_in_range(kx, lo2, hi2));
                            if key_strictly_inside(y, lo2, hi2) {
                                assert(link_keys(nodes, Some(x), len).contains(y));
                                if y != kx {
                                    if link_keys(nodes, nodes[x as int].left, fm).contains(y) {
                                        assert(key_in_range(y, lo2, Some(kx)));
                                        assert(false);
                                    } else {
                                        assert(link_keys(nodes, nodes[x as int].right, fm).contains(
                                            y,
                                        ));
                                    }
                                }
                            } else {
                                assert(hi2 is Some && hi2.unwrap() <= y);
                                assert(key_in_range(mk, lo2, hi2));
                            }
                        };
                    }
                }
                Some(m)
            },
            None => {
                let mut xc = x;
                let mut y = tree.nodes[x].parent;
                proof {
                    lemma_parent_step(nodes, tree.root, None, None, None, len, xc);
                    lemma_link_basics(nodes, tree.root, None, None, None, len);
                    lemma_link_basics(nodes, nodes[x as int].left, Some(x), pair.0, Some(kx), fm);
                    assert(link_keys(nodes, Some(x), len) =~= link_keys(
                        nodes,
                        nodes[x as int].left,
                        fm,
                    ).union(link_keys(nodes, nodes[x as int].right, fm)).insert(kx));
                    assert(link_keys(nodes, nodes[x as int].right, fm) =~= Set::<int>::empty());
                    assert forall|y2: int| #[trigger] link_keys(nodes, Some(x), len).contains(y2)
                        implies y2 <= kx by {
                        if y2 != kx {
                            assert(link_keys(nodes, nodes[x as int].left, fm).contains(y2));
                        }
                    };
                    assert(link_keys(nodes, Some(x), len).contains(kx));
                }
                while y.is_some()
                    invariant
                        tree.wf(),
                        tree.in_tree(x),
                        tree.nodes@[x as int].key is Some,
                        tree.nodes@[x as int].right is None,
                        tree.in_tree(xc),
                        xc < tree.nodes@.len(),
                        tree.nodes@[xc as int].key is Some,
                        y == tree.nodes@[xc as int].parent,
                        y is Some ==> tree.in_tree(y.unwrap()) && y.unwrap() < tree.nodes@.len(),
                        link_keys(tree.nodes@, Some(xc), tree.nodes@.len() as nat).contains(
                            tree.node_key(x),
                        ),
                        forall|y2: int|
                            #[trigger] link_keys(
                                tree.nodes@,
                                Some(xc),
                                tree.nodes@.len() as nat,
                            ).contains(y2) ==> y2 <= tree.node_key(x),
                    decreases link_depth(
                        tree.nodes@,
                        tree.root,
                        xc as int,
                        tree.nodes@.len() as nat,
                    ),
                {
                    let yi = y.unwrap();
                    proof {
                        lemma_node_facts(*tree, yi);
                    }
                    let yl = tree.nodes[yi].left;
                    if let Some(l) = yl {
                        proof {
                            lemma_node_facts(*tree, yi);
                            assert(tree.in_tree(l));
                            lemma_node_facts(*tree, l);
                        }
                        if Self::is_node_match(tree, l, xc) {
                            proof {
                                if tree.distinct_keys() {
                                    let nodes2 = tree.nodes@;
                                    let len2 = nodes2.len() as nat;
                                    let fm2 = (len2 - 1) as nat;
                                    let kx2 = tree.node_key(x);
                                    let kyi = tree.node_key(yi);
                                    // by-key match on distinct keys means identity
                                    assert(nodes2[l as int].key == nodes2[xc as int].key);
                                    assert(tree.node_set().contains(l as int));
                                    assert(tree.node_set().contains(xc as int));
                                    assert(l == xc);
                                    // yi's position window over the whole tree
                                    lemma_position_window(nodes2, tree.root, None, None, None, len2, yi);
                                    let (lo2, hi2) = choose|lo2: Option<int>, hi2: Option<int>|
                                        {
                                            &&& #[trigger] wf_link(
                                                nodes2,
                                                Some(yi),
                                                nodes2[yi as int].parent,
                                                lo2,
                                                hi2,
                                                len2,
                                            )
                                            &&& forall|y2: int|
                                                #[trigger] key_strictly_inside(y2, lo2, hi2)
                                                    ==> key_in_range(y2, None, None)
                                            &&& forall|y2: int|
                                                #[trigger] link_keys(nodes2, tree.root, len2).contains(
                                                    y2,
                                                ) && key_strictly_inside(y2, lo2, hi2)
                                                    ==> link_keys(nodes2, Some(yi), len2).contains(y2)
                                            &&& (lo2 == None::<int> || (lo2 is Some && link_keys(
                                                nodes2,
                                                tree.root,
                                                len2,
                                            ).contains(lo2.unwrap())))
                                        };
                                    lemma_link_basics(
                                        nodes2,
                                        Some(yi),
                                        nodes2[yi as int].parent,
                                        lo2,
                                        hi2,
                                        len2,
                                    );
                                    lemma_link_basics(
                                        nodes2,
                                        nodes2[yi as int].left,
                                        Some(yi),
                                        lo2,
                                        Some(kyi),
                                        fm2,
                                    );
                                    lemma_link_basics(
                                        nodes2,
                                        nodes2[yi as int].right,
                                        Some(yi),
                                        Some(kyi),
                                        hi2,
                                        fm2,
                                    );
                                    lemma_fuel_mono(
                                        nodes2,
                                        nodes2[yi as int].left,
                                        Some(yi),
                                        lo2,
                                        Some(kyi),
                                        fm2,
                                        len2,
                                    );
                                    // x's key sits in yi's left subtree, so yi's key is above it
                                    assert(link_keys(nodes2, Some(xc), len2).contains(kx2));
                                    assert(link_keys(nodes2, nodes2[yi as int].left, fm2).contains(
                                        kx2,
                                    ));
                                    assert(link_keys(nodes2, Some(yi), len2).contains(kx2));
                                    assert(link_keys(nodes2, Some(yi), len2).contains(kyi));
                                    assert(kx2 < kyi);
                                    assert forall|y2: int|
                                        #[trigger] tree.key_set().contains(y2) && kx2 < y2
                                        implies kyi <= y2 by {
                                        assert(key_in_range(kx2, lo2, hi2));
                                        if key_strictly_inside(y2, lo2, hi2) {
                                            assert(link_keys(nodes2, Some(yi), len2).contains(y2));
                                            if y2 != kyi {
                                                if link_keys(
                                                    nodes2,
                                                    nodes2[yi as int].left,
                                                    fm2,
                                                ).contains(y2) {
                                                    assert(link_keys(nodes2, Some(xc), len2).contains(
                                                        y2,
                                                    ));
                                                    assert(false);
                                                } else {
                                                    assert(link_keys(
                                                        nodes2,
                                                        nodes2[yi as int].right,
                                                        fm2,
                                                    ).contains(y2));
                                                }
                                            }
                                        } else {
                                            assert(hi2 is Some && hi2.unwrap() <= y2);
                                            assert(key_in_range(kyi, lo2, hi2));
                                        }
                                    };
                                }
                            }
                            return Some(yi);
                        }
                    }
                    proof {
                        let nodes2 = tree.nodes@;
                        let len2 = nodes2.len() as nat;
                        let fm2 = (len2 - 1) as nat;
                        let kyi = tree.node_key(yi);
                        lemma_parent_step(nodes2, tree.root, None, None, None, len2, xc);
                        lemma_parent_step(nodes2, tree.root, None, None, None, len2, yi);
                        lemma_link_basics(nodes2, tree.root, None, None, None, len2);
                        // the walk came up from yi's right child
                        if nodes2[yi as int].left == Some(xc) {
                            assert(false);
                        }
                        assert(nodes2[yi as int].right == Some(xc));
                        // carry the maximum invariant one level up
                        lemma_subtree_wf(nodes2, tree.root, None, None, None, len2, yi);
                        let (lo3, hi3) = choose|lo3: Option<int>, hi3: Option<int>|
                            #[trigger] wf_link(
                                nodes2,
                                Some(yi),
                                nodes2[yi as int].parent,
                                lo3,
                                hi3,
                                len2,
                            );
                        lemma_link_basics(
                            nodes2,
                            nodes2[yi as int].left,
                            Some(yi),
                            lo3,
                            Some(kyi),
                            fm2,
                        );
                        lemma_fuel_mono(
                            nodes2,
                            nodes2[yi as int].right,
                            Some(yi),
                            Some(kyi),
                            hi3,
                            fm2,
                            len2,
                        );
                        lemma_link_basics(
                            nodes2,
                            nodes2[yi as int].right,
                            Some(yi),
                            Some(kyi),
                            hi3,
                            fm2,
                        );
                        assert(link_keys(nodes2, nodes2[yi as int].right, fm2).contains(
                            tree.node_key(x),
                        ));
                        assert(link_keys(nodes2, Some(yi), len2) =~= link_keys(
                            nodes2,
                            nodes2[yi as int].left,
                            fm2,
                        ).union(link_keys(nodes2, nodes2[yi as int].right, fm2)).insert(kyi));
                        assert(link_keys(nodes2, Some(xc), len2).contains(tree.node_key(x)));
                        assert(kyi <= tree.node_key(x));
                        assert forall|y2: int|
                            #[trigger] link_keys(nodes2, Some(yi), len2).contains(y2)
                            implies y2 <= tree.node_key(x) by {
                            if y2 != kyi {
                                if link_keys(nodes2, nodes2[yi as int].left, fm2).contains(y2) {
                                    assert(y2 < kyi);
                                } else {
                                    assert(link_keys(nodes2, nodes2[yi as int].right, fm2).contains(
                                        y2,
                                    ));
                                    assert(link_keys(nodes2, Some(xc), len2).contains(y2));
                                }
                            }
                        };
                        assert(link_keys(nodes2, Some(yi), len2).contains(tree.node_key(x)));
                    }
                    xc = yi;
                    y = tree.nodes[yi].parent;
                }
                proof {
                    lemma_parent_step(
                        tree.nodes@,
                        tree.root,
                        None,
                        None,
                        None,
                        tree.nodes@.len() as nat,
                        xc,
                    );
                    assert(tree.root == Some(xc));
                    assert forall|y2: int| #[trigger] tree.key_set().contains(y2)
                        implies y2 <= tree.node_key(x) by {
                        assert(link_keys(tree.nodes@, Some(xc), tree.nodes@.len() as nat).contains(
                            y2,
                        ));
                    };
                }
                None
            },
        }
    }


    /// The historical alternate successor walk, kept only as a legacy
    /// variant: it probes nodes with the `is_nil` check, which also
    /// counts ordinary leaves and one-child nodes as nil-like, so its
    /// answers differ from `tree_successor` on most trees.  The one
    /// case the variant gets right is pinned by the contract: a right
    /// child with parent, left and right all present yields the node
    /// with the least key of the right subtree.  Where the historical
    /// code would fail on an absent back-reference, this returns
    /// `None` instead.  Not authoritative; prefer `tree_successor`.
    pub fn tree_successor_simpler(tree: &Bst, x: usize) -> (r: Option<usize>)
        requires
            tree.wf(),
            tree.in_tree(x),
        ensures
            r is Some ==> tree.in_tree(r.unwrap()),
            ({
                let rn = tree.nodes@[x as int].right;
                &&& rn is Some
                &&& tree.nodes@[rn.unwrap() as int].parent is Some
                &&& tree.nodes@[rn.unwrap() as int].left is Some
                &&& tree.nodes@[rn.unwrap() as int].right is Some
            }) ==> r is Some && tree.nodes@[r.unwrap() as int].key is Some && link_keys(
                tree.nodes@,
                tree.nodes@[x as int].right,
                tree.nodes@.len() as nat,
            ).contains(tree.node_key(r.unwrap())) && (forall|y: int|
                #[trigger] link_keys(
                    tree.nodes@,
                    tree.nodes@[x as int].right,
                    tree.nodes@.len() as nat,
                ).contains(y) ==> tree.node_key(r.unwrap()) <= y),
    {
        let ghost len = tree.nodes@.len() as nat;
        proof {
            lemma_node_facts(*tree, x);
        }
        let right_node = tree.nodes[x].right;
        proof {
            if right_node is Some {
                lemma_node_facts(*tree, right_node.unwrap());
            }
        }
        if !Self::is_nil(tree, right_node) {
            let ghost nodes = tree.nodes@;
            proof {
                lemma_subtree_wf(nodes, tree.root, None, None, None, len, right_node.unwrap());
            }
            let ghost pair = choose|lo: Option<int>, hi: Option<int>|
                #[trigger] wf_link(
                    nodes,
                    Some(right_node.unwrap()),
                    nodes[right_node.unwrap() as int].parent,
                    lo,
                    hi,
                    len,
                );
            let m = Self::min_at(
                &tree.nodes,
                right_node.unwrap(),
                Ghost(nodes[right_node.unwrap() as int].parent),
                Ghost(pair.0),
                Ghost(pair.1),
                Ghost(len),
            );
            proof {
                assert(link_keys(nodes, tree.nodes@[x as int].right, len).contains(
                    tree.node_key(m),
                ));
                assert forall|y: int|
                    #[trigger] link_keys(
                        tree.nodes@,
                        tree.nodes@[x as int].right,
                        tree.nodes@.len() as nat,
                    ).contains(y) implies tree.node_key(m) <= y by {
                    assert(link_keys(nodes, Some(right_node.unwrap()), len).contains(y));
                };
            }
            return Some(m);
        }
        let mut xc = x;
        let mut y = tree.nodes[x].parent;
        proof {
            lemma_parent_step(tree.nodes@, tree.root, None, None, None, len, xc);
            lemma_link_basics(tree.nodes@, tree.root, None, None, None, len);
        }
        if y.is_none() {
            return None;
        }
        let y_right = tree.nodes[y.unwrap()].right;
        proof {
            lemma_node_facts(*tree, y.unwrap());
            if y_right is Some {
                lemma_node_facts(*tree, y_right.unwrap());
            }
        }
        while Self::is_nil(tree, y) && Self::is_node_match_option(tree, Some(xc), y_right)
            invariant
                tree.wf(),
                tree.in_tree(x),
                x < tree.nodes@.len(),
                !({
                    let rn = tree.nodes@[x as int].right;
                    &&& rn is Some
                    &&& tree.nodes@[rn.unwrap() as int].parent is Some
                    &&& tree.nodes@[rn.unwrap() as int].left is Some
                    &&& tree.nodes@[rn.unwrap() as int].right is Some
                }),
                tree.in_tree(xc),
                xc < tree.nodes@.len(),
                tree.nodes@[xc as int].key is Some,
                y == tree.nodes@[xc as int].parent,
                y is Some ==> tree.in_tree(y.unwrap()) && y.unwrap() < tree.nodes@.len(),
                y_right is Some ==> y_right.unwrap() < tree.nodes@.len()
                    && tree.nodes@[y_right.unwrap() as int].key is Some,
            decreases link_depth(tree.nodes@, tree.root, xc as int, tree.nodes@.len() as nat),
        {
            let yi = match y {
                Some(v) => v,
                None => {
                    return None;
                },
            };
            proof {
                lemma_parent_step(
                    tree.nodes@,
                    tree.root,
                    None,
                    None,
                    None,
                    tree.nodes@.len() as nat,
                    xc,
                );
                lemma_parent_step(
                    tree.nodes@,
                    tree.root,
                    None,
                    None,
                    None,
                    tree.nodes@.len() as nat,
                    yi,
                );
                lemma_link_basics(
                    tree.nodes@,
                    tree.root,
                    None,
                    None,
                    None,
                    tree.nodes@.len() as nat,
                );
                lemma_node_facts(*tree, yi);
            }
            xc = yi;
            let yp = tree.nodes[yi].parent;
            if yp.is_none() {
                return None;
            }
            y = yp;
        }
        proof {
            if y is Some {
                lemma_node_facts(*tree, y.unwrap());
            }
        }
        let root_of_x = Self::get_root(tree, xc);
        proof {
            lemma_node_facts(*tree, root_of_x);
        }
        if Self::is_node_match_option(tree, y, Some(root_of_x)) {
            return None;
        }
        match y {
            Some(v) => Some(v),
            None => None,
        }
    }

    /// Insert `value` into the tree: an empty tree gets it as the root,
    /// otherwise it becomes a fresh leaf at the end of its search path
    /// (equal keys are routed right).  The tree stays well formed, its
    /// key set grows by exactly `value`, and the contract pins the
    /// attachment itself: some existing node's single empty child link
    /// — left when `value` is strictly smaller than its key, right
    /// otherwise — now carries the fresh leaf, whose back-reference
    /// names that node, while every other slot is untouched.
    pub fn tree_insert(tree: &mut Bst, value: i32)
        requires
            old(tree).wf(),
        ensures
            final(tree).wf(),
            final(tree).key_set() == old(tree).key_set().insert(value as int),
            final(tree).node_set() == old(tree).node_set().insert(old(tree).nodes@.len() as int),
            final(tree).nodes@.len() == old(tree).nodes@.len() + 1,
            final(tree).root is Some,
            old(tree).root is Some ==> final(tree).root == old(tree).root,
            final(tree).nodes@[old(tree).nodes@.len() as int].key == Some(value),
            final(tree).nodes@[old(tree).nodes@.len() as int].left is None,
            final(tree).nodes@[old(tree).nodes@.len() as int].right is None,
            old(tree).root is None ==> final(tree).nodes@[old(tree).nodes@.len() as int].parent
                is None,
            old(tree).root is None ==> (forall|t: int|
                0 <= t < old(tree).nodes@.len() ==> final(tree).nodes@[t] == old(tree).nodes@[t]),
            old(tree).root is Some ==> (exists|a: usize|
                {
                    let n1 = old(tree).nodes@;
                    let n2 = final(tree).nodes@;
                    let c = n1.len() as int;
                    &&& #[trigger] old(tree).node_set().contains(a as int)
                    &&& n2[c].parent == Some(a)
                    &&& n1[a as int].key is Some
                    &&& (if (value as int) < n1[a as int].key.unwrap() as int {
                        n1[a as int].left is None && n2[a as int].left == Some(n1.len() as usize)
                            && n2[a as int].right == n1[a as int].right
                    } else {
                        n1[a as int].right is None && n2[a as int].right == Some(
                            n1.len() as usize,
                        ) && n2[a as int].left == n1[a as int].left
                    })
                    &&& n2[a as int].key == n1[a as int].key
                    &&& n2[a as int].parent == n1[a as int].parent
                    &&& forall|t: int|
                        0 <= t < n1.len() && t != a as int ==> n2[t] == n1[t]
                }),
            forall|t: int|
                0 <= t < old(tree).nodes@.len() ==> final(tree).nodes@[t].key == old(
                    tree,
                ).nodes@[t].key,
            old(tree).distinct_keys() && !old(tree).key_set().contains(value as int)
                ==> final(tree).distinct_keys(),
    {
        let new_idx = tree.nodes.len();
        tree.nodes.push(BstNode::new(value));
        match tree.root {
            None => {
                tree.root = Some(new_idx);
                proof {
                    reveal_with_fuel(wf_link, 3);
                    reveal_with_fuel(link_nodes, 3);
                    reveal_with_fuel(link_keys, 3);
                    let n2 = tree.nodes@;
                    assert(wf_link(n2, Some(new_idx), None, None, None, n2.len() as nat));
                    assert(tree.key_set() =~= old(tree).key_set().insert(value as int));
                    assert(tree.node_set() =~= old(tree).node_set().insert(new_idx as int));
                }
            },
            Some(r) => {
                proof {
                    let n1 = old(tree).nodes@;
                    let n2 = tree.nodes@;
                    let len1 = n1.len() as nat;
                    lemma_link_basics(n1, Some(r), None, None, None, len1);
                    lemma_frame(n1, n2, Some(r), None, None, None, len1);
                }
                let ghost n2p = tree.nodes@;
                Self::insert_at(
                    &mut tree.nodes,
                    r,
                    new_idx,
                    value,
                    Ghost(None),
                    Ghost(None),
                    Ghost(None),
                    Ghost(old(tree).nodes@.len() as nat),
                );
                proof {
                    let n1 = old(tree).nodes@;
                    let n3 = tree.nodes@;
                    let len1 = n1.len() as nat;
                    assert(tree.wf());
                    assert(tree.key_set() == old(tree).key_set().insert(value as int));
                    assert(tree.node_set() == old(tree).node_set().insert(new_idx as int));
                    lemma_frame(n1, n2p, Some(r), None, None, None, len1);
                    lemma_link_basics(n1, Some(r), None, None, None, len1);
                    let a = choose|a: usize|
                        {
                            &&& #[trigger] link_nodes(n2p, Some(r), len1).contains(a as int)
                            &&& n3[new_idx as int].parent == Some(a)
                            &&& n2p[a as int].key is Some
                            &&& (if (value as int) < n2p[a as int].key.unwrap() as int {
                                n2p[a as int].left is None && n3[a as int].left == Some(new_idx)
                                    && n3[a as int].right == n2p[a as int].right
                            } else {
                                n2p[a as int].right is None && n3[a as int].right == Some(new_idx)
                                    && n3[a as int].left == n2p[a as int].left
                            })
                            &&& n3[a as int].key == n2p[a as int].key
                            &&& n3[a as int].parent == n2p[a as int].parent
                            &&& forall|t: int|
                                0 <= t < n2p.len() && t != a as int && t != new_idx ==> n3[t]
                                    == n2p[t]
                        };
                    assert(link_nodes(n1, Some(r), len1).contains(a as int));
                    assert((a as int) < n1.len());
                    assert(n2p[a as int] == n1[a as int]);
                    assert(exists|a2: usize|
                        {
                            let c = n1.len() as int;
                            &&& #[trigger] old(tree).node_set().contains(a2 as int)
                            &&& n3[c].parent == Some(a2)
                            &&& n1[a2 as int].key is Some
                            &&& (if (value as int) < n1[a2 as int].key.unwrap() as int {
                                n1[a2 as int].left is None && n3[a2 as int].left == Some(
                                    n1.len() as usize,
                                ) && n3[a2 as int].right == n1[a2 as int].right
                            } else {
                                n1[a2 as int].right is None && n3[a2 as int].right == Some(
                                    n1.len() as usize,
                                ) && n3[a2 as int].left == n1[a2 as int].left
                            })
                            &&& n3[a2 as int].key == n1[a2 as int].key
                            &&& n3[a2 as int].parent == n1[a2 as int].parent
                            &&& forall|t: int|
                                0 <= t < n1.len() && t != a2 as int ==> n3[t] == n1[t]
                        });
                }
            },
        }
        proof {
            if old(tree).distinct_keys() && !old(tree).key_set().contains(value as int) {
                let n1 = old(tree).nodes@;
                let len1 = n1.len() as nat;
                lemma_link_basics(n1, old(tree).root, None, None, None, len1);
                assert forall|j1: int, j2: int|
                    tree.node_set().contains(j1) && tree.node_set().contains(j2) && j1 != j2
                    implies tree.nodes@[j1].key != tree.nodes@[j2].key by {
                    if j1 == new_idx as int {
                        assert(old(tree).node_set().contains(j2));
                        assert(old(tree).key_set().contains(n1[j2].key.unwrap() as int));
                    } else if j2 == new_idx as int {
                        assert(old(tree).node_set().contains(j1));
                        assert(old(tree).key_set().contains(n1[j1].key.unwrap() as int));
                    } else {
                        assert(old(tree).node_set().contains(j1));
                        assert(old(tree).node_set().contains(j2));
                    }
                };
            }
        }
    }
}

} // verus!
