//! Lemmas about the specification model, and the public laws the tree
//! obeys (ordering and back-reference consistency).

use vstd::prelude::*;

use crate::arena::Bst;
use crate::arena::BstNode;
use crate::arena::key_in_range;
use crate::arena::key_strictly_inside;
use crate::arena::link_depth;
use crate::arena::link_keys;
use crate::arena::link_nodes;
use crate::arena::wf_link;

verus! {

/// A well-formed subtree keeps its shape and sets when the fuel grows.
pub proof fn lemma_fuel_mono(
    nodes: Seq<BstNode>,
    link: Option<usize>,
    parent: Option<usize>,
    lo: Option<int>,
    hi: Option<int>,
    f1: nat,
    f2: nat,
)
    requires
        wf_link(nodes, link, parent, lo, hi, f1),
        f1 <= f2,
    ensures
        wf_link(nodes, link, parent, lo, hi, f2),
        link_nodes(nodes, link, f2) == link_nodes(nodes, link, f1),
        link_keys(nodes, link, f2) == link_keys(nodes, link, f1),
    decreases f1,
{
    match link {
        None => {
            assert(link_nodes(nodes, link, f2) =~= link_nodes(nodes, link, f1));
            assert(link_keys(nodes, link, f2) =~= link_keys(nodes, link, f1));
        },
        Some(i) => {
            let n = nodes[i as int];
            lemma_fuel_mono(nodes, n.left, Some(i), lo, Some(n.key.unwrap() as int), (f1 - 1) as nat, (f2 - 1) as nat);
            lemma_fuel_mono(nodes, n.right, Some(i), Some(n.key.unwrap() as int), hi, (f1 - 1) as nat, (f2 - 1) as nat);
            assert(link_nodes(nodes, link, f2) =~= link_nodes(nodes, link, f1));
            assert(link_keys(nodes, link, f2) =~= link_keys(nodes, link, f1));
        },
    }
}

/// A well-formed subtree only reads the slots it reaches: any arena that
/// agrees on those slots carries the same subtree.
pub proof fn lemma_frame(
    nodes1: Seq<BstNode>,
    nodes2: Seq<BstNode>,
    link: Option<usize>,
    parent: Option<usize>,
    lo: Option<int>,
    hi: Option<int>,
    f: nat,
)
    requires
        wf_link(nodes1, link, parent, lo, hi, f),
        nodes1.len() <= nodes2.len(),
        forall|j: int| link_nodes(nodes1, link, f).contains(j) ==> nodes2[j] == nodes1[j],
    ensures
        wf_link(nodes2, link, parent, lo, hi, f),
        link_nodes(nodes2, link, f) == link_nodes(nodes1, link, f),
        link_keys(nodes2, link, f) == link_keys(nodes1, link, f),
    decreases f,
{
    match link {
        None => {
            assert(link_nodes(nodes2, link, f) =~= link_nodes(nodes1, link, f));
            assert(link_keys(nodes2, link, f) =~= link_keys(nodes1, link, f));
        },
        Some(i) => {
            let n = nodes1[i as int];
            assert(link_nodes(nodes1, link, f).contains(i as int));
            assert(forall|j: int|
                link_nodes(nodes1, n.left, (f - 1) as nat).contains(j)
                    ==> link_nodes(nodes1, link, f).contains(j));
            assert(forall|j: int|
                link_nodes(nodes1, n.right, (f - 1) as nat).contains(j)
                    ==> link_nodes(nodes1, link, f).contains(j));
            lemma_frame(nodes1, nodes2, n.left, Some(i), lo, Some(n.key.unwrap() as int), (f - 1) as nat);
            lemma_frame(nodes1, nodes2, n.right, Some(i), Some(n.key.unwrap() as int), hi, (f - 1) as nat);
            assert(link_nodes(nodes2, link, f) =~= link_nodes(nodes1, link, f));
            assert(link_keys(nodes2, link, f) =~= link_keys(nodes1, link, f));
        },
    }
}

/// Every key of a well-formed subtree lies in its window, every index it
/// reaches is a valid arena slot, and every reached node holds a key that
/// the subtree's key set contains.
pub proof fn lemma_link_basics(
    nodes: Seq<BstNode>,
    link: Option<usize>,
    parent: Option<usize>,
    lo: Option<int>,
    hi: Option<int>,
    f: nat,
)
    requires
        wf_link(nodes, link, parent, lo, hi, f),
    ensures
        forall|k: int| #[trigger] link_keys(nodes, link, f).contains(k) ==> key_in_range(k, lo, hi),
        forall|j: int| #[trigger] link_nodes(nodes, link, f).contains(j) ==> 0 <= j < nodes.len(),
        forall|j: int|
            #[trigger] link_nodes(nodes, link, f).contains(j)
                ==> nodes[j].key is Some && link_keys(nodes, link, f).contains(
                nodes[j].key.unwrap() as int,
            ),
    decreases f,
{
    match link {
        None => {},
        Some(i) => {
            let n = nodes[i as int];
            let k = n.key.unwrap() as int;
            lemma_link_basics(nodes, n.left, Some(i), lo, Some(k), (f - 1) as nat);
            lemma_link_basics(nodes, n.right, Some(i), Some(k), hi, (f - 1) as nat);
            assert forall|kk: int| link_keys(nodes, link, f).contains(kk) implies key_in_range(
                kk,
                lo,
                hi,
            ) by {
                if kk != k {
                    if link_keys(nodes, n.left, (f - 1) as nat).contains(kk) {
                        assert(key_in_range(kk, lo, Some(k)));
                    } else {
                        assert(link_keys(nodes, n.right, (f - 1) as nat).contains(kk));
                        assert(key_in_range(kk, Some(k), hi));
                    }
                }
            };
        },
    }
}

/// Any node a well-formed link reaches roots a well-formed subtree of its
/// own, in some window, whose sets are contained in the link's.
pub proof fn lemma_subtree_wf(
    nodes: Seq<BstNode>,
    link: Option<usize>,
    parent: Option<usize>,
    lo: Option<int>,
    hi: Option<int>,
    f: nat,
    i: usize,
)
    requires
        wf_link(nodes, link, parent, lo, hi, f),
        link_nodes(nodes, link, f).contains(i as int),
    ensures
        exists|lo2: Option<int>, hi2: Option<int>|
            #[trigger] wf_link(nodes, Some(i), nodes[i as int].parent, lo2, hi2, f),
        link_nodes(nodes, Some(i), f).subset_of(link_nodes(nodes, link, f)),
        link_keys(nodes, Some(i), f).subset_of(link_keys(nodes, link, f)),
    decreases f,
{
    let r = link.unwrap();
    let n = nodes[r as int];
    let k = n.key.unwrap() as int;
    if i == r {
        assert(nodes[i as int].parent == parent);
        assert(wf_link(nodes, Some(i), nodes[i as int].parent, lo, hi, f));
    } else if link_nodes(nodes, n.left, (f - 1) as nat).contains(i as int) {
        lemma_subtree_wf(nodes, n.left, Some(r), lo, Some(k), (f - 1) as nat, i);
        let (lo2, hi2) = choose|lo2: Option<int>, hi2: Option<int>|
            #[trigger] wf_link(nodes, Some(i), nodes[i as int].parent, lo2, hi2, (f - 1) as nat);
        lemma_fuel_mono(nodes, Some(i), nodes[i as int].parent, lo2, hi2, (f - 1) as nat, f);
        lemma_fuel_mono(nodes, n.left, Some(r), lo, Some(k), (f - 1) as nat, f);
    } else {
        assert(link_nodes(nodes, n.right, (f - 1) as nat).contains(i as int));
        lemma_subtree_wf(nodes, n.right, Some(r), Some(k), hi, (f - 1) as nat, i);
        let (lo2, hi2) = choose|lo2: Option<int>, hi2: Option<int>|
            #[trigger] wf_link(nodes, Some(i), nodes[i as int].parent, lo2, hi2, (f - 1) as nat);
        lemma_fuel_mono(nodes, Some(i), nodes[i as int].parent, lo2, hi2, (f - 1) as nat, f);
        lemma_fuel_mono(nodes, n.right, Some(r), Some(k), hi, (f - 1) as nat, f);
    }
}

/// Any node a well-formed link reaches sits at a position whose window
/// captures its keys exactly: a key of the wider subtree that lies
/// strictly inside the position's window belongs to the position's own
/// subtree.  This is what makes local reasoning global: keys outside a
/// position's subtree lie on or outside its window bounds.
pub proof fn lemma_position_window(
    nodes: Seq<BstNode>,
    link: Option<usize>,
    parent: Option<usize>,
    lo: Option<int>,
    hi: Option<int>,
    f: nat,
    i: usize,
)
    requires
        wf_link(nodes, link, parent, lo, hi, f),
        link_nodes(nodes, link, f).contains(i as int),
    ensures
        exists|lo2: Option<int>, hi2: Option<int>|
            {
                &&& #[trigger] wf_link(nodes, Some(i), nodes[i as int].parent, lo2, hi2, f)
                &&& forall|y: int|
                    #[trigger] key_strictly_inside(y, lo2, hi2) ==> key_in_range(y, lo, hi)
                &&& forall|y: int|
                    #[trigger] link_keys(nodes, link, f).contains(y) && key_strictly_inside(
                        y,
                        lo2,
                        hi2,
                    ) ==> link_keys(nodes, Some(i), f).contains(y)
                &&& (lo2 == lo || (lo2 is Some && link_keys(nodes, link, f).contains(
                    lo2.unwrap(),
                )))
            },
    decreases f,
{
    let r = link.unwrap();
    let n = nodes[r as int];
    let k = n.key.unwrap() as int;
    let fm = (f - 1) as nat;
    if i == r {
        assert({
            &&& wf_link(nodes, Some(i), nodes[i as int].parent, lo, hi, f)
            &&& forall|y: int|
                #[trigger] key_strictly_inside(y, lo, hi) ==> key_in_range(y, lo, hi)
            &&& forall|y: int|
                #[trigger] link_keys(nodes, link, f).contains(y) && key_strictly_inside(y, lo, hi)
                    ==> link_keys(nodes, Some(i), f).contains(y)
            &&& (lo == lo || (lo is Some && link_keys(nodes, link, f).contains(lo.unwrap())))
        });
    } else if link_nodes(nodes, n.left, fm).contains(i as int) {
        lemma_position_window(nodes, n.left, Some(r), lo, Some(k), fm, i);
        let (lo2, hi2) = choose|lo2: Option<int>, hi2: Option<int>|
            {
                &&& #[trigger] wf_link(nodes, Some(i), nodes[i as int].parent, lo2, hi2, fm)
                &&& forall|y: int|
                    #[trigger] key_strictly_inside(y, lo2, hi2) ==> key_in_range(y, lo, Some(k))
                &&& forall|y: int|
                    #[trigger] link_keys(nodes, n.left, fm).contains(y) && key_strictly_inside(
                        y,
                        lo2,
                        hi2,
                    ) ==> link_keys(nodes, Some(i), fm).contains(y)
                &&& (lo2 == lo || (lo2 is Some && link_keys(nodes, n.left, fm).contains(
                    lo2.unwrap(),
                )))
            };
        lemma_fuel_mono(nodes, Some(i), nodes[i as int].parent, lo2, hi2, fm, f);
        lemma_link_basics(nodes, n.left, Some(r), lo, Some(k), fm);
        lemma_link_basics(nodes, n.right, Some(r), Some(k), hi, fm);
        assert forall|y: int|
            #[trigger] link_keys(nodes, link, f).contains(y) && key_strictly_inside(y, lo2, hi2)
            implies link_keys(nodes, Some(i), f).contains(y) by {
            assert(key_in_range(y, lo, Some(k)));
            assert(y != k);
            assert(!link_keys(nodes, n.right, fm).contains(y));
            assert(link_keys(nodes, n.left, fm).contains(y));
            assert(link_keys(nodes, Some(i), fm).contains(y));
        };
        assert({
            &&& wf_link(nodes, Some(i), nodes[i as int].parent, lo2, hi2, f)
            &&& forall|y: int|
                #[trigger] key_strictly_inside(y, lo2, hi2) ==> key_in_range(y, lo, hi)
            &&& forall|y: int|
                #[trigger] link_keys(nodes, link, f).contains(y) && key_strictly_inside(
                    y,
                    lo2,
                    hi2,
                ) ==> link_keys(nodes, Some(i), f).contains(y)
            &&& (lo2 == lo || (lo2 is Some && link_keys(nodes, link, f).contains(lo2.unwrap())))
        });
    } else {
        assert(link_nodes(nodes, n.right, fm).contains(i as int));
        lemma_position_window(nodes, n.right, Some(r), Some(k), hi, fm, i);
        let (lo2, hi2) = choose|lo2: Option<int>, hi2: Option<int>|
            {
                &&& #[trigger] wf_link(nodes, Some(i), nodes[i as int].parent, lo2, hi2, fm)
                &&& forall|y: int|
                    #[trigger] key_strictly_inside(y, lo2, hi2) ==> key_in_range(y, Some(k), hi)
                &&& forall|y: int|
                    #[trigger] link_keys(nodes, n.right, fm).contains(y) && key_strictly_inside(
                        y,
                        lo2,
                        hi2,
                    ) ==> link_keys(nodes, Some(i), fm).contains(y)
                &&& (lo2 == Some(k) || (lo2 is Some && link_keys(nodes, n.right, fm).contains(
                    lo2.unwrap(),
                )))
            };
        lemma_fuel_mono(nodes, Some(i), nodes[i as int].parent, lo2, hi2, fm, f);
        lemma_link_basics(nodes, n.left, Some(r), lo, Some(k), fm);
        lemma_link_basics(nodes, n.right, Some(r), Some(k), hi, fm);
        assert(lo2 is Some && k <= lo2.unwrap());
        assert forall|y: int|
            #[trigger] link_keys(nodes, link, f).contains(y) && key_strictly_inside(y, lo2, hi2)
            implies link_keys(nodes, Some(i), f).contains(y) by {
            assert(key_in_range(y, Some(k), hi));
            assert(y != k);
            assert(!link_keys(nodes, n.left, fm).contains(y));
            assert(link_keys(nodes, n.right, fm).contains(y));
            assert(link_keys(nodes, Some(i), fm).contains(y));
        };
        assert({
            &&& wf_link(nodes, Some(i), nodes[i as int].parent, lo2, hi2, f)
            &&& forall|y: int|
                #[trigger] key_strictly_inside(y, lo2, hi2) ==> key_in_range(y, lo, hi)
            &&& forall|y: int|
                #[trigger] link_keys(nodes, link, f).contains(y) && key_strictly_inside(
                    y,
                    lo2,
                    hi2,
                ) ==> link_keys(nodes, Some(i), f).contains(y)
            &&& (lo2 == lo || (lo2 is Some && link_keys(nodes, link, f).contains(lo2.unwrap())))
        });
    }
}

/// A well-formed subtree stays well formed in any wider window.
pub proof fn lemma_widen(
    nodes: Seq<BstNode>,
    link: Option<usize>,
    parent: Option<usize>,
    lo: Option<int>,
    hi: Option<int>,
    lo2: Option<int>,
    hi2: Option<int>,
    f: nat,
)
    requires
        wf_link(nodes, link, parent, lo, hi, f),
        lo2 is Some ==> lo is Some && lo2.unwrap() <= lo.unwrap(),
        hi2 is Some ==> hi is Some && hi.unwrap() <= hi2.unwrap(),
    ensures
        wf_link(nodes, link, parent, lo2, hi2, f),
    decreases f,
{
    match link {
        None => {},
        Some(i) => {
            let n = nodes[i as int];
            let k = n.key.unwrap() as int;
            lemma_widen(nodes, n.left, Some(i), lo, Some(k), lo2, Some(k), (f - 1) as nat);
            lemma_widen(nodes, n.right, Some(i), Some(k), hi, Some(k), hi2, (f - 1) as nat);
        },
    }
}

/// The lower bound of a subtree's window can be raised to any value that
/// still sits below all of its keys.
pub proof fn lemma_raise_lo(
    nodes: Seq<BstNode>,
    link: Option<usize>,
    parent: Option<usize>,
    lo: Option<int>,
    hi: Option<int>,
    f: nat,
    lo2: int,
)
    requires
        wf_link(nodes, link, parent, lo, hi, f),
        forall|k: int| link_keys(nodes, link, f).contains(k) ==> lo2 <= k,
    ensures
        wf_link(nodes, link, parent, Some(lo2), hi, f),
    decreases f,
{
    match link {
        None => {},
        Some(i) => {
            let n = nodes[i as int];
            let k = n.key.unwrap() as int;
            assert(link_keys(nodes, link, f).contains(k));
            let fm = (f - 1) as nat;
            assert forall|kk: int| link_keys(nodes, n.left, fm).contains(kk) implies lo2 <= kk by {
                assert(link_keys(nodes, link, f).contains(kk));
            };
            lemma_raise_lo(nodes, n.left, Some(i), lo, Some(k), fm, lo2);
        },
    }
}

/// Walking one step up from any non-root node of a well-formed subtree:
/// the back-reference resolves, lands inside the subtree, sits one level
/// higher, and owns the node through `left` or `right`.
pub proof fn lemma_parent_step(
    nodes: Seq<BstNode>,
    link: Option<usize>,
    parent: Option<usize>,
    lo: Option<int>,
    hi: Option<int>,
    f: nat,
    i: usize,
)
    requires
        wf_link(nodes, link, parent, lo, hi, f),
        link_nodes(nodes, link, f).contains(i as int),
    ensures
        link == Some(i) ==> nodes[i as int].parent == parent && link_depth(
            nodes,
            link,
            i as int,
            f,
        ) == 0,
        link != Some(i) ==> {
            &&& nodes[i as int].parent is Some
            &&& link_nodes(nodes, link, f).contains(nodes[i as int].parent.unwrap() as int)
            &&& link_depth(nodes, link, i as int, f) == link_depth(
                nodes,
                link,
                nodes[i as int].parent.unwrap() as int,
                f,
            ) + 1
            &&& (nodes[nodes[i as int].parent.unwrap() as int].left == Some(i)
                || nodes[nodes[i as int].parent.unwrap() as int].right == Some(i))
        },
    decreases f,
{
    let r = link.unwrap();
    let n = nodes[r as int];
    let k = n.key.unwrap() as int;
    if i != r {
        if link_nodes(nodes, n.left, (f - 1) as nat).contains(i as int) {
            lemma_parent_step(nodes, n.left, Some(r), lo, Some(k), (f - 1) as nat, i);
            let q = nodes[i as int].parent.unwrap();
            if n.left != Some(i) {
                assert(link_nodes(nodes, n.left, (f - 1) as nat).contains(q as int));
                assert(q != r);
                assert(!link_nodes(nodes, n.right, (f - 1) as nat).contains(q as int));
            }
        } else {
            assert(link_nodes(nodes, n.right, (f - 1) as nat).contains(i as int));
            lemma_parent_step(nodes, n.right, Some(r), Some(k), hi, (f - 1) as nat, i);
            let q = nodes[i as int].parent.unwrap();
            if n.right != Some(i) {
                assert(link_nodes(nodes, n.right, (f - 1) as nat).contains(q as int));
                assert(q != r);
                assert(!link_nodes(nodes, n.left, (f - 1) as nat).contains(q as int));
            }
        }
    }
}

/// Every key of a well-formed subtree is carried by one of its nodes,
/// so a tree's key set is exactly the keys of its node set.
pub proof fn lemma_keys_are_node_keys(
    nodes: Seq<BstNode>,
    link: Option<usize>,
    parent: Option<usize>,
    lo: Option<int>,
    hi: Option<int>,
    f: nat,
)
    requires
        wf_link(nodes, link, parent, lo, hi, f),
    ensures
        forall|kk: int|
            #[trigger] link_keys(nodes, link, f).contains(kk) ==> exists|j: int|
                #[trigger] link_nodes(nodes, link, f).contains(j) && nodes[j].key is Some
                    && nodes[j].key.unwrap() as int == kk,
    decreases f,
{
    match link {
        None => {},
        Some(i) => {
            let n = nodes[i as int];
            let k = n.key.unwrap() as int;
            let fm = (f - 1) as nat;
            lemma_keys_are_node_keys(nodes, n.left, Some(i), lo, Some(k), fm);
            lemma_keys_are_node_keys(nodes, n.right, Some(i), Some(k), hi, fm);
            assert forall|kk: int| #[trigger] link_keys(nodes, link, f).contains(kk)
                implies exists|j: int|
                #[trigger] link_nodes(nodes, link, f).contains(j) && nodes[j].key is Some
                    && nodes[j].key.unwrap() as int == kk by {
                if kk == k {
                    assert(link_nodes(nodes, link, f).contains(i as int) && nodes[i as int].key
                        is Some && nodes[i as int].key.unwrap() as int == kk);
                } else if link_keys(nodes, n.left, fm).contains(kk) {
                    let j = choose|j: int|
                        #[trigger] link_nodes(nodes, n.left, fm).contains(j) && nodes[j].key
                            is Some && nodes[j].key.unwrap() as int == kk;
                    assert(link_nodes(nodes, link, f).contains(j) && nodes[j].key is Some
                        && nodes[j].key.unwrap() as int == kk);
                } else {
                    assert(link_keys(nodes, n.right, fm).contains(kk));
                    let j = choose|j: int|
                        #[trigger] link_nodes(nodes, n.right, fm).contains(j) && nodes[j].key
                            is Some && nodes[j].key.unwrap() as int == kk;
                    assert(link_nodes(nodes, link, f).contains(j) && nodes[j].key is Some
                        && nodes[j].key.unwrap() as int == kk);
                }
            };
        },
    }
}

/// The root of a non-empty well-formed tree is one of its nodes.
pub proof fn lemma_root_in_tree(t: Bst)
    requires
        t.wf(),
        t.root is Some,
    ensures
        t.in_tree(t.root.unwrap()),
{
}

/// Facts about one node of a well-formed tree: its slot is valid, it
/// holds a key the tree's key set contains, and its children (when
/// present) are nodes of the tree.
pub proof fn lemma_node_facts(t: Bst, j: usize)
    requires
        t.wf(),
        t.in_tree(j),
    ensures
        j < t.nodes@.len(),
        t.nodes@[j as int].key is Some,
        t.key_set().contains(t.node_key(j)),
        t.nodes@[j as int].left is Some ==> t.in_tree(t.nodes@[j as int].left.unwrap()),
        t.nodes@[j as int].right is Some ==> t.in_tree(t.nodes@[j as int].right.unwrap()),
{
    let nodes = t.nodes@;
    let len = nodes.len() as nat;
    lemma_link_basics(nodes, t.root, None, None, None, len);
    lemma_subtree_wf(nodes, t.root, None, None, None, len, j);
    let (lo, hi) = choose|lo: Option<int>, hi: Option<int>|
        #[trigger] wf_link(nodes, Some(j), nodes[j as int].parent, lo, hi, len);
    let n = nodes[j as int];
    let fm = (len - 1) as nat;
    if n.left is Some {
        let l = n.left.unwrap();
        assert(wf_link(nodes, n.left, Some(j), lo, Some(n.key.unwrap() as int), fm));
        assert(link_nodes(nodes, n.left, fm).contains(l as int));
        assert(link_nodes(nodes, Some(j), len).contains(l as int));
    }
    if n.right is Some {
        let r = n.right.unwrap();
        assert(wf_link(nodes, n.right, Some(j), Some(n.key.unwrap() as int), hi, fm));
        assert(link_nodes(nodes, n.right, fm).contains(r as int));
        assert(link_nodes(nodes, Some(j), len).contains(r as int));
    }
}

/// Law: binary-search-tree ordering.  In a well-formed tree, every key
/// in a node's left subtree is strictly below the node's key, and every
/// key in its right subtree is greater or equal (equal keys are routed
/// right).  `tree_insert` and `delete` keep `wf`, so this holds after
/// every mutation.
pub proof fn lemma_bst_ordering(t: Bst, i: usize)
    requires
        t.wf(),
        t.in_tree(i),
    ensures
        t.nodes@[i as int].key is Some,
        forall|y: int|
            link_keys(t.nodes@, t.nodes@[i as int].left, t.nodes@.len() as nat).contains(y)
                ==> y < t.node_key(i),
        forall|y: int|
            link_keys(t.nodes@, t.nodes@[i as int].right, t.nodes@.len() as nat).contains(y)
                ==> t.node_key(i) <= y,
{
    let nodes = t.nodes@;
    let len = nodes.len() as nat;
    lemma_subtree_wf(nodes, t.root, None, None, None, len, i);
    let (lo, hi) = choose|lo: Option<int>, hi: Option<int>|
        #[trigger] wf_link(nodes, Some(i), nodes[i as int].parent, lo, hi, len);
    let n = nodes[i as int];
    let k = n.key.unwrap() as int;
    let fm = (len - 1) as nat;
    assert(wf_link(nodes, Some(i), n.parent, lo, hi, len));
    assert(wf_link(nodes, n.left, Some(i), lo, Some(k), fm));
    lemma_link_basics(nodes, n.left, Some(i), lo, Some(k), fm);
    lemma_link_basics(nodes, n.right, Some(i), Some(k), hi, fm);
    lemma_fuel_mono(nodes, n.left, Some(i), lo, Some(k), fm, len);
    lemma_fuel_mono(nodes, n.right, Some(i), Some(k), hi, fm, len);
    assert forall|y: int| link_keys(nodes, n.left, len).contains(y) implies y < k by {
        assert(link_keys(nodes, n.left, fm).contains(y));
    };
    assert forall|y: int| link_keys(nodes, n.right, len).contains(y) implies k <= y by {
        assert(link_keys(nodes, n.right, fm).contains(y));
    };
}

/// Law: back-reference consistency.  Every non-root node of a
/// well-formed tree has a parent back-reference that resolves to a node
/// of the tree which owns it through `left` or `right`.  `tree_insert`
/// and `delete` keep `wf`, so this holds after every mutation.
pub proof fn lemma_back_reference(t: Bst, i: usize)
    requires
        t.wf(),
        t.in_tree(i),
        t.root != Some(i),
    ensures
        t.nodes@[i as int].parent is Some,
        t.in_tree(t.nodes@[i as int].parent.unwrap()),
        t.nodes@[t.nodes@[i as int].parent.unwrap() as int].left == Some(i)
            || t.nodes@[t.nodes@[i as int].parent.unwrap() as int].right == Some(i),
{
    lemma_parent_step(t.nodes@, t.root, None, None, None, t.nodes@.len() as nat, i);
}

/// Law: round trip.  A key just added to a tree's key set is found in
/// it, and a key never added is not; together with the contracts of
/// `tree_insert` (the key set grows by the inserted key) and
/// `tree_search` (a key is found exactly when the key set holds it) this
/// says that inserted keys are found and absent keys are reported absent.
pub proof fn lemma_round_trip(keys: Set<int>, inserted: int, other: int)
    ensures
        keys.insert(inserted).contains(inserted),
        !keys.contains(other) && other != inserted ==> !keys.insert(inserted).contains(other),
{
}

} // verus!
